use web_app::index::{Slot, TimestampIndex};
use web_app::{LogEntry, LogError, LogStore, StoreInfo};

fn store_of(stamps: &[(u64, &str)]) -> LogStore {
    let mut store = LogStore::new();
    for (t, p) in stamps {
        assert_eq!(store.append(LogEntry::new(*t, p)), Ok(()));
    }
    store
}

fn stamps(entries: &[LogEntry]) -> Vec<(u64, String)> {
    entries.iter().map(|e| (e.timestamp, e.payload.clone())).collect()
}

#[test]
fn append_then_get_round_trip() {
    let mut store = LogStore::new();
    assert_eq!(store.append(LogEntry::new(42, "answer")), Ok(()));
    assert_eq!(store.get(42), Some(LogEntry::new(42, "answer")));
    assert_eq!(store.len(), 1);
}

#[test]
fn get_of_absent_timestamp_is_none() {
    let store = store_of(&[(10, "a"), (20, "b")]);
    assert_eq!(store.get(15), None);
    assert_eq!(store.get(0), None);
    assert_eq!(store.get(u64::MAX), None);
    assert_eq!(LogStore::new().get(5), None);
}

#[test]
fn get_of_shared_timestamp_gives_first_appended() {
    let store = store_of(&[(7, "first"), (3, "x"), (7, "second"), (7, "third")]);
    assert_eq!(store.get(7), Some(LogEntry::new(7, "first")));
    assert_eq!(store.get(3), Some(LogEntry::new(3, "x")));
}

#[test]
fn scan_is_in_ascending_order() {
    let store = store_of(&[(30, "c"), (10, "a"), (20, "b"), (5, "z"), (25, "y")]);
    let found = store.scan(10, 30);
    assert_eq!(
        stamps(&found),
        vec![
            (10, "a".to_string()),
            (20, "b".to_string()),
            (25, "y".to_string()),
            (30, "c".to_string())
        ]
    );
}

#[test]
fn scan_bounds_are_inclusive() {
    let store = store_of(&[(10, "a"), (20, "b"), (30, "c")]);
    assert_eq!(store.scan(10, 30).len(), 3);
    assert_eq!(store.scan(11, 29).len(), 1);
    assert_eq!(store.scan(20, 20), vec![LogEntry::new(20, "b")]);
    assert_eq!(store.scan(0, 9).len(), 0);
    assert_eq!(store.scan(31, u64::MAX).len(), 0);
    assert_eq!(store.scan(0, u64::MAX).len(), 3);
}

#[test]
fn scan_of_reversed_range_is_empty() {
    let store = store_of(&[(10, "a"), (20, "b"), (30, "c")]);
    assert_eq!(store.scan(30, 10), Vec::<LogEntry>::new());
    assert_eq!(store.scan(21, 20), Vec::<LogEntry>::new());
    assert_eq!(store.scan(u64::MAX, 0), Vec::<LogEntry>::new());
}

#[test]
fn scan_breaks_ties_by_insertion_order() {
    let store = store_of(&[(5, "one"), (9, "late"), (5, "two"), (1, "early"), (5, "three")]);
    assert_eq!(
        stamps(&store.scan(0, 100)),
        vec![
            (1, "early".to_string()),
            (5, "one".to_string()),
            (5, "two".to_string()),
            (5, "three".to_string()),
            (9, "late".to_string())
        ]
    );
    assert_eq!(
        stamps(&store.scan(5, 5)),
        vec![(5, "one".to_string()), (5, "two".to_string()), (5, "three".to_string())]
    );
}

#[test]
fn scan_twice_gives_the_same() {
    let store = store_of(&[(3, "c"), (1, "a"), (2, "b"), (2, "bb")]);
    let first = store.scan(1, 3);
    let second = store.scan(1, 3);
    assert_eq!(first, second);
    assert_eq!(first.len(), 4);
}

#[test]
fn scan_of_empty_store_is_empty() {
    assert_eq!(LogStore::new().scan(0, u64::MAX), Vec::<LogEntry>::new());
}

#[test]
fn info_of_empty_store() {
    let store = LogStore::new();
    assert_eq!(store.info(), StoreInfo { count: 0, min_timestamp: None, max_timestamp: None });
}

#[test]
fn info_after_appends() {
    let store = store_of(&[(30, "c"), (10, "a"), (20, "b"), (10, "d")]);
    assert_eq!(
        store.info(),
        StoreInfo { count: 4, min_timestamp: Some(10), max_timestamp: Some(30) }
    );
    let one = store_of(&[(77, "only")]);
    assert_eq!(one.info(), StoreInfo { count: 1, min_timestamp: Some(77), max_timestamp: Some(77) });
}

#[test]
fn info_follows_every_append() {
    let mut store = LogStore::new();
    let stamps: [u64; 6] = [50, 70, 20, 20, 90, 0];
    let mut lo = u64::MAX;
    let mut hi = 0;
    for (n, t) in stamps.iter().enumerate() {
        assert_eq!(store.append(LogEntry::new(*t, "p")), Ok(()));
        lo = lo.min(*t);
        hi = hi.max(*t);
        assert_eq!(
            store.info(),
            StoreInfo { count: n + 1, min_timestamp: Some(lo), max_timestamp: Some(hi) }
        );
    }
}

#[test]
fn full_store_refuses_an_entry() {
    let mut store = LogStore::with_limit(2);
    assert_eq!(store.append(LogEntry::new(1, "a")), Ok(()));
    assert_eq!(store.append(LogEntry::new(2, "b")), Ok(()));
    assert_eq!(store.append(LogEntry::new(3, "c")), Err(LogError::StorageError));
    assert_eq!(store.len(), 2);
    assert_eq!(store.get(3), None);
    assert_eq!(store.scan(0, 10).len(), 2);
    assert_eq!(store.info(), StoreInfo { count: 2, min_timestamp: Some(1), max_timestamp: Some(2) });
}

#[test]
fn store_without_room_refuses_the_first_entry() {
    let mut store = LogStore::with_limit(0);
    assert_eq!(store.append(LogEntry::new(1, "a")), Err(LogError::StorageError));
    assert_eq!(store.len(), 0);
}

#[test]
fn entry_clone_is_equal() {
    let e = LogEntry::new(9, "payload");
    assert_eq!(e.clone(), e);
    assert_eq!(e.timestamp, 9);
    assert_eq!(e.payload, "payload");
}

#[test]
fn index_orders_by_timestamp_then_place() {
    let mut index = TimestampIndex::new();
    assert_eq!(index.insert(20, 0), 0);
    assert_eq!(index.insert(10, 1), 0);
    assert_eq!(index.insert(20, 2), 2);
    assert_eq!(index.insert(15, 3), 1);
    assert_eq!(index.len(), 4);
    assert_eq!(index.slot(0), Slot { timestamp: 10, location: 1 });
    assert_eq!(index.slot(1), Slot { timestamp: 15, location: 3 });
    assert_eq!(index.slot(2), Slot { timestamp: 20, location: 0 });
    assert_eq!(index.slot(3), Slot { timestamp: 20, location: 2 });
    assert_eq!(index.lower_bound(20), 2);
    assert_eq!(index.lower_bound(0), 0);
    assert_eq!(index.lower_bound(21), 4);
    assert_eq!(index.place_of(20, 1), 3);
    assert_eq!(index.place_of(20, 7), 4);
    assert_eq!(index.place_of(0, 0), 0);
    assert_eq!(index.lookup_single(20), Some(0));
    assert_eq!(index.lookup_single(15), Some(3));
    assert_eq!(index.lookup_single(16), None);
    assert_eq!(index.lookup_range(11, 20), vec![3, 0, 2]);
    assert_eq!(index.lookup_range(20, 11), Vec::<usize>::new());
}

#[test]
fn many_entries_in_any_order() {
    let mut store = LogStore::new();
    let mut expected: Vec<(u64, usize)> = Vec::new();
    let mut x: u64 = 12345;
    for i in 0..500usize {
        x = x.wrapping_mul(6364136223846793005).wrapping_add(1442695040888963407);
        let t = (x >> 33) % 100;
        assert_eq!(store.append(LogEntry::new(t, &i.to_string())), Ok(()));
        expected.push((t, i));
    }
    expected.sort();
    let wanted: Vec<(u64, String)> = expected
        .iter()
        .filter(|(t, _)| 20 <= *t && *t <= 60)
        .map(|(t, i)| (*t, i.to_string()))
        .collect();
    assert_eq!(stamps(&store.scan(20, 60)), wanted);
    for t in 0..100u64 {
        let first = expected.iter().find(|(u, _)| *u == t).map(|(u, i)| LogEntry::new(*u, &i.to_string()));
        assert_eq!(store.get(t), first);
    }
}

#[test]
fn index_takes_slots_in_any_order() {
    let mut index = TimestampIndex::new();
    assert_eq!(index.insert(5, 9), 0);
    assert_eq!(index.insert(5, 3), 0);
    assert_eq!(index.insert(5, 6), 1);
    assert_eq!(index.insert(4, 8), 0);
    assert_eq!(index.len(), 4);
    assert_eq!(index.lookup_range(0, 10), vec![8, 3, 6, 9]);
    assert_eq!(index.lookup_single(5), Some(3));
}

#[test]
fn index_holds_a_slot_once() {
    let mut index = TimestampIndex::new();
    assert_eq!(index.insert(5, 1), 0);
    assert_eq!(index.insert(7, 2), 1);
    assert_eq!(index.insert(5, 1), 0);
    assert_eq!(index.insert(7, 2), 1);
    assert_eq!(index.len(), 2);
    assert_eq!(index.lookup_range(0, 10), vec![1, 2]);
}
