//! The log of entries and the queries that read it by timestamp.

use vstd::prelude::*;
use crate::decode::{entries_of_text, read_entries};
use crate::encode::{entries_text, text_of};
use crate::entry::{views, EntryView, LogEntry};
use crate::error::LogError;
use crate::index::{
    before, is_place_of, lemma_order_is_unique, locations, ordered, slots_within, Slot, TimestampIndex,
};

verus! {

/// `slots` with `slot` entered behind every slot stamped no later than it.
pub open spec fn insert_slot(slots: Seq<Slot>, slot: Slot) -> Seq<Slot>
    decreases slots.len(),
{
    if slots.len() == 0 || slots.last().timestamp <= slot.timestamp {
        slots.push(slot)
    } else {
        insert_slot(slots.drop_last(), slot).push(slots.last())
    }
}

/// The index that belongs to a log: the log is the source of truth, and its
/// index is what entering the entries one by one, in the order in which they
/// were appended, leaves.
pub open spec fn index_of(log: Seq<EntryView>) -> Seq<Slot>
    decreases log.len(),
{
    if log.len() == 0 {
        Seq::empty()
    } else {
        insert_slot(
            index_of(log.drop_last()),
            Slot { timestamp: log.last().timestamp, location: (log.len() - 1) as usize },
        )
    }
}

/// Some entry of `log` is stamped `timestamp`.
pub open spec fn has_timestamp(log: Seq<EntryView>, timestamp: u64) -> bool {
    exists|i: int| 0 <= i < log.len() && (#[trigger] log[i]).timestamp == timestamp
}

/// The entry at place `i` is the first of `log` that is stamped `timestamp`.
pub open spec fn is_first_at(log: Seq<EntryView>, timestamp: u64, i: int) -> bool {
    &&& 0 <= i < log.len()
    &&& log[i].timestamp == timestamp
    &&& forall|j: int| 0 <= j < i ==> (#[trigger] log[j]).timestamp != timestamp
}

/// What a point query finds: the entry stamped `timestamp`; where several
/// are, the one that was appended first; nothing where none is.
pub open spec fn entry_at(log: Seq<EntryView>, timestamp: u64) -> Option<EntryView> {
    if has_timestamp(log, timestamp) {
        Some(log[choose|i: int| is_first_at(log, timestamp, i)])
    } else {
        None
    }
}

/// What a range query finds: the entries stamped from `from` to `to`, both
/// included, by ascending timestamp, and among equal timestamps in the
/// order in which they were appended.
pub open spec fn scan_of(log: Seq<EntryView>, from: u64, to: u64) -> Seq<EntryView> {
    let found = slots_within(index_of(log), from, to);
    Seq::new(found.len(), |k: int| log[found[k].location as int])
}

/// The earliest timestamp of `log`; none where the log is empty.
pub open spec fn least_timestamp(log: Seq<EntryView>) -> Option<u64>
    decreases log.len(),
{
    if log.len() == 0 {
        None
    } else {
        let t = log.last().timestamp;
        match least_timestamp(log.drop_last()) {
            Some(m) => Some(if t < m { t } else { m }),
            None => Some(t),
        }
    }
}

/// The latest timestamp of `log`; none where the log is empty.
pub open spec fn greatest_timestamp(log: Seq<EntryView>) -> Option<u64>
    decreases log.len(),
{
    if log.len() == 0 {
        None
    } else {
        let t = log.last().timestamp;
        match greatest_timestamp(log.drop_last()) {
            Some(m) => Some(if t > m { t } else { m }),
            None => Some(t),
        }
    }
}

/// What is known of the store as a whole.
#[derive(Clone, Copy, Debug, PartialEq, Eq)]
pub struct StoreInfo {
    pub count: usize,
    pub min_timestamp: Option<u64>,
    pub max_timestamp: Option<u64>,
}

/// Entering a slot whose place in the log lies behind every place of the
/// index puts it at the position where it belongs in the order.
pub proof fn lemma_insert_slot_position(slots: Seq<Slot>, slot: Slot, p: int)
    requires
        is_place_of(slots, slot, p),
        forall|k: int| 0 <= k < slots.len() ==> (#[trigger] slots[k]).location < slot.location,
    ensures
        insert_slot(slots, slot) == slots.insert(p, slot),
        !slots.contains(slot),
    decreases slots.len(),
{
    if slots.len() == 0 {
        assert(slots.push(slot) =~= slots.insert(p, slot));
    } else if slots.last().timestamp <= slot.timestamp {
        assert(before(slots[slots.len() - 1], slot));
        assert(p == slots.len());
        assert(slots.push(slot) =~= slots.insert(p, slot));
    } else {
        let front = slots.drop_last();
        assert(!before(slots[slots.len() - 1], slot));
        assert(p < slots.len());
        assert forall|k: int| 0 <= k < front.len() implies (#[trigger] front[k]).location < slot.location by {
            assert(front[k] == slots[k]);
        }
        assert(is_place_of(front, slot, p)) by {
            assert forall|k: int| 0 <= k < p implies before(#[trigger] front[k], slot) by {
                assert(front[k] == slots[k]);
            }
            assert forall|k: int| p <= k < front.len() implies !before(#[trigger] front[k], slot) by {
                assert(front[k] == slots[k]);
            }
        }
        lemma_insert_slot_position(front, slot, p);
        assert(front.insert(p, slot).push(slots.last()) =~= slots.insert(p, slot));
    }
}

/// Entering a slot keeps the order and the slots that were there, and adds
/// the one slot.
pub proof fn lemma_insert_slot(slots: Seq<Slot>, slot: Slot)
    requires
        ordered(slots),
        forall|k: int|
            0 <= k < slots.len() && (#[trigger] slots[k]).timestamp == slot.timestamp ==> slots[k].location
                < slot.location,
    ensures
        insert_slot(slots, slot).len() == slots.len() + 1,
        ordered(insert_slot(slots, slot)),
        forall|s: Slot|
            #![trigger insert_slot(slots, slot).contains(s)]
            #![trigger slots.contains(s)]
            insert_slot(slots, slot).contains(s) <==> (slots.contains(s) || s == slot),
    decreases slots.len(),
{
    let r = insert_slot(slots, slot);
    if slots.len() == 0 || slots.last().timestamp <= slot.timestamp {
        assert(r == slots.push(slot));
        assert forall|i: int, j: int| 0 <= i < j < r.len() implies before(#[trigger] r[i], #[trigger] r[j]) by {
            if j < slots.len() {
                assert(before(slots[i], slots[j]));
            } else {
                let n = slots.len() as int;
                if i < n - 1 {
                    assert(before(slots[i], slots[n - 1]));
                }
                assert(r[i] == slots[i]);
            }
        }
        assert forall|s: Slot| r.contains(s) <==> (slots.contains(s) || s == slot) by {
            if r.contains(s) {
                let k = choose|k: int| 0 <= k < r.len() && r[k] == s;
                if k < slots.len() {
                    assert(slots[k] == s);
                }
            }
            if slots.contains(s) {
                let k = choose|k: int| 0 <= k < slots.len() && slots[k] == s;
                assert(r[k] == s);
            }
            if s == slot {
                assert(r[slots.len() as int] == s);
            }
        }
    } else {
        let front = slots.drop_last();
        let last = slots.last();
        let n = slots.len() as int;
        assert forall|i: int, j: int| 0 <= i < j < front.len() implies before(
            #[trigger] front[i],
            #[trigger] front[j],
        ) by {
            assert(before(slots[i], slots[j]));
        }
        lemma_insert_slot(front, slot);
        let mid = insert_slot(front, slot);
        assert(r == mid.push(last));
        assert forall|i: int, j: int| 0 <= i < j < r.len() implies before(#[trigger] r[i], #[trigger] r[j]) by {
            if j < mid.len() {
                assert(before(mid[i], mid[j]));
            } else {
                assert(r[j] == last);
                assert(r[i] == mid[i]);
                assert(mid.contains(mid[i]));
                if mid[i] == slot {
                } else {
                    assert(front.contains(mid[i]));
                    let k = choose|k: int| 0 <= k < front.len() && front[k] == mid[i];
                    assert(before(slots[k], slots[n - 1]));
                }
            }
        }
        assert forall|s: Slot| r.contains(s) <==> (slots.contains(s) || s == slot) by {
            if r.contains(s) {
                let k = choose|k: int| 0 <= k < r.len() && r[k] == s;
                if k < mid.len() {
                    assert(mid[k] == s);
                    assert(mid.contains(s));
                    if front.contains(s) {
                        let m = choose|m: int| 0 <= m < front.len() && front[m] == s;
                        assert(slots[m] == s);
                    }
                } else {
                    assert(slots[n - 1] == s);
                }
            }
            if slots.contains(s) {
                let k = choose|k: int| 0 <= k < slots.len() && slots[k] == s;
                if k < n - 1 {
                    assert(front[k] == s);
                    assert(front.contains(s));
                    assert(mid.contains(s));
                    let m = choose|m: int| 0 <= m < mid.len() && mid[m] == s;
                    assert(r[m] == s);
                } else {
                    assert(r[mid.len() as int] == s);
                }
            }
            if s == slot {
                assert(mid.contains(s));
                let m = choose|m: int| 0 <= m < mid.len() && mid[m] == s;
                assert(r[m] == s);
            }
        }
    }
}

/// The index of a log is in order and holds one slot for each entry: the
/// entry's timestamp and its place.
pub proof fn lemma_index_of(log: Seq<EntryView>)
    requires
        log.len() <= usize::MAX,
    ensures
        ordered(index_of(log)),
        index_of(log).len() == log.len(),
        forall|s: Slot|
            #[trigger] index_of(log).contains(s) <==> (0 <= s.location < log.len() && log[s.location as int].timestamp
                == s.timestamp),
    decreases log.len(),
{
    let idx = index_of(log);
    if log.len() == 0 {
        assert forall|s: Slot| !idx.contains(s) by {}
    } else {
        let front = log.drop_last();
        let n = log.len() as int;
        let slot = Slot { timestamp: log.last().timestamp, location: (n - 1) as usize };
        lemma_index_of(front);
        let prev = index_of(front);
        assert forall|k: int| 0 <= k < prev.len() implies (#[trigger] prev[k]).location < slot.location by {
            assert(prev.contains(prev[k]));
        }
        lemma_insert_slot(prev, slot);
        assert forall|s: Slot|
            #[trigger] idx.contains(s) <==> (0 <= s.location < log.len() && log[s.location as int].timestamp
                == s.timestamp) by {
            assert(idx.contains(s) <==> (prev.contains(s) || s == slot));
            if s.location < n - 1 {
                assert(front[s.location as int] == log[s.location as int]);
            }
        }
    }
}

/// The index of a log is the one way to put its slots in order: any run of
/// slots that is in order and holds, for each entry, its timestamp and its
/// place, and nothing else, is the index.
pub proof fn lemma_index_is_determined(log: Seq<EntryView>, slots: Seq<Slot>)
    requires
        log.len() <= usize::MAX,
        ordered(slots),
        forall|s: Slot|
            #[trigger] slots.contains(s) <==> (0 <= s.location < log.len() && log[s.location as int].timestamp
                == s.timestamp),
    ensures
        slots == index_of(log),
{
    lemma_index_of(log);
    lemma_order_is_unique(slots, index_of(log));
}

/// A slot found in a selection was a slot of the index and lies in the
/// interval; every slot of the index in the interval is found; and the
/// selection keeps the order of the index.
pub proof fn lemma_slots_within(slots: Seq<Slot>, from: u64, to: u64)
    ensures
        forall|s: Slot|
            #![trigger slots_within(slots, from, to).contains(s)]
            #![trigger slots.contains(s)]
            slots_within(slots, from, to).contains(s) <==> (slots.contains(s) && from <= s.timestamp <= to),
        ordered(slots) ==> ordered(slots_within(slots, from, to)),
        slots_within(slots, from, to).len() <= slots.len(),
    decreases slots.len(),
{
    let w = slots_within(slots, from, to);
    if slots.len() == 0 {
        assert forall|s: Slot| !w.contains(s) by {}
    } else {
        let front = slots.drop_last();
        let last = slots.last();
        let n = slots.len() as int;
        let rest = slots_within(front, from, to);
        lemma_slots_within(front, from, to);
        assert forall|s: Slot| w.contains(s) <==> (slots.contains(s) && from <= s.timestamp <= to) by {
            if w.contains(s) {
                let k = choose|k: int| 0 <= k < w.len() && w[k] == s;
                if k < rest.len() {
                    assert(rest[k] == s);
                    assert(rest.contains(s));
                    let m = choose|m: int| 0 <= m < front.len() && front[m] == s;
                    assert(slots[m] == s);
                } else {
                    assert(slots[n - 1] == s);
                }
            }
            if slots.contains(s) && from <= s.timestamp <= to {
                let k = choose|k: int| 0 <= k < slots.len() && slots[k] == s;
                if k < n - 1 {
                    assert(front[k] == s);
                    assert(front.contains(s));
                    assert(rest.contains(s));
                    let m = choose|m: int| 0 <= m < rest.len() && rest[m] == s;
                    assert(w[m] == s);
                } else {
                    assert(w[rest.len() as int] == s);
                }
            }
        }
        if ordered(slots) {
            assert forall|i: int, j: int| 0 <= i < j < front.len() implies before(
                #[trigger] front[i],
                #[trigger] front[j],
            ) by {
                assert(before(slots[i], slots[j]));
            }
            assert forall|i: int, j: int| 0 <= i < j < w.len() implies before(#[trigger] w[i], #[trigger] w[j]) by {
                if j < rest.len() {
                    assert(before(rest[i], rest[j]));
                } else {
                    assert(w[i] == rest[i]);
                    assert(rest.contains(rest[i]));
                    let m = choose|m: int| 0 <= m < front.len() && front[m] == rest[i];
                    assert(before(slots[m], slots[n - 1]));
                }
            }
        }
    }
}

/// At most one place holds the first entry with a given timestamp, and one
/// does where any entry has that timestamp.
pub proof fn lemma_first_at(log: Seq<EntryView>, timestamp: u64, i: int)
    requires
        0 <= i < log.len(),
        log[i].timestamp == timestamp,
    ensures
        has_timestamp(log, timestamp),
        exists|k: int| is_first_at(log, timestamp, k) && k <= i,
        is_first_at(log, timestamp, i) ==> entry_at(log, timestamp) == Some(log[i]),
    decreases i,
{
    if exists|j: int| 0 <= j < i && (#[trigger] log[j]).timestamp == timestamp {
        let j = choose|j: int| 0 <= j < i && (#[trigger] log[j]).timestamp == timestamp;
        lemma_first_at(log, timestamp, j);
    } else {
        assert(is_first_at(log, timestamp, i));
    }
    if is_first_at(log, timestamp, i) {
        let k = choose|k: int| is_first_at(log, timestamp, k);
        assert(k == i);
    }
}

/// The earliest timestamp is the timestamp of some entry, and no entry is
/// stamped earlier.
pub proof fn lemma_least_timestamp(log: Seq<EntryView>)
    ensures
        log.len() == 0 <==> least_timestamp(log) is None,
        log.len() > 0 ==> has_timestamp(log, least_timestamp(log).unwrap()),
        forall|i: int| 0 <= i < log.len() ==> least_timestamp(log).unwrap() <= (#[trigger] log[i]).timestamp,
    decreases log.len(),
{
    if log.len() > 0 {
        let front = log.drop_last();
        let n = log.len() as int;
        lemma_least_timestamp(front);
        let m = least_timestamp(log).unwrap();
        if front.len() > 0 && least_timestamp(front).unwrap() == m {
            let k = choose|k: int| 0 <= k < front.len() && (#[trigger] front[k]).timestamp == m;
            assert(log[k].timestamp == m);
        } else {
            assert(log[n - 1].timestamp == m);
        }
        assert forall|i: int| 0 <= i < log.len() implies m <= (#[trigger] log[i]).timestamp by {
            if i < n - 1 {
                assert(front[i] == log[i]);
            }
        }
    }
}

/// The latest timestamp is the timestamp of some entry, and no entry is
/// stamped later.
pub proof fn lemma_greatest_timestamp(log: Seq<EntryView>)
    ensures
        log.len() == 0 <==> greatest_timestamp(log) is None,
        log.len() > 0 ==> has_timestamp(log, greatest_timestamp(log).unwrap()),
        forall|i: int| 0 <= i < log.len() ==> greatest_timestamp(log).unwrap() >= (#[trigger] log[i]).timestamp,
    decreases log.len(),
{
    if log.len() > 0 {
        let front = log.drop_last();
        let n = log.len() as int;
        lemma_greatest_timestamp(front);
        let m = greatest_timestamp(log).unwrap();
        if front.len() > 0 && greatest_timestamp(front).unwrap() == m {
            let k = choose|k: int| 0 <= k < front.len() && (#[trigger] front[k]).timestamp == m;
            assert(log[k].timestamp == m);
        } else {
            assert(log[n - 1].timestamp == m);
        }
        assert forall|i: int| 0 <= i < log.len() implies m >= (#[trigger] log[i]).timestamp by {
            if i < n - 1 {
                assert(front[i] == log[i]);
            }
        }
    }
}

/// The slots that a range query finds in the index of `log`.
pub open spec fn scan_places(log: Seq<EntryView>, from: u64, to: u64) -> Seq<Slot> {
    slots_within(index_of(log), from, to)
}

/// An entry appended under a timestamp that the log does not hold yet is what
/// a point query for that timestamp then finds.
pub proof fn lemma_append_then_get(log: Seq<EntryView>, entry: EntryView)
    requires
        !has_timestamp(log, entry.timestamp),
    ensures
        entry_at(log.push(entry), entry.timestamp) == Some(entry),
{
    let after = log.push(entry);
    let n = log.len() as int;
    assert(after[n] == entry);
    assert forall|j: int| 0 <= j < n implies (#[trigger] after[j]).timestamp != entry.timestamp by {
        assert(after[j] == log[j]);
    }
    assert(is_first_at(after, entry.timestamp, n));
    lemma_first_at(after, entry.timestamp, n);
}

/// After an append a point query for the appended timestamp finds an entry,
/// and one with that timestamp.
pub proof fn lemma_append_is_found(log: Seq<EntryView>, entry: EntryView)
    ensures
        entry_at(log.push(entry), entry.timestamp) is Some,
        entry_at(log.push(entry), entry.timestamp).unwrap().timestamp == entry.timestamp,
{
    let after = log.push(entry);
    let n = log.len() as int;
    assert(after[n] == entry);
    lemma_first_at(after, entry.timestamp, n);
    let k = choose|k: int| is_first_at(after, entry.timestamp, k);
    assert(is_first_at(after, entry.timestamp, k));
}

/// What a point query found before an append, it finds after it: the log
/// only grows, and the entry that came first stays first.
pub proof fn lemma_append_keeps_found(log: Seq<EntryView>, entry: EntryView, timestamp: u64)
    requires
        has_timestamp(log, timestamp),
    ensures
        entry_at(log.push(entry), timestamp) == entry_at(log, timestamp),
{
    let after = log.push(entry);
    let i = choose|i: int| 0 <= i < log.len() && (#[trigger] log[i]).timestamp == timestamp;
    lemma_first_at(log, timestamp, i);
    let k = choose|k: int| is_first_at(log, timestamp, k) && k <= i;
    lemma_first_at(log, timestamp, k);
    assert(after[k] == log[k]);
    assert forall|j: int| 0 <= j < k implies (#[trigger] after[j]).timestamp != timestamp by {
        assert(after[j] == log[j]);
    }
    assert(is_first_at(after, timestamp, k));
    lemma_first_at(after, timestamp, k);
}

/// A range query finds each entry of the interval once and no other entry:
/// the places found are in order, each lies in the log and holds an entry of
/// the interval, and every place that holds one is found.
pub proof fn lemma_scan_is_exact(log: Seq<EntryView>, from: u64, to: u64)
    requires
        log.len() <= usize::MAX,
    ensures
        ordered(scan_places(log, from, to)),
        scan_of(log, from, to).len() == scan_places(log, from, to).len(),
        forall|k: int|
            0 <= k < scan_places(log, from, to).len() ==> {
                let s = #[trigger] scan_places(log, from, to)[k];
                &&& 0 <= s.location < log.len()
                &&& log[s.location as int].timestamp == s.timestamp
                &&& from <= s.timestamp <= to
                &&& scan_of(log, from, to)[k] == log[s.location as int]
            },
        forall|i: int|
            0 <= i < log.len() && from <= (#[trigger] log[i]).timestamp <= to ==> scan_places(
                log,
                from,
                to,
            ).contains(Slot { timestamp: log[i].timestamp, location: i as usize }),
{
    let idx = index_of(log);
    let found = scan_places(log, from, to);
    lemma_index_of(log);
    lemma_slots_within(idx, from, to);
    assert forall|k: int| 0 <= k < found.len() implies {
        let s = #[trigger] found[k];
        &&& 0 <= s.location < log.len()
        &&& log[s.location as int].timestamp == s.timestamp
        &&& from <= s.timestamp <= to
        &&& scan_of(log, from, to)[k] == log[s.location as int]
    } by {
        assert(found.contains(found[k]));
        assert(idx.contains(found[k]));
    }
    assert forall|i: int| 0 <= i < log.len() && from <= (#[trigger] log[i]).timestamp <= to implies found.contains(
        Slot { timestamp: log[i].timestamp, location: i as usize },
    ) by {
        let s = Slot { timestamp: log[i].timestamp, location: i as usize };
        assert(idx.contains(s));
    }
}

/// A range query gives its entries by ascending timestamp: none is stamped
/// later than one that follows it.
pub proof fn lemma_scan_ascends(log: Seq<EntryView>, from: u64, to: u64)
    requires
        log.len() <= usize::MAX,
    ensures
        forall|a: int, b: int|
            0 <= a < b < scan_of(log, from, to).len() ==> (#[trigger] scan_of(log, from, to)[a]).timestamp <= (
            #[trigger] scan_of(log, from, to)[b]).timestamp,
{
    let found = scan_places(log, from, to);
    let scan = scan_of(log, from, to);
    lemma_scan_is_exact(log, from, to);
    assert forall|a: int, b: int| 0 <= a < b < scan.len() implies (#[trigger] scan[a]).timestamp <= (
    #[trigger] scan[b]).timestamp by {
        assert(before(found[a], found[b]));
    }
}

/// Entries that a range query gives under one timestamp stand in the order
/// in which they were appended.
pub proof fn lemma_scan_keeps_insertion_order(log: Seq<EntryView>, from: u64, to: u64, a: int, b: int)
    requires
        log.len() <= usize::MAX,
        0 <= a < b < scan_places(log, from, to).len(),
        scan_places(log, from, to)[a].timestamp == scan_places(log, from, to)[b].timestamp,
    ensures
        scan_places(log, from, to)[a].location < scan_places(log, from, to)[b].location,
{
    let found = scan_places(log, from, to);
    lemma_scan_is_exact(log, from, to);
    assert(before(found[a], found[b]));
}

/// An interval whose start lies behind its end holds no entry: the range
/// query gives the empty sequence.
pub proof fn lemma_scan_of_reversed_interval(log: Seq<EntryView>, from: u64, to: u64)
    requires
        from > to,
    ensures
        scan_of(log, from, to) == Seq::<EntryView>::empty(),
{
    let found = scan_places(log, from, to);
    lemma_slots_within(index_of(log), from, to);
    if found.len() > 0 {
        assert(found.contains(found[0]));
    }
    assert(scan_of(log, from, to) =~= Seq::<EntryView>::empty());
}

/// Two range queries over one interval, with no append between them, give
/// the same entries in the same order.
pub proof fn lemma_scan_repeats(
    log: Seq<EntryView>,
    from: u64,
    to: u64,
    first: Seq<LogEntry>,
    second: Seq<LogEntry>,
)
    requires
        views(first) == scan_of(log, from, to),
        views(second) == scan_of(log, from, to),
    ensures
        first.len() == second.len(),
        forall|k: int| 0 <= k < first.len() ==> (#[trigger] first[k])@ == second[k]@,
{
    assert(views(first).len() == first.len());
    assert(views(second).len() == second.len());
    assert forall|k: int| 0 <= k < first.len() implies (#[trigger] first[k])@ == second[k]@ by {
        assert(views(first)[k] == first[k]@);
        assert(views(second)[k] == second[k]@);
    }
}

/// What the store reports of a log after one more append: one entry more,
/// and the earliest and latest timestamp taken with the new one.
pub proof fn lemma_info_after_append(log: Seq<EntryView>, entry: EntryView)
    ensures
        least_timestamp(log.push(entry)) == Some(
            match least_timestamp(log) {
                Some(m) => if entry.timestamp < m {
                    entry.timestamp
                } else {
                    m
                },
                None => entry.timestamp,
            },
        ),
        greatest_timestamp(log.push(entry)) == Some(
            match greatest_timestamp(log) {
                Some(m) => if entry.timestamp > m {
                    entry.timestamp
                } else {
                    m
                },
                None => entry.timestamp,
            },
        ),
{
    assert(log.push(entry).drop_last() =~= log);
}

/// The log, in the order in which its entries were appended, with the index
/// that orders them by timestamp. Entries are added at the end and never
/// changed or removed. The store takes entries up to a limit that is fixed
/// when it is made.
pub struct LogStore {
    entries: Vec<LogEntry>,
    index: TimestampIndex,
    limit: usize,
}

impl View for LogStore {
    type V = Seq<EntryView>;

    closed spec fn view(&self) -> Seq<EntryView> {
        views(self.entries@)
    }
}

impl LogStore {
    /// How many entries the store takes.
    pub closed spec fn limit(&self) -> nat {
        self.limit as nat
    }

    /// The index is the index of the log, and the log is within its limit.
    #[verifier::type_invariant]
    spec fn wf(&self) -> bool {
        &&& self.index@ == index_of(views(self.entries@))
        &&& self.entries@.len() <= self.limit
    }

    /// An empty store that takes as many entries as memory holds.
    pub fn new() -> (r: Self)
        ensures
            r@ == Seq::<EntryView>::empty(),
            r.limit() == usize::MAX,
    {
        let r = LogStore { entries: Vec::new(), index: TimestampIndex::new(), limit: usize::MAX };
        assert(r@ =~= Seq::<EntryView>::empty());
        r
    }

    /// An empty store that takes `limit` entries.
    pub fn with_limit(limit: usize) -> (r: Self)
        ensures
            r@ == Seq::<EntryView>::empty(),
            r.limit() == limit,
    {
        let r = LogStore { entries: Vec::new(), index: TimestampIndex::new(), limit };
        assert(r@ =~= Seq::<EntryView>::empty());
        r
    }

    /// How many entries the store holds.
    pub fn len(&self) -> (n: usize)
        ensures
            n == self@.len(),
    {
        self.entries.len()
    }

    /// Adds `entry` at the end of the log. A store that is full refuses the
    /// entry and stays as it was.
    pub fn append(&mut self, entry: LogEntry) -> (r: Result<(), LogError>)
        ensures
            final(self).limit() == old(self).limit(),
            old(self)@.len() < old(self).limit() ==> r == Ok::<(), LogError>(()) && final(self)@ == old(self)@.push(
                entry@,
            ),
            old(self)@.len() >= old(self).limit() ==> r == Err::<(), LogError>(LogError::StorageError)
                && final(self)@ == old(self)@,
    {
        proof {
            use_type_invariant(&*self);
        }
        if self.entries.len() >= self.limit {
            return Err(LogError::StorageError);
        }
        let mut taken = LogStore::with_limit(self.limit);
        core::mem::swap(self, &mut taken);
        let LogStore { entries, index, limit } = taken;
        let mut entries = entries;
        let mut index = index;
        let location = entries.len();
        let timestamp = entry.timestamp;
        let ghost log = views(entries@);
        let ghost slot = Slot { timestamp, location };
        proof {
            lemma_index_of(log);
            assert forall|k: int| 0 <= k < index@.len() implies (#[trigger] index@[k]).location < location by {
                assert(index@.contains(index@[k]));
            }
        }
        let p = index.insert(timestamp, location);
        entries.push(entry);
        proof {
            lemma_insert_slot_position(index_of(log), slot, p as int);
            assert(views(entries@) =~= log.push(entry@));
            assert(views(entries@).drop_last() =~= log);
        }
        *self = LogStore { entries, index, limit };
        Ok(())
    }

    /// The entry stamped `timestamp`; where several are, the one that was
    /// appended first.
    pub fn get(&self, timestamp: u64) -> (r: Option<LogEntry>)
        ensures
            match r {
                Some(entry) => entry_at(self@, timestamp) == Some(entry@),
                None => entry_at(self@, timestamp) is None,
            },
    {
        proof {
            use_type_invariant(self);
            lemma_index_of(self@);
        }
        match self.index.lookup_single(timestamp) {
            Some(location) => {
                let ghost log = self@;
                proof {
                    let found = Slot { timestamp, location };
                    assert(index_of(log).contains(found));
                    assert forall|j: int| 0 <= j < location implies (#[trigger] log[j]).timestamp
                        != timestamp by {
                        if log[j].timestamp == timestamp {
                            let other = Slot { timestamp, location: j as usize };
                            assert(index_of(log).contains(other));
                            let k = choose|k: int| 0 <= k < index_of(log).len() && index_of(log)[k] == other;
                            assert(self.index@[k].timestamp == timestamp);
                        }
                    }
                    assert(is_first_at(log, timestamp, location as int));
                    lemma_first_at(log, timestamp, location as int);
                }
                Some(self.entries[location].clone())
            },
            None => {
                proof {
                    let log = self@;
                    if has_timestamp(log, timestamp) {
                        let i = choose|i: int| 0 <= i < log.len() && (#[trigger] log[i]).timestamp == timestamp;
                        let other = Slot { timestamp, location: i as usize };
                        assert(index_of(log).contains(other));
                        let k = choose|k: int| 0 <= k < index_of(log).len() && index_of(log)[k] == other;
                        assert(self.index@[k].timestamp == timestamp);
                    }
                }
                None
            },
        }
    }

    /// The entries stamped from `from` to `to`, both included, by ascending
    /// timestamp and, among equal timestamps, in the order in which they were
    /// appended. Nothing where `from` is later than `to`.
    pub fn scan(&self, from: u64, to: u64) -> (r: Vec<LogEntry>)
        ensures
            views(r@) == scan_of(self@, from, to),
    {
        proof {
            use_type_invariant(self);
            lemma_index_of(self@);
            lemma_slots_within(self.index@, from, to);
        }
        let places = self.index.lookup_range(from, to);
        let ghost found = slots_within(self.index@, from, to);
        proof {
            assert forall|i: int| 0 <= i < found.len() implies (#[trigger] found[i]).location
                < self.entries@.len() by {
                assert(found.contains(found[i]));
            }
        }
        let mut r: Vec<LogEntry> = Vec::new();
        let mut k: usize = 0;
        while k < places.len()
            invariant
                k <= places.len(),
                places@ == locations(found),
                found == slots_within(index_of(self@), from, to),
                forall|i: int| 0 <= i < found.len() ==> (#[trigger] found[i]).location < self.entries@.len(),
                r@.len() == k,
                forall|i: int| 0 <= i < k ==> (#[trigger] r@[i])@ == self@[found[i].location as int],
            decreases places.len() - k,
        {
            let place = places[k];
            assert(place == found[k as int].location);
            r.push(self.entries[place].clone());
            k = k + 1;
        }
        assert(views(r@) =~= scan_of(self@, from, to));
        r
    }

    /// A store that takes `limit` entries and holds those of `entries`, in
    /// their order. More entries than the limit admits are a storage error.
    pub fn from_entries(entries: &Vec<LogEntry>, limit: usize) -> (r: Result<LogStore, LogError>)
        ensures
            match r {
                Ok(store) => {
                    &&& store.limit() == limit
                    &&& store@ == views(entries@)
                    &&& entries@.len() <= limit
                },
                Err(e) => e == LogError::StorageError && entries@.len() > limit,
            },
    {
        if entries.len() > limit {
            return Err(LogError::StorageError);
        }
        let mut store = LogStore::with_limit(limit);
        let mut k: usize = 0;
        assert(views(entries@).take(0) =~= Seq::<EntryView>::empty());
        while k < entries.len()
            invariant
                k <= entries.len() <= limit,
                store.limit() == limit,
                store@ == views(entries@).take(k as int),
            decreases entries.len() - k,
        {
            let entry = entries[k].clone();
            let ghost before_it = store@;
            let taken = store.append(entry);
            assert(taken is Ok);
            assert(views(entries@).take(k + 1) =~= before_it.push(entries@[k as int]@));
            k = k + 1;
        }
        assert(views(entries@).take(entries.len() as int) =~= views(entries@));
        Ok(store)
    }

    /// A store that takes `limit` entries and holds the entries that `text`
    /// holds, line by line. A text that is no log, or one with more entries
    /// than the limit admits, is a storage error: the store is made of the
    /// whole log or not at all.
    pub fn from_text(text: &str, limit: usize) -> (r: Result<LogStore, LogError>)
        ensures
            match r {
                Ok(store) => {
                    &&& store.limit() == limit
                    &&& entries_of_text(text@) == Some(store@)
                    &&& store@.len() <= limit
                },
                Err(e) => {
                    &&& e == LogError::StorageError
                    &&& match entries_of_text(text@) {
                        Some(entries) => entries.len() > limit,
                        None => true,
                    }
                },
            },
    {
        match read_entries(text) {
            Ok(entries) => {
                assert(views(entries@).len() == entries@.len());
                LogStore::from_entries(&entries, limit)
            },
            Err(_) => Err(LogError::StorageError),
        }
    }

    /// The log as text, one line for each entry, in the order in which the
    /// entries were appended.
    pub fn to_text(&self) -> (text: String)
        ensures
            text@ == text_of(self@),
    {
        entries_text(&self.entries)
    }

    /// The number of entries and the earliest and latest timestamp among
    /// them, taken from the store as it stands.
    pub fn info(&self) -> (r: StoreInfo)
        ensures
            r.count == self@.len(),
            r.min_timestamp == least_timestamp(self@),
            r.max_timestamp == greatest_timestamp(self@),
    {
        let n = self.index.len();
        proof {
            use_type_invariant(self);
            lemma_index_of(self@);
            lemma_least_timestamp(self@);
            lemma_greatest_timestamp(self@);
        }
        if n == 0 {
            StoreInfo { count: 0, min_timestamp: None, max_timestamp: None }
        } else {
            let first = self.index.slot(0);
            let last = self.index.slot(n - 1);
            proof {
                let log = self@;
                let idx = index_of(log);
                assert(idx.contains(idx[0]));
                assert(idx.contains(idx[n - 1]));
                assert(log[first.location as int].timestamp == first.timestamp);
                assert(log[last.location as int].timestamp == last.timestamp);
                assert forall|i: int| 0 <= i < log.len() implies first.timestamp <= (#[trigger] log[i]).timestamp
                    && log[i].timestamp <= last.timestamp by {
                    let s = Slot { timestamp: log[i].timestamp, location: i as usize };
                    assert(idx.contains(s));
                    let k = choose|k: int| 0 <= k < idx.len() && idx[k] == s;
                    if 0 < k {
                        assert(before(idx[0], idx[k]));
                    }
                    if k < n - 1 {
                        assert(before(idx[k], idx[n - 1]));
                    }
                }
                let lo = least_timestamp(log).unwrap();
                let hi = greatest_timestamp(log).unwrap();
                let a = choose|a: int| 0 <= a < log.len() && (#[trigger] log[a]).timestamp == lo;
                let b = choose|b: int| 0 <= b < log.len() && (#[trigger] log[b]).timestamp == hi;
                assert(first.timestamp <= log[a].timestamp);
                assert(log[b].timestamp <= last.timestamp);
            }
            StoreInfo { count: n, min_timestamp: Some(first.timestamp), max_timestamp: Some(last.timestamp) }
        }
    }
}

} // verus!
