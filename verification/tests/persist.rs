use web_app::decode::{parse_line, read_entries};
use web_app::encode::entries_text;
use web_app::{LogEntry, LogError, LogStore, StoreInfo};

#[test]
fn line_is_read_back() {
    assert_eq!(parse_line("10 ten"), Some(LogEntry::new(10, "ten")));
    assert_eq!(parse_line("0 "), Some(LogEntry::new(0, "")));
    assert_eq!(parse_line("7 a b  c"), Some(LogEntry::new(7, "a b  c")));
    assert_eq!(
        parse_line("18446744073709551615 x"),
        Some(LogEntry::new(18446744073709551615, "x"))
    );
}

#[test]
fn escapes_are_read_back() {
    assert_eq!(parse_line("1 two\\nlines"), Some(LogEntry::new(1, "two\nlines")));
    assert_eq!(parse_line("2 back\\\\slash"), Some(LogEntry::new(2, "back\\slash")));
    assert_eq!(parse_line("3 a\\rb\\r\\n"), Some(LogEntry::new(3, "a\rb\r\n")));
    assert_eq!(parse_line("4 \\\\n"), Some(LogEntry::new(4, "\\n")));
}

#[test]
fn broken_line_holds_no_entry() {
    assert_eq!(parse_line(""), None);
    assert_eq!(parse_line("10"), None);
    assert_eq!(parse_line(" payload"), None);
    assert_eq!(parse_line("x payload"), None);
    assert_eq!(parse_line("18446744073709551616 late"), None);
    assert_eq!(parse_line("5 bad\\"), None);
    assert_eq!(parse_line("5 bad\\q"), None);
}

#[test]
fn text_is_read_back() {
    let entries = vec![
        LogEntry::new(30, "thirty"),
        LogEntry::new(10, "line\nbreak"),
        LogEntry::new(20, "tab\there \\ and \r"),
        LogEntry::new(20, ""),
        LogEntry::new(u64::MAX, "ünïcödé ✓"),
    ];
    let text = entries_text(&entries);
    assert_eq!(read_entries(&text), Ok(entries));
}

#[test]
fn empty_text_holds_no_entries() {
    assert_eq!(read_entries(""), Ok(Vec::new()));
    assert_eq!(entries_text(&Vec::new()), "");
}

#[test]
fn corrupt_text_is_a_storage_error() {
    assert_eq!(read_entries("10 ten"), Err(LogError::StorageError));
    assert_eq!(read_entries("10 ten\n20"), Err(LogError::StorageError));
    assert_eq!(read_entries("10 ten\n\n20 twenty\n"), Err(LogError::StorageError));
    assert_eq!(read_entries("10 ten\nxx twenty\n"), Err(LogError::StorageError));
    assert_eq!(read_entries("\n"), Err(LogError::StorageError));
    assert_eq!(read_entries("1 a\\z\n"), Err(LogError::StorageError));
}

#[test]
fn store_is_loaded_from_its_text() {
    let mut store = LogStore::new();
    for (t, p) in [(30u64, "c"), (10, "a\nb"), (20, "b"), (10, "again")] {
        assert_eq!(store.append(LogEntry::new(t, p)), Ok(()));
    }
    let text = store.to_text();
    assert_eq!(text, "30 c\n10 a\\nb\n20 b\n10 again\n");
    let loaded = match LogStore::from_text(&text, usize::MAX) {
        Ok(loaded) => loaded,
        Err(e) => panic!("not loaded: {:?}", e),
    };
    assert_eq!(loaded.len(), 4);
    assert_eq!(loaded.to_text(), text);
    assert_eq!(loaded.get(10), Some(LogEntry::new(10, "a\nb")));
    assert_eq!(loaded.scan(0, 100), store.scan(0, 100));
    assert_eq!(
        loaded.info(),
        StoreInfo { count: 4, min_timestamp: Some(10), max_timestamp: Some(30) }
    );
}

#[test]
fn load_is_all_or_nothing() {
    assert!(matches!(LogStore::from_text("1 a\n2 b\n3", 10), Err(LogError::StorageError)));
    assert!(matches!(LogStore::from_text("1 a\n2 b\n3 c\n", 2), Err(LogError::StorageError)));
    assert!(matches!(LogStore::from_text("1 a\n2 b\n3 c\n", 3), Ok(_)));
    assert!(matches!(LogStore::from_text("", 0), Ok(_)));
}

#[test]
fn store_is_made_from_entries() {
    let entries = vec![LogEntry::new(2, "b"), LogEntry::new(1, "a")];
    match LogStore::from_entries(&entries, 5) {
        Ok(store) => {
            assert_eq!(store.len(), 2);
            assert_eq!(store.scan(0, 9), vec![LogEntry::new(1, "a"), LogEntry::new(2, "b")]);
        }
        Err(e) => panic!("not made: {:?}", e),
    }
    assert!(matches!(LogStore::from_entries(&entries, 1), Err(LogError::StorageError)));
}
