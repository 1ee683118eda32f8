use web_app::encode::{entries_text, write_entries_text};
use web_app::response::{failure_reply, found_reply};
use web_app::route::{finish_compression, get};
use web_app::{Input, LogEntry, LogError, LogStore, Outcome, Reply, ResponseJson};

fn query(time: &str, bzip3: Option<bool>) -> Option<Input> {
    Some(Input { time: time.to_string(), bzip3 })
}

fn three() -> LogStore {
    let mut store = LogStore::new();
    assert_eq!(store.append(LogEntry::new(10, "ten")), Ok(()));
    assert_eq!(store.append(LogEntry::new(20, "twenty")), Ok(()));
    assert_eq!(store.append(LogEntry::new(30, "thirty")), Ok(()));
    store
}

fn envelope(outcome: Outcome) -> ResponseJson<LogEntry> {
    match outcome {
        Outcome::Done(Reply::Envelope(e)) => e,
        other => panic!("not an envelope: {:?}", other),
    }
}

#[test]
fn point_query_on_empty_store_is_not_found() {
    let store = LogStore::new();
    let e = envelope(get(&store, &query("5", None)));
    assert_eq!(e.status, 1);
    assert_eq!(e.message.as_deref(), Some("Not found"));
    assert!(e.data.is_none());
}

#[test]
fn point_query_gives_the_entry() {
    let e = envelope(get(&three(), &query("20", None)));
    assert_eq!(e.status, 0);
    assert_eq!(e.message.as_deref(), Some("OK"));
    assert_eq!(e.data, Some(LogEntry::new(20, "twenty")));
}

#[test]
fn point_query_is_never_compressed() {
    let e = envelope(get(&three(), &query("20", Some(true))));
    assert_eq!(e.status, 0);
    assert_eq!(e.data, Some(LogEntry::new(20, "twenty")));
}

#[test]
fn range_query_as_text_has_three_lines_in_order() {
    match get(&three(), &query("10..30", Some(false))) {
        Outcome::Done(Reply::Text(text)) => {
            assert_eq!(text, "10 ten\n20 twenty\n30 thirty\n");
            let lines: Vec<&str> = text.lines().collect();
            assert_eq!(lines, vec!["10 ten", "20 twenty", "30 thirty"]);
        }
        other => panic!("not text: {:?}", other),
    }
}

#[test]
fn range_query_goes_to_the_codec_by_default() {
    for flag in [None, Some(true)] {
        match get(&three(), &query("10..30", flag)) {
            Outcome::Compress(text) => assert_eq!(text, "10 ten\n20 twenty\n30 thirty\n"),
            other => panic!("not for the codec: {:?}", other),
        }
    }
}

#[test]
fn packed_result_is_the_binary_reply() {
    match finish_compression(Some(vec![1, 2, 3, 255])) {
        Reply::Binary(bytes) => assert_eq!(bytes, vec![1, 2, 3, 255]),
        other => panic!("not binary: {:?}", other),
    }
}

#[test]
fn failed_compression_is_a_failure() {
    match finish_compression(None) {
        Reply::Envelope(e) => {
            assert_eq!(e.status, 1);
            assert_eq!(e.message.as_deref(), Some("Compression failed"));
            assert!(e.data.is_none());
        }
        other => panic!("not an envelope: {:?}", other),
    }
}

#[test]
fn malformed_query_fails_whatever_the_store_holds() {
    for store in [LogStore::new(), three()] {
        for flag in [None, Some(true), Some(false)] {
            let e = envelope(get(&store, &query("abc", flag)));
            assert_ne!(e.status, 0);
            assert_eq!(e.status, 1);
            assert_eq!(e.message.as_deref(), Some("Invalid query"));
            assert!(e.data.is_none());
        }
    }
}

#[test]
fn absent_query_fails() {
    let e = envelope(get(&three(), &None));
    assert_eq!(e.status, 1);
    assert_eq!(e.message.as_deref(), Some("Invalid query"));
    assert!(e.data.is_none());
}

#[test]
fn reversed_range_gives_empty_text() {
    match get(&three(), &query("30..10", Some(false))) {
        Outcome::Done(Reply::Text(text)) => assert_eq!(text, ""),
        other => panic!("not text: {:?}", other),
    }
    match get(&three(), &query("30..10", None)) {
        Outcome::Compress(text) => assert_eq!(text, ""),
        other => panic!("not for the codec: {:?}", other),
    }
}

#[test]
fn range_with_second_separator_fails() {
    let e = envelope(get(&three(), &query("10..20..30", Some(false))));
    assert_eq!(e.status, 1);
    assert_eq!(e.message.as_deref(), Some("Invalid query"));
}

#[test]
fn payload_never_breaks_its_line() {
    let entries = vec![
        LogEntry::new(1, "two\nlines"),
        LogEntry::new(2, "back\\slash"),
        LogEntry::new(3, "carriage\rreturn\r\n"),
        LogEntry::new(4, ""),
    ];
    let text = entries_text(&entries);
    assert_eq!(text, "1 two\\nlines\n2 back\\\\slash\n3 carriage\\rreturn\\r\\n\n4 \n");
    assert_eq!(text.matches('\n').count(), entries.len());
    assert_eq!(text.lines().count(), entries.len());
}

#[test]
fn text_is_written_behind_what_is_there() {
    let mut out = String::from("head\n");
    write_entries_text(&vec![LogEntry::new(18446744073709551615, "x y")], &mut out);
    assert_eq!(out, "head\n18446744073709551615 x y\n");
    write_entries_text(&Vec::new(), &mut out);
    assert_eq!(out, "head\n18446744073709551615 x y\n");
}

#[test]
fn envelope_builders() {
    let bad: ResponseJson<LogEntry> = ResponseJson::error(7, "why");
    assert_eq!(bad.status, 7);
    assert_eq!(bad.message.as_deref(), Some("why"));
    assert!(bad.data.is_none());
    let good = ResponseJson::ok(5u8);
    assert_eq!(good.status, 0);
    assert_eq!(good.message.as_deref(), Some("OK"));
    assert_eq!(good.data, Some(5u8));
}

#[test]
fn every_failure_has_status_one() {
    for kind in [
        LogError::InvalidQuery,
        LogError::NotFound,
        LogError::StorageError,
        LogError::CompressionError,
    ] {
        match failure_reply(kind) {
            Reply::Envelope(e) => {
                assert_eq!(e.status, 1);
                assert_eq!(e.message.as_deref(), Some(kind.message()));
                assert!(e.data.is_none());
            }
            other => panic!("not an envelope: {:?}", other),
        }
    }
    match found_reply(LogEntry::new(1, "p")) {
        Reply::Envelope(e) => {
            assert_eq!(e.status, 0);
            assert_eq!(e.data, Some(LogEntry::new(1, "p")));
        }
        other => panic!("not an envelope: {:?}", other),
    }
}
