use web_app::decimal::{parse_u64, push_decimal};
use web_app::query::{compression_requested, parse_query, parse_time};
use web_app::{Input, LogError, Mode};

fn input(time: &str, bzip3: Option<bool>) -> Option<Input> {
    Some(Input { time: time.to_string(), bzip3 })
}

#[test]
fn single_timestamp_is_parsed() {
    assert_eq!(parse_time("1700000000"), Ok(Mode::Single(1700000000)));
    assert_eq!(parse_time("0"), Ok(Mode::Single(0)));
    assert_eq!(parse_time("5"), Ok(Mode::Single(5)));
}

#[test]
fn range_is_parsed() {
    assert_eq!(parse_time("1700000000..1700003600"), Ok(Mode::Range(1700000000, 1700003600)));
    assert_eq!(parse_time("10..30"), Ok(Mode::Range(10, 30)));
    assert_eq!(parse_time("30..10"), Ok(Mode::Range(30, 10)));
    assert_eq!(parse_time("0..0"), Ok(Mode::Range(0, 0)));
}

#[test]
fn largest_timestamp_is_parsed() {
    assert_eq!(parse_time("18446744073709551615"), Ok(Mode::Single(u64::MAX)));
    assert_eq!(
        parse_time("18446744073709551615..18446744073709551615"),
        Ok(Mode::Range(u64::MAX, u64::MAX))
    );
}

#[test]
fn number_too_large_is_invalid() {
    assert_eq!(parse_time("18446744073709551616"), Err(LogError::InvalidQuery));
    assert_eq!(parse_time("99999999999999999999999"), Err(LogError::InvalidQuery));
    assert_eq!(parse_time("1..18446744073709551616"), Err(LogError::InvalidQuery));
}

#[test]
fn every_written_number_is_read_back() {
    let samples: [u64; 9] = [0, 1, 9, 10, 99, 100, 1234567890, u64::MAX - 1, u64::MAX];
    for t in samples {
        let mut text = String::new();
        push_decimal(&mut text, t);
        assert_eq!(text, t.to_string());
        assert_eq!(parse_u64(&text), Some(t));
        assert_eq!(parse_time(&text), Ok(Mode::Single(t)));
        for u in samples {
            let mut pair = text.clone();
            pair.push_str("..");
            push_decimal(&mut pair, u);
            assert_eq!(parse_time(&pair), Ok(Mode::Range(t, u)));
        }
    }
}

#[test]
fn non_numeric_time_is_invalid() {
    assert_eq!(parse_time("abc"), Err(LogError::InvalidQuery));
    assert_eq!(parse_time("12a"), Err(LogError::InvalidQuery));
    assert_eq!(parse_time("-5"), Err(LogError::InvalidQuery));
    assert_eq!(parse_time(" 5"), Err(LogError::InvalidQuery));
    assert_eq!(parse_time("5 "), Err(LogError::InvalidQuery));
    assert_eq!(parse_time("1.5"), Err(LogError::InvalidQuery));
    assert_eq!(parse_time("٣"), Err(LogError::InvalidQuery));
}

#[test]
fn empty_time_is_invalid() {
    assert_eq!(parse_time(""), Err(LogError::InvalidQuery));
    assert_eq!(parse_time("+"), Err(LogError::InvalidQuery));
}

#[test]
fn missing_part_is_invalid() {
    assert_eq!(parse_time(".."), Err(LogError::InvalidQuery));
    assert_eq!(parse_time("1.."), Err(LogError::InvalidQuery));
    assert_eq!(parse_time("..2"), Err(LogError::InvalidQuery));
    assert_eq!(parse_time("a..2"), Err(LogError::InvalidQuery));
    assert_eq!(parse_time("1..b"), Err(LogError::InvalidQuery));
}

#[test]
fn more_than_one_separator_is_invalid() {
    assert_eq!(parse_time("1..2..3"), Err(LogError::InvalidQuery));
    assert_eq!(parse_time("1...2"), Err(LogError::InvalidQuery));
    assert_eq!(parse_time("1....2"), Err(LogError::InvalidQuery));
    assert_eq!(parse_time("1..2.."), Err(LogError::InvalidQuery));
}

#[test]
fn plus_sign_may_lead_a_number() {
    assert_eq!(parse_time("+5"), Ok(Mode::Single(5)));
    assert_eq!(parse_time("+1..+2"), Ok(Mode::Range(1, 2)));
    assert_eq!(parse_time("++5"), Err(LogError::InvalidQuery));
    assert_eq!(parse_time("5+"), Err(LogError::InvalidQuery));
}

#[test]
fn leading_zeros_are_read() {
    assert_eq!(parse_time("007"), Ok(Mode::Single(7)));
    assert_eq!(parse_time("00000000000000000000000000001"), Ok(Mode::Single(1)));
}

#[test]
fn parse_agrees_with_std() {
    let samples = ["0", "+0", "-0", "12", "1_000", "0x10", "18446744073709551615", "18446744073709551616", "", "+", "٣"];
    for s in samples {
        assert_eq!(parse_u64(s), s.parse::<u64>().ok(), "{:?}", s);
    }
}

#[test]
fn absent_query_is_invalid() {
    assert_eq!(parse_query(&None), Err(LogError::InvalidQuery));
}

#[test]
fn present_query_goes_by_its_time() {
    assert_eq!(parse_query(&input("7", None)), Ok(Mode::Single(7)));
    assert_eq!(parse_query(&input("7..9", Some(false))), Ok(Mode::Range(7, 9)));
    assert_eq!(parse_query(&input("x", Some(true))), Err(LogError::InvalidQuery));
}

#[test]
fn compression_is_the_default() {
    assert!(compression_requested(&None));
    assert!(compression_requested(&input("1..2", None)));
    assert!(compression_requested(&input("1..2", Some(true))));
    assert!(!compression_requested(&input("1..2", Some(false))));
}

#[test]
fn failure_messages() {
    assert_eq!(LogError::InvalidQuery.message(), "Invalid query");
    assert_eq!(LogError::NotFound.message(), "Not found");
    assert_eq!(LogError::StorageError.message(), "Storage error");
    assert_eq!(LogError::CompressionError.message(), "Compression failed");
}
