//! From the `time` field of a request to what it asks for.

use vstd::prelude::*;
use crate::decimal::{
    all_digits, decimal_text, is_digit, lemma_decimal_text_denotes, parse_u64_in, u64_of_text, unsigned_part,
};
use crate::error::LogError;
use crate::text::chars_of;

verus! {

/// What a query asks for: the entry at one timestamp, or every entry whose
/// timestamp lies in a closed interval.
#[derive(Clone, Copy, Debug, PartialEq, Eq, Structural)]
pub enum Mode {
    Single(u64),
    Range(u64, u64),
}

/// The fields of a request: the time asked for, and whether a range result
/// is to be compressed (it is, unless the field says otherwise).
#[derive(Debug)]
pub struct Input {
    pub time: String,
    pub bzip3: Option<bool>,
}

/// The two characters that part the ends of a range.
pub open spec fn separator() -> Seq<char> {
    seq!['.', '.']
}

/// The range separator stands in `s` at position `i`.
pub open spec fn separator_at(s: Seq<char>, i: int) -> bool {
    0 <= i && i + 1 < s.len() && s[i] == '.' && s[i + 1] == '.'
}

/// The range separator stands somewhere in `s`.
pub open spec fn has_separator(s: Seq<char>) -> bool {
    exists|i: int| separator_at(s, i)
}

/// Position `i` holds the first range separator of `s`.
pub open spec fn splits_at(s: Seq<char>, i: int) -> bool {
    separator_at(s, i) && forall|j: int| 0 <= j < i ==> !separator_at(s, j)
}

/// What the time field `s` asks for.
///
/// With a range separator in it, `s` is parted at the first one, and both
/// parts must denote a number: the ends of the interval. A second separator
/// leaves the part behind the first one no number, so the text asks for
/// nothing. Without a separator the whole of `s` must denote a number: the
/// timestamp of a point query.
pub open spec fn mode_of_text(s: Seq<char>) -> Option<Mode> {
    if has_separator(s) {
        let i = choose|i: int| splits_at(s, i);
        match (u64_of_text(s.take(i)), u64_of_text(s.skip(i + 2))) {
            (Some(from), Some(to)) => Some(Mode::Range(from, to)),
            _ => None,
        }
    } else {
        match u64_of_text(s) {
            Some(timestamp) => Some(Mode::Single(timestamp)),
            None => None,
        }
    }
}

/// What a request asks for, where the request itself may be missing.
pub open spec fn mode_of_query(query: Option<Input>) -> Option<Mode> {
    match query {
        Some(input) => mode_of_text(input.time@),
        None => None,
    }
}

/// Whether a range result of this request is to be compressed.
pub open spec fn wants_compression(query: Option<Input>) -> bool {
    match query {
        Some(input) => match input.bzip3 {
            Some(b) => b,
            None => true,
        },
        None => true,
    }
}

/// A text has at most one first separator.
pub proof fn lemma_split_unique(s: Seq<char>, i: int, j: int)
    requires
        splits_at(s, i),
        splits_at(s, j),
    ensures
        i == j,
{
}

/// Reads the time field of a request.
///
/// Succeeds exactly on the texts that ask for something, with what they ask
/// for; every other text is an invalid query.
pub fn parse_time(time: &str) -> (r: Result<Mode, LogError>)
    ensures
        match mode_of_text(time@) {
            Some(mode) => r == Ok::<Mode, LogError>(mode),
            None => r == Err::<Mode, LogError>(LogError::InvalidQuery),
        },
{
    let v = chars_of(time);
    let n = v.len();
    let mut i: usize = 0;
    let mut found = false;
    while !found && n - i > 1
        invariant
            n == v.len(),
            i <= n,
            found ==> separator_at(v@, i as int),
            forall|j: int| 0 <= j < i ==> !separator_at(v@, j),
        decreases n - i + if found { 0int } else { 1int },
    {
        if v[i] == '.' && v[i + 1] == '.' {
            found = true;
        } else {
            i = i + 1;
        }
    }
    if found {
        proof {
            assert(splits_at(v@, i as int));
            let k = choose|k: int| splits_at(v@, k);
            lemma_split_unique(v@, i as int, k);
            assert(has_separator(v@));
            assert(v@.take(i as int) =~= v@.subrange(0, i as int));
            assert(v@.skip(i + 2) =~= v@.subrange(i + 2, n as int));
        }
        let from = parse_u64_in(&v, 0, i);
        let to = parse_u64_in(&v, i + 2, n);
        match (from, to) {
            (Some(a), Some(b)) => Ok(Mode::Range(a, b)),
            _ => Err(LogError::InvalidQuery),
        }
    } else {
        proof {
            assert(!has_separator(v@));
            assert(v@.subrange(0, n as int) =~= v@);
        }
        match parse_u64_in(&v, 0, n) {
            Some(t) => Ok(Mode::Single(t)),
            None => Err(LogError::InvalidQuery),
        }
    }
}

/// Reads a request that may be missing: a missing request is an invalid query,
/// a present one asks for what its time field says.
pub fn parse_query(query: &Option<Input>) -> (r: Result<Mode, LogError>)
    ensures
        match mode_of_query(*query) {
            Some(mode) => r == Ok::<Mode, LogError>(mode),
            None => r == Err::<Mode, LogError>(LogError::InvalidQuery),
        },
{
    match query {
        Some(input) => parse_time(input.time.as_str()),
        None => Err(LogError::InvalidQuery),
    }
}

/// Whether a range result of this request is to be compressed: yes, unless
/// the request is present and declines it.
pub fn compression_requested(query: &Option<Input>) -> (r: bool)
    ensures
        r == wants_compression(*query),
{
    match query {
        Some(input) => match input.bzip3 {
            Some(b) => b,
            None => true,
        },
        None => true,
    }
}

/// A number written in decimal asks for the entry at that timestamp.
pub proof fn lemma_number_is_single(t: u64)
    ensures
        mode_of_text(decimal_text(t as nat)) == Some(Mode::Single(t)),
{
    let s = decimal_text(t as nat);
    lemma_decimal_text_denotes(t as nat);
    assert forall|i: int| !separator_at(s, i) by {
        if 0 <= i && i + 1 < s.len() {
            assert(is_digit(s[i]));
        }
    }
}

/// Two numbers written in decimal with the separator between them ask for
/// the interval from the first to the second.
pub proof fn lemma_pair_is_range(a: u64, b: u64)
    ensures
        mode_of_text(decimal_text(a as nat) + separator() + decimal_text(b as nat)) == Some(
            Mode::Range(a, b),
        ),
{
    let left = decimal_text(a as nat);
    let right = decimal_text(b as nat);
    let s = left + separator() + right;
    let n = left.len() as int;
    lemma_decimal_text_denotes(a as nat);
    lemma_decimal_text_denotes(b as nat);
    assert(s[n] == '.' && s[n + 1] == '.');
    assert(separator_at(s, n));
    assert forall|j: int| 0 <= j < n implies !separator_at(s, j) by {
        assert(s[j] == left[j]);
        assert(is_digit(left[j]));
    }
    assert(splits_at(s, n));
    let k = choose|k: int| splits_at(s, k);
    lemma_split_unique(s, n, k);
    assert(s.take(n) =~= left);
    assert(s.skip(n + 2) =~= right);
}

/// A text that holds anything but digits, plus signs and dots asks for
/// nothing.
pub proof fn lemma_foreign_character_is_invalid(s: Seq<char>, i: int)
    requires
        0 <= i < s.len(),
        !is_digit(s[i]),
        s[i] != '+',
        s[i] != '.',
    ensures
        mode_of_text(s) is None,
{
    lemma_not_a_number(s, i);
    if has_separator(s) {
        lemma_first_separator_exists(s, choose|j: int| separator_at(s, j));
        let k = choose|k: int| splits_at(s, k);
        if i < k {
            assert(s.take(k)[i] == s[i]);
            lemma_not_a_number(s.take(k), i);
        } else {
            assert(i >= k + 2);
            assert(s.skip(k + 2)[i - (k + 2)] == s[i]);
            lemma_not_a_number(s.skip(k + 2), i - (k + 2));
        }
    }
}

/// A text with a character that is neither a digit nor a plus sign denotes
/// no number.
pub proof fn lemma_not_a_number(s: Seq<char>, i: int)
    requires
        0 <= i < s.len(),
        !is_digit(s[i]),
        s[i] != '+',
    ensures
        u64_of_text(s) is None,
{
    let body = unsigned_part(s);
    if body.len() > 0 && all_digits(body) {
        if s[0] == '+' {
            assert(body[i - 1] == s[i]);
        } else {
            assert(body[i] == s[i]);
        }
    }
}

/// The empty text asks for nothing.
pub proof fn lemma_empty_is_invalid()
    ensures
        mode_of_text(Seq::<char>::empty()) is None,
{
    let s = Seq::<char>::empty();
    assert(!has_separator(s));
}

/// A text with two separators that do not overlap asks for nothing.
pub proof fn lemma_second_separator_is_invalid(s: Seq<char>, i: int, j: int)
    requires
        separator_at(s, i),
        separator_at(s, j),
        i + 2 <= j,
    ensures
        mode_of_text(s) is None,
{
    assert(has_separator(s));
    let k = choose|k: int| splits_at(s, k);
    lemma_first_separator_exists(s, i);
    assert(splits_at(s, k));
    assert(k <= i);
    let rest = s.skip(k + 2);
    assert(rest[j - (k + 2)] == '.');
    lemma_not_a_number(rest, j - (k + 2));
}

/// A text with a separator has a first one.
pub proof fn lemma_first_separator_exists(s: Seq<char>, i: int)
    requires
        separator_at(s, i),
    ensures
        exists|k: int| splits_at(s, k) && k <= i,
    decreases i,
{
    if exists|j: int| 0 <= j < i && separator_at(s, j) {
        let j = choose|j: int| 0 <= j < i && separator_at(s, j);
        lemma_first_separator_exists(s, j);
    } else {
        assert(splits_at(s, i));
    }
}

} // verus!
