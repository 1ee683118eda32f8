//! Reading the text of a log back into its entries.

use vstd::prelude::*;
use crate::decimal::{decimal_text, is_digit, lemma_decimal_text_denotes, parse_u64_in, u64_of_text};
use crate::encode::{escaped, escaped_char, lemma_escaped_keeps_line, line_of, text_of};
use crate::entry::{views, EntryView, LogEntry};
use crate::error::LogError;
use crate::text::chars_of;

verus! {

/// Where `c` first stands in `s`; the length of `s` where it stands nowhere.
pub open spec fn position_of(s: Seq<char>, c: char) -> int
    decreases s.len(),
{
    if s.len() == 0 || s[0] == c {
        0
    } else {
        1 + position_of(s.skip(1), c)
    }
}

/// The character that a backslash and `letter` stand for in a line.
pub open spec fn escape_of(letter: char) -> Option<char> {
    if letter == '\\' {
        Some('\\')
    } else if letter == 'n' {
        Some('\n')
    } else if letter == 'r' {
        Some('\r')
    } else {
        None
    }
}

/// `head` put before what `rest` holds, where it holds anything.
pub open spec fn prepended<T>(head: Seq<T>, rest: Option<Seq<T>>) -> Option<Seq<T>> {
    match rest {
        Some(tail) => Some(head + tail),
        None => None,
    }
}

/// The payload that stands written as `s` in a line. A backslash must be
/// followed by one of the letters that `escape_of` knows; any other
/// character stands for itself.
pub open spec fn unescaped(s: Seq<char>) -> Option<Seq<char>>
    decreases s.len(),
{
    if s.len() == 0 {
        Some(Seq::empty())
    } else if s[0] != '\\' {
        prepended(seq![s[0]], unescaped(s.skip(1)))
    } else if s.len() < 2 {
        None
    } else {
        match escape_of(s[1]) {
            Some(c) => prepended(seq![c], unescaped(s.skip(2))),
            None => None,
        }
    }
}

/// The entry that the line `s` holds, `s` taken without its line feed: up
/// to the first space the timestamp, behind it the payload.
pub open spec fn entry_of_line(s: Seq<char>) -> Option<EntryView> {
    let i = position_of(s, ' ');
    if i >= s.len() {
        None
    } else {
        match (u64_of_text(s.take(i)), unescaped(s.skip(i + 1))) {
            (Some(timestamp), Some(payload)) => Some(EntryView { timestamp, payload }),
            _ => None,
        }
    }
}

/// The entries that the text `s` holds, line by line. Each line must end
/// with a line feed and hold an entry; a text of which any line does not,
/// holds nothing.
pub open spec fn entries_of_text(s: Seq<char>) -> Option<Seq<EntryView>>
    decreases s.len(),
{
    if s.len() == 0 {
        Some(Seq::empty())
    } else {
        let i = position_of(s, '\n');
        if i >= s.len() {
            None
        } else {
            proof {
                lemma_position_of(s, '\n');
            }
            match entry_of_line(s.take(i)) {
                Some(entry) => prepended(seq![entry], entries_of_text(s.skip(i + 1))),
                None => None,
            }
        }
    }
}

/// The position of a character lies within the text or at its end; the
/// character stands nowhere before it, and stands at it where it lies
/// within.
pub proof fn lemma_position_of(s: Seq<char>, c: char)
    ensures
        0 <= position_of(s, c) <= s.len(),
        forall|j: int| 0 <= j < position_of(s, c) ==> #[trigger] s[j] != c,
        position_of(s, c) < s.len() ==> s[position_of(s, c)] == c,
    decreases s.len(),
{
    if s.len() == 0 || s[0] == c {
    } else {
        let rest = s.skip(1);
        lemma_position_of(rest, c);
        assert forall|j: int| 0 <= j < position_of(s, c) implies #[trigger] s[j] != c by {
            if j > 0 {
                assert(rest[j - 1] == s[j]);
            }
        }
        if position_of(s, c) < s.len() {
            assert(rest[position_of(rest, c)] == s[position_of(s, c)]);
        }
    }
}

/// A place before which the character does not stand, and at which it
/// stands unless the place is the end, is the position of the character.
pub proof fn lemma_position_is(s: Seq<char>, c: char, p: int)
    requires
        0 <= p <= s.len(),
        forall|j: int| 0 <= j < p ==> #[trigger] s[j] != c,
        p < s.len() ==> s[p] == c,
    ensures
        position_of(s, c) == p,
    decreases s.len(),
{
    if s.len() == 0 || s[0] == c {
        if p > 0 {
            assert(s[0] != c);
        }
    } else {
        let rest = s.skip(1);
        assert forall|j: int| 0 <= j < p - 1 implies #[trigger] rest[j] != c by {
            assert(rest[j] == s[j + 1]);
        }
        lemma_position_is(rest, c, p - 1);
    }
}

/// A payload with a character put before it is written as that character's
/// writing and then the payload's.
pub proof fn lemma_escaped_prepend(c: char, s: Seq<char>)
    ensures
        escaped(seq![c] + s) == escaped_char(c) + escaped(s),
    decreases s.len(),
{
    let whole = seq![c] + s;
    if s.len() == 0 {
        assert(whole.drop_last() =~= Seq::<char>::empty());
        assert(escaped(whole.drop_last()) =~= Seq::<char>::empty());
        assert(whole.last() == c);
        assert(escaped(whole) =~= escaped_char(c) + escaped(s));
    } else {
        lemma_escaped_prepend(c, s.drop_last());
        assert(whole.drop_last() =~= seq![c] + s.drop_last());
        assert(whole.last() == s.last());
        assert(escaped(whole) =~= escaped_char(c) + escaped(s));
    }
}

/// Reading the writing of a character and then more gives the character and
/// then what the rest gives.
pub proof fn lemma_unescaped_prepend(c: char, t: Seq<char>)
    ensures
        unescaped(escaped_char(c) + t) == prepended(seq![c], unescaped(t)),
{
    let s = escaped_char(c) + t;
    if c == '\\' || c == '\n' || c == '\r' {
        assert(s[0] == '\\');
        assert(escape_of(s[1]) == Some(c));
        assert(s.skip(2) =~= t);
    } else {
        assert(s[0] == c);
        assert(s.skip(1) =~= t);
    }
}

/// Reading a payload as it stands written in a line gives the payload back.
pub proof fn lemma_unescaped_escaped(p: Seq<char>)
    ensures
        unescaped(escaped(p)) == Some(p),
    decreases p.len(),
{
    if p.len() > 0 {
        let rest = p.skip(1);
        assert(p =~= seq![p[0]] + rest);
        lemma_escaped_prepend(p[0], rest);
        lemma_unescaped_prepend(p[0], escaped(rest));
        lemma_unescaped_escaped(rest);
    }
}

/// Reading the line of an entry, taken without its line feed, gives the
/// entry back.
pub proof fn lemma_entry_of_its_line(entry: EntryView)
    ensures
        entry_of_line(line_of(entry).drop_last()) == Some(entry),
{
    let number = decimal_text(entry.timestamp as nat);
    let payload = escaped(entry.payload);
    let s = line_of(entry).drop_last();
    let n = number.len() as int;
    lemma_decimal_text_denotes(entry.timestamp as nat);
    assert(s =~= number + seq![' '] + payload);
    assert forall|j: int| 0 <= j < n implies #[trigger] s[j] != ' ' by {
        assert(s[j] == number[j]);
        assert(is_digit(number[j]));
    }
    assert(s[n] == ' ');
    lemma_position_is(s, ' ', n);
    assert(s.take(n) =~= number);
    assert(s.skip(n + 1) =~= payload);
    lemma_unescaped_escaped(entry.payload);
}

/// The first line feed of a text that begins with the line of an entry is
/// the one that ends that line.
pub proof fn lemma_line_ends_at_its_feed(entry: EntryView, rest: Seq<char>)
    ensures
        position_of(line_of(entry) + rest, '\n') == line_of(entry).len() - 1,
{
    let number = decimal_text(entry.timestamp as nat);
    let payload = escaped(entry.payload);
    let line = line_of(entry);
    let s = line + rest;
    let n = number.len() as int;
    let end = line.len() - 1;
    lemma_decimal_text_denotes(entry.timestamp as nat);
    lemma_escaped_keeps_line(entry.payload);
    assert forall|j: int| 0 <= j < end implies #[trigger] s[j] != '\n' by {
        assert(s[j] == line[j]);
        if j < n {
            assert(line[j] == number[j]);
            assert(is_digit(number[j]));
        } else if j == n {
            assert(line[j] == ' ');
        } else {
            assert(line[j] == payload[j - n - 1]);
        }
    }
    assert(s[end] == line[end]);
    lemma_position_is(s, '\n', end);
}

/// The text of a result set with an entry put before it is the line of the
/// entry and then the text of the set.
pub proof fn lemma_text_of_prepend(entry: EntryView, entries: Seq<EntryView>)
    ensures
        text_of(seq![entry] + entries) == line_of(entry) + text_of(entries),
    decreases entries.len(),
{
    let whole = seq![entry] + entries;
    if entries.len() == 0 {
        assert(whole.drop_last() =~= Seq::<EntryView>::empty());
        assert(whole.last() == entry);
        assert(text_of(whole.drop_last()) =~= Seq::<char>::empty());
        assert(text_of(whole) =~= line_of(entry) + text_of(entries));
    } else {
        lemma_text_of_prepend(entry, entries.drop_last());
        assert(whole.drop_last() =~= seq![entry] + entries.drop_last());
        assert(whole.last() == entries.last());
        assert(text_of(whole) =~= line_of(entry) + text_of(entries));
    }
}

/// Reading the text of a result set gives its entries back, each as it was
/// and in the order in which they were written.
pub proof fn lemma_entries_of_their_text(entries: Seq<EntryView>)
    ensures
        entries_of_text(text_of(entries)) == Some(entries),
    decreases entries.len(),
{
    if entries.len() == 0 {
        assert(text_of(entries) =~= Seq::<char>::empty());
    } else {
        let first = entries[0];
        let rest = entries.skip(1);
        let line = line_of(first);
        let s = text_of(entries);
        assert(entries =~= seq![first] + rest);
        lemma_text_of_prepend(first, rest);
        assert(s == line + text_of(rest));
        lemma_line_ends_at_its_feed(first, text_of(rest));
        let i = line.len() - 1;
        assert(s.take(i) =~= line.drop_last());
        assert(s.skip(i + 1) =~= text_of(rest));
        lemma_entry_of_its_line(first);
        lemma_entries_of_their_text(rest);
    }
}

/// The payload written from `lo` up to `hi` in `v`.
pub fn unescape_in(v: &Vec<char>, lo: usize, hi: usize) -> (r: Option<String>)
    requires
        lo <= hi <= v.len(),
    ensures
        match r {
            Some(payload) => unescaped(v@.subrange(lo as int, hi as int)) == Some(payload@),
            None => unescaped(v@.subrange(lo as int, hi as int)) is None,
        },
{
    let ghost s = v@.subrange(lo as int, hi as int);
    let mut out = String::new();
    let mut i: usize = lo;
    assert(s.skip(0) =~= s);
    assert(prepended(out@, unescaped(s)) == unescaped(s)) by {
        if unescaped(s) is Some {
            assert(out@ + unescaped(s).unwrap() =~= unescaped(s).unwrap());
        }
    }
    while i < hi
        invariant
            lo <= i <= hi <= v.len(),
            s == v@.subrange(lo as int, hi as int),
            unescaped(s) == prepended(out@, unescaped(s.skip(i - lo))),
        decreases hi - i,
    {
        let ghost k = i - lo;
        let ghost here = s.skip(k);
        let ghost done = out@;
        let c = v[i];
        assert(here[0] == c);
        if c != '\\' {
            out.push(c);
            proof {
                assert(here.skip(1) =~= s.skip(k + 1));
                let rest = unescaped(s.skip(k + 1));
                if rest is Some {
                    assert(done + (seq![c] + rest.unwrap()) =~= done.push(c) + rest.unwrap());
                }
            }
            i = i + 1;
        } else if hi - i < 2 {
            return None;
        } else {
            let letter = v[i + 1];
            assert(here[1] == letter);
            let plain: char = if letter == '\\' {
                '\\'
            } else if letter == 'n' {
                '\n'
            } else if letter == 'r' {
                '\r'
            } else {
                return None;
            };
            out.push(plain);
            proof {
                assert(here.skip(2) =~= s.skip(k + 2));
                let rest = unescaped(s.skip(k + 2));
                if rest is Some {
                    assert(done + (seq![plain] + rest.unwrap()) =~= done.push(plain) + rest.unwrap());
                }
            }
            i = i + 2;
        }
    }
    proof {
        assert(s.skip(hi - lo) =~= Seq::<char>::empty());
        assert(out@ + Seq::<char>::empty() =~= out@);
    }
    Some(out)
}

/// Where `c` first stands in `v` from `lo` on and before `hi`; `hi` where it
/// stands nowhere there.
pub fn find_in(v: &Vec<char>, lo: usize, hi: usize, c: char) -> (p: usize)
    requires
        lo <= hi <= v.len(),
    ensures
        lo <= p <= hi,
        p - lo == position_of(v@.subrange(lo as int, hi as int), c),
{
    let ghost s = v@.subrange(lo as int, hi as int);
    let mut p: usize = lo;
    while p < hi && v[p] != c
        invariant
            lo <= p <= hi <= v.len(),
            s == v@.subrange(lo as int, hi as int),
            forall|j: int| 0 <= j < p - lo ==> #[trigger] s[j] != c,
        decreases hi - p,
    {
        p = p + 1;
    }
    proof {
        lemma_position_is(s, c, p - lo);
    }
    p
}

/// The entry that the line from `lo` up to `hi` in `v` holds.
pub fn parse_line_in(v: &Vec<char>, lo: usize, hi: usize) -> (r: Option<LogEntry>)
    requires
        lo <= hi <= v.len(),
    ensures
        match r {
            Some(entry) => entry_of_line(v@.subrange(lo as int, hi as int)) == Some(entry@),
            None => entry_of_line(v@.subrange(lo as int, hi as int)) is None,
        },
{
    let ghost s = v@.subrange(lo as int, hi as int);
    let space = find_in(v, lo, hi, ' ');
    if space >= hi {
        return None;
    }
    proof {
        assert(s.take(space - lo) =~= v@.subrange(lo as int, space as int));
        assert(s.skip(space - lo + 1) =~= v@.subrange(space + 1, hi as int));
    }
    let timestamp = match parse_u64_in(v, lo, space) {
        Some(t) => t,
        None => {
            return None;
        },
    };
    match unescape_in(v, space + 1, hi) {
        Some(payload) => Some(LogEntry { timestamp, payload }),
        None => None,
    }
}

/// The entry that the line `line` holds, `line` taken without a line feed
/// at its end.
pub fn parse_line(line: &str) -> (r: Option<LogEntry>)
    ensures
        match r {
            Some(entry) => entry_of_line(line@) == Some(entry@),
            None => entry_of_line(line@) is None,
        },
{
    let v = chars_of(line);
    assert(v@.subrange(0, v.len() as int) =~= v@);
    parse_line_in(&v, 0, v.len())
}

/// The entries that `text` holds, line by line. A text of which some line
/// holds no entry, or whose last line lacks its line feed, is a storage
/// error: no part of it is given.
pub fn read_entries(text: &str) -> (r: Result<Vec<LogEntry>, LogError>)
    ensures
        match r {
            Ok(entries) => entries_of_text(text@) == Some(views(entries@)),
            Err(e) => e == LogError::StorageError && entries_of_text(text@) is None,
        },
{
    let v = chars_of(text);
    let n = v.len();
    let ghost s = v@;
    let mut out: Vec<LogEntry> = Vec::new();
    let mut i: usize = 0;
    assert(s.skip(0) =~= s);
    assert(prepended(views(out@), entries_of_text(s)) == entries_of_text(s)) by {
        if entries_of_text(s) is Some {
            assert(views(out@) + entries_of_text(s).unwrap() =~= entries_of_text(s).unwrap());
        }
    }
    while i < n
        invariant
            i <= n,
            n == v.len(),
            s == v@,
            s == text@,
            entries_of_text(s) == prepended(views(out@), entries_of_text(s.skip(i as int))),
        decreases n - i,
    {
        let ghost here = s.skip(i as int);
        let ghost done = views(out@);
        assert(here =~= v@.subrange(i as int, n as int));
        let end = find_in(&v, i, n, '\n');
        if end >= n {
            return Err(LogError::StorageError);
        }
        proof {
            assert(here.take(end - i) =~= v@.subrange(i as int, end as int));
            assert(here.skip(end - i + 1) =~= s.skip(end + 1));
        }
        match parse_line_in(&v, i, end) {
            Some(entry) => {
                proof {
                    let rest = entries_of_text(s.skip(end + 1));
                    assert(views(out@.push(entry)) =~= done.push(entry@));
                    if rest is Some {
                        assert(done + (seq![entry@] + rest.unwrap()) =~= done.push(entry@) + rest.unwrap());
                    }
                }
                out.push(entry);
            },
            None => {
                return Err(LogError::StorageError);
            },
        }
        i = end + 1;
    }
    proof {
        assert(s.skip(n as int) =~= Seq::<char>::empty());
        assert(views(out@) + Seq::<EntryView>::empty() =~= views(out@));
    }
    Ok(out)
}

} // verus!
