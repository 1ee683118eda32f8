//! A result set as text: one line for each entry.

use vstd::prelude::*;
use crate::decimal::{decimal_text, is_digit, lemma_decimal_text_denotes, push_decimal};
use crate::entry::{views, EntryView, LogEntry};

verus! {

/// How one character of a payload is written in a line. A backslash, a line
/// feed and a carriage return are written as a backslash and a letter, so
/// that a payload never breaks its line; every other character stands for
/// itself.
pub open spec fn escaped_char(c: char) -> Seq<char> {
    if c == '\\' {
        seq!['\\', '\\']
    } else if c == '\n' {
        seq!['\\', 'n']
    } else if c == '\r' {
        seq!['\\', 'r']
    } else {
        seq![c]
    }
}

/// How a payload is written in a line: character by character.
pub open spec fn escaped(s: Seq<char>) -> Seq<char>
    decreases s.len(),
{
    if s.len() == 0 {
        Seq::empty()
    } else {
        escaped(s.drop_last()) + escaped_char(s.last())
    }
}

/// The line of an entry: its timestamp in decimal, a space, its payload, and
/// a line feed.
pub open spec fn line_of(entry: EntryView) -> Seq<char> {
    decimal_text(entry.timestamp as nat) + seq![' '] + escaped(entry.payload) + seq!['\n']
}

/// The text of a result set: the lines of its entries, in their order.
pub open spec fn text_of(entries: Seq<EntryView>) -> Seq<char>
    decreases entries.len(),
{
    if entries.len() == 0 {
        Seq::empty()
    } else {
        text_of(entries.drop_last()) + line_of(entries.last())
    }
}

/// How many line feeds `s` holds.
pub open spec fn line_breaks(s: Seq<char>) -> nat
    decreases s.len(),
{
    if s.len() == 0 {
        0
    } else {
        line_breaks(s.drop_last()) + if s.last() == '\n' {
            1nat
        } else {
            0nat
        }
    }
}

/// The line feeds of two texts put together are those of the one and those
/// of the other.
pub proof fn lemma_line_breaks_add(a: Seq<char>, b: Seq<char>)
    ensures
        line_breaks(a + b) == line_breaks(a) + line_breaks(b),
    decreases b.len(),
{
    if b.len() == 0 {
        assert(a + b =~= a);
    } else {
        lemma_line_breaks_add(a, b.drop_last());
        assert((a + b).drop_last() =~= a + b.drop_last());
        assert((a + b).last() == b.last());
    }
}

/// A text without a line feed among its characters has no line break.
pub proof fn lemma_no_line_breaks(s: Seq<char>)
    requires
        forall|i: int| 0 <= i < s.len() ==> #[trigger] s[i] != '\n',
    ensures
        line_breaks(s) == 0,
    decreases s.len(),
{
    if s.len() > 0 {
        let front = s.drop_last();
        assert forall|i: int| 0 <= i < front.len() implies #[trigger] front[i] != '\n' by {
            assert(front[i] == s[i]);
        }
        lemma_no_line_breaks(front);
    }
}

/// A payload as written in a line holds neither a line feed nor a carriage
/// return.
pub proof fn lemma_escaped_keeps_line(s: Seq<char>)
    ensures
        forall|i: int| 0 <= i < escaped(s).len() ==> #[trigger] escaped(s)[i] != '\n' && escaped(s)[i] != '\r',
    decreases s.len(),
{
    if s.len() > 0 {
        lemma_escaped_keeps_line(s.drop_last());
        let head = escaped(s.drop_last());
        let tail = escaped_char(s.last());
        assert forall|i: int| 0 <= i < escaped(s).len() implies #[trigger] escaped(s)[i] != '\n' && escaped(
            s,
        )[i] != '\r' by {
            if i < head.len() {
                assert(escaped(s)[i] == head[i]);
            } else {
                assert(escaped(s)[i] == tail[i - head.len()]);
            }
        }
    }
}

/// The line of an entry holds one line feed, and ends with it.
pub proof fn lemma_line_is_one_line(entry: EntryView)
    ensures
        line_breaks(line_of(entry)) == 1,
        line_of(entry).last() == '\n',
{
    let number = decimal_text(entry.timestamp as nat);
    let payload = escaped(entry.payload);
    lemma_decimal_text_denotes(entry.timestamp as nat);
    assert forall|i: int| 0 <= i < number.len() implies #[trigger] number[i] != '\n' by {
        assert(is_digit(number[i]));
    }
    lemma_no_line_breaks(number);
    lemma_escaped_keeps_line(entry.payload);
    lemma_no_line_breaks(payload);
    let space = seq![' '];
    let feed = seq!['\n'];
    assert(line_breaks(space) == 0) by {
        lemma_no_line_breaks(space);
    }
    assert(line_breaks(feed) == 1) by {
        assert(feed.drop_last() =~= Seq::<char>::empty());
        assert(line_breaks(feed.drop_last()) == 0);
        assert(feed.last() == '\n');
    }
    lemma_line_breaks_add(number, space);
    lemma_line_breaks_add(number + space, payload);
    lemma_line_breaks_add(number + space + payload, feed);
}

/// The text of a result set has as many lines as the set has entries.
pub proof fn lemma_text_has_a_line_for_each_entry(entries: Seq<EntryView>)
    ensures
        line_breaks(text_of(entries)) == entries.len(),
    decreases entries.len(),
{
    if entries.len() > 0 {
        lemma_text_has_a_line_for_each_entry(entries.drop_last());
        lemma_line_is_one_line(entries.last());
        lemma_line_breaks_add(text_of(entries.drop_last()), line_of(entries.last()));
    }
}

/// The text of a result set with one more entry is the text of the set and
/// then the line of the entry.
pub proof fn lemma_text_of_push(entries: Seq<EntryView>, entry: EntryView)
    ensures
        text_of(entries.push(entry)) == text_of(entries) + line_of(entry),
{
    assert(entries.push(entry).drop_last() =~= entries);
}

/// Writes `payload` at the end of `out` as it stands in a line.
pub fn push_escaped(out: &mut String, payload: &str)
    ensures
        final(out)@ == old(out)@ + escaped(payload@),
{
    broadcast use vstd::string::group_string_axioms;

    let ghost start = out@;
    assert(payload@.take(0) =~= Seq::<char>::empty());
    assert(start + escaped(payload@.take(0)) =~= start);
    for c in it: payload.chars()
        invariant
            it.seq() == payload@,
            out@ == start + escaped(payload@.take(it.index())),
    {
        let ghost done = out@;
        let ghost k = it.index();
        if c == '\\' {
            out.push('\\');
            out.push('\\');
        } else if c == '\n' {
            out.push('\\');
            out.push('n');
        } else if c == '\r' {
            out.push('\\');
            out.push('r');
        } else {
            out.push(c);
        }
        proof {
            assert(payload@.take(k + 1).drop_last() =~= payload@.take(k));
            assert(payload@.take(k + 1).last() == c);
            assert(out@ =~= done + escaped_char(c));
            assert(out@ =~= start + escaped(payload@.take(k + 1)));
        }
    }
    assert(payload@.take(payload@.len() as int) =~= payload@);
}

/// Writes the line of `entry` at the end of `out`.
pub fn write_entry_text(entry: &LogEntry, out: &mut String)
    ensures
        final(out)@ == old(out)@ + line_of(entry@),
{
    push_decimal(out, entry.timestamp);
    out.push(' ');
    push_escaped(out, entry.payload.as_str());
    out.push('\n');
    assert(out@ =~= old(out)@ + line_of(entry@));
}

/// Writes the text of `entries` at the end of `out`: one line for each
/// entry, in the order of `entries`.
pub fn write_entries_text(entries: &Vec<LogEntry>, out: &mut String)
    ensures
        final(out)@ == old(out)@ + text_of(views(entries@)),
{
    let ghost start = out@;
    let ghost all = views(entries@);
    let mut k: usize = 0;
    assert(all.take(0) =~= Seq::<EntryView>::empty());
    assert(start + text_of(all.take(0)) =~= start);
    while k < entries.len()
        invariant
            k <= entries.len(),
            all == views(entries@),
            out@ == start + text_of(all.take(k as int)),
        decreases entries.len() - k,
    {
        let ghost done = out@;
        write_entry_text(&entries[k], out);
        proof {
            assert(all.take(k + 1) =~= all.take(k as int).push(entries@[k as int]@));
            lemma_text_of_push(all.take(k as int), entries@[k as int]@);
            assert(out@ =~= start + text_of(all.take(k + 1)));
        }
        k = k + 1;
    }
    assert(all.take(entries.len() as int) =~= all);
}

/// The text of `entries`: one line for each entry, in the order of
/// `entries`.
pub fn entries_text(entries: &Vec<LogEntry>) -> (text: String)
    ensures
        text@ == text_of(views(entries@)),
{
    let mut text = String::new();
    write_entries_text(entries, &mut text);
    assert(Seq::<char>::empty() + text_of(views(entries@)) =~= text_of(views(entries@)));
    text
}

} // verus!
