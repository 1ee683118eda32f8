//! The way of a request through the service: from its fields to the reply.

use vstd::prelude::*;
use crate::encode::{entries_text, text_of};
use crate::entry::{EntryView, LogEntry};
use crate::error::LogError;
use crate::query::{
    compression_requested, mode_of_query, mode_of_text, parse_query, wants_compression, Input, Mode,
};
use crate::response::{failure, failure_reply, found, found_reply, Reply, ReplyView};
use crate::store::{entry_at, scan_of, LogStore};

verus! {

/// Where a request stands once the store has been read: answered, or
/// waiting for the codec to pack the text of its result.
#[derive(Debug)]
pub enum Outcome {
    /// The reply is ready.
    Done(Reply),
    /// The text of a range result that the caller asked to have compressed.
    /// The codec's result goes to `finish_compression`.
    Compress(String),
}

/// What an outcome holds, as plain values.
pub enum OutcomeView {
    Done(ReplyView),
    Compress(Seq<char>),
}

impl View for Outcome {
    type V = OutcomeView;

    open spec fn view(&self) -> OutcomeView {
        match self {
            Outcome::Done(reply) => OutcomeView::Done(reply@),
            Outcome::Compress(text) => OutcomeView::Compress(text@),
        }
    }
}

/// What a request comes to on a log.
///
/// A missing or malformed request fails as an invalid query. A point query
/// gives the entry at its timestamp, or fails as not found. A range query
/// gives the text of the entries in its interval: as the reply where the
/// request declines compression, and else as text for the codec. The choice
/// goes by the request alone, never by the result.
pub open spec fn outcome_of(log: Seq<EntryView>, query: Option<Input>) -> OutcomeView {
    match mode_of_query(query) {
        None => OutcomeView::Done(failure(LogError::InvalidQuery)),
        Some(Mode::Single(timestamp)) => match entry_at(log, timestamp) {
            Some(entry) => OutcomeView::Done(found(entry)),
            None => OutcomeView::Done(failure(LogError::NotFound)),
        },
        Some(Mode::Range(from, to)) => {
            let text = text_of(scan_of(log, from, to));
            if wants_compression(query) {
                OutcomeView::Compress(text)
            } else {
                OutcomeView::Done(ReplyView::Text(text))
            }
        },
    }
}

/// The reply once the codec is done: what it packed, or, where it failed,
/// the failure. A failed compression never falls back to the text.
pub open spec fn compression_reply(packed: Option<Seq<u8>>) -> ReplyView {
    match packed {
        Some(bytes) => ReplyView::Binary(bytes),
        None => failure(LogError::CompressionError),
    }
}

/// A request that asks for nothing fails as an invalid query, whatever the
/// log holds.
pub proof fn lemma_invalid_query_fails_on_any_log(log: Seq<EntryView>, query: Option<Input>)
    requires
        mode_of_query(query) is None,
    ensures
        outcome_of(log, query) == OutcomeView::Done(failure(LogError::InvalidQuery)),
{
}

/// A point query is answered in the same way whether or not the request
/// asks for compression.
pub proof fn lemma_point_query_is_never_compressed(log: Seq<EntryView>, a: Input, b: Input)
    requires
        a.time@ == b.time@,
        mode_of_text(a.time@) matches Some(Mode::Single(_)),
    ensures
        outcome_of(log, Some(a)) == outcome_of(log, Some(b)),
        outcome_of(log, Some(a)) is Done,
{
}

/// The text that a range query hands to the codec is the text that it gives
/// as its reply where the request declines compression.
pub proof fn lemma_codec_is_given_the_text(log: Seq<EntryView>, packed: Input, plain: Input)
    requires
        packed.time@ == plain.time@,
        wants_compression(Some(packed)),
        !wants_compression(Some(plain)),
        mode_of_text(plain.time@) matches Some(Mode::Range(_, _)),
    ensures
        outcome_of(log, Some(packed)) is Compress,
        outcome_of(log, Some(plain)) == OutcomeView::Done(
            ReplyView::Text(outcome_of(log, Some(packed))->Compress_0),
        ),
{
}

/// The entry that a point query for `timestamp` finds; where the store
/// holds none with that timestamp, the query fails as not found.
pub fn search_entry_single(store: &LogStore, timestamp: u64) -> (r: Result<LogEntry, LogError>)
    ensures
        match r {
            Ok(entry) => entry_at(store@, timestamp) == Some(entry@),
            Err(e) => e == LogError::NotFound && entry_at(store@, timestamp) is None,
        },
{
    match store.get(timestamp) {
        Some(entry) => Ok(entry),
        None => Err(LogError::NotFound),
    }
}

/// Answers a request from the store.
pub fn get(store: &LogStore, query: &Option<Input>) -> (r: Outcome)
    ensures
        r@ == outcome_of(store@, *query),
{
    let mode = match parse_query(query) {
        Ok(mode) => mode,
        Err(_) => {
            return Outcome::Done(failure_reply(LogError::InvalidQuery));
        },
    };
    match mode {
        Mode::Single(timestamp) => match search_entry_single(store, timestamp) {
            Ok(entry) => Outcome::Done(found_reply(entry)),
            Err(e) => Outcome::Done(failure_reply(e)),
        },
        Mode::Range(from, to) => {
            let entries = store.scan(from, to);
            let text = entries_text(&entries);
            if compression_requested(query) {
                Outcome::Compress(text)
            } else {
                Outcome::Done(Reply::Text(text))
            }
        },
    }
}

/// Ends a request whose result went to the codec: `packed` is what the
/// codec gave, or nothing where it failed.
pub fn finish_compression(packed: Option<Vec<u8>>) -> (r: Reply)
    ensures
        r@ == compression_reply(
            match packed {
                Some(bytes) => Some(bytes@),
                None => None,
            },
        ),
{
    match packed {
        Some(bytes) => Reply::Binary(bytes),
        None => failure_reply(LogError::CompressionError),
    }
}

} // verus!
