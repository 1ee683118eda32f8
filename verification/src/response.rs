//! What the service hands back for a request.

use vstd::prelude::*;
use crate::entry::{EntryView, LogEntry};
use crate::error::LogError;

verus! {

/// The envelope of a structured answer: a status, which is 0 for success, a
/// message, and the data where there is any.
#[derive(Debug)]
pub struct ResponseJson<T> {
    pub status: u32,
    pub message: Option<String>,
    pub data: Option<T>,
}

impl<T> ResponseJson<T> {
    /// The envelope of a failure: the status and message given, and no data.
    pub fn error(status: u32, message: &str) -> (r: Self)
        ensures
            r.status == status,
            r.message is Some,
            r.message.unwrap()@ == message@,
            r.data is None,
    {
        ResponseJson { status, data: None, message: Some(message.to_owned()) }
    }

    /// The envelope of a success: status 0, the message `OK`, and the data.
    pub fn ok(data: T) -> (r: Self)
        ensures
            r.status == 0,
            r.message is Some,
            r.message.unwrap()@ == "OK"@,
            r.data == Some(data),
    {
        ResponseJson { status: 0, message: Some("OK".to_owned()), data: Some(data) }
    }
}

/// What an envelope around an entry holds, as plain values.
pub struct EnvelopeView {
    pub status: u32,
    pub message: Option<Seq<char>>,
    pub data: Option<EntryView>,
}

/// What `envelope` holds, as plain values.
pub open spec fn envelope_view(envelope: ResponseJson<LogEntry>) -> EnvelopeView {
    EnvelopeView {
        status: envelope.status,
        message: match envelope.message {
            Some(m) => Some(m@),
            None => None,
        },
        data: match envelope.data {
            Some(e) => Some(e@),
            None => None,
        },
    }
}

/// The answer to a request, in one of its three shapes.
#[derive(Debug)]
pub enum Reply {
    /// A structured answer: the entry of a point query, or a failure.
    Envelope(ResponseJson<LogEntry>),
    /// The entries of a range query as text, one line for each.
    Text(String),
    /// The entries of a range query as the codec packed them.
    Binary(Vec<u8>),
}

/// What a reply holds, as plain values.
pub enum ReplyView {
    Envelope(EnvelopeView),
    Text(Seq<char>),
    Binary(Seq<u8>),
}

impl View for Reply {
    type V = ReplyView;

    open spec fn view(&self) -> ReplyView {
        match self {
            Reply::Envelope(envelope) => ReplyView::Envelope(envelope_view(*envelope)),
            Reply::Text(text) => ReplyView::Text(text@),
            Reply::Binary(bytes) => ReplyView::Binary(bytes@),
        }
    }
}

/// The status that every failure carries.
pub const FAILURE_STATUS: u32 = 1;

/// The reply to a request that failed: status 1, the message of the kind of
/// failure, and no data.
pub open spec fn failure(error: LogError) -> ReplyView {
    ReplyView::Envelope(
        EnvelopeView { status: FAILURE_STATUS, message: Some(error.message_text()), data: None },
    )
}

/// The reply to a point query that found `entry`: status 0, the message
/// `OK`, and the entry.
pub open spec fn found(entry: EntryView) -> ReplyView {
    ReplyView::Envelope(EnvelopeView { status: 0, message: Some("OK"@), data: Some(entry) })
}

/// The reply to a request that failed with `error`.
pub fn failure_reply(error: LogError) -> (r: Reply)
    ensures
        r@ == failure(error),
{
    Reply::Envelope(ResponseJson::error(FAILURE_STATUS, error.message()))
}

/// The reply to a point query that found `entry`.
pub fn found_reply(entry: LogEntry) -> (r: Reply)
    ensures
        r@ == found(entry@),
{
    Reply::Envelope(ResponseJson::ok(entry))
}

/// A failure is told from a success by its status, and one kind of failure
/// from another by its message.
pub proof fn lemma_replies_differ(a: LogError, b: LogError, entry: EntryView)
    ensures
        failure(a) != found(entry),
        a != b ==> failure(a) != failure(b),
{
    if a != b {
        crate::error::lemma_messages_differ(a, b);
    }
}

} // verus!
