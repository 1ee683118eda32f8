//! The ways in which a request can fail.

use vstd::prelude::*;

verus! {

/// Why a request was not answered with data. Every kind reaches the caller in
/// the same envelope; only the message tells them apart.
#[derive(Clone, Copy, Debug, PartialEq, Eq, Structural)]
pub enum LogError {
    /// The `time` field is missing or malformed.
    InvalidQuery,
    /// No entry carries the timestamp that a point query asked for.
    NotFound,
    /// The store could not take or give an entry.
    StorageError,
    /// The codec could not encode a range result.
    CompressionError,
}

impl LogError {
    /// The text by which the envelope tells this kind from the others.
    pub open spec fn message_text(self) -> Seq<char> {
        match self {
            LogError::InvalidQuery => "Invalid query"@,
            LogError::NotFound => "Not found"@,
            LogError::StorageError => "Storage error"@,
            LogError::CompressionError => "Compression failed"@,
        }
    }

    pub fn message(&self) -> (r: &'static str)
        ensures
            r@ == self.message_text(),
    {
        match self {
            LogError::InvalidQuery => "Invalid query",
            LogError::NotFound => "Not found",
            LogError::StorageError => "Storage error",
            LogError::CompressionError => "Compression failed",
        }
    }
}

/// No two kinds of failure share a message.
pub proof fn lemma_messages_differ(a: LogError, b: LogError)
    requires
        a != b,
    ensures
        a.message_text() != b.message_text(),
{
    reveal_strlit("Invalid query");
    reveal_strlit("Not found");
    reveal_strlit("Storage error");
    reveal_strlit("Compression failed");
    let x = a.message_text();
    let y = b.message_text();
    if x == y {
        assert(x.len() == y.len());
        assert(x[0] == y[0]);
    }
}

} // verus!
