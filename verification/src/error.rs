//! What can go wrong during one request.
//!
//! Every failure ends the request it occurs in: nothing is retried, and
//! nothing that was read before the failure is handed out.

use vstd::prelude::*;

verus! {

/// A failure of the transport.
#[derive(Debug, PartialEq, Eq)]
pub enum TransportError {
    /// The connection could not be established; the text says why.
    ConnectFailed(String),
    /// Not all bytes could be written; the text says why.
    SendFailed(String),
    /// The stream ended where at least one more byte was needed.
    EndOfStream,
    /// Reading failed; the text says why.
    ReadFailed(String),
}

/// The step of a request at which the transport was used.
#[derive(Debug, Clone, Copy, PartialEq, Eq, Structural)]
pub enum Stage {
    Connect,
    Send,
    Status,
    Headers,
    Body,
}

/// A failure of a request.
#[derive(Debug, PartialEq, Eq)]
pub enum RequestError {
    /// The transport failed at `stage`; `error` is its failure, unchanged.
    Transport { stage: Stage, error: TransportError },
    /// The status line has fewer than three parts.
    InvalidStatusLine,
    /// The second part of the status line is no status code.
    InvalidStatusCode,
}

/// What a `TransportError` holds, as mathematical text.
pub enum TransportFailure {
    ConnectFailed(Seq<char>),
    SendFailed(Seq<char>),
    EndOfStream,
    ReadFailed(Seq<char>),
}

/// What a `RequestError` holds, as mathematical text.
pub enum RequestFailure {
    Transport { stage: Stage, failure: TransportFailure },
    InvalidStatusLine,
    InvalidStatusCode,
}

impl View for TransportError {
    type V = TransportFailure;

    open spec fn view(&self) -> TransportFailure {
        match self {
            TransportError::ConnectFailed(why) => TransportFailure::ConnectFailed(why@),
            TransportError::SendFailed(why) => TransportFailure::SendFailed(why@),
            TransportError::EndOfStream => TransportFailure::EndOfStream,
            TransportError::ReadFailed(why) => TransportFailure::ReadFailed(why@),
        }
    }
}

impl View for RequestError {
    type V = RequestFailure;

    open spec fn view(&self) -> RequestFailure {
        match self {
            RequestError::Transport { stage, error } => RequestFailure::Transport {
                stage: *stage,
                failure: error@,
            },
            RequestError::InvalidStatusLine => RequestFailure::InvalidStatusLine,
            RequestError::InvalidStatusCode => RequestFailure::InvalidStatusCode,
        }
    }
}

/// The words of a failure: what failed, a colon, and why.
pub open spec fn failure_text(what: Seq<char>, why: Seq<char>) -> Seq<char> {
    what + ": "@ + why
}

/// The words of a failure: what failed, a colon, and why.
pub fn describe(what: &str, why: &str) -> (words: String)
    ensures
        words@ == failure_text(what@, why@),
{
    let mut words = String::from_str(what);
    words.append(": ");
    words.append(why);
    words
}

impl TransportError {
    /// The failure to connect to `address`, for the reason `why`.
    pub fn connect_failed(address: &str, why: &str) -> (failure: TransportError)
        ensures
            failure matches TransportError::ConnectFailed(words) && words@ == failure_text(
                "Failed to connect to "@ + address@,
                why@,
            ),
    {
        let mut what = String::from_str("Failed to connect to ");
        what.append(address);
        TransportError::ConnectFailed(describe(what.as_str(), why))
    }

    /// The failure in words.
    pub open spec fn text(self) -> Seq<char> {
        match self {
            TransportError::ConnectFailed(why) => why@,
            TransportError::SendFailed(why) => why@,
            TransportError::EndOfStream => "End of file reached"@,
            TransportError::ReadFailed(why) => why@,
        }
    }

    /// The failure in words: the text it carries, as it was given.
    pub fn message(&self) -> (words: String)
        ensures
            words@ == self.text(),
    {
        match self {
            TransportError::ConnectFailed(why) => why.clone(),
            TransportError::SendFailed(why) => why.clone(),
            TransportError::EndOfStream => String::from_str("End of file reached"),
            TransportError::ReadFailed(why) => why.clone(),
        }
    }
}

impl RequestError {
    /// The failure in words.
    pub open spec fn text(self) -> Seq<char> {
        match self {
            RequestError::Transport { stage, error } => error.text(),
            RequestError::InvalidStatusLine => "Invalid HTTP status line"@,
            RequestError::InvalidStatusCode => "Invalid HTTP status code"@,
        }
    }

    /// The failure in words; a failure of the transport speaks for itself.
    pub fn message(&self) -> (words: String)
        ensures
            words@ == self.text(),
    {
        match self {
            RequestError::Transport { stage, error } => error.message(),
            RequestError::InvalidStatusLine => String::from_str("Invalid HTTP status line"),
            RequestError::InvalidStatusCode => String::from_str("Invalid HTTP status code"),
        }
    }
}

} // verus!
