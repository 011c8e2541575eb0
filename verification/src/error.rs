//! The failure taxonomy of the core.  Every failure is per-connection or
//! per-call; none is fatal to the process.

use vstd::prelude::*;
use vstd::string::*;

use crate::message::MessageKind;

verus! {

/// What went wrong during an exchange with an agent.
#[derive(Debug)]
pub enum CoreError {
    /// The wire text could not be decoded; carries the original text.
    MalformedMessage(String),
    /// The wrong message arrived in the current state; carries the reason.
    ProtocolViolation(String),
    /// The transport closed or failed.
    ConnectionLost,
    /// A bridge exchange was answered by the wrong variant.
    UnexpectedReply(MessageKind),
    /// The addressed identity is not admitted.
    NotFound,
}

/// Mathematical model of `CoreError`.
pub enum ErrorModel {
    MalformedMessage(Seq<char>),
    ProtocolViolation(Seq<char>),
    ConnectionLost,
    UnexpectedReply(MessageKind),
    NotFound,
}

impl View for CoreError {
    type V = ErrorModel;

    open spec fn view(&self) -> ErrorModel {
        match self {
            CoreError::MalformedMessage(t) => ErrorModel::MalformedMessage(t@),
            CoreError::ProtocolViolation(t) => ErrorModel::ProtocolViolation(t@),
            CoreError::ConnectionLost => ErrorModel::ConnectionLost,
            CoreError::UnexpectedReply(k) => ErrorModel::UnexpectedReply(*k),
            CoreError::NotFound => ErrorModel::NotFound,
        }
    }
}

/// The short description of an error.
pub open spec fn describe_model(e: ErrorModel) -> Seq<char> {
    match e {
        ErrorModel::MalformedMessage(t) => "malformed message: "@ + t,
        ErrorModel::ProtocolViolation(t) => "protocol violation: "@ + t,
        ErrorModel::ConnectionLost => "connection lost"@,
        ErrorModel::UnexpectedReply(_) => "unexpected reply"@,
        ErrorModel::NotFound => "not found"@,
    }
}

impl CoreError {
    /// A short description, used where a failed exchange is replaced by a
    /// placeholder record.
    pub fn describe(&self) -> (r: String)
        ensures
            r@ == describe_model(self@),
    {
        match self {
            CoreError::MalformedMessage(t) => {
                let mut s = String::from_str("malformed message: ");
                s.append(t.as_str());
                s
            },
            CoreError::ProtocolViolation(t) => {
                let mut s = String::from_str("protocol violation: ");
                s.append(t.as_str());
                s
            },
            CoreError::ConnectionLost => String::from_str("connection lost"),
            CoreError::UnexpectedReply(_) => String::from_str("unexpected reply"),
            CoreError::NotFound => String::from_str("not found"),
        }
    }
}

} // verus!
