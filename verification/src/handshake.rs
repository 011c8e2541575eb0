//! The handshake that admits or rejects a new connection.  The only
//! acceptable first message is `Establish` with the expected credential;
//! anything else is rejected with an `Error` reply queued to the transport,
//! and the identity is never admitted.

use vstd::prelude::*;
use vstd::string::*;

use crate::codec::{decode_message, encode_message, spec_decode};
use crate::error::{CoreError, ErrorModel};
use crate::message::{MessageModel, MessagePack};
use crate::registry::{ConnectionHandle, Registry};
use crate::transport::send_frame;

verus! {

/// How a handshake ended.
pub enum HandshakeOutcome {
    /// The connection was admitted under `id` and an `Acknowledge` was
    /// queued to it.
    Admitted { id: u128 },
    /// The connection was rejected and is to be torn down; it never reached
    /// the table.
    Rejected { error: CoreError },
}

/// Runs the handshake on the first inbound frame of a new connection.
///
/// `first` is the first frame the transport yielded (`None`: it closed
/// before speaking).  On a well-formed `Establish` carrying the expected
/// credential the connection is admitted: an `Acknowledge` is queued on
/// `tx` and the handle enters the table, replacing any prior entry under
/// the same identity.  On anything else the table is left unchanged, an
/// `Error` reply is queued if the transport still listens, and the caller
/// tears the connection down.
pub fn run_handshake(
    registry: &mut Registry,
    first: Option<String>,
    expected_credential: &str,
    tx: tokio::sync::mpsc::UnboundedSender<String>,
    rx: tokio::sync::mpsc::UnboundedReceiver<String>,
) -> (r: HandshakeOutcome)
    requires
        old(registry).wf(),
    ensures
        final(registry).wf(),
        match r {
            HandshakeOutcome::Admitted { id } => match first {
                Option::Some(t) => match spec_decode(t@) {
                    Option::Some(MessageModel::Establish { id: mid, password }) => mid == id
                        && password == expected_credential@ && final(registry).ids() == old(
                        registry,
                    ).ids().insert(id),
                    _ => false,
                },
                Option::None => false,
            },
            HandshakeOutcome::Rejected { error } => final(registry).ids() == old(registry).ids()
                && (match first {
                Option::None => error@ is ConnectionLost,
                Option::Some(t) => match spec_decode(t@) {
                    Option::None => (error@ matches ErrorModel::MalformedMessage(u) && u == t@),
                    Option::Some(MessageModel::Establish { id: _, password }) => password
                        != expected_credential@ && error@ matches ErrorModel::ProtocolViolation(_),
                    Option::Some(_) => error@ matches ErrorModel::ProtocolViolation(_),
                },
            }),
        },
{
    match first {
        None => HandshakeOutcome::Rejected { error: CoreError::ConnectionLost },
        Some(text) => {
            match decode_message(text.as_str()) {
                Err(e) => {
                    let reply = encode_message(
                        &MessagePack::Error {
                            message: String::from_str("malformed establish message"),
                        },
                    );
                    let _queued = send_frame(&tx, reply);
                    HandshakeOutcome::Rejected { error: e }
                },
                Ok(MessagePack::Establish { id, password }) => {
                    let expected = expected_credential.to_owned();
                    if password == expected {
                        let ack = encode_message(&MessagePack::Acknowledge);
                        let _queued = send_frame(&tx, ack);
                        let handle = ConnectionHandle::new(id, tx, rx);
                        registry.insert(handle);
                        HandshakeOutcome::Admitted { id }
                    } else {
                        let reply = encode_message(
                            &MessagePack::Error { message: String::from_str("Invalid password") },
                        );
                        let _queued = send_frame(&tx, reply);
                        HandshakeOutcome::Rejected {
                            error: CoreError::ProtocolViolation(
                                String::from_str("invalid credential"),
                            ),
                        }
                    }
                },
                Ok(_) => {
                    let reply = encode_message(
                        &MessagePack::Error {
                            message: String::from_str("expected an establish message first"),
                        },
                    );
                    let _queued = send_frame(&tx, reply);
                    HandshakeOutcome::Rejected {
                        error: CoreError::ProtocolViolation(
                            String::from_str("first message must establish the connection"),
                        ),
                    }
                },
            }
        },
    }
}

} // verus!
