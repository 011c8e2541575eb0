//! Trusted view of the transport-side primitives the core relies on: the
//! per-connection pipes between the registry side and the pump that owns the
//! physical duplex connection.

use vstd::prelude::*;

verus! {

#[verifier::external_type_specification]
#[verifier::external_body]
#[verifier::reject_recursive_types(T)]
pub struct ExUnboundedSender<T>(tokio::sync::mpsc::UnboundedSender<T>);

#[verifier::external_type_specification]
#[verifier::external_body]
#[verifier::reject_recursive_types(T)]
pub struct ExUnboundedReceiver<T>(tokio::sync::mpsc::UnboundedReceiver<T>);

/// Relies on tokio's `UnboundedSender::send`: enqueueing onto an unbounded
/// channel never blocks; it fails exactly when the receiving half is gone,
/// and nothing is assumed about which of the two happens.
#[verifier::external_body]
pub(crate) fn send_frame(tx: &tokio::sync::mpsc::UnboundedSender<String>, frame: String) -> (r:
    bool) {
    tx.send(frame).is_ok()
}

/// Relies on tokio's `UnboundedReceiver::blocking_recv`: the next queued
/// frame, or `None` once the sending half is gone and the queue is drained.
/// Nothing is assumed about the outcome.  tokio panics when this is called
/// from inside an asynchronous runtime, so asynchronous callers must await
/// the receiver themselves and hand what arrived to the library.
#[verifier::external_body]
pub(crate) fn recv_frame_blocking(rx: &mut tokio::sync::mpsc::UnboundedReceiver<String>) -> (r:
    Option<String>) {
    rx.blocking_recv()
}

} // verus!
