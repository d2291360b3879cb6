//! The bounded single-producer/single-consumer hand-off between the polling
//! side and the aggregation side, backed by crossbeam's channels.
//!
//! The channel itself is outside code; these declarations and wrappers are
//! what the rest of the library relies on. What arrives
//! on the receiving end depends on the sending thread, so the receive wrapper
//! promises nothing about the value it hands back.

use vstd::prelude::*;

verus! {

#[verifier::external_type_specification]
#[verifier::external_body]
#[verifier::reject_recursive_types(T)]
pub struct ExSender<T>(crossbeam::channel::Sender<T>);

#[verifier::external_type_specification]
#[verifier::external_body]
#[verifier::reject_recursive_types(T)]
pub struct ExReceiver<T>(crossbeam::channel::Receiver<T>);

/// Relies on crossbeam's `Sender::send`: it blocks while the bounded queue is
/// full and fails only once every receiver is gone; the result says whether
/// the value was accepted.
#[verifier::external_body]
pub(crate) fn send_value<T>(tx: &crossbeam::channel::Sender<T>, value: T) -> (accepted: bool) {
    tx.send(value).is_ok()
}

/// Relies on crossbeam's `Receiver::recv_timeout`: it waits up to the given
/// number of milliseconds for a value; `None` on timeout or disconnection.
#[verifier::external_body]
pub(crate) fn recv_value_timeout_ms<T>(
    rx: &crossbeam::channel::Receiver<T>,
    timeout_ms: u64,
) -> (received: Option<T>) {
    rx.recv_timeout(core::time::Duration::from_millis(timeout_ms)).ok()
}

} // verus!
