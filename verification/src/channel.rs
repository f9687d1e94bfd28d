//! Trusted boundary around `std::sync::mpsc`, the one FIFO queue that links
//! each signal's producers to the registry.
//!
//! A channel carries plain `(time, value)` tick pairs. Nothing is assumed
//! about what a receive returns — producers on other threads decide that —
//! so callers must state what holds of every possible outcome.

use vstd::prelude::*;

verus! {

#[verifier::external_type_specification]
#[verifier::external_body]
#[verifier::reject_recursive_types(T)]
pub struct ExSender<T>(std::sync::mpsc::Sender<T>);

#[verifier::external_type_specification]
#[verifier::external_body]
#[verifier::reject_recursive_types(T)]
pub struct ExReceiver<T>(std::sync::mpsc::Receiver<T>);

/// Relies on `std::sync::mpsc::channel`: it returns the sending and the
/// receiving half of one newly created FIFO queue.
#[verifier::external_body]
pub(crate) fn new_sample_channel() -> (std::sync::mpsc::Sender<(i64, i64)>, std::sync::mpsc::Receiver<
    (i64, i64),
>) {
    std::sync::mpsc::channel()
}

/// Relies on `std::sync::mpsc::Sender::send`: it never blocks, succeeds
/// while the receiving half is alive, and otherwise hands the rejected
/// value back inside the error.
#[verifier::external_body]
pub(crate) fn send_pair(tx: &std::sync::mpsc::Sender<(i64, i64)>, sample: (i64, i64)) -> (r: Option<
    (i64, i64),
>)
    ensures
        r matches Some(rejected) ==> rejected == sample,
{
    match tx.send(sample) {
        Ok(()) => None,
        Err(e) => Some(e.0),
    }
}

/// Relies on `std::sync::mpsc::Sender::clone`: the clone feeds the same
/// queue as the original.
#[verifier::external_body]
pub(crate) fn clone_sender(tx: &std::sync::mpsc::Sender<(i64, i64)>) -> std::sync::mpsc::Sender<
    (i64, i64),
> {
    tx.clone()
}

/// Relies on `std::sync::mpsc::Receiver::try_recv`: it never blocks and
/// returns the queue's oldest pending value, or nothing when the queue is
/// currently empty or every sender is gone. Concurrent producers decide
/// which case applies, so nothing is promised about the outcome.
#[verifier::external_body]
pub(crate) fn try_recv_pair(rx: &mut std::sync::mpsc::Receiver<(i64, i64)>) -> Option<(i64, i64)> {
    rx.try_recv().ok()
}

} // verus!
