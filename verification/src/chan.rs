//! The cross-thread queues the streaming sink and source speak over.
//!
//! The traversal runs synchronously on a blocking worker; an async backend
//! owns the other end of each queue. These are the only operations the
//! library takes on trust from the queue crate; everything either side of
//! them is verified against what a call can and cannot promise: a send or
//! receive on a shared queue may always fail once the peer is gone, so no
//! contract here promises success.

use vstd::prelude::*;

verus! {

#[verifier::external_type_specification]
#[verifier::external_body]
#[verifier::reject_recursive_types(T)]
pub struct ExTokioSender<T>(tokio::sync::mpsc::Sender<T>);

#[verifier::external_type_specification]
#[verifier::external_body]
#[verifier::reject_recursive_types(T)]
pub struct ExTokioReceiver<T>(tokio::sync::mpsc::Receiver<T>);

/// Relies on tokio's bounded mpsc queue: `Sender::blocking_send` enqueues
/// the byte, blocking while the queue is full, and fails exactly when the
/// receiving half is gone. Must run outside the async runtime, as the
/// traversal does on its blocking worker.
#[verifier::external_body]
pub(crate) fn send_byte(tx: &tokio::sync::mpsc::Sender<u8>, byte: u8) -> (r: Result<
    (),
    (),
>) {
    tx.blocking_send(byte).map_err(|_| ())
}

/// Relies on tokio's bounded mpsc queue, as `send_byte`: carries one pull
/// request, the number of bytes wanted.
#[verifier::external_body]
pub(crate) fn send_count(tx: &tokio::sync::mpsc::Sender<usize>, count: usize) -> (r:
    Result<(), ()>) {
    tx.blocking_send(count).map_err(|_| ())
}

/// Relies on tokio's bounded mpsc queue: `Receiver::blocking_recv` waits for
/// the next message and yields nothing exactly when the queue is empty and
/// every sender is gone. Must run outside the async runtime.
#[verifier::external_body]
pub(crate) fn recv_chunk(rx: &mut tokio::sync::mpsc::Receiver<Vec<u8>>) -> (r: Option<
    Vec<u8>,
>) {
    rx.blocking_recv()
}

} // verus!
