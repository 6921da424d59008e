//! The request message and its single-shot response sink.
//!
//! A request carries an opaque payload (the canonical serialization of the
//! application value), a permission value classifying it for the firewall,
//! and a one-use sink on which exactly one response may be sent. Dropping
//! the sink without sending is the canonical signal that no response will
//! come; the sink is owned by whoever currently holds the request and is
//! never duplicated.

use vstd::prelude::*;

use futures::channel::oneshot;

verus! {

#[verifier::external_type_specification]
#[verifier::external_body]
#[verifier::reject_recursive_types(T)]
pub struct ExSender<T>(oneshot::Sender<T>);

#[verifier::external_type_specification]
#[verifier::external_body]
#[verifier::reject_recursive_types(T)]
pub struct ExReceiver<T>(oneshot::Receiver<T>);

#[verifier::external_type_specification]
#[verifier::external_body]
pub struct ExCanceled(oneshot::Canceled);

/// One application request: its serialized payload, its permission value
/// for rule checks, and the sink for its one response.
pub struct RequestMessage {
    pub data: Vec<u8>,
    pub permission: u64,
    pub response_tx: oneshot::Sender<Vec<u8>>,
}

/// Relies on futures::channel::oneshot::channel: creates a fresh connected
/// sender/receiver pair for exactly one value.
#[verifier::external_body]
pub(crate) fn response_channel() -> (r: (oneshot::Sender<Vec<u8>>, oneshot::Receiver<Vec<u8>>)) {
    oneshot::channel()
}

/// Relies on futures::channel::oneshot::Sender::send: delivers the value if
/// the receiving half is still alive; whether it was is known only to the
/// host, so nothing is promised of the outcome.
#[verifier::external_body]
pub(crate) fn send_response(sink: oneshot::Sender<Vec<u8>>, value: Vec<u8>) -> (r: bool) {
    sink.send(value).is_ok()
}

} // verus!
