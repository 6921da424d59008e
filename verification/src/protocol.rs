//! Substream protocol types: the protocol identifier and the per-substream
//! upgrade state for one request/response round trip.
//!
//! A substream is usable only when both peers advertise the protocol
//! identifier; a handler that advertises no protocol rejects every
//! substream. The asynchronous reads and writes happen in the host, which
//! hands the framed bytes in and out of these types.

use vstd::prelude::*;

use futures::channel::oneshot;

use crate::codec::CodecError;
use crate::codec::decode_frame;
use crate::codec::encode_frame;
use crate::codec::frame_bytes;
use crate::codec::max_frame_payload;
use crate::codec::spec_decode_frame;
use crate::message::RequestMessage;
use crate::message::response_channel;
use crate::message::send_response;

verus! {

/// The protocol identifier: an exchange succeeds only if both peers
/// advertise it.
#[derive(Clone, Copy, PartialEq, Eq, Structural, Debug)]
pub struct CommunicationProtocol;

impl CommunicationProtocol {
    /// The identifier bytes put on the wire during negotiation.
    pub fn protocol_name(&self) -> (r: &'static str)
        ensures
            r@ == "/stronghold-communication/1.0.0"@,
    {
        "/stronghold-communication/1.0.0"
    }
}

/// Inbound substream upgrade: receives one request and sends one response.
pub struct ResponseProtocol {
    /// Protocols advertised for inbound requests; an empty list rejects
    /// every inbound substream.
    pub protocols: Vec<CommunicationProtocol>,
    /// Hands the received request, with a fresh response sink, to the
    /// manager.
    pub request_tx: oneshot::Sender<RequestMessage>,
}

/// Outbound substream upgrade: sends one request and receives one response.
pub struct RequestProtocol {
    /// Protocols advertised for outbound requests; an empty list rejects
    /// every outbound substream.
    pub protocols: Vec<CommunicationProtocol>,
    /// The request to send; its sink receives the response.
    pub request: RequestMessage,
}

impl ResponseProtocol {
    /// The protocols this upgrade advertises.
    pub fn protocol_info(&self) -> (r: Vec<CommunicationProtocol>)
        ensures
            r@.len() == self.protocols@.len(),
    {
        self.protocols.clone()
    }

    /// Whether the upgrade admits a substream at all: an empty protocol set
    /// rejects it.
    pub fn accepts_substream(&self) -> (r: bool)
        ensures
            r == (self.protocols@.len() != 0),
    {
        self.protocols.len() != 0
    }

    /// Take delivery of the one framed request read from the substream:
    /// decode it, hand it to the manager with a fresh response sink, and
    /// return the half on which the response (or its refusal) will arrive.
    pub fn deliver_request(self, frame: &Vec<u8>, max_len: usize, permission: u64) -> (r: Result<
        oneshot::Receiver<Vec<u8>>,
        CodecError,
    >)
        ensures
            r is Ok <==> spec_decode_frame(frame@, max_len as nat) is Some,
            r is Err ==> r == Result::<oneshot::Receiver<Vec<u8>>, CodecError>::Err(
                CodecError::InvalidData,
            ),
    {
        match decode_frame(frame, max_len) {
            Err(e) => Err(e),
            Ok(data) => {
                let pair = response_channel();
                let message = RequestMessage { data, permission, response_tx: pair.0 };
                forward_request(self.request_tx, message);
                Ok(pair.1)
            },
        }
    }
}

impl RequestProtocol {
    /// The protocols this upgrade advertises.
    pub fn protocol_info(&self) -> (r: Vec<CommunicationProtocol>)
        ensures
            r@.len() == self.protocols@.len(),
    {
        self.protocols.clone()
    }

    /// Whether the upgrade admits a substream at all: an empty protocol set
    /// rejects it.
    pub fn accepts_substream(&self) -> (r: bool)
        ensures
            r == (self.protocols@.len() != 0),
    {
        self.protocols.len() != 0
    }

    /// The framed bytes of the request, ready to write to the substream;
    /// nothing if the payload exceeds what a frame can carry.
    pub fn request_frame(&self) -> (r: Option<Vec<u8>>)
        ensures
            r is Some <==> self.request.data@.len() <= max_frame_payload(),
            r is Some ==> r->Some_0@ == frame_bytes(self.request.data@),
    {
        if self.request.data.len() <= 0xffff_ffff as usize {
            Some(encode_frame(&self.request.data))
        } else {
            None
        }
    }

    /// Complete the exchange with the one framed response read from the
    /// substream: decode it and offer it on the caller's sink. Yields
    /// whether the caller still listened.
    pub fn complete(self, frame: &Vec<u8>, max_len: usize) -> (r: Result<bool, CodecError>)
        ensures
            r is Ok <==> spec_decode_frame(frame@, max_len as nat) is Some,
            r is Err ==> r == Result::<bool, CodecError>::Err(CodecError::InvalidData),
    {
        match decode_frame(frame, max_len) {
            Err(e) => Err(e),
            Ok(response) => Ok(send_response(self.request.response_tx, response)),
        }
    }
}

/// Relies on futures::channel::oneshot::Sender::send: hands the parsed
/// request to the manager if it still listens; either way the sender half is
/// consumed.
#[verifier::external_body]
fn forward_request(tx: oneshot::Sender<RequestMessage>, message: RequestMessage) {
    let _ = tx.send(message);
}

} // verus!
