//! Core identifiers and event types of the request/response layer.
//!
//! Peers and connections are identified by opaque numeric handles: the
//! transport layer that produces the real identities sits outside of this
//! library and hands them in as plain values.

use vstd::prelude::*;

verus! {

/// Identity of a remote peer. The transport derives it from the peer's
/// public key; within this library it is an opaque, equatable handle.
#[derive(Clone, Copy, PartialEq, Eq, Structural, Hash, Debug)]
pub struct PeerId {
    pub id: u64,
}

/// Handle for one live connection to a peer. A peer may have several
/// connections at the same time.
#[derive(Clone, Copy, PartialEq, Eq, Structural, Hash, Debug)]
pub struct ConnectionId {
    pub id: u64,
}

/// Process-unique handle for a request, assigned when the request enters the
/// manager. Ids are handed out in increasing order, which keeps the
/// awaiting-approval list sorted by plain appends.
#[derive(Clone, Copy, PartialEq, Eq, Structural, Hash, Debug)]
pub struct RequestId {
    pub id: u64,
}

/// Whether a request was received from the remote (`Inbound`) or issued
/// locally (`Outbound`).
#[derive(Clone, Copy, PartialEq, Eq, Structural, Hash, Debug)]
pub enum RequestDirection {
    Inbound,
    Outbound,
}

/// Which directions of the request/response protocol a connection handler
/// should negotiate.
#[derive(Clone, Copy, PartialEq, Eq, Structural, Debug)]
pub enum ProtocolSupport {
    Inbound,
    Outbound,
    Both,
    Neither,
}

/// Reason a received request could not be completed.
#[derive(Clone, Copy, PartialEq, Eq, Structural, Debug)]
pub enum InboundFailure {
    NotPermitted,
    ConnectionClosed,
    Timeout,
    UnsupportedProtocols,
}

/// Reason a locally issued request could not be completed.
#[derive(Clone, Copy, PartialEq, Eq, Structural, Debug)]
pub enum OutboundFailure {
    NotPermitted,
    ConnectionClosed,
    DialFailure,
    Timeout,
    UnsupportedProtocols,
}

} // verus!
