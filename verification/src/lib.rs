//! A secure peer-to-peer request/response layer: a verified request manager
//! that reconciles incoming and outgoing requests against firewall rules,
//! approvals and the live connection topology, together with the wire codec
//! and the substream protocol types that drive a single round-trip exchange.

use vstd::prelude::*;

pub mod approvals;
pub mod codec;
pub mod connections;
pub mod firewall;
pub mod message;
pub mod protocol;
pub mod request_manager;
pub mod types;

verus! {

} // verus!
