//! Firewall rules: per-peer, per-direction policies that decide whether a
//! request is admitted automatically, needs individual approval, or is
//! rejected.
//!
//! A request carries a permission value: a bitmask with one bit per request
//! variant. A `Rule::Permission` mask admits the request iff every bit of the
//! request's permission value is set in the mask.

use vstd::prelude::*;

verus! {

/// A per-direction firewall rule.
#[derive(Clone, Copy, PartialEq, Eq, Structural, Debug)]
pub enum Rule {
    /// Every request needs individual approval.
    Ask,
    /// Requests are admitted iff the mask permits their permission value.
    Permission(u64),
}

/// Whether a mask admits a request with the given permission value: every
/// bit of the value must be set in the mask.
pub open spec fn spec_permits(mask: u64, value: u64) -> bool {
    mask & value == value
}

/// Decide whether `mask` admits a request classified by `value`.
pub fn permits(mask: u64, value: u64) -> (r: bool)
    ensures
        r == spec_permits(mask, value),
{
    mask & value == value
}

/// The pair of optional rules a peer currently has, one per direction.
#[derive(Clone, Copy, PartialEq, Eq, Structural, Debug)]
pub struct FirewallRules {
    pub inbound: Option<Rule>,
    pub outbound: Option<Rule>,
}

impl FirewallRules {
    /// Rules with neither direction set.
    pub fn empty() -> (r: FirewallRules)
        ensures
            r.inbound is None,
            r.outbound is None,
    {
        FirewallRules { inbound: None, outbound: None }
    }

    /// The rule for inbound requests, if one is set.
    pub fn inbound(&self) -> (r: Option<Rule>)
        ensures
            r == self.inbound,
    {
        self.inbound
    }

    /// The rule for outbound requests, if one is set.
    pub fn outbound(&self) -> (r: Option<Rule>)
        ensures
            r == self.outbound,
    {
        self.outbound
    }
}

/// The directions a rule (or a rule query) applies to.
#[derive(Clone, Copy, PartialEq, Eq, Structural, Debug)]
pub enum RuleDirection {
    Inbound,
    Outbound,
    Both,
}

impl RuleDirection {
    /// Whether this direction covers inbound requests.
    pub fn is_inbound(&self) -> (r: bool)
        ensures
            r == self.spec_is_inbound(),
    {
        match self {
            RuleDirection::Inbound => true,
            RuleDirection::Both => true,
            RuleDirection::Outbound => false,
        }
    }

    /// Whether this direction covers outbound requests.
    pub fn is_outbound(&self) -> (r: bool)
        ensures
            r == self.spec_is_outbound(),
    {
        match self {
            RuleDirection::Outbound => true,
            RuleDirection::Both => true,
            RuleDirection::Inbound => false,
        }
    }

    pub open spec fn spec_is_inbound(self) -> bool {
        self is Inbound || self is Both
    }

    pub open spec fn spec_is_outbound(self) -> bool {
        self is Outbound || self is Both
    }
}

} // verus!
