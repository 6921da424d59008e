//! The request manager: the central state machine of the layer.
//!
//! Every request enters through [`RequestManager::on_new_request`], waits —
//! if it must — for a firewall rule, an individual approval or a connection,
//! and leaves its books either ready (attached to a connection, a ready
//! action emitted) or failed (its sink dropped, a failure action emitted).
//! The manager emits all its output through a FIFO queue of
//! [`BehaviourAction`] values that the host drains with
//! [`RequestManager::take_next_action`].

use vstd::prelude::*;

use std::collections::VecDeque;

use crate::approvals::ApprovalList;
use crate::approvals::code_direction;
use crate::approvals::direction_code;
use crate::approvals::sorted_by_id;
use crate::approvals::spec_code_direction;
use crate::approvals::spec_direction_code;
use crate::connections::PeerConnectionManager;
use crate::firewall::FirewallRules;
use crate::firewall::Rule;
use crate::firewall::RuleDirection;
use crate::firewall::permits;
use crate::firewall::spec_permits;
use crate::message::RequestMessage;
use crate::types::ConnectionId;
use crate::types::InboundFailure;
use crate::types::OutboundFailure;
use crate::types::PeerId;
use crate::types::ProtocolSupport;
use crate::types::RequestDirection;
use crate::types::RequestId;

verus! {

/// Drain threshold: an emptied action queue whose spare capacity exceeds
/// this is shrunk back to size.
pub const EMPTY_QUEUE_SHRINK_THRESHOLD: usize = 100;

/// What the manager asks the host to do next.
pub enum BehaviourAction {
    /// An approved inbound request, to be delivered to the application.
    InboundReady { request_id: RequestId, peer: PeerId, request: RequestMessage },
    /// An approved outbound request, to be dispatched on the given
    /// connection of the peer.
    OutboundReady {
        request_id: RequestId,
        peer: PeerId,
        connection: ConnectionId,
        request: RequestMessage,
    },
    /// A dial attempt is required: an approved outbound request waits for a
    /// connection to the peer.
    RequireDialAttempt(PeerId),
    /// Reconfigure which directions the handler of the connection
    /// negotiates.
    SetProtocolSupport { peer: PeerId, connection: ConnectionId, support: ProtocolSupport },
    /// Sending an outbound request failed.
    OutboundFailure { peer: PeerId, request_id: RequestId, reason: OutboundFailure },
    /// Receiving or responding to an inbound request failed.
    InboundFailure { peer: PeerId, request_id: RequestId, reason: InboundFailure },
}

/// Classification of a new request against the peer's firewall rules,
/// derived by the facade before the request is admitted.
pub enum ApprovalStatus {
    /// No rule for the peer and direction exists yet; a rule query is under
    /// way.
    MissingRule,
    /// The rule is to ask: an individual approval query is under way.
    MissingApproval,
    /// The rule admits the request.
    Approved,
    /// The rule rejects the request.
    Rejected,
}

/// A request parked in the manager: it cannot be delivered yet.
pub struct StoredRequest {
    pub request_id: RequestId,
    pub peer: PeerId,
    pub request: RequestMessage,
}

/// The outbound requests of one peer that await a connection.
pub struct AwaitingConnectionEntry {
    pub peer: PeerId,
    pub requests: Vec<RequestId>,
}

/// The requests of one peer that await a firewall rule, per direction. A
/// direction holds `Some` exactly while a rule query for it is under way;
/// an empty list is the placeholder that deduplicates further queries.
pub struct PeerRuleEntry {
    pub peer: PeerId,
    pub inbound: Option<Vec<RequestId>>,
    pub outbound: Option<Vec<RequestId>>,
}

impl PeerRuleEntry {
    /// The ids waiting in the given direction (empty when no query is under
    /// way).
    pub open spec fn list(self, direction: RequestDirection) -> Seq<RequestId> {
        match direction {
            RequestDirection::Inbound => match self.inbound {
                Some(v) => v@,
                None => Seq::empty(),
            },
            RequestDirection::Outbound => match self.outbound {
                Some(v) => v@,
                None => Seq::empty(),
            },
        }
    }

    /// Whether a rule query for the direction is under way.
    pub open spec fn has_dir(self, direction: RequestDirection) -> bool {
        match direction {
            RequestDirection::Inbound => self.inbound is Some,
            RequestDirection::Outbound => self.outbound is Some,
        }
    }
}

/// The central state machine: parked requests, the waiting sets that hold
/// their ids, the live connections, and the FIFO queue of actions for the
/// host.
pub struct RequestManager {
    /// Inbound requests that could not be delivered yet, by id.
    pub inbound_request_store: Vec<StoredRequest>,
    /// Outbound requests that could not be dispatched yet, by id.
    pub outbound_request_store: Vec<StoredRequest>,
    /// Live connections and their in-flight request ids.
    pub connections: PeerConnectionManager,
    /// Approved outbound requests per peer that wait for a connection; a
    /// dial attempt has been demanded for each.
    pub awaiting_connection: Vec<AwaitingConnectionEntry>,
    /// Requests per peer that wait for the answer to a rule query.
    pub awaiting_peer_rule: Vec<PeerRuleEntry>,
    /// Requests that wait for an individual approval, sorted by id.
    pub awaiting_approval: ApprovalList,
    /// Actions for the host, in the order their transitions happened.
    pub actions: VecDeque<BehaviourAction>,
}


/// Whether a store sequence holds a request with `id`.
pub open spec fn store_has(s: Seq<StoredRequest>, id: RequestId) -> bool {
    exists|i: int| 0 <= i < s.len() && (#[trigger] s[i]).request_id == id
}

/// Index of the request with `id` in a store sequence.
pub open spec fn store_at(s: Seq<StoredRequest>, id: RequestId) -> int {
    choose|i: int| 0 <= i < s.len() && (#[trigger] s[i]).request_id == id
}

/// Whether the awaiting-connection rows hold an entry of `peer`.
pub open spec fn cw_has(rows: Seq<AwaitingConnectionEntry>, peer: PeerId) -> bool {
    exists|e: int| 0 <= e < rows.len() && (#[trigger] rows[e]).peer == peer
}

/// Index of the awaiting-connection entry of `peer`.
pub open spec fn cw_at(rows: Seq<AwaitingConnectionEntry>, peer: PeerId) -> int {
    choose|e: int| 0 <= e < rows.len() && (#[trigger] rows[e]).peer == peer
}

/// The ids of `peer` awaiting a connection, in order.
pub open spec fn cw_list(rows: Seq<AwaitingConnectionEntry>, peer: PeerId) -> Seq<RequestId> {
    if cw_has(rows, peer) {
        rows[cw_at(rows, peer)].requests@
    } else {
        Seq::empty()
    }
}

/// Whether `id` awaits a connection in any row.
pub open spec fn cw_waits(rows: Seq<AwaitingConnectionEntry>, id: RequestId) -> bool {
    exists|e: int| 0 <= e < rows.len() && (#[trigger] rows[e]).requests@.contains(id)
}

/// Whether the awaiting-rule rows hold an entry of `peer`.
pub open spec fn re_has(rows: Seq<PeerRuleEntry>, peer: PeerId) -> bool {
    exists|e: int| 0 <= e < rows.len() && (#[trigger] rows[e]).peer == peer
}

/// Index of the awaiting-rule entry of `peer`.
pub open spec fn re_at(rows: Seq<PeerRuleEntry>, peer: PeerId) -> int {
    choose|e: int| 0 <= e < rows.len() && (#[trigger] rows[e]).peer == peer
}

/// The ids of `peer` awaiting a rule in `direction`, in order.
pub open spec fn re_list(
    rows: Seq<PeerRuleEntry>,
    peer: PeerId,
    direction: RequestDirection,
) -> Seq<RequestId> {
    if re_has(rows, peer) {
        rows[re_at(rows, peer)].list(direction)
    } else {
        Seq::empty()
    }
}

/// Whether `id` awaits a rule in `direction` in any row.
pub open spec fn re_waits(
    rows: Seq<PeerRuleEntry>,
    id: RequestId,
    direction: RequestDirection,
) -> bool {
    exists|e: int| 0 <= e < rows.len() && (#[trigger] rows[e]).list(direction).contains(id)
}

impl RequestManager {
    /// The store for one direction.
    pub open spec fn store_of(self, direction: RequestDirection) -> Seq<StoredRequest> {
        match direction {
            RequestDirection::Inbound => self.inbound_request_store@,
            RequestDirection::Outbound => self.outbound_request_store@,
        }
    }

    /// Whether the store for `direction` holds `id`.
    pub open spec fn in_store(self, direction: RequestDirection, id: RequestId) -> bool {
        store_has(self.store_of(direction), id)
    }

    /// Index of `id` in the store for `direction` (meaningful only when it
    /// is there).
    pub open spec fn store_index(self, direction: RequestDirection, id: RequestId) -> int {
        store_at(self.store_of(direction), id)
    }

    /// The awaiting-approval entries.
    pub open spec fn approvals(self) -> Seq<(u64, u64)> {
        self.awaiting_approval@
    }

    /// Whether `id` awaits an individual approval in `direction`.
    pub open spec fn in_approval_wait(self, id: RequestId, direction: RequestDirection) -> bool {
        self.approvals().contains((id.id, spec_direction_code(direction)))
    }

    /// Whether the awaiting-connection table has an entry for `peer`.
    pub open spec fn has_conn_wait_entry(self, peer: PeerId) -> bool {
        cw_has(self.awaiting_connection@, peer)
    }

    /// Index of the awaiting-connection entry for `peer`.
    pub open spec fn conn_wait_at(self, peer: PeerId) -> int {
        cw_at(self.awaiting_connection@, peer)
    }

    /// The outbound ids of `peer` that await a connection, in order.
    pub open spec fn conn_wait_list(self, peer: PeerId) -> Seq<RequestId> {
        cw_list(self.awaiting_connection@, peer)
    }

    /// Whether `id` awaits a connection.
    pub open spec fn in_conn_wait(self, id: RequestId) -> bool {
        cw_waits(self.awaiting_connection@, id)
    }

    /// Whether the awaiting-rule table has an entry for `peer`.
    pub open spec fn has_rule_entry(self, peer: PeerId) -> bool {
        re_has(self.awaiting_peer_rule@, peer)
    }

    /// Index of the awaiting-rule entry for `peer`.
    pub open spec fn rule_entry_at(self, peer: PeerId) -> int {
        re_at(self.awaiting_peer_rule@, peer)
    }

    /// Whether a rule query for `peer` in `direction` is under way.
    pub open spec fn rule_pending(self, peer: PeerId, direction: RequestDirection) -> bool {
        re_has(self.awaiting_peer_rule@, peer) && self.awaiting_peer_rule@[re_at(
            self.awaiting_peer_rule@,
            peer,
        )].has_dir(direction)
    }

    /// The ids of `peer` that await a rule in `direction`, in order.
    pub open spec fn rule_list(self, peer: PeerId, direction: RequestDirection) -> Seq<RequestId> {
        re_list(self.awaiting_peer_rule@, peer, direction)
    }

    /// Whether `id` awaits a rule in `direction`.
    pub open spec fn in_rule_wait(self, id: RequestId, direction: RequestDirection) -> bool {
        re_waits(self.awaiting_peer_rule@, id, direction)
    }

    /// Whether the manager tracks `id` anywhere: parked, waiting or in
    /// flight.
    pub open spec fn tracks(self, id: RequestId) -> bool {
        ||| self.in_store(RequestDirection::Inbound, id)
        ||| self.in_store(RequestDirection::Outbound, id)
        ||| self.in_conn_wait(id)
        ||| self.in_rule_wait(id, RequestDirection::Inbound)
        ||| self.in_rule_wait(id, RequestDirection::Outbound)
        ||| self.in_approval_wait(id, RequestDirection::Inbound)
        ||| self.in_approval_wait(id, RequestDirection::Outbound)
        ||| self.connections.some_in_flight(id, RequestDirection::Inbound)
        ||| self.connections.some_in_flight(id, RequestDirection::Outbound)
    }

    /// A fresh id: untracked, and beyond every id that awaits approval.
    /// Ids are assigned from a process-wide increasing counter, so each
    /// request enters with a fresh one.
    pub open spec fn fresh_id(self, id: RequestId) -> bool {
        &&& !self.tracks(id)
        &&& forall|k: int|
            0 <= k < self.approvals().len() ==> (#[trigger] self.approvals()[k]).0 < id.id
    }

    /// Well-formed: the connection books are sound, stores hold an id at
    /// most once and never in both directions, waiting tables have one
    /// entry per peer, and the approval list is strictly sorted with valid
    /// direction codes.
    pub open spec fn wf(self) -> bool {
        &&& self.connections.wf()
        &&& forall|i: int, j: int|
            0 <= i < self.inbound_request_store@.len() && 0 <= j
                < self.inbound_request_store@.len() && i != j
                ==> (#[trigger] self.inbound_request_store@[i]).request_id
                != (#[trigger] self.inbound_request_store@[j]).request_id
        &&& forall|i: int, j: int|
            0 <= i < self.outbound_request_store@.len() && 0 <= j
                < self.outbound_request_store@.len() && i != j
                ==> (#[trigger] self.outbound_request_store@[i]).request_id
                != (#[trigger] self.outbound_request_store@[j]).request_id
        &&& forall|e1: int, e2: int|
            0 <= e1 < self.awaiting_connection@.len() && 0 <= e2 < self.awaiting_connection@.len()
                && e1 != e2 ==> (#[trigger] self.awaiting_connection@[e1]).peer
                != (#[trigger] self.awaiting_connection@[e2]).peer
        &&& forall|e1: int, e2: int|
            0 <= e1 < self.awaiting_peer_rule@.len() && 0 <= e2 < self.awaiting_peer_rule@.len()
                && e1 != e2 ==> (#[trigger] self.awaiting_peer_rule@[e1]).peer
                != (#[trigger] self.awaiting_peer_rule@[e2]).peer
        &&& sorted_by_id(self.approvals())
        &&& forall|k: int|
            0 <= k < self.approvals().len() ==> (#[trigger] self.approvals()[k]).1 == 0
                || self.approvals()[k].1 == 1
    }

    /// A manager with no tracked requests, no connections and no actions.
    pub fn new() -> (r: RequestManager)
        ensures
            r.wf(),
            r.inbound_request_store@.len() == 0,
            r.outbound_request_store@.len() == 0,
            r.connections.entries@.len() == 0,
            r.awaiting_connection@.len() == 0,
            r.awaiting_peer_rule@.len() == 0,
            r.approvals().len() == 0,
            r.actions@.len() == 0,
    {
        RequestManager {
            inbound_request_store: Vec::new(),
            outbound_request_store: Vec::new(),
            connections: PeerConnectionManager::new(),
            awaiting_connection: Vec::new(),
            awaiting_peer_rule: Vec::new(),
            awaiting_approval: ApprovalList::new(),
            actions: VecDeque::new(),
        }
    }

    /// The peers to which at least one connection is currently established,
    /// each once.
    pub fn connected_peers(&self) -> (r: Vec<PeerId>)
        ensures
            forall|p: PeerId| r@.contains(p) == self.connections.connected(p),
            forall|i: int, j: int| 0 <= i < r@.len() && 0 <= j < r@.len() && i != j ==> r@[i] != r@[j],
    {
        self.connections.get_connected_peers()
    }

    /// Register a new connection to `peer`. An already tracked connection
    /// id is left as it is.
    pub fn on_connection_established(&mut self, peer: PeerId, connection: ConnectionId)
        requires
            old(self).wf(),
        ensures
            final(self).wf(),
            old(self).consistent() ==> final(self).consistent(),
            final(self).inbound_request_store@ == old(self).inbound_request_store@,
            final(self).outbound_request_store@ == old(self).outbound_request_store@,
            final(self).awaiting_connection@ == old(self).awaiting_connection@,
            final(self).awaiting_peer_rule@ == old(self).awaiting_peer_rule@,
            final(self).approvals() == old(self).approvals(),
            final(self).actions@ == old(self).actions@,
            old(self).connections.has_conn(connection) ==> final(self).connections == old(self).connections,
            !old(self).connections.has_conn(connection) ==> {
                &&& final(self).connections.conns_of(peer) == old(self).connections.conns_of(
                    peer,
                ).push(connection)
                &&& forall|p: PeerId|
                    p != peer ==> final(self).connections.conns_of(p) == old(self).connections.conns_of(p)
                &&& forall|p: PeerId|
                    final(self).connections.connected(p) == (old(self).connections.connected(p)
                        || p == peer)
                &&& forall|d: RequestDirection|
                    final(self).connections.in_flight(connection, d) == Seq::<RequestId>::empty()
                &&& forall|c: ConnectionId, d: RequestDirection|
                    c != connection ==> final(self).connections.in_flight(c, d) == old(self).connections.in_flight(c, d)
            },
    {
        self.connections.add_connection(peer, connection);
    }

    /// Enqueue a protocol-support change for one connection of `peer`, or
    /// for all its connections when none is singled out.
    pub fn set_protocol_support(
        &mut self,
        peer: PeerId,
        connection: Option<ConnectionId>,
        protocol_support: ProtocolSupport,
    )
        requires
            old(self).wf(),
        ensures
            final(self).wf(),
            old(self).consistent() ==> final(self).consistent(),
            final(self).inbound_request_store@ == old(self).inbound_request_store@,
            final(self).outbound_request_store@ == old(self).outbound_request_store@,
            final(self).connections == old(self).connections,
            final(self).awaiting_connection@ == old(self).awaiting_connection@,
            final(self).awaiting_peer_rule@ == old(self).awaiting_peer_rule@,
            final(self).approvals() == old(self).approvals(),
            final(self).actions@ == old(self).actions@ + support_actions(
                peer,
                match connection {
                    Some(c) => seq![c],
                    None => old(self).connections.conns_of(peer),
                },
                protocol_support,
            ),
    {
        let conns: Vec<ConnectionId> = match connection {
            Some(c) => {
                let mut v: Vec<ConnectionId> = Vec::new();
                v.push(c);
                v
            },
            None => self.connections.get_connections(peer),
        };
        let ghost target = conns@;
        let mut i: usize = 0;
        while i < conns.len()
            invariant
                i <= conns@.len(),
                conns@ == target,
                self.actions@ == old(self).actions@ + support_actions(
                    peer,
                    target.subrange(0, i as int),
                    protocol_support,
                ),
                self.inbound_request_store@ == old(self).inbound_request_store@,
                self.outbound_request_store@ == old(self).outbound_request_store@,
                self.connections == old(self).connections,
                self.awaiting_connection@ == old(self).awaiting_connection@,
                self.awaiting_peer_rule@ == old(self).awaiting_peer_rule@,
                self.approvals() == old(self).approvals(),
            decreases conns@.len() - i,
        {
            self.actions.push_back(
                BehaviourAction::SetProtocolSupport {
                    peer,
                    connection: conns[i],
                    support: protocol_support,
                },
            );
            proof {
                assert(target.subrange(0, i + 1 as int).drop_last() =~= target.subrange(
                    0,
                    i as int,
                ));
                assert(self.actions@ =~= old(self).actions@ + support_actions(
                    peer,
                    target.subrange(0, i + 1 as int),
                    protocol_support,
                ));
            }
            i = i + 1;
        }
        proof {
            assert(target.subrange(0, target.len() as int) =~= target);
        }
    }

    /// Pop the next action, in the FIFO order of enqueueing; an emptied
    /// oversized queue gives its capacity back.
    pub fn take_next_action(&mut self) -> (r: Option<BehaviourAction>)
        requires
            old(self).wf(),
        ensures
            final(self).wf(),
            old(self).consistent() ==> final(self).consistent(),
            final(self).inbound_request_store@ == old(self).inbound_request_store@,
            final(self).outbound_request_store@ == old(self).outbound_request_store@,
            final(self).connections == old(self).connections,
            final(self).awaiting_connection@ == old(self).awaiting_connection@,
            final(self).awaiting_peer_rule@ == old(self).awaiting_peer_rule@,
            final(self).approvals() == old(self).approvals(),
            match r {
                Some(a) => old(self).actions@.len() > 0 && a == old(self).actions@[0] && final(self).actions@ == old(self).actions@.subrange(1, old(self).actions@.len() as int),
                None => old(self).actions@.len() == 0 && final(self).actions@ == old(self).actions@,
            },
    {
        let next = self.actions.pop_front();
        if queue_capacity(&self.actions) > EMPTY_QUEUE_SHRINK_THRESHOLD {
            shrink_queue(&mut self.actions);
        }
        next
    }

    /// Mark a previously received request completed; a reported failure
    /// becomes a failure action.
    pub fn on_res_for_inbound(
        &mut self,
        peer: PeerId,
        connection: ConnectionId,
        request_id: RequestId,
        result: Result<(), InboundFailure>,
    )
        requires
            old(self).wf(),
        ensures
            final(self).wf(),
            old(self).consistent() ==> final(self).consistent(),
            final(self).inbound_request_store@ == old(self).inbound_request_store@,
            final(self).outbound_request_store@ == old(self).outbound_request_store@,
            final(self).awaiting_connection@ == old(self).awaiting_connection@,
            final(self).awaiting_peer_rule@ == old(self).awaiting_peer_rule@,
            final(self).approvals() == old(self).approvals(),
            final(self).connections.in_flight(connection, RequestDirection::Inbound) == old(self).connections.in_flight(connection, RequestDirection::Inbound).remove_value(request_id),
            forall|c: ConnectionId, d: RequestDirection|
                !(c == connection && d == RequestDirection::Inbound) ==> final(self).connections.in_flight(c, d) == old(self).connections.in_flight(c, d),
            forall|p: PeerId|
                final(self).connections.conns_of(p) == old(self).connections.conns_of(p),
            forall|p: PeerId|
                final(self).connections.connected(p) == old(self).connections.connected(p),
            final(self).actions@ == old(self).actions@ + (match result {
                Ok(_) => Seq::<BehaviourAction>::empty(),
                Err(reason) => seq![
                    (BehaviourAction::InboundFailure { peer, request_id, reason }),
                ],
            }),
    {
        self.connections.remove_request(connection, request_id, RequestDirection::Inbound);
        match result {
            Ok(_) => {
                proof {
                    assert(self.actions@ =~= old(self).actions@ + Seq::<
                        BehaviourAction,
                    >::empty());
                }
            },
            Err(reason) => {
                self.actions.push_back(
                    BehaviourAction::InboundFailure { peer, request_id, reason },
                );
                proof {
                    assert(self.actions@ =~= old(self).actions@ + seq![
                        (BehaviourAction::InboundFailure { peer, request_id, reason }),
                    ]);
                }
            },
        }
    }

    /// Mark a previously sent request completed; a reported failure becomes
    /// a failure action.
    pub fn on_res_for_outbound(
        &mut self,
        peer: PeerId,
        connection: ConnectionId,
        request_id: RequestId,
        result: Result<(), OutboundFailure>,
    )
        requires
            old(self).wf(),
        ensures
            final(self).wf(),
            old(self).consistent() ==> final(self).consistent(),
            final(self).inbound_request_store@ == old(self).inbound_request_store@,
            final(self).outbound_request_store@ == old(self).outbound_request_store@,
            final(self).awaiting_connection@ == old(self).awaiting_connection@,
            final(self).awaiting_peer_rule@ == old(self).awaiting_peer_rule@,
            final(self).approvals() == old(self).approvals(),
            final(self).connections.in_flight(connection, RequestDirection::Outbound) == old(self).connections.in_flight(connection, RequestDirection::Outbound).remove_value(
                request_id,
            ),
            forall|c: ConnectionId, d: RequestDirection|
                !(c == connection && d == RequestDirection::Outbound) ==> final(self).connections.in_flight(c, d) == old(self).connections.in_flight(c, d),
            forall|p: PeerId|
                final(self).connections.conns_of(p) == old(self).connections.conns_of(p),
            forall|p: PeerId|
                final(self).connections.connected(p) == old(self).connections.connected(p),
            final(self).actions@ == old(self).actions@ + (match result {
                Ok(_) => Seq::<BehaviourAction>::empty(),
                Err(reason) => seq![
                    (BehaviourAction::OutboundFailure { peer, request_id, reason }),
                ],
            }),
    {
        self.connections.remove_request(connection, request_id, RequestDirection::Outbound);
        match result {
            Ok(_) => {
                proof {
                    assert(self.actions@ =~= old(self).actions@ + Seq::<
                        BehaviourAction,
                    >::empty());
                }
            },
            Err(reason) => {
                self.actions.push_back(
                    BehaviourAction::OutboundFailure { peer, request_id, reason },
                );
                proof {
                    assert(self.actions@ =~= old(self).actions@ + seq![
                        (BehaviourAction::OutboundFailure { peer, request_id, reason }),
                    ]);
                }
            },
        }
    }

    /// Park a request until it is approved or its peer connects.
    fn store_request(
        &mut self,
        peer: PeerId,
        request_id: RequestId,
        request: RequestMessage,
        direction: RequestDirection,
    )
        requires
            old(self).wf(),
            !old(self).in_store(direction, request_id),
        ensures
            final(self).wf(),
            final(self).store_of(direction) == old(self).store_of(direction).push(
                (StoredRequest { request_id, peer, request }),
            ),
            final(self).store_of(opposite(direction)) == old(self).store_of(opposite(direction)),
            final(self).connections == old(self).connections,
            final(self).awaiting_connection@ == old(self).awaiting_connection@,
            final(self).awaiting_peer_rule@ == old(self).awaiting_peer_rule@,
            final(self).approvals() == old(self).approvals(),
            final(self).actions@ == old(self).actions@,
    {
        let entry = StoredRequest { request_id, peer, request };
        match direction {
            RequestDirection::Inbound => self.inbound_request_store.push(entry),
            RequestDirection::Outbound => self.outbound_request_store.push(entry),
        }
        proof {
            let st = old(self).store_of(direction);
            assert forall|i: int, j: int|
                0 <= i < final(self).store_of(direction).len() && 0 <= j < final(self).store_of(
                    direction,
                ).len() && i != j implies (#[trigger] final(self).store_of(direction)[i]).request_id
                != (#[trigger] final(self).store_of(direction)[j]).request_id by {
                if i < st.len() && j < st.len() {
                } else {
                    let k = if i < st.len() {
                        i
                    } else {
                        j
                    };
                    if k < st.len() && st[k].request_id == request_id {
                        assert(old(self).in_store(direction, request_id));
                    }
                }
            }
        }
    }

    /// Take a parked request out of its store, to be delivered or dropped.
    fn take_stored_request(&mut self, request_id: RequestId, direction: RequestDirection) -> (r:
        Option<(PeerId, RequestMessage)>)
        requires
            old(self).wf(),
        ensures
            final(self).wf(),
            r is Some <==> old(self).in_store(direction, request_id),
            r is None ==> {
                &&& final(self).store_of(direction) == old(self).store_of(direction)
                &&& final(self).store_of(opposite(direction)) == old(self).store_of(
                    opposite(direction),
                )
                &&& final(self).connections == old(self).connections
                &&& final(self).awaiting_connection@ == old(self).awaiting_connection@
                &&& final(self).awaiting_peer_rule@ == old(self).awaiting_peer_rule@
                &&& final(self).approvals() == old(self).approvals()
                &&& final(self).actions@ == old(self).actions@
            },
            r is Some ==> {
                let i = old(self).store_index(direction, request_id);
                &&& 0 <= i < old(self).store_of(direction).len()
                &&& old(self).store_of(direction)[i].request_id == request_id
                &&& r->Some_0.0 == old(self).store_of(direction)[i].peer
                &&& r->Some_0.1 == old(self).store_of(direction)[i].request
                &&& final(self).store_of(direction) == old(self).store_of(direction).remove(i)
                &&& final(self).store_of(opposite(direction)) == old(self).store_of(
                    opposite(direction),
                )
                &&& final(self).connections == old(self).connections
                &&& final(self).awaiting_connection@ == old(self).awaiting_connection@
                &&& final(self).awaiting_peer_rule@ == old(self).awaiting_peer_rule@
                &&& final(self).approvals() == old(self).approvals()
                &&& final(self).actions@ == old(self).actions@
            },
    {
        let r = match direction {
            RequestDirection::Inbound => take_from_store(
                &mut self.inbound_request_store,
                request_id,
            ),
            RequestDirection::Outbound => take_from_store(
                &mut self.outbound_request_store,
                request_id,
            ),
        };
        proof {
            if r is Some {
                let i = choose|i: int|
                    0 <= i < old(self).store_of(direction).len() && (#[trigger] old(self).store_of(
                        direction,
                    )[i]).request_id == request_id;
                assert(old(self).store_index(direction, request_id) == i);
            }
        }
        r
    }

    /// Demand a dial attempt: park the id under the peer and enqueue the
    /// action.
    fn add_dial_attempt(&mut self, peer: PeerId, request_id: RequestId)
        requires
            old(self).wf(),
        ensures
            final(self).wf(),
            final(self).conn_wait_list(peer) == old(self).conn_wait_list(peer).push(request_id),
            final(self).has_conn_wait_entry(peer),
            forall|p: PeerId|
                p != peer ==> final(self).conn_wait_list(p) == old(self).conn_wait_list(p)
                    && final(self).has_conn_wait_entry(p) == old(self).has_conn_wait_entry(p),
            final(self).in_conn_wait(request_id),
            forall|id: RequestId|
                id != request_id ==> final(self).in_conn_wait(id) == old(self).in_conn_wait(id),
            final(self).inbound_request_store@ == old(self).inbound_request_store@,
            final(self).outbound_request_store@ == old(self).outbound_request_store@,
            final(self).connections == old(self).connections,
            final(self).awaiting_peer_rule@ == old(self).awaiting_peer_rule@,
            final(self).approvals() == old(self).approvals(),
            final(self).actions@ == old(self).actions@.push(
                BehaviourAction::RequireDialAttempt(peer),
            ),
    {
        let found = find_conn_wait(&self.awaiting_connection, peer);
        let ghost prev = *self;
        match found {
            None => {
                let mut requests: Vec<RequestId> = Vec::new();
                requests.push(request_id);
                self.awaiting_connection.push(AwaitingConnectionEntry { peer, requests });
                proof {
                    let rows = self.awaiting_connection@;
                    let n = prev.awaiting_connection@.len() as int;
                    assert(forall|k: int| 0 <= k < n ==> rows[k] == prev.awaiting_connection@[k]);
                    assert(rows[n].peer == peer && rows[n].requests@ =~= seq![request_id]);
                    assert(self.has_conn_wait_entry(peer));
                    assert(self.conn_wait_at(peer) == n);
                    assert(!prev.has_conn_wait_entry(peer));
                    assert(self.conn_wait_list(peer) =~= prev.conn_wait_list(peer).push(
                        request_id,
                    ));
                    assert forall|p: PeerId| p != peer implies self.conn_wait_list(p)
                        == prev.conn_wait_list(p) && self.has_conn_wait_entry(p)
                        == prev.has_conn_wait_entry(p) by {
                        if prev.has_conn_wait_entry(p) {
                            let e = prev.conn_wait_at(p);
                            assert(rows[e].peer == p);
                            assert(self.conn_wait_at(p) == e);
                        } else {
                            if self.has_conn_wait_entry(p) {
                                let e = self.conn_wait_at(p);
                                assert(rows[e].peer == p);
                                assert(e < n);
                                assert(prev.awaiting_connection@[e].peer == p);
                            }
                        }
                    }
                    assert(self.in_conn_wait(request_id)) by {
                        assert(rows[n].requests@[0] == request_id);
                        assert(rows[n].requests@.contains(request_id));
                    }
                    assert forall|id: RequestId| id != request_id implies self.in_conn_wait(id)
                        == prev.in_conn_wait(id) by {
                        if prev.in_conn_wait(id) {
                            let e = choose|e: int|
                                0 <= e < prev.awaiting_connection@.len()
                                    && (#[trigger] prev.awaiting_connection@[e]).requests@.contains(
                                    id,
                                );
                            assert(rows[e].requests@.contains(id));
                        }
                        if self.in_conn_wait(id) {
                            let e = choose|e: int|
                                0 <= e < rows.len()
                                    && (#[trigger] rows[e]).requests@.contains(id);
                            if e < n {
                                assert(prev.awaiting_connection@[e].requests@.contains(id));
                            } else {
                                assert(rows[e].requests@ == seq![request_id]);
                                let k = choose|k: int|
                                    0 <= k < rows[e].requests@.len() && rows[e].requests@[k] == id;
                                assert(rows[e].requests@[k] == request_id);
                            }
                        }
                    }
                }
            },
            Some(e) => {
                let mut entry = self.awaiting_connection.remove(e);
                entry.requests.push(request_id);
                self.awaiting_connection.insert(e, entry);
                proof {
                    let rows = self.awaiting_connection@;
                    let n = rows.len() as int;
                    assert(rows.len() == prev.awaiting_connection@.len());
                    assert(forall|k: int|
                        0 <= k < n && k != e ==> rows[k] == prev.awaiting_connection@[k]);
                    assert(rows[e as int].peer == peer);
                    assert(rows[e as int].requests@ == prev.awaiting_connection@[e as int].requests@.push(
                        request_id,
                    ));
                    assert(self.has_conn_wait_entry(peer));
                    assert(self.conn_wait_at(peer) == e as int);
                    assert(prev.conn_wait_at(peer) == e as int);
                    assert(self.conn_wait_list(peer) =~= prev.conn_wait_list(peer).push(
                        request_id,
                    ));
                    assert forall|p: PeerId| p != peer implies self.conn_wait_list(p)
                        == prev.conn_wait_list(p) && self.has_conn_wait_entry(p)
                        == prev.has_conn_wait_entry(p) by {
                        if prev.has_conn_wait_entry(p) {
                            let k = prev.conn_wait_at(p);
                            assert(prev.awaiting_connection@[k].peer == p);
                            assert(k != e);
                            assert(rows[k].peer == p);
                            assert(self.conn_wait_at(p) == k);
                        } else {
                            if self.has_conn_wait_entry(p) {
                                let k = self.conn_wait_at(p);
                                assert(rows[k].peer == p);
                                assert(k != e);
                                assert(prev.awaiting_connection@[k].peer == p);
                            }
                        }
                    }
                    assert(self.in_conn_wait(request_id)) by {
                        assert(rows[e as int].requests@.contains(request_id)) by {
                            assert(rows[e as int].requests@.last() == request_id);
                        }
                    }
                    assert forall|id: RequestId| id != request_id implies self.in_conn_wait(id)
                        == prev.in_conn_wait(id) by {
                        if prev.in_conn_wait(id) {
                            let w = choose|w: int|
                                0 <= w < prev.awaiting_connection@.len()
                                    && (#[trigger] prev.awaiting_connection@[w]).requests@.contains(
                                    id,
                                );
                            if w == e {
                                let k = choose|k: int|
                                    0 <= k < prev.awaiting_connection@[w].requests@.len()
                                        && prev.awaiting_connection@[w].requests@[k] == id;
                                assert(rows[e as int].requests@[k] == id);
                                assert(rows[e as int].requests@.contains(id));
                            } else {
                                assert(rows[w].requests@.contains(id));
                            }
                        }
                        if self.in_conn_wait(id) {
                            let w = choose|w: int|
                                0 <= w < rows.len() && (#[trigger] rows[w]).requests@.contains(id);
                            if w == e {
                                let k = choose|k: int|
                                    0 <= k < rows[w].requests@.len() && rows[w].requests@[k]
                                        == id;
                                assert(k < prev.awaiting_connection@[e as int].requests@.len());
                                assert(prev.awaiting_connection@[e as int].requests@[k] == id);
                                assert(prev.awaiting_connection@[e as int].requests@.contains(id));
                            } else {
                                assert(prev.awaiting_connection@[w].requests@.contains(id));
                            }
                        }
                    }
                }
            },
        }
        self.actions.push_back(BehaviourAction::RequireDialAttempt(peer));
        proof {
            assert(self.has_conn_wait_entry(peer));
            assert(self.conn_wait_list(peer) == prev.conn_wait_list(peer).push(request_id));
        }
    }

    /// Enqueue the ready action that hands an attached request on.
    fn add_ready_request(
        &mut self,
        peer: PeerId,
        request_id: RequestId,
        connection: ConnectionId,
        request: RequestMessage,
        direction: RequestDirection,
    )
        requires
            old(self).wf(),
        ensures
            final(self).wf(),
            final(self).inbound_request_store@ == old(self).inbound_request_store@,
            final(self).outbound_request_store@ == old(self).outbound_request_store@,
            final(self).connections == old(self).connections,
            final(self).awaiting_connection@ == old(self).awaiting_connection@,
            final(self).awaiting_peer_rule@ == old(self).awaiting_peer_rule@,
            final(self).approvals() == old(self).approvals(),
            final(self).actions@ == old(self).actions@.push(ready_action(
                peer,
                request_id,
                connection,
                request,
                direction,
            )),
    {
        let event = match direction {
            RequestDirection::Inbound => BehaviourAction::InboundReady {
                request_id,
                peer,
                request,
            },
            RequestDirection::Outbound => BehaviourAction::OutboundReady {
                request_id,
                peer,
                connection,
                request,
            },
        };
        self.actions.push_back(event);
    }
}

impl RequestManager {
    /// The peer of a parked request, without taking the request out.
    fn get_request_peer_ref(&self, request_id: RequestId, direction: RequestDirection) -> (r:
        Option<PeerId>)
        requires
            self.wf(),
        ensures
            r is Some <==> self.in_store(direction, request_id),
            r is Some ==> r->Some_0 == self.store_of(direction)[self.store_index(
                direction,
                request_id,
            )].peer,
    {
        let store = match direction {
            RequestDirection::Inbound => &self.inbound_request_store,
            RequestDirection::Outbound => &self.outbound_request_store,
        };
        let mut i: usize = 0;
        while i < store.len()
            invariant
                self.wf(),
                i <= store@.len(),
                store@ == self.store_of(direction),
                forall|k: int| 0 <= k < i ==> (#[trigger] store@[k]).request_id != request_id,
            decreases store@.len() - i,
        {
            if store[i].request_id == request_id {
                proof {
                    assert(self.in_store(direction, request_id)) by {
                        assert(self.store_of(direction)[i as int].request_id == request_id);
                    }
                    let w = self.store_index(direction, request_id);
                    assert(self.store_of(direction)[w].request_id == request_id);
                    match direction {
                        RequestDirection::Inbound => {
                            assert(self.inbound_request_store@[w].request_id == request_id);
                            assert(self.inbound_request_store@[i as int].request_id == request_id);
                            assert(w == i as int);
                        },
                        RequestDirection::Outbound => {
                            assert(self.outbound_request_store@[w].request_id == request_id);
                            assert(self.outbound_request_store@[i as int].request_id
                                == request_id);
                            assert(w == i as int);
                        },
                    }
                    assert(w == i as int);
                }
                return Some(store[i].peer);
            }
            i = i + 1;
        }
        None
    }

    /// Record `request_id` under `peer` as awaiting a rule for `direction`.
    fn add_rule_wait(&mut self, peer: PeerId, request_id: RequestId, direction: RequestDirection)
        requires
            old(self).wf(),
        ensures
            final(self).wf(),
            final(self).rule_list(peer, direction) == old(self).rule_list(peer, direction).push(
                request_id,
            ),
            final(self).rule_pending(peer, direction),
            final(self).has_rule_entry(peer),
            forall|d: RequestDirection|
                d != direction ==> final(self).rule_list(peer, d) == old(self).rule_list(peer, d)
                    && final(self).rule_pending(peer, d) == old(self).rule_pending(peer, d),
            forall|p: PeerId, d: RequestDirection|
                p != peer ==> final(self).rule_list(p, d) == old(self).rule_list(p, d) && final(self).rule_pending(p, d) == old(self).rule_pending(p, d),
            forall|p: PeerId|
                p != peer ==> final(self).has_rule_entry(p) == old(self).has_rule_entry(p),
            final(self).in_rule_wait(request_id, direction),
            forall|id: RequestId, d: RequestDirection|
                !(id == request_id && d == direction) ==> final(self).in_rule_wait(id, d) == old(self).in_rule_wait(id, d),
            final(self).inbound_request_store@ == old(self).inbound_request_store@,
            final(self).outbound_request_store@ == old(self).outbound_request_store@,
            final(self).connections == old(self).connections,
            final(self).awaiting_connection@ == old(self).awaiting_connection@,
            final(self).approvals() == old(self).approvals(),
            final(self).actions@ == old(self).actions@,
    {
        let found = find_rule_entry(&self.awaiting_peer_rule, peer);
        let ghost prev = *self;
        match found {
            None => {
                let mut requests: Vec<RequestId> = Vec::new();
                requests.push(request_id);
                let entry = match direction {
                    RequestDirection::Inbound => PeerRuleEntry {
                        peer,
                        inbound: Some(requests),
                        outbound: None,
                    },
                    RequestDirection::Outbound => PeerRuleEntry {
                        peer,
                        inbound: None,
                        outbound: Some(requests),
                    },
                };
                self.awaiting_peer_rule.push(entry);
                proof {
                    let rows = self.awaiting_peer_rule@;
                    let n = prev.awaiting_peer_rule@.len() as int;
                    assert(forall|k: int| 0 <= k < n ==> rows[k] == prev.awaiting_peer_rule@[k]);
                    assert(rows[n].peer == peer);
                    assert(rows[n].list(direction) =~= seq![request_id]);
                    assert(rows[n].list(opposite(direction)) =~= Seq::<RequestId>::empty());
                    assert(!rows[n].has_dir(opposite(direction)));
                    assert(!prev.has_rule_entry(peer));
                    assert(self.has_rule_entry(peer));
                    assert(self.rule_entry_at(peer) == n);
                    assert(self.rule_list(peer, direction) =~= prev.rule_list(
                        peer,
                        direction,
                    ).push(request_id));
                    rule_frames_after_change(prev, *self, n, peer);
                    assert(self.in_rule_wait(request_id, direction)) by {
                        assert(rows[n].list(direction)[0] == request_id);
                        assert(rows[n].list(direction).contains(request_id));
                    }
                    assert(forall|d: RequestDirection|
                        d != direction ==> self.rule_list(peer, d) =~= prev.rule_list(peer, d));
                    assert forall|id: RequestId, d: RequestDirection|
                        !(id == request_id && d == direction) implies self.in_rule_wait(id, d)
                        == prev.in_rule_wait(id, d) by {
                        lemma_in_rule_wait_iff(prev, id, d);
                        lemma_in_rule_wait_iff(*self, id, d);
                        if self.in_rule_wait(id, d) {
                            let p = choose|p: PeerId| #[trigger] self.rule_list(p, d).contains(id);
                            if p == peer && d == direction {
                                let post_list = self.rule_list(peer, direction);
                                let k = choose|k: int|
                                    0 <= k < post_list.len() && post_list[k] == id;
                                assert(k < prev.rule_list(peer, direction).len());
                                assert(prev.rule_list(peer, direction)[k] == id);
                                assert(prev.rule_list(p, d).contains(id));
                            } else {
                                assert(prev.rule_list(p, d).contains(id));
                            }
                            assert(prev.in_rule_wait(id, d));
                        }
                        if prev.in_rule_wait(id, d) {
                            let p = choose|p: PeerId| #[trigger] prev.rule_list(p, d).contains(id);
                            if p == peer && d == direction {
                                let pre_list = prev.rule_list(peer, direction);
                                let k = choose|k: int|
                                    0 <= k < pre_list.len() && pre_list[k] == id;
                                assert(self.rule_list(peer, direction)[k] == id);
                                assert(self.rule_list(p, d).contains(id));
                            } else {
                                assert(self.rule_list(p, d).contains(id));
                            }
                            assert(self.in_rule_wait(id, d));
                        }
                    }
                }
            },
            Some(e) => {
                let mut entry = self.awaiting_peer_rule.remove(e);
                match direction {
                    RequestDirection::Inbound => {
                        let mut v = match entry.inbound {
                            Some(v) => v,
                            None => Vec::new(),
                        };
                        v.push(request_id);
                        entry.inbound = Some(v);
                    },
                    RequestDirection::Outbound => {
                        let mut v = match entry.outbound {
                            Some(v) => v,
                            None => Vec::new(),
                        };
                        v.push(request_id);
                        entry.outbound = Some(v);
                    },
                }
                self.awaiting_peer_rule.insert(e, entry);
                proof {
                    let rows = self.awaiting_peer_rule@;
                    let n = rows.len() as int;
                    assert(rows.len() == prev.awaiting_peer_rule@.len());
                    assert(forall|k: int|
                        0 <= k < n && k != e ==> rows[k] == prev.awaiting_peer_rule@[k]);
                    assert(rows[e as int].peer == peer);
                    assert(rows[e as int].list(direction) == prev.awaiting_peer_rule@[e as int].list(
                        direction,
                    ).push(request_id));
                    assert(rows[e as int].list(opposite(direction))
                        == prev.awaiting_peer_rule@[e as int].list(opposite(direction)));
                    assert(rows[e as int].has_dir(opposite(direction))
                        == prev.awaiting_peer_rule@[e as int].has_dir(opposite(direction)));
                    assert(self.has_rule_entry(peer));
                    assert(self.rule_entry_at(peer) == e as int);
                    assert(prev.rule_entry_at(peer) == e as int);
                    assert(self.rule_list(peer, direction) =~= prev.rule_list(
                        peer,
                        direction,
                    ).push(request_id));
                    rule_frames_after_change(prev, *self, e as int, peer);
                    assert(self.in_rule_wait(request_id, direction)) by {
                        assert(rows[e as int].list(direction).last() == request_id);
                        assert(rows[e as int].list(direction).contains(request_id));
                    }
                    assert(forall|d: RequestDirection|
                        d != direction ==> self.rule_list(peer, d) == prev.rule_list(peer, d));
                    assert forall|id: RequestId, d: RequestDirection|
                        !(id == request_id && d == direction) implies self.in_rule_wait(id, d)
                        == prev.in_rule_wait(id, d) by {
                        lemma_in_rule_wait_iff(prev, id, d);
                        lemma_in_rule_wait_iff(*self, id, d);
                        if self.in_rule_wait(id, d) {
                            let p = choose|p: PeerId| #[trigger] self.rule_list(p, d).contains(id);
                            if p == peer && d == direction {
                                let post_list = self.rule_list(peer, direction);
                                let k = choose|k: int|
                                    0 <= k < post_list.len() && post_list[k] == id;
                                assert(k < prev.rule_list(peer, direction).len());
                                assert(prev.rule_list(peer, direction)[k] == id);
                                assert(prev.rule_list(p, d).contains(id));
                            } else {
                                assert(prev.rule_list(p, d).contains(id));
                            }
                            assert(prev.in_rule_wait(id, d));
                        }
                        if prev.in_rule_wait(id, d) {
                            let p = choose|p: PeerId| #[trigger] prev.rule_list(p, d).contains(id);
                            if p == peer && d == direction {
                                let pre_list = prev.rule_list(peer, direction);
                                let k = choose|k: int|
                                    0 <= k < pre_list.len() && pre_list[k] == id;
                                assert(self.rule_list(peer, direction)[k] == id);
                                assert(self.rule_list(p, d).contains(id));
                            } else {
                                assert(self.rule_list(p, d).contains(id));
                            }
                            assert(self.in_rule_wait(id, d));
                        }
                    }
                }
            },
        }
    }

    /// Park a request and record it as awaiting an individual approval.
    fn add_approval_wait(
        &mut self,
        peer: PeerId,
        request_id: RequestId,
        request: RequestMessage,
        direction: RequestDirection,
    )
        requires
            old(self).wf(),
            old(self).fresh_id(request_id),
        ensures
            final(self).wf(),
            final(self).store_of(direction) == old(self).store_of(direction).push(
                (StoredRequest { request_id, peer, request }),
            ),
            final(self).store_of(opposite(direction)) == old(self).store_of(opposite(direction)),
            final(self).approvals() == old(self).approvals().push(
                (request_id.id, spec_direction_code(direction)),
            ),
            final(self).in_approval_wait(request_id, direction),
            forall|id: RequestId, d: RequestDirection|
                !(id == request_id && d == direction) ==> final(self).in_approval_wait(id, d)
                    == old(self).in_approval_wait(id, d),
            final(self).connections == old(self).connections,
            final(self).awaiting_connection@ == old(self).awaiting_connection@,
            final(self).awaiting_peer_rule@ == old(self).awaiting_peer_rule@,
            final(self).actions@ == old(self).actions@,
    {
        self.store_request(peer, request_id, request, direction);
        let code = direction_code(direction);
        self.awaiting_approval.push((request_id.id, code));
        proof {
            let s = old(self).approvals();
            let t = self.approvals();
            assert(t == s.push((request_id.id, spec_direction_code(direction))));
            assert forall|i: int, j: int| 0 <= i < j < t.len() implies (#[trigger] t[i]).0
                < (#[trigger] t[j]).0 by {
                if j == t.len() - 1 {
                    assert(s[i].0 < request_id.id);
                }
            }
            assert(self.in_approval_wait(request_id, direction)) by {
                assert(t[t.len() - 1] == (request_id.id, spec_direction_code(direction)));
                assert(t.contains((request_id.id, spec_direction_code(direction))));
            }
            assert forall|id: RequestId, d: RequestDirection|
                !(id == request_id && d == direction) implies self.in_approval_wait(id, d) == old(self).in_approval_wait(id, d) by {
                let item = (id.id, spec_direction_code(d));
                if s.contains(item) {
                    let k = choose|k: int| 0 <= k < s.len() && s[k] == item;
                    assert(t[k] == item);
                    assert(t.contains(item));
                }
                if t.contains(item) {
                    let k = choose|k: int| 0 <= k < t.len() && t[k] == item;
                    if k < s.len() {
                        assert(s.contains(item));
                    } else {
                        assert(item == (request_id.id, spec_direction_code(direction)));
                        assert(id.id == request_id.id && spec_direction_code(d)
                            == spec_direction_code(direction));
                        assert(id == request_id && d == direction);
                    }
                }
            }
        }
    }

    /// Resolve the approval or rejection of one parked request: emit its
    /// failure, hand it to a connection, or demand a dial.
    fn handle_request_approval(
        &mut self,
        request_id: RequestId,
        direction: RequestDirection,
        is_allowed: bool,
    ) -> (r: Option<()>)
        requires
            old(self).wf(),
        ensures
            final(self).wf(),
            r is Some <==> old(self).in_store(direction, request_id),
            r is None ==> {
                &&& final(self).store_of(direction) == old(self).store_of(direction)
                &&& final(self).store_of(opposite(direction)) == old(self).store_of(
                    opposite(direction),
                )
                &&& final(self).connections == old(self).connections
                &&& final(self).awaiting_connection@ == old(self).awaiting_connection@
                &&& final(self).awaiting_peer_rule@ == old(self).awaiting_peer_rule@
                &&& final(self).approvals() == old(self).approvals()
                &&& final(self).actions@ == old(self).actions@
            },
            r is Some ==> resolves_request(
                *old(self),
                *final(self),
                request_id,
                direction,
                is_allowed,
                old(self).approvals(),
            ),
    {
        if !is_allowed {
            let taken = self.take_stored_request(request_id, direction);
            match taken {
                None => None,
                Some(pr) => {
                    let peer = pr.0;
                    let action = match direction {
                        RequestDirection::Outbound => BehaviourAction::OutboundFailure {
                            request_id,
                            peer,
                            reason: OutboundFailure::NotPermitted,
                        },
                        RequestDirection::Inbound => BehaviourAction::InboundFailure {
                            request_id,
                            peer,
                            reason: InboundFailure::NotPermitted,
                        },
                    };
                    self.actions.push_back(action);
                    Some(())
                },
            }
        } else {
            let peer_opt = self.get_request_peer_ref(request_id, direction);
            match peer_opt {
                None => None,
                Some(peer) => {
                    let attached = self.connections.add_request(peer, request_id, direction);
                    match attached {
                        Some(connection) => {
                            let taken = self.take_stored_request(request_id, direction);
                            match taken {
                                None => None,
                                Some(pr) => {
                                    self.add_ready_request(
                                        pr.0,
                                        request_id,
                                        connection,
                                        pr.1,
                                        direction,
                                    );
                                    Some(())
                                },
                            }
                        },
                        None => {
                            match direction {
                                RequestDirection::Inbound => {
                                    let taken = self.take_stored_request(request_id, direction);
                                    match taken {
                                        None => None,
                                        Some(pr) => {
                                            let action = BehaviourAction::InboundFailure {
                                                request_id,
                                                peer: pr.0,
                                                reason: InboundFailure::ConnectionClosed,
                                            };
                                            self.actions.push_back(action);
                                            Some(())
                                        },
                                    }
                                },
                                RequestDirection::Outbound => {
                                    self.add_dial_attempt(peer, request_id);
                                    Some(())
                                },
                            }
                        },
                    }
                },
            }
        }
    }


    /// Admit a request per its classification: park it to wait for a rule or
    /// approval, attach or fail it right away, or reject it.
    pub fn on_new_request(
        &mut self,
        peer: PeerId,
        request_id: RequestId,
        request: RequestMessage,
        approval_status: ApprovalStatus,
        direction: RequestDirection,
    )
        requires
            old(self).wf(),
            old(self).fresh_id(request_id),
        ensures
            final(self).wf(),
            match approval_status {
                ApprovalStatus::MissingRule => {
                    &&& final(self).store_of(direction) == old(self).store_of(direction).push(
                        (StoredRequest { request_id, peer, request }),
                    )
                    &&& final(self).store_of(opposite(direction)) == old(self).store_of(
                        opposite(direction),
                    )
                    &&& final(self).rule_list(peer, direction) == old(self).rule_list(
                        peer,
                        direction,
                    ).push(request_id)
                    &&& final(self).rule_pending(peer, direction)
                    &&& forall|d: RequestDirection|
                        d != direction ==> final(self).rule_list(peer, d) == old(self).rule_list(
                            peer,
                            d,
                        ) && final(self).rule_pending(peer, d) == old(self).rule_pending(peer, d)
                    &&& forall|p: PeerId, d: RequestDirection|
                        p != peer ==> final(self).rule_list(p, d) == old(self).rule_list(p, d)
                            && final(self).rule_pending(p, d) == old(self).rule_pending(p, d)
                    &&& final(self).in_rule_wait(request_id, direction)
                    &&& forall|id: RequestId, d: RequestDirection|
                        !(id == request_id && d == direction) ==> final(self).in_rule_wait(id, d)
                            == old(self).in_rule_wait(id, d)
                    &&& final(self).connections == old(self).connections
                    &&& final(self).awaiting_connection@ == old(self).awaiting_connection@
                    &&& final(self).approvals() == old(self).approvals()
                    &&& final(self).actions@ == old(self).actions@
                },
                ApprovalStatus::MissingApproval => {
                    &&& final(self).store_of(direction) == old(self).store_of(direction).push(
                        (StoredRequest { request_id, peer, request }),
                    )
                    &&& final(self).store_of(opposite(direction)) == old(self).store_of(
                        opposite(direction),
                    )
                    &&& final(self).approvals() == old(self).approvals().push(
                        (request_id.id, spec_direction_code(direction)),
                    )
                    &&& final(self).in_approval_wait(request_id, direction)
                    &&& final(self).connections == old(self).connections
                    &&& final(self).awaiting_connection@ == old(self).awaiting_connection@
                    &&& final(self).awaiting_peer_rule@ == old(self).awaiting_peer_rule@
                    &&& final(self).actions@ == old(self).actions@
                },
                ApprovalStatus::Approved => admits_new_request(
                    *old(self),
                    *final(self),
                    peer,
                    request_id,
                    request,
                    direction,
                ),
                ApprovalStatus::Rejected => {
                    &&& final(self).inbound_request_store@ == old(self).inbound_request_store@
                    &&& final(self).outbound_request_store@ == old(self).outbound_request_store@
                    &&& final(self).connections == old(self).connections
                    &&& final(self).awaiting_connection@ == old(self).awaiting_connection@
                    &&& final(self).awaiting_peer_rule@ == old(self).awaiting_peer_rule@
                    &&& final(self).approvals() == old(self).approvals()
                    &&& final(self).actions@ == old(self).actions@.push(
                        not_permitted_action(peer, request_id, direction),
                    )
                },
            },
    {
        match approval_status {
            ApprovalStatus::MissingRule => {
                self.store_request(peer, request_id, request, direction);
                let ghost mid = *self;
                self.add_rule_wait(peer, request_id, direction);
                proof {
                    assert(mid.awaiting_peer_rule@ == old(self).awaiting_peer_rule@);
                }
            },
            ApprovalStatus::MissingApproval => {
                self.add_approval_wait(peer, request_id, request, direction);
            },
            ApprovalStatus::Approved => {
                let attached = self.connections.add_request(peer, request_id, direction);
                match attached {
                    Some(connection) => {
                        self.add_ready_request(peer, request_id, connection, request, direction);
                    },
                    None => {
                        match direction {
                            RequestDirection::Outbound => {
                                self.store_request(
                                    peer,
                                    request_id,
                                    request,
                                    RequestDirection::Outbound,
                                );
                                self.add_dial_attempt(peer, request_id);
                            },
                            RequestDirection::Inbound => {
                                self.actions.push_back(
                                    BehaviourAction::InboundFailure {
                                        request_id,
                                        peer,
                                        reason: InboundFailure::ConnectionClosed,
                                    },
                                );
                            },
                        }
                    },
                }
            },
            ApprovalStatus::Rejected => {
                let action = match direction {
                    RequestDirection::Outbound => BehaviourAction::OutboundFailure {
                        peer,
                        request_id,
                        reason: OutboundFailure::NotPermitted,
                    },
                    RequestDirection::Inbound => BehaviourAction::InboundFailure {
                        peer,
                        request_id,
                        reason: InboundFailure::NotPermitted,
                    },
                };
                self.actions.push_back(action);
            },
        }
    }


    /// Fail everything in flight on one closing connection: one
    /// `ConnectionClosed` failure per in-flight request, outbound first,
    /// each in list order.
    pub fn on_connection_closed(&mut self, peer: PeerId, connection: ConnectionId)
        requires
            old(self).wf(),
        ensures
            final(self).wf(),
            old(self).consistent() ==> final(self).consistent(),
            final(self).inbound_request_store@ == old(self).inbound_request_store@,
            final(self).outbound_request_store@ == old(self).outbound_request_store@,
            final(self).awaiting_connection@ == old(self).awaiting_connection@,
            final(self).awaiting_peer_rule@ == old(self).awaiting_peer_rule@,
            final(self).approvals() == old(self).approvals(),
            !old(self).connections.conns_of(peer).contains(connection) ==> final(self).connections
                == old(self).connections && final(self).actions@ == old(self).actions@,
            old(self).connections.conns_of(peer).contains(connection) ==> {
                let cs = old(self).connections.conns_of(peer);
                let k = cs.index_of(connection);
                &&& !final(self).connections.has_conn(connection)
                &&& 0 <= k < cs.len() && cs[k] == connection
                &&& forall|k2: int| 0 <= k2 < cs.len() && k2 != k ==> cs[k2] != connection
                &&& final(self).connections.conns_of(peer) == cs.remove(k)
                &&& forall|c: ConnectionId|
                    c != connection ==> final(self).connections.has_conn(c) == old(self).connections.has_conn(c)
                &&& forall|c: ConnectionId, d: RequestDirection|
                    c != connection ==> final(self).connections.in_flight(c, d) == old(self).connections.in_flight(c, d)
                &&& forall|p: PeerId|
                    p != peer ==> final(self).connections.conns_of(p) == old(self).connections.conns_of(p)
                &&& forall|p: PeerId|
                    p != peer ==> final(self).connections.connected(p) == old(self).connections.connected(p)
                &&& final(self).connections.connected(peer) == (cs.len() > 1)
                &&& final(self).actions@ == old(self).actions@ + closed_conn_actions(
                    peer,
                    old(self).connections.in_flight(connection, RequestDirection::Outbound),
                    old(self).connections.in_flight(connection, RequestDirection::Inbound),
                )
            },
    {
        let pending = self.connections.remove_connection(peer, connection);
        match pending {
            None => {
                proof {
                    assert(self.actions@ =~= old(self).actions@);
                }
            },
            Some(pending) => {
                let ghost out_ids = pending.outbound_requests@;
                let ghost in_ids = pending.inbound_requests@;
                let ghost cm = self.connections;
                let ghost base = self.actions@;
                let mut j: usize = 0;
                while j < pending.outbound_requests.len()
                    invariant
                        j <= out_ids.len(),
                        pending.outbound_requests@ == out_ids,
                        self.wf(),
                        self.inbound_request_store@ == old(self).inbound_request_store@,
                        self.outbound_request_store@ == old(self).outbound_request_store@,
                        self.awaiting_connection@ == old(self).awaiting_connection@,
                        self.awaiting_peer_rule@ == old(self).awaiting_peer_rule@,
                        self.approvals() == old(self).approvals(),
                        self.connections == cm,
                        self.actions@ == base + out_ids.subrange(0, j as int).map_values(
                            |id: RequestId| (BehaviourAction::OutboundFailure {
                                peer,
                                request_id: id,
                                reason: OutboundFailure::ConnectionClosed,
                            }),
                        ),
                    decreases out_ids.len() - j,
                {
                    self.actions.push_back(
                        BehaviourAction::OutboundFailure {
                            peer,
                            request_id: pending.outbound_requests[j],
                            reason: OutboundFailure::ConnectionClosed,
                        },
                    );
                    proof {
                        assert(out_ids.subrange(0, j + 1 as int).drop_last() =~= out_ids.subrange(
                            0,
                            j as int,
                        ));
                        assert(self.actions@ =~= base + out_ids.subrange(0, j + 1 as int).map_values(
                            |id: RequestId| (BehaviourAction::OutboundFailure {
                                peer,
                                request_id: id,
                                reason: OutboundFailure::ConnectionClosed,
                            }),
                        ));
                    }
                    j = j + 1;
                }
                proof {
                    assert(out_ids.subrange(0, out_ids.len() as int) =~= out_ids);
                }
                let ghost base2 = self.actions@;
                let mut j2: usize = 0;
                while j2 < pending.inbound_requests.len()
                    invariant
                        j2 <= in_ids.len(),
                        pending.inbound_requests@ == in_ids,
                        self.wf(),
                        self.inbound_request_store@ == old(self).inbound_request_store@,
                        self.outbound_request_store@ == old(self).outbound_request_store@,
                        self.awaiting_connection@ == old(self).awaiting_connection@,
                        self.awaiting_peer_rule@ == old(self).awaiting_peer_rule@,
                        self.approvals() == old(self).approvals(),
                        self.connections == cm,
                        self.actions@ == base2 + in_ids.subrange(0, j2 as int).map_values(
                            |id: RequestId| (BehaviourAction::InboundFailure {
                                peer,
                                request_id: id,
                                reason: InboundFailure::ConnectionClosed,
                            }),
                        ),
                    decreases in_ids.len() - j2,
                {
                    self.actions.push_back(
                        BehaviourAction::InboundFailure {
                            peer,
                            request_id: pending.inbound_requests[j2],
                            reason: InboundFailure::ConnectionClosed,
                        },
                    );
                    proof {
                        assert(in_ids.subrange(0, j2 + 1 as int).drop_last() =~= in_ids.subrange(
                            0,
                            j2 as int,
                        ));
                        assert(self.actions@ =~= base2 + in_ids.subrange(0, j2 + 1 as int).map_values(
                            |id: RequestId| (BehaviourAction::InboundFailure {
                                peer,
                                request_id: id,
                                reason: InboundFailure::ConnectionClosed,
                            }),
                        ));
                    }
                    j2 = j2 + 1;
                }
                proof {
                    assert(in_ids.subrange(0, in_ids.len() as int) =~= in_ids);
                    assert(self.actions@ =~= old(self).actions@ + closed_conn_actions(
                        peer,
                        old(self).connections.in_flight(connection, RequestDirection::Outbound),
                        old(self).connections.in_flight(connection, RequestDirection::Inbound),
                    ));
                }
            },
        }
    }
    /// A remote peer disconnected entirely: close every live connection to
    /// it, exactly as `on_connection_closed` would, in establishment order.
    pub fn on_peer_disconnected(&mut self, peer: PeerId)
        requires
            old(self).wf(),
        ensures
            final(self).wf(),
            old(self).consistent() ==> final(self).consistent(),
            final(self).inbound_request_store@ == old(self).inbound_request_store@,
            final(self).outbound_request_store@ == old(self).outbound_request_store@,
            final(self).awaiting_connection@ == old(self).awaiting_connection@,
            final(self).awaiting_peer_rule@ == old(self).awaiting_peer_rule@,
            final(self).approvals() == old(self).approvals(),
            !final(self).connections.connected(peer),
            forall|p: PeerId|
                p != peer ==> final(self).connections.conns_of(p) == old(self).connections.conns_of(p) && final(self).connections.connected(p) == old(self).connections.connected(p),
            forall|c: ConnectionId|
                old(self).connections.conns_of(peer).contains(c) ==> !final(self).connections.has_conn(c),
            forall|c: ConnectionId, d: RequestDirection|
                !old(self).connections.conns_of(peer).contains(c) ==> final(self).connections.in_flight(c, d) == old(self).connections.in_flight(c, d),
            final(self).actions@ == old(self).actions@ + disconnect_actions(
                old(self).connections,
                peer,
                old(self).connections.conns_of(peer),
            ),
    {
        let conns = self.connections.get_connections(peer);
        let ghost cs = conns@;
        let ghost cm0 = self.connections;
        let mut i: usize = 0;
        proof {
            assert(cs.subrange(0, 0) =~= Seq::<ConnectionId>::empty());
        }
        while i < conns.len()
            invariant
                i <= cs.len(),
                conns@ == cs,
                self.wf(),
                cs == cm0.conns_of(peer),
                self.inbound_request_store@ == old(self).inbound_request_store@,
                self.outbound_request_store@ == old(self).outbound_request_store@,
                self.awaiting_connection@ == old(self).awaiting_connection@,
                self.awaiting_peer_rule@ == old(self).awaiting_peer_rule@,
                self.approvals() == old(self).approvals(),
                self.connections.conns_of(peer) == cs.subrange(i as int, cs.len() as int),
                forall|p: PeerId|
                    p != peer ==> self.connections.conns_of(p) == cm0.conns_of(p)
                        && self.connections.connected(p) == cm0.connected(p),
                forall|j: int| 0 <= j < i ==> !self.connections.has_conn(#[trigger] cs[j]),
                forall|c: ConnectionId, d: RequestDirection|
                    !cs.subrange(0, i as int).contains(c) ==> self.connections.in_flight(c, d)
                        == cm0.in_flight(c, d),
                self.actions@ == old(self).actions@ + disconnect_actions(
                    cm0,
                    peer,
                    cs.subrange(0, i as int),
                ),
            decreases cs.len() - i,
        {
            let c = conns[i];
            let ghost pre = *self;
            proof {
                assert(pre.connections.conns_of(peer)[0] == c);
                assert(pre.connections.conns_of(peer).contains(c));
                pre.connections.lemma_conns_of_live(peer);
            }
            self.on_connection_closed(peer, c);
            proof {
                let pcs = pre.connections.conns_of(peer);
                let k = pcs.index_of(c);
                assert(pcs[0] == c);
                assert(k == 0);
                assert(self.connections.conns_of(peer) =~= cs.subrange(i + 1, cs.len() as int))
                    by {
                    assert(pcs.remove(0) =~= pcs.subrange(1, pcs.len() as int));
                    assert(pcs.remove(0) =~= cs.subrange(i + 1, cs.len() as int));
                }
                assert forall|j: int| 0 <= j < i + 1 implies !self.connections.has_conn(
                    #[trigger] cs[j],
                ) by {
                    if j < i {
                        if cs[j] == c {
                            assert(!pre.connections.has_conn(c));
                            assert(pre.connections.conns_of(peer).contains(c));
                            assert(false);
                        }
                    }
                }
                assert forall|c2: ConnectionId, d: RequestDirection|
                    !cs.subrange(0, i + 1 as int).contains(c2) implies self.connections.in_flight(
                    c2,
                    d,
                ) == cm0.in_flight(c2, d) by {
                    assert(forall|k2: int|
                        0 <= k2 < i ==> cs.subrange(0, i + 1 as int)[k2] == cs[k2]);
                    assert(cs.subrange(0, i + 1 as int)[i as int] == c);
                    if c2 != c {
                        assert(!cs.subrange(0, i as int).contains(c2)) by {
                            if cs.subrange(0, i as int).contains(c2) {
                                let w = choose|w: int|
                                    0 <= w < i && cs.subrange(0, i as int)[w] == c2;
                                assert(cs.subrange(0, i + 1 as int)[w] == c2);
                            }
                        }
                    }
                }
                assert(pre.connections.in_flight(c, RequestDirection::Outbound) == cm0.in_flight(
                    c,
                    RequestDirection::Outbound,
                ) && pre.connections.in_flight(c, RequestDirection::Inbound) == cm0.in_flight(
                    c,
                    RequestDirection::Inbound,
                )) by {
                    assert(!cs.subrange(0, i as int).contains(c)) by {
                        if cs.subrange(0, i as int).contains(c) {
                            let w = choose|w: int| 0 <= w < i && cs.subrange(0, i as int)[w] == c;
                            assert(cs[w] == c);
                            assert(!pre.connections.has_conn(cs[w]));
                            assert(false);
                        }
                    }
                }
                lemma_disconnect_actions_concat(cm0, peer, cs.subrange(0, i as int), seq![c]);
                assert(cs.subrange(0, i + 1 as int) =~= cs.subrange(0, i as int) + seq![c]);
                assert(disconnect_actions(cm0, peer, seq![c]) =~= closed_conn_actions(
                    peer,
                    cm0.in_flight(c, RequestDirection::Outbound),
                    cm0.in_flight(c, RequestDirection::Inbound),
                )) by {
                    assert(seq![c].drop_first() =~= Seq::<ConnectionId>::empty());
                    assert(disconnect_actions(cm0, peer, Seq::<ConnectionId>::empty()) =~= Seq::<
                        BehaviourAction,
                    >::empty());
                }
                assert(self.actions@ =~= old(self).actions@ + disconnect_actions(
                    cm0,
                    peer,
                    cs.subrange(0, i + 1 as int),
                ));
            }
            i = i + 1;
        }
        proof {
            assert(cs.subrange(0, cs.len() as int) =~= cs);
            assert(self.connections.conns_of(peer) =~= Seq::<ConnectionId>::empty());
            self.connections.lemma_connected_iff_conns(peer);
        }
    }

    /// A dial attempt to `peer` failed: every outbound request awaiting the
    /// connection fails with a dial failure and leaves the books, its sink
    /// dropped.
    #[verifier::rlimit(100)]
    #[verifier::spinoff_prover]
    pub fn on_dial_failure(&mut self, peer: PeerId)
        requires
            old(self).wf(),
        ensures
            final(self).wf(),
            final(self).inbound_request_store@ == old(self).inbound_request_store@,
            final(self).connections == old(self).connections,
            final(self).awaiting_peer_rule@ == old(self).awaiting_peer_rule@,
            final(self).approvals() == old(self).approvals(),
            !final(self).has_conn_wait_entry(peer),
            forall|p: PeerId|
                p != peer ==> final(self).conn_wait_list(p) == old(self).conn_wait_list(p)
                    && final(self).has_conn_wait_entry(p) == old(self).has_conn_wait_entry(p),
            forall|id: RequestId|
                final(self).in_store(RequestDirection::Outbound, id) == (old(self).in_store(
                    RequestDirection::Outbound,
                    id,
                ) && !old(self).conn_wait_list(peer).contains(id)),
            final(self).actions@ == old(self).actions@ + old(self).conn_wait_list(
                peer,
            ).map_values(
                |id: RequestId| (BehaviourAction::OutboundFailure {
                    peer,
                    request_id: id,
                    reason: OutboundFailure::DialFailure,
                }),
            ),
    {
        let found = find_conn_wait(&self.awaiting_connection, peer);
        match found {
            None => {
                proof {
                    assert(!old(self).has_conn_wait_entry(peer));
                    assert(old(self).conn_wait_list(peer) =~= Seq::<RequestId>::empty());
                    assert(self.actions@ =~= old(self).actions@ + old(self).conn_wait_list(
                        peer,
                    ).map_values(
                        |id: RequestId| (BehaviourAction::OutboundFailure {
                            peer,
                            request_id: id,
                            reason: OutboundFailure::DialFailure,
                        }),
                    ));
                }
            },
            Some(e) => {
                let ghost prev = *self;
                let entry = self.awaiting_connection.remove(e);
                let ghost ids = entry.requests@;
                let ghost base = self.actions@;
                proof {
                    assert(prev.conn_wait_at(peer) == e as int);
                    assert(prev.conn_wait_list(peer) == ids);
                    let rows = self.awaiting_connection@;
                    let n = prev.awaiting_connection@.len() as int;
                    assert(forall|k: int| 0 <= k < e ==> rows[k] == prev.awaiting_connection@[k]);
                    assert(forall|k: int|
                        e <= k < n - 1 ==> rows[k] == prev.awaiting_connection@[k + 1]);
                    assert(!self.has_conn_wait_entry(peer)) by {
                        if self.has_conn_wait_entry(peer) {
                            let w = self.conn_wait_at(peer);
                            assert(rows[w].peer == peer);
                            if w < e {
                                assert(prev.awaiting_connection@[w].peer == peer);
                            } else {
                                assert(prev.awaiting_connection@[w + 1].peer == peer);
                            }
                        }
                    }
                    assert forall|p: PeerId| p != peer implies self.conn_wait_list(p)
                        == prev.conn_wait_list(p) && self.has_conn_wait_entry(p)
                        == prev.has_conn_wait_entry(p) by {
                        if prev.has_conn_wait_entry(p) {
                            let w = prev.conn_wait_at(p);
                            assert(prev.awaiting_connection@[w].peer == p);
                            assert(w != e);
                            if w < e {
                                assert(rows[w].peer == p);
                                assert(self.conn_wait_at(p) == w);
                            } else {
                                assert(rows[w - 1].peer == p);
                                assert(self.conn_wait_at(p) == w - 1);
                            }
                        } else {
                            if self.has_conn_wait_entry(p) {
                                let w = self.conn_wait_at(p);
                                assert(rows[w].peer == p);
                                if w < e {
                                    assert(prev.awaiting_connection@[w].peer == p);
                                } else {
                                    assert(prev.awaiting_connection@[w + 1].peer == p);
                                }
                            }
                        }
                    }
                }
                let ghost cw_rows = self.awaiting_connection@;
                let mut j: usize = 0;
                proof {
                    assert(ids.subrange(0, 0) =~= Seq::<RequestId>::empty());
                }
                while j < entry.requests.len()
                    invariant
                        j <= ids.len(),
                        entry.requests@ == ids,
                        self.wf(),
                        self.inbound_request_store@ == old(self).inbound_request_store@,
                        self.connections == old(self).connections,
                        self.awaiting_connection@ == cw_rows,
                        self.awaiting_peer_rule@ == old(self).awaiting_peer_rule@,
                        self.approvals() == old(self).approvals(),
                        forall|id: RequestId| #[trigger]
                            self.in_store(RequestDirection::Outbound, id) == (old(self).in_store(
                                RequestDirection::Outbound,
                                id,
                            ) && !ids.subrange(0, j as int).contains(id)),
                        self.actions@ == base + ids.subrange(0, j as int).map_values(
                            |id: RequestId| (BehaviourAction::OutboundFailure {
                                peer,
                                request_id: id,
                                reason: OutboundFailure::DialFailure,
                            }),
                        ),
                    decreases ids.len() - j,
                {
                    let id = entry.requests[j];
                    let ghost pre = *self;
                    let taken = self.take_stored_request(id, RequestDirection::Outbound);
                    proof {
                        let d = RequestDirection::Outbound;
                        if pre.in_store(d, id) {
                            let w = pre.store_index(d, id);
                            lemma_store_remove_membership(pre.store_of(d), w);
                            assert(self.store_of(d) == pre.store_of(d).remove(w));
                            assert(pre.store_of(d)[w].request_id == id);
                        } else {
                            assert(self.store_of(d) == pre.store_of(d));
                        }
                        assert forall|id2: RequestId| #[trigger] self.in_store(d, id2) == (old(self).in_store(d, id2) && !ids.subrange(0, j + 1 as int).contains(id2)) by {
                            assert(pre.in_store(d, id2) == (old(self).in_store(d, id2)
                                && !ids.subrange(0, j as int).contains(id2)));
                            if pre.in_store(d, id) {
                                assert(store_has(self.store_of(d), id2) == (store_has(
                                    pre.store_of(d),
                                    id2,
                                ) && id2 != id));
                            }
                            assert(forall|k2: int|
                                0 <= k2 < j ==> ids.subrange(0, j + 1 as int)[k2] == ids.subrange(
                                    0,
                                    j as int,
                                )[k2]);
                            assert(ids.subrange(0, j + 1 as int)[j as int] == id);
                            if ids.subrange(0, j as int).contains(id2) {
                                let w2 = choose|w2: int|
                                    0 <= w2 < j && ids.subrange(0, j as int)[w2] == id2;
                                assert(ids.subrange(0, j + 1 as int)[w2] == id2);
                            } else {
                                if ids.subrange(0, j + 1 as int).contains(id2) {
                                    let w2 = choose|w2: int|
                                        0 <= w2 < j + 1 && (#[trigger] ids.subrange(
                                            0,
                                            j + 1 as int,
                                        )[w2]) == id2;
                                    assert(0 <= w2 < j + 1 && ids.subrange(0, j + 1 as int)[w2]
                                        == id2);
                                    if w2 < j {
                                        assert(ids.subrange(0, j as int)[w2] == id2);
                                    }
                                }
                            }
                        }
                    }
                    let ghost mid = *self;
                    self.actions.push_back(
                        BehaviourAction::OutboundFailure {
                            peer,
                            request_id: id,
                            reason: OutboundFailure::DialFailure,
                        },
                    );
                    proof {
                        assert(self.inbound_request_store@ == mid.inbound_request_store@);
                        assert(self.outbound_request_store@ == mid.outbound_request_store@);
                        assert(forall|id2: RequestId| #[trigger]
                            self.in_store(RequestDirection::Outbound, id2) == mid.in_store(
                                RequestDirection::Outbound,
                                id2,
                            ));
                        assert(ids.subrange(0, j + 1 as int).drop_last() =~= ids.subrange(
                            0,
                            j as int,
                        ));
                        assert(self.actions@ =~= base + ids.subrange(0, j + 1 as int).map_values(
                            |id2: RequestId| (BehaviourAction::OutboundFailure {
                                peer,
                                request_id: id2,
                                reason: OutboundFailure::DialFailure,
                            }),
                        ));
                    }
                    j = j + 1;
                }
                proof {
                    assert(ids.subrange(0, ids.len() as int) =~= ids);
                }
            },
        }
    }

    /// At least one connection to `peer` is established: attach every
    /// outbound request that awaited the connection, in order, and emit it
    /// as ready. Does nothing if the peer is not connected.
    #[verifier::rlimit(100)]
    #[verifier::spinoff_prover]
    pub fn on_peer_connected(&mut self, peer: PeerId)
        requires
            old(self).wf(),
        ensures
            final(self).wf(),
            final(self).inbound_request_store@ == old(self).inbound_request_store@,
            final(self).awaiting_peer_rule@ == old(self).awaiting_peer_rule@,
            final(self).approvals() == old(self).approvals(),
            !old(self).connections.connected(peer) ==> {
                &&& final(self).outbound_request_store@ == old(self).outbound_request_store@
                &&& final(self).connections == old(self).connections
                &&& final(self).awaiting_connection@ == old(self).awaiting_connection@
                &&& final(self).actions@ == old(self).actions@
            },
            old(self).connections.connected(peer) ==> {
                let c0 = old(self).connections.conns_of(peer)[0];
                let fl = flush_ready(
                    old(self).store_of(RequestDirection::Outbound),
                    c0,
                    old(self).conn_wait_list(peer),
                );
                &&& final(self).outbound_request_store@ == fl.0
                &&& final(self).actions@ == old(self).actions@ + fl.1
                &&& final(self).connections.in_flight(c0, RequestDirection::Outbound) == old(self).connections.in_flight(c0, RequestDirection::Outbound) + fl.2
                &&& forall|c: ConnectionId, d: RequestDirection|
                    !(c == c0 && d == RequestDirection::Outbound) ==> final(self).connections.in_flight(c, d) == old(self).connections.in_flight(c, d)
                &&& forall|p: PeerId|
                    final(self).connections.conns_of(p) == old(self).connections.conns_of(p)
                &&& forall|p: PeerId|
                    final(self).connections.connected(p) == old(self).connections.connected(p)
                &&& !final(self).has_conn_wait_entry(peer)
                &&& forall|p: PeerId|
                    p != peer ==> final(self).conn_wait_list(p) == old(self).conn_wait_list(p)
                        && final(self).has_conn_wait_entry(p) == old(self).has_conn_wait_entry(p)
            },
    {
        if !self.connections.is_connected(peer) {
            return ;
        }
        let found = find_conn_wait(&self.awaiting_connection, peer);
        match found {
            None => {
                proof {
                    assert(!old(self).has_conn_wait_entry(peer));
                    assert(old(self).conn_wait_list(peer) =~= Seq::<RequestId>::empty());
                    let c0 = old(self).connections.conns_of(peer)[0];
                    assert(flush_ready(
                        old(self).store_of(RequestDirection::Outbound),
                        c0,
                        old(self).conn_wait_list(peer),
                    ).1 =~= Seq::<BehaviourAction>::empty());
                    assert(flush_ready(
                        old(self).store_of(RequestDirection::Outbound),
                        c0,
                        old(self).conn_wait_list(peer),
                    ).2 =~= Seq::<RequestId>::empty());
                    assert(self.actions@ =~= old(self).actions@ + Seq::<
                        BehaviourAction,
                    >::empty());
                    assert(old(self).connections.in_flight(c0, RequestDirection::Outbound) + Seq::<
                        RequestId,
                    >::empty() =~= old(self).connections.in_flight(
                        c0,
                        RequestDirection::Outbound,
                    ));
                }
            },
            Some(e) => {
                let ghost prev = *self;
                let entry = self.awaiting_connection.remove(e);
                let ghost ids = entry.requests@;
                let ghost base = self.actions@;
                let ghost store0 = self.store_of(RequestDirection::Outbound);
                let ghost cm0 = self.connections;
                let ghost c0 = cm0.conns_of(peer)[0];
                proof {
                    assert(prev.conn_wait_at(peer) == e as int);
                    assert(prev.conn_wait_list(peer) == ids);
                    let rows = self.awaiting_connection@;
                    let n = prev.awaiting_connection@.len() as int;
                    assert(forall|k: int| 0 <= k < e ==> rows[k] == prev.awaiting_connection@[k]);
                    assert(forall|k: int|
                        e <= k < n - 1 ==> rows[k] == prev.awaiting_connection@[k + 1]);
                    assert(!self.has_conn_wait_entry(peer)) by {
                        if self.has_conn_wait_entry(peer) {
                            let w = self.conn_wait_at(peer);
                            assert(rows[w].peer == peer);
                            if w < e {
                                assert(prev.awaiting_connection@[w].peer == peer);
                            } else {
                                assert(prev.awaiting_connection@[w + 1].peer == peer);
                            }
                        }
                    }
                    assert forall|p: PeerId| p != peer implies self.conn_wait_list(p)
                        == prev.conn_wait_list(p) && self.has_conn_wait_entry(p)
                        == prev.has_conn_wait_entry(p) by {
                        if prev.has_conn_wait_entry(p) {
                            let w = prev.conn_wait_at(p);
                            assert(prev.awaiting_connection@[w].peer == p);
                            assert(w != e);
                            if w < e {
                                assert(rows[w].peer == p);
                                assert(self.conn_wait_at(p) == w);
                            } else {
                                assert(rows[w - 1].peer == p);
                                assert(self.conn_wait_at(p) == w - 1);
                            }
                        } else {
                            if self.has_conn_wait_entry(p) {
                                let w = self.conn_wait_at(p);
                                assert(rows[w].peer == p);
                                if w < e {
                                    assert(prev.awaiting_connection@[w].peer == p);
                                } else {
                                    assert(prev.awaiting_connection@[w + 1].peer == p);
                                }
                            }
                        }
                    }
                    assert(ids.subrange(0, 0) =~= Seq::<RequestId>::empty());
                }
                let ghost cw_rows = self.awaiting_connection@;
                let mut j: usize = 0;
                while j < entry.requests.len()
                    invariant
                        j <= ids.len(),
                        entry.requests@ == ids,
                        self.wf(),
                        cm0.connected(peer),
                        c0 == cm0.conns_of(peer)[0],
                        store0 == old(self).store_of(RequestDirection::Outbound),
                        self.inbound_request_store@ == old(self).inbound_request_store@,
                        self.awaiting_connection@ == cw_rows,
                        self.awaiting_peer_rule@ == old(self).awaiting_peer_rule@,
                        self.approvals() == old(self).approvals(),
                        self.outbound_request_store@ == flush_ready(
                            store0,
                            c0,
                            ids.subrange(0, j as int),
                        ).0,
                        self.actions@ == base + flush_ready(store0, c0, ids.subrange(0, j as int)).1,
                        self.connections.in_flight(c0, RequestDirection::Outbound)
                            == cm0.in_flight(c0, RequestDirection::Outbound) + flush_ready(
                            store0,
                            c0,
                            ids.subrange(0, j as int),
                        ).2,
                        forall|c: ConnectionId, d: RequestDirection|
                            !(c == c0 && d == RequestDirection::Outbound)
                                ==> self.connections.in_flight(c, d) == cm0.in_flight(c, d),
                        forall|p: PeerId| self.connections.conns_of(p) == cm0.conns_of(p),
                        forall|p: PeerId| self.connections.connected(p) == cm0.connected(p),
                    decreases ids.len() - j,
                {
                    let id = entry.requests[j];
                    let ghost pre = *self;
                    let taken = self.take_stored_request(id, RequestDirection::Outbound);
                    proof {
                        lemma_flush_ready_concat(store0, c0, ids.subrange(0, j as int), seq![id]);
                        assert(ids.subrange(0, j + 1 as int) =~= ids.subrange(0, j as int) + seq![
                            id,
                        ]);
                        assert(seq![id].drop_first() =~= Seq::<RequestId>::empty());
                    }
                    match taken {
                        None => {
                            proof {
                                let flp = flush_ready(store0, c0, ids.subrange(0, j as int));
                                assert(pre.outbound_request_store@ == flp.0);
                                assert(!pre.in_store(RequestDirection::Outbound, id));
                                assert(!store_has(flp.0, id));
                                let rest = flush_ready(flp.0, c0, Seq::<RequestId>::empty());
                                assert(rest.0 == flp.0 && rest.1 =~= Seq::<
                                    BehaviourAction,
                                >::empty() && rest.2 =~= Seq::<RequestId>::empty());
                                assert(seq![id].drop_first() == Seq::<RequestId>::empty());
                                assert(flush_ready(flp.0, c0, seq![id].drop_first()) == rest);
                                assert(seq![id][0] == id);
                                assert(flush_ready(flp.0, c0, seq![id]).0 =~= flp.0);
                                assert(flush_ready(flp.0, c0, seq![id]).1 =~= Seq::<
                                    BehaviourAction,
                                >::empty());
                                assert(flush_ready(flp.0, c0, seq![id]).2 =~= Seq::<
                                    RequestId,
                                >::empty());
                                let fln = flush_ready(store0, c0, ids.subrange(0, j + 1 as int));
                                assert(fln.0 == flp.0 && fln.1 =~= flp.1 && fln.2 =~= flp.2);
                                assert(self.outbound_request_store@ =~= fln.0);
                                assert(self.actions@ =~= base + fln.1);
                                assert(self.connections.in_flight(
                                    c0,
                                    RequestDirection::Outbound,
                                ) =~= cm0.in_flight(c0, RequestDirection::Outbound) + fln.2);
                            }
                        },
                        Some(pr) => {
                            let attached = self.connections.add_request(
                                peer,
                                id,
                                RequestDirection::Outbound,
                            );
                            match attached {
                                None => {
                                    proof {
                                        assert(false);
                                    }
                                },
                                Some(c) => {
                                    proof {
                                        assert(c == c0);
                                    }
                                    self.add_ready_request(
                                        pr.0,
                                        id,
                                        c,
                                        pr.1,
                                        RequestDirection::Outbound,
                                    );
                                    proof {
                                        let flp = flush_ready(
                                            store0,
                                            c0,
                                            ids.subrange(0, j as int),
                                        );
                                        assert(pre.outbound_request_store@ == flp.0);
                                        assert(pre.in_store(RequestDirection::Outbound, id));
                                        let w = store_at(flp.0, id);
                                        assert(store_has(flp.0, id));
                                        assert(pre.store_index(RequestDirection::Outbound, id)
                                            == w);
                                        assert(pr.0 == flp.0[w].peer && pr.1 == flp.0[w].request);
                                        let rest = flush_ready(
                                            flp.0.remove(w),
                                            c0,
                                            Seq::<RequestId>::empty(),
                                        );
                                        assert(rest.0 == flp.0.remove(w) && rest.1 =~= Seq::<
                                            BehaviourAction,
                                        >::empty() && rest.2 =~= Seq::<RequestId>::empty());
                                        assert(seq![id].drop_first() == Seq::<
                                            RequestId,
                                        >::empty());
                                        assert(flush_ready(
                                            flp.0.remove(w),
                                            c0,
                                            seq![id].drop_first(),
                                        ) == rest);
                                        assert(seq![id][0] == id);
                                        let fl1 = flush_ready(flp.0, c0, seq![id]);
                                        assert(fl1.0 =~= flp.0.remove(w));
                                        assert(fl1.1 =~= seq![
                                            ready_action(
                                                flp.0[w].peer,
                                                id,
                                                c0,
                                                flp.0[w].request,
                                                RequestDirection::Outbound,
                                            ),
                                        ]);
                                        assert(fl1.2 =~= seq![id]);
                                        let fln = flush_ready(
                                            store0,
                                            c0,
                                            ids.subrange(0, j + 1 as int),
                                        );
                                        assert(self.outbound_request_store@ =~= fln.0);
                                        assert(self.actions@ =~= base + fln.1);
                                        assert(self.connections.in_flight(
                                            c0,
                                            RequestDirection::Outbound,
                                        ) =~= cm0.in_flight(c0, RequestDirection::Outbound)
                                            + fln.2);
                                    }
                                },
                            }
                        },
                    }
                    j = j + 1;
                }
                proof {
                    assert(ids.subrange(0, ids.len() as int) =~= ids);
                }
            },
        }
    }


    /// For which directions requests of `peer` are currently blocked on a
    /// rule query.
    pub fn pending_rule_requests(&self, peer: PeerId) -> (r: Option<RuleDirection>)
        requires
            self.wf(),
        ensures
            match r {
                Some(RuleDirection::Both) => self.rule_pending(peer, RequestDirection::Inbound)
                    && self.rule_pending(peer, RequestDirection::Outbound),
                Some(RuleDirection::Inbound) => self.rule_pending(peer, RequestDirection::Inbound)
                    && !self.rule_pending(peer, RequestDirection::Outbound),
                Some(RuleDirection::Outbound) => !self.rule_pending(
                    peer,
                    RequestDirection::Inbound,
                ) && self.rule_pending(peer, RequestDirection::Outbound),
                None => !self.rule_pending(peer, RequestDirection::Inbound) && !self.rule_pending(
                    peer,
                    RequestDirection::Outbound,
                ),
            },
    {
        let found = find_rule_entry(&self.awaiting_peer_rule, peer);
        match found {
            None => {
                proof {
                    assert(!self.has_rule_entry(peer));
                }
                None
            },
            Some(e) => {
                proof {
                    assert(self.has_rule_entry(peer));
                    assert(self.rule_entry_at(peer) == e as int);
                }
                let entry = &self.awaiting_peer_rule[e];
                let is_inbound_pending = entry.inbound.is_some();
                let is_outbound_pending = entry.outbound.is_some();
                if is_inbound_pending && is_outbound_pending {
                    Some(RuleDirection::Both)
                } else if is_inbound_pending {
                    Some(RuleDirection::Inbound)
                } else if is_outbound_pending {
                    Some(RuleDirection::Outbound)
                } else {
                    None
                }
            },
        }
    }

    /// Install the placeholders that mark a rule query for `peer` as under
    /// way, so the facade does not issue the same query twice.
    pub fn add_pending_rule_requests(&mut self, peer: PeerId, direction: RuleDirection)
        requires
            old(self).wf(),
        ensures
            final(self).wf(),
            pending_marked(*old(self), *final(self), peer, direction),
    {
        let found = find_rule_entry(&self.awaiting_peer_rule, peer);
        let ghost prev = *self;
        match found {
            None => {
                let inbound: Option<Vec<RequestId>> = if direction.is_inbound() {
                    Some(Vec::new())
                } else {
                    None
                };
                let outbound: Option<Vec<RequestId>> = if direction.is_outbound() {
                    Some(Vec::new())
                } else {
                    None
                };
                self.awaiting_peer_rule.push(PeerRuleEntry { peer, inbound, outbound });
                proof {
                    let rows = self.awaiting_peer_rule@;
                    let n = prev.awaiting_peer_rule@.len() as int;
                    assert(forall|k: int| 0 <= k < n ==> rows[k] == prev.awaiting_peer_rule@[k]);
                    assert(rows[n].peer == peer);
                    assert(!prev.has_rule_entry(peer));
                    assert(self.has_rule_entry(peer));
                    assert(self.rule_entry_at(peer) == n);
                    rule_frames_after_change(prev, *self, n, peer);
                    assert(rows[n].list(RequestDirection::Inbound) =~= Seq::<RequestId>::empty());
                    assert(rows[n].list(RequestDirection::Outbound) =~= Seq::<RequestId>::empty());
                    assert(forall|d: RequestDirection|
                        self.rule_list(peer, d) =~= prev.rule_list(peer, d));
                    assert forall|id: RequestId, d: RequestDirection| #[trigger] self.in_rule_wait(
                        id,
                        d,
                    ) == prev.in_rule_wait(id, d) by {
                        lemma_in_rule_wait_iff(prev, id, d);
                        lemma_in_rule_wait_iff(*self, id, d);
                        if self.in_rule_wait(id, d) {
                            let p = choose|p: PeerId| #[trigger] self.rule_list(p, d).contains(id);
                            assert(prev.rule_list(p, d).contains(id));
                        }
                        if prev.in_rule_wait(id, d) {
                            let p = choose|p: PeerId| #[trigger] prev.rule_list(p, d).contains(id);
                            assert(self.rule_list(p, d).contains(id));
                        }
                    }
                }
            },
            Some(e) => {
                let mut entry = self.awaiting_peer_rule.remove(e);
                if entry.inbound.is_none() && direction.is_inbound() {
                    entry.inbound = Some(Vec::new());
                }
                if entry.outbound.is_none() && direction.is_outbound() {
                    entry.outbound = Some(Vec::new());
                }
                self.awaiting_peer_rule.insert(e, entry);
                proof {
                    let rows = self.awaiting_peer_rule@;
                    let n = rows.len() as int;
                    assert(rows.len() == prev.awaiting_peer_rule@.len());
                    assert(forall|k: int|
                        0 <= k < n && k != e ==> rows[k] == prev.awaiting_peer_rule@[k]);
                    assert(rows[e as int].peer == peer);
                    assert(self.has_rule_entry(peer));
                    assert(self.rule_entry_at(peer) == e as int);
                    assert(prev.rule_entry_at(peer) == e as int);
                    rule_frames_after_change(prev, *self, e as int, peer);
                    assert(forall|d: RequestDirection|
                        self.rule_list(peer, d) =~= prev.rule_list(peer, d));
                    assert forall|id: RequestId, d: RequestDirection| #[trigger] self.in_rule_wait(
                        id,
                        d,
                    ) == prev.in_rule_wait(id, d) by {
                        lemma_in_rule_wait_iff(prev, id, d);
                        lemma_in_rule_wait_iff(*self, id, d);
                        if self.in_rule_wait(id, d) {
                            let p = choose|p: PeerId| #[trigger] self.rule_list(p, d).contains(id);
                            assert(prev.rule_list(p, d).contains(id));
                        }
                        if prev.in_rule_wait(id, d) {
                            let p = choose|p: PeerId| #[trigger] prev.rule_list(p, d).contains(id);
                            assert(self.rule_list(p, d).contains(id));
                        }
                    }
                }
            },
        }
    }


    /// The rule query for `peer` was denied or yielded nothing: every
    /// request awaiting a rule in a covered direction fails as not
    /// permitted, its sink dropped; uncovered directions keep waiting.
    #[verifier::rlimit(100)]
    #[verifier::spinoff_prover]
    pub fn on_no_peer_rule(&mut self, peer: PeerId, direction: RuleDirection)
        requires
            old(self).wf(),
        ensures
            final(self).wf(),
            final(self).connections == old(self).connections,
            final(self).awaiting_connection@ == old(self).awaiting_connection@,
            final(self).approvals() == old(self).approvals(),
            !old(self).has_rule_entry(peer) ==> {
                &&& final(self).inbound_request_store@ == old(self).inbound_request_store@
                &&& final(self).outbound_request_store@ == old(self).outbound_request_store@
                &&& final(self).awaiting_peer_rule@ == old(self).awaiting_peer_rule@
                &&& final(self).actions@ == old(self).actions@
            },
            old(self).has_rule_entry(peer) ==> {
                &&& forall|d: RequestDirection|
                    final(self).rule_list(peer, d) == (if covers(direction, d) {
                        Seq::<RequestId>::empty()
                    } else {
                        old(self).rule_list(peer, d)
                    })
                &&& forall|d: RequestDirection|
                    final(self).rule_pending(peer, d) == (old(self).rule_pending(peer, d)
                        && !covers(direction, d))
                &&& forall|p: PeerId, d: RequestDirection|
                    p != peer ==> final(self).rule_list(p, d) == old(self).rule_list(p, d)
                        && final(self).rule_pending(p, d) == old(self).rule_pending(p, d)
                &&& forall|id: RequestId|
                    final(self).in_store(RequestDirection::Inbound, id) == (old(self).in_store(
                        RequestDirection::Inbound,
                        id,
                    ) && !(covers(direction, RequestDirection::Inbound) && old(self).rule_list(
                        peer,
                        RequestDirection::Inbound,
                    ).contains(id)))
                &&& forall|id: RequestId|
                    final(self).in_store(RequestDirection::Outbound, id) == (old(self).in_store(
                        RequestDirection::Outbound,
                        id,
                    ) && !(covers(direction, RequestDirection::Outbound) && old(self).rule_list(
                        peer,
                        RequestDirection::Outbound,
                    ).contains(id)))
                &&& final(self).actions@ == old(self).actions@ + (if covers(
                    direction,
                    RequestDirection::Inbound,
                ) {
                    not_permitted_batch(
                        peer,
                        old(self).rule_list(peer, RequestDirection::Inbound),
                        RequestDirection::Inbound,
                    )
                } else {
                    Seq::<BehaviourAction>::empty()
                }) + (if covers(direction, RequestDirection::Outbound) {
                    not_permitted_batch(
                        peer,
                        old(self).rule_list(peer, RequestDirection::Outbound),
                        RequestDirection::Outbound,
                    )
                } else {
                    Seq::<BehaviourAction>::empty()
                })
            },
    {
        let found = find_rule_entry(&self.awaiting_peer_rule, peer);
        match found {
            None => {
                return ;
            },
            Some(e) => {
                let ghost prev = *self;
                let mut entry = self.awaiting_peer_rule.remove(e);
                let ghost entry0 = entry;
                let ghost after_rm = *self;
                proof {
                    assert(prev.rule_entry_at(peer) == e as int);
                    assert(prev.rule_list(peer, RequestDirection::Inbound) == entry0.list(
                        RequestDirection::Inbound,
                    ));
                    assert(prev.rule_list(peer, RequestDirection::Outbound) == entry0.list(
                        RequestDirection::Outbound,
                    ));
                }
                if direction.is_inbound() {
                    let l = entry.inbound;
                    entry.inbound = None;
                    match l {
                        None => {
                            proof {
                                assert(prev.rule_list(peer, RequestDirection::Inbound) =~= Seq::<
                                    RequestId,
                                >::empty());
                                assert(not_permitted_batch(
                                    peer,
                                    prev.rule_list(peer, RequestDirection::Inbound),
                                    RequestDirection::Inbound,
                                ) =~= Seq::<BehaviourAction>::empty());
                                assert(self.actions@ =~= old(self).actions@ + not_permitted_batch(
                                    peer,
                                    prev.rule_list(peer, RequestDirection::Inbound),
                                    RequestDirection::Inbound,
                                ));
                            }
                        },
                        Some(ids_vec) => {
                            self.fail_not_permitted(
                                peer,
                                &ids_vec,
                                RequestDirection::Inbound,
                                Ghost(after_rm.awaiting_peer_rule@),
                            );
                        },
                    }
                }
                let ghost after_in = *self;
                if direction.is_outbound() {
                    let l = entry.outbound;
                    entry.outbound = None;
                    match l {
                        None => {
                            proof {
                                assert(prev.rule_list(peer, RequestDirection::Outbound) =~= Seq::<
                                    RequestId,
                                >::empty());
                                assert(not_permitted_batch(
                                    peer,
                                    prev.rule_list(peer, RequestDirection::Outbound),
                                    RequestDirection::Outbound,
                                ) =~= Seq::<BehaviourAction>::empty());
                            }
                        },
                        Some(ids_vec) => {
                            self.fail_not_permitted(
                                peer,
                                &ids_vec,
                                RequestDirection::Outbound,
                                Ghost(after_rm.awaiting_peer_rule@),
                            );
                        },
                    }
                }
                let ghost after_out = *self;
                proof {
                    assert forall|id: RequestId| #[trigger] after_in.in_store(
                        RequestDirection::Inbound,
                        id,
                    ) == (prev.in_store(RequestDirection::Inbound, id) && !(covers(
                        direction,
                        RequestDirection::Inbound,
                    ) && prev.rule_list(peer, RequestDirection::Inbound).contains(id))) by {
                        if !covers(direction, RequestDirection::Inbound) {
                            assert(after_in.inbound_request_store@ == prev.inbound_request_store@);
                        } else {
                            match entry0.inbound {
                                Some(v) => {
                                    assert(prev.rule_list(peer, RequestDirection::Inbound) == v@);
                                },
                                None => {
                                    assert(prev.rule_list(peer, RequestDirection::Inbound)
                                        =~= Seq::<RequestId>::empty());
                                    assert(after_in.inbound_request_store@
                                        == prev.inbound_request_store@);
                                },
                            }
                        }
                    }
                    assert(after_in.outbound_request_store@ == prev.outbound_request_store@);
                    assert forall|id: RequestId| #[trigger] after_out.in_store(
                        RequestDirection::Outbound,
                        id,
                    ) == (prev.in_store(RequestDirection::Outbound, id) && !(covers(
                        direction,
                        RequestDirection::Outbound,
                    ) && prev.rule_list(peer, RequestDirection::Outbound).contains(id))) by {
                        if !covers(direction, RequestDirection::Outbound) {
                            assert(after_out.outbound_request_store@
                                == after_in.outbound_request_store@);
                        } else {
                            match entry0.outbound {
                                Some(v) => {
                                    assert(prev.rule_list(peer, RequestDirection::Outbound) == v@);
                                    assert(after_out.in_store(RequestDirection::Outbound, id) == (
                                    after_in.in_store(RequestDirection::Outbound, id)
                                        && !v@.contains(id)));
                                    assert(after_in.in_store(RequestDirection::Outbound, id)
                                        == prev.in_store(RequestDirection::Outbound, id));
                                },
                                None => {
                                    assert(prev.rule_list(peer, RequestDirection::Outbound)
                                        =~= Seq::<RequestId>::empty());
                                    assert(after_out.outbound_request_store@
                                        == after_in.outbound_request_store@);
                                },
                            }
                        }
                    }
                    assert(after_out.inbound_request_store@ == after_in.inbound_request_store@);
                    assert(after_out.actions@ =~= prev.actions@ + (if covers(
                        direction,
                        RequestDirection::Inbound,
                    ) {
                        not_permitted_batch(
                            peer,
                            prev.rule_list(peer, RequestDirection::Inbound),
                            RequestDirection::Inbound,
                        )
                    } else {
                        Seq::<BehaviourAction>::empty()
                    }) + (if covers(direction, RequestDirection::Outbound) {
                        not_permitted_batch(
                            peer,
                            prev.rule_list(peer, RequestDirection::Outbound),
                            RequestDirection::Outbound,
                        )
                    } else {
                        Seq::<BehaviourAction>::empty()
                    })) by {
                        if !covers(direction, RequestDirection::Inbound) {
                            assert(after_in.actions@ == prev.actions@);
                            assert(prev.actions@ + Seq::<BehaviourAction>::empty()
                                =~= prev.actions@);
                        } else {
                            match entry0.inbound {
                                Some(v) => {
                                    assert(after_in.actions@ == prev.actions@
                                        + not_permitted_batch(
                                        peer,
                                        v@,
                                        RequestDirection::Inbound,
                                    ));
                                },
                                None => {
                                    assert(after_in.actions@ == prev.actions@);
                                    assert(not_permitted_batch(
                                        peer,
                                        prev.rule_list(peer, RequestDirection::Inbound),
                                        RequestDirection::Inbound,
                                    ) =~= Seq::<BehaviourAction>::empty());
                                },
                            }
                        }
                        if !covers(direction, RequestDirection::Outbound) {
                            assert(after_out.actions@ == after_in.actions@);
                        } else {
                            match entry0.outbound {
                                Some(v) => {
                                    assert(after_out.actions@ == after_in.actions@
                                        + not_permitted_batch(
                                        peer,
                                        v@,
                                        RequestDirection::Outbound,
                                    ));
                                },
                                None => {
                                    assert(after_out.actions@ == after_in.actions@);
                                    assert(not_permitted_batch(
                                        peer,
                                        prev.rule_list(peer, RequestDirection::Outbound),
                                        RequestDirection::Outbound,
                                    ) =~= Seq::<BehaviourAction>::empty());
                                },
                            }
                        }
                    }
                }
                let keep = entry.inbound.is_some() || entry.outbound.is_some();
                let ghost before_insert = *self;
                if keep {
                    self.awaiting_peer_rule.insert(e, entry);
                }
                let ghost mid_rows = after_rm.awaiting_peer_rule@;
                proof {
                    let n = prev.awaiting_peer_rule@.len() as int;
                    assert(mid_rows == prev.awaiting_peer_rule@.remove(e as int));
                    assert(forall|k: int|
                        0 <= k < e ==> mid_rows[k] == prev.awaiting_peer_rule@[k]);
                    assert(forall|k: int|
                        e <= k < n - 1 ==> mid_rows[k] == prev.awaiting_peer_rule@[k + 1]);
                    if keep {
                        assert(self.awaiting_peer_rule@ == mid_rows.insert(e as int, entry));
                        assert(forall|k: int|
                            0 <= k < n && k != e ==> self.awaiting_peer_rule@[k]
                                == prev.awaiting_peer_rule@[k]);
                        assert(self.awaiting_peer_rule@[e as int].peer == peer);
                        assert(self.wf());
                        rule_frames_after_change(prev, *self, e as int, peer);
                        assert(self.rule_entry_at(peer) == e as int);
                        assert forall|d: RequestDirection| final(self).rule_list(peer, d) == (
                        if covers(direction, d) {
                            Seq::<RequestId>::empty()
                        } else {
                            prev.rule_list(peer, d)
                        }) by {
                            if covers(direction, d) {
                                assert(entry.list(d) =~= Seq::<RequestId>::empty());
                            } else {
                                assert(entry.list(d) == prev.awaiting_peer_rule@[e as int].list(d));
                            }
                        }
                    } else {
                        assert(self.awaiting_peer_rule@ == mid_rows);
                        assert(!self.has_rule_entry(peer)) by {
                            if self.has_rule_entry(peer) {
                                let w = self.rule_entry_at(peer);
                                assert(mid_rows[w].peer == peer);
                                if w < e {
                                    assert(prev.awaiting_peer_rule@[w].peer == peer);
                                } else {
                                    assert(prev.awaiting_peer_rule@[w + 1].peer == peer);
                                }
                            }
                        }
                        assert forall|p: PeerId, d: RequestDirection|
                            p != peer implies self.rule_list(p, d) == prev.rule_list(p, d)
                            && self.rule_pending(p, d) == prev.rule_pending(p, d) by {
                            if prev.has_rule_entry(p) {
                                let w = prev.rule_entry_at(p);
                                assert(prev.awaiting_peer_rule@[w].peer == p);
                                assert(w != e);
                                if w < e {
                                    assert(mid_rows[w].peer == p);
                                    assert(self.rule_entry_at(p) == w);
                                } else {
                                    assert(mid_rows[w - 1].peer == p);
                                    assert(self.rule_entry_at(p) == w - 1);
                                }
                            } else {
                                if self.has_rule_entry(p) {
                                    let w = self.rule_entry_at(p);
                                    assert(mid_rows[w].peer == p);
                                    if w < e {
                                        assert(prev.awaiting_peer_rule@[w].peer == p);
                                    } else {
                                        assert(prev.awaiting_peer_rule@[w + 1].peer == p);
                                    }
                                }
                            }
                        }
                        assert forall|d: RequestDirection| final(self).rule_list(peer, d) == (
                        if covers(direction, d) {
                            Seq::<RequestId>::empty()
                        } else {
                            prev.rule_list(peer, d)
                        }) by {
                            if !covers(direction, d) {
                                assert(!prev.awaiting_peer_rule@[e as int].has_dir(d));
                                assert(prev.rule_list(peer, d) =~= Seq::<RequestId>::empty());
                            }
                        }
                    }
                    assert(self.inbound_request_store@ == after_out.inbound_request_store@);
                    assert(self.outbound_request_store@ == after_out.outbound_request_store@);
                    assert(self.actions@ == after_out.actions@);
                    assert forall|id: RequestId| #[trigger] self.in_store(
                        RequestDirection::Inbound,
                        id,
                    ) == (prev.in_store(RequestDirection::Inbound, id) && !(covers(
                        direction,
                        RequestDirection::Inbound,
                    ) && prev.rule_list(peer, RequestDirection::Inbound).contains(id))) by {
                        assert(after_out.in_store(RequestDirection::Inbound, id)
                            == after_in.in_store(RequestDirection::Inbound, id));
                        assert(after_in.in_store(RequestDirection::Inbound, id) == (
                        prev.in_store(RequestDirection::Inbound, id) && !(covers(
                            direction,
                            RequestDirection::Inbound,
                        ) && prev.rule_list(peer, RequestDirection::Inbound).contains(id))));
                    }
                    assert forall|id: RequestId| #[trigger] self.in_store(
                        RequestDirection::Outbound,
                        id,
                    ) == (prev.in_store(RequestDirection::Outbound, id) && !(covers(
                        direction,
                        RequestDirection::Outbound,
                    ) && prev.rule_list(peer, RequestDirection::Outbound).contains(id))) by {
                        assert(after_out.in_store(RequestDirection::Outbound, id) == (
                        prev.in_store(RequestDirection::Outbound, id) && !(covers(
                            direction,
                            RequestDirection::Outbound,
                        ) && prev.rule_list(peer, RequestDirection::Outbound).contains(id))));
                    }
                }
            },
        }
    }

    /// Fail every id of `ids` in `direction` as not permitted: the parked
    /// request leaves the store, its sink dropped, and a failure action is
    /// appended per id, in list order.
    #[verifier::rlimit(100)]
    #[verifier::spinoff_prover]
    fn fail_not_permitted(
        &mut self,
        peer: PeerId,
        ids_vec: &Vec<RequestId>,
        direction: RequestDirection,
        rows: Ghost<Seq<PeerRuleEntry>>,
    )
        requires
            old(self).wf(),
            old(self).awaiting_peer_rule@ == rows@,
        ensures
            final(self).wf(),
            final(self).connections == old(self).connections,
            final(self).awaiting_connection@ == old(self).awaiting_connection@,
            final(self).awaiting_peer_rule@ == rows@,
            final(self).approvals() == old(self).approvals(),
            final(self).store_of(opposite(direction)) == old(self).store_of(opposite(direction)),
            forall|id: RequestId| #[trigger]
                final(self).in_store(direction, id) == (old(self).in_store(direction, id)
                    && !ids_vec@.contains(id)),
            final(self).actions@ == old(self).actions@ + not_permitted_batch(
                peer,
                ids_vec@,
                direction,
            ),
    {
        let ghost ids = ids_vec@;
        let ghost base = self.actions@;
        proof {
            assert(ids.subrange(0, 0) =~= Seq::<RequestId>::empty());
        }
        let mut j: usize = 0;
        while j < ids_vec.len()
            invariant
                j <= ids.len(),
                ids_vec@ == ids,
                self.wf(),
                self.connections == old(self).connections,
                self.awaiting_connection@ == old(self).awaiting_connection@,
                self.awaiting_peer_rule@ == rows@,
                self.approvals() == old(self).approvals(),
                self.store_of(opposite(direction)) == old(self).store_of(opposite(direction)),
                forall|id: RequestId| #[trigger]
                    self.in_store(direction, id) == (old(self).in_store(direction, id)
                        && !ids.subrange(0, j as int).contains(id)),
                self.actions@ == base + not_permitted_batch(
                    peer,
                    ids.subrange(0, j as int),
                    direction,
                ),
            decreases ids.len() - j,
        {
            let id = ids_vec[j];
            let ghost pre = *self;
            let taken = self.take_stored_request(id, direction);
            proof {
                if pre.in_store(direction, id) {
                    let w = pre.store_index(direction, id);
                    lemma_store_remove_membership(pre.store_of(direction), w);
                    assert(self.store_of(direction) == pre.store_of(direction).remove(w));
                    assert(pre.store_of(direction)[w].request_id == id);
                } else {
                    assert(self.store_of(direction) == pre.store_of(direction));
                }
                assert forall|id2: RequestId| #[trigger] self.in_store(direction, id2) == (old(self).in_store(direction, id2) && !ids.subrange(0, j + 1 as int).contains(id2)) by {
                    assert(pre.in_store(direction, id2) == (old(self).in_store(direction, id2)
                        && !ids.subrange(0, j as int).contains(id2)));
                    if pre.in_store(direction, id) {
                        assert(store_has(self.store_of(direction), id2) == (store_has(
                            pre.store_of(direction),
                            id2,
                        ) && id2 != id));
                    }
                    assert(forall|k2: int|
                        0 <= k2 < j ==> ids.subrange(0, j + 1 as int)[k2] == ids.subrange(
                            0,
                            j as int,
                        )[k2]);
                    assert(ids.subrange(0, j + 1 as int)[j as int] == id);
                    if ids.subrange(0, j as int).contains(id2) {
                        let w2 = choose|w2: int| 0 <= w2 < j && ids.subrange(0, j as int)[w2] == id2;
                        assert(ids.subrange(0, j + 1 as int)[w2] == id2);
                    } else {
                        if ids.subrange(0, j + 1 as int).contains(id2) {
                            let w2 = choose|w2: int|
                                0 <= w2 < j + 1 && (#[trigger] ids.subrange(0, j + 1 as int)[w2])
                                    == id2;
                            assert(0 <= w2 < j + 1 && ids.subrange(0, j + 1 as int)[w2] == id2);
                            if w2 < j {
                                assert(ids.subrange(0, j as int)[w2] == id2);
                            }
                        }
                    }
                }
            }
            let action = match direction {
                RequestDirection::Outbound => BehaviourAction::OutboundFailure {
                    peer,
                    request_id: id,
                    reason: OutboundFailure::NotPermitted,
                },
                RequestDirection::Inbound => BehaviourAction::InboundFailure {
                    peer,
                    request_id: id,
                    reason: InboundFailure::NotPermitted,
                },
            };
            let ghost mid = *self;
            self.actions.push_back(action);
            proof {
                assert(self.inbound_request_store@ == mid.inbound_request_store@);
                assert(self.outbound_request_store@ == mid.outbound_request_store@);
                assert forall|id2: RequestId| #[trigger] self.in_store(direction, id2)
                    == mid.in_store(direction, id2) by {
                    if direction is Inbound {
                        assert(self.store_of(direction) == mid.store_of(direction));
                    } else {
                        assert(self.store_of(direction) == mid.store_of(direction));
                    }
                }
                assert forall|id2: RequestId| #[trigger] self.in_store(direction, id2) == (old(
                    self,
                ).in_store(direction, id2) && !ids.subrange(0, j + 1 as int).contains(id2)) by {
                    assert(mid.in_store(direction, id2) == (old(self).in_store(direction, id2)
                        && !ids.subrange(0, j + 1 as int).contains(id2)));
                }
                assert(self.store_of(opposite(direction)) == mid.store_of(opposite(direction)))
                    by {
                    if direction is Inbound {
                    } else {
                    }
                }
                assert(ids.subrange(0, j + 1 as int).drop_last() =~= ids.subrange(0, j as int));
                assert(self.actions@ =~= base + not_permitted_batch(
                    peer,
                    ids.subrange(0, j + 1 as int),
                    direction,
                ));
            }
            j = j + 1;
        }
        proof {
            assert(ids.subrange(0, ids.len() as int) =~= ids);
        }
    }


    /// The permission value of a parked request, without taking the request
    /// out.
    fn get_request_permission(&self, request_id: RequestId, direction: RequestDirection) -> (r:
        Option<u64>)
        requires
            self.wf(),
        ensures
            r is Some <==> self.in_store(direction, request_id),
            r is Some ==> r->Some_0 == self.store_of(direction)[self.store_index(
                direction,
                request_id,
            )].request.permission,
    {
        let store = match direction {
            RequestDirection::Inbound => &self.inbound_request_store,
            RequestDirection::Outbound => &self.outbound_request_store,
        };
        let mut i: usize = 0;
        while i < store.len()
            invariant
                self.wf(),
                i <= store@.len(),
                store@ == self.store_of(direction),
                forall|k: int| 0 <= k < i ==> (#[trigger] store@[k]).request_id != request_id,
            decreases store@.len() - i,
        {
            if store[i].request_id == request_id {
                proof {
                    assert(self.in_store(direction, request_id)) by {
                        assert(self.store_of(direction)[i as int].request_id == request_id);
                    }
                    let w = self.store_index(direction, request_id);
                    assert(self.store_of(direction)[w].request_id == request_id);
                    match direction {
                        RequestDirection::Inbound => {
                            assert(self.inbound_request_store@[w].request_id == request_id);
                            assert(self.inbound_request_store@[i as int].request_id == request_id);
                            assert(w == i as int);
                        },
                        RequestDirection::Outbound => {
                            assert(self.outbound_request_store@[w].request_id == request_id);
                            assert(self.outbound_request_store@[i as int].request_id
                                == request_id);
                            assert(w == i as int);
                        },
                    }
                }
                return Some(store[i].request.permission);
            }
            i = i + 1;
        }
        None
    }

    /// A rule for `peer` arrived: requests awaiting it in a covered
    /// direction are settled against the rule, in stored order, inbound
    /// before outbound. Requests under an ask rule move into the
    /// awaiting-approval list and come back as entries for the host to query
    /// approvals for.
    #[verifier::rlimit(100)]
    #[verifier::spinoff_prover]
    pub fn on_peer_rule(
        &mut self,
        peer: PeerId,
        rules: FirewallRules,
        direction: RuleDirection,
    ) -> (r: Option<Vec<(RequestId, u64, RequestDirection)>>)
        requires
            old(self).wf(),
            forall|d: RequestDirection, k1: int, k2: int|
                0 <= k1 < k2 < old(self).rule_list(peer, d).len() ==> (#[trigger] old(self).rule_list(peer, d)[k1]) != (#[trigger] old(self).rule_list(peer, d)[k2]),
        ensures
            final(self).wf(),
            r is Some <==> old(self).has_rule_entry(peer),
            r is None ==> {
                &&& final(self).inbound_request_store@ == old(self).inbound_request_store@
                &&& final(self).outbound_request_store@ == old(self).outbound_request_store@
                &&& final(self).connections == old(self).connections
                &&& final(self).awaiting_connection@ == old(self).awaiting_connection@
                &&& final(self).awaiting_peer_rule@ == old(self).awaiting_peer_rule@
                &&& final(self).approvals() == old(self).approvals()
                &&& final(self).actions@ == old(self).actions@
            },
            r is Some ==> {
                let m = *old(self);
                let ps = pairs_of(m, peer, direction);
                &&& r->Some_0@ == rule_ask_entries(m, rules, ps)
                &&& forall|d: RequestDirection|
                    final(self).rule_list(peer, d) == (if covers(direction, d) {
                        Seq::<RequestId>::empty()
                    } else {
                        m.rule_list(peer, d)
                    })
                &&& forall|d: RequestDirection|
                    final(self).rule_pending(peer, d) == (m.rule_pending(peer, d) && !covers(
                        direction,
                        d,
                    ))
                &&& forall|p: PeerId, d: RequestDirection|
                    p != peer ==> final(self).rule_list(p, d) == m.rule_list(p, d) && final(self).rule_pending(p, d) == m.rule_pending(p, d)
                &&& forall|d: RequestDirection, id: RequestId| #[trigger]
                    final(self).in_store(d, id) == (m.in_store(d, id) && !(ps.contains((id, d))
                        && pair_removed(m, rules, id, d)))
                &&& forall|c: ConnectionId, d: RequestDirection| #[trigger]
                    final(self).connections.in_flight(c, d) == m.connections.in_flight(c, d)
                        + attached_ids(m, rules, ps, c, d)
                &&& forall|p: PeerId|
                    final(self).connections.conns_of(p) == m.connections.conns_of(p) && final(self).connections.connected(p) == m.connections.connected(p)
                &&& forall|id: RequestId| #[trigger]
                    final(self).in_conn_wait(id) == (m.in_conn_wait(id) || exists|k: int|
                        0 <= k < ps.len() && (#[trigger] ps[k]).0 == id && pair_dials(
                            m,
                            rules,
                            id,
                            ps[k].1,
                        ))
                &&& final(self).actions@ == m.actions@ + rule_batches(m, rules, ps)
            },
    {
        let found = find_rule_entry(&self.awaiting_peer_rule, peer);
        match found {
            None => None,
            Some(e) => {
                let ghost m = *old(self);
                proof {
                    assert(m.rule_entry_at(peer) == e as int);
                }
                let mut entry = self.awaiting_peer_rule.remove(e);
                let ghost mid_rows = self.awaiting_peer_rule@;
                let mut pairs: Vec<(RequestId, RequestDirection)> = Vec::new();
                let ghost in_part = if covers(direction, RequestDirection::Inbound) {
                    m.rule_list(peer, RequestDirection::Inbound).map_values(
                        |id: RequestId| (id, RequestDirection::Inbound),
                    )
                } else {
                    Seq::<(RequestId, RequestDirection)>::empty()
                };
                let ghost out_part = if covers(direction, RequestDirection::Outbound) {
                    m.rule_list(peer, RequestDirection::Outbound).map_values(
                        |id: RequestId| (id, RequestDirection::Outbound),
                    )
                } else {
                    Seq::<(RequestId, RequestDirection)>::empty()
                };
                if direction.is_inbound() {
                    let l = entry.inbound;
                    entry.inbound = None;
                    match l {
                        None => {
                            proof {
                                assert(m.rule_list(peer, RequestDirection::Inbound) =~= Seq::<
                                    RequestId,
                                >::empty());
                                assert(pairs@ =~= in_part);
                            }
                        },
                        Some(v) => {
                            let ghost lst = v@;
                            proof {
                                assert(lst == m.rule_list(peer, RequestDirection::Inbound));
                            }
                            let mut k: usize = 0;
                            while k < v.len()
                                invariant
                                    k <= lst.len(),
                                    v@ == lst,
                                    pairs@ == lst.subrange(0, k as int).map_values(
                                        |id: RequestId| (id, RequestDirection::Inbound),
                                    ),
                                decreases lst.len() - k,
                            {
                                pairs.push((v[k], RequestDirection::Inbound));
                                proof {
                                    assert(lst.subrange(0, k + 1 as int).drop_last()
                                        =~= lst.subrange(0, k as int));
                                    assert(pairs@ =~= lst.subrange(0, k + 1 as int).map_values(
                                        |id: RequestId| (id, RequestDirection::Inbound),
                                    ));
                                }
                                k = k + 1;
                            }
                            proof {
                                assert(lst.subrange(0, lst.len() as int) =~= lst);
                                assert(pairs@ =~= in_part);
                            }
                        },
                    }
                } else {
                    proof {
                        assert(pairs@ =~= in_part);
                    }
                }
                let ghost after_in = pairs@;
                if direction.is_outbound() {
                    let l = entry.outbound;
                    entry.outbound = None;
                    match l {
                        None => {
                            proof {
                                assert(m.rule_list(peer, RequestDirection::Outbound) =~= Seq::<
                                    RequestId,
                                >::empty());
                                assert(pairs@ =~= in_part + out_part);
                            }
                        },
                        Some(v) => {
                            let ghost lst = v@;
                            proof {
                                assert(lst == m.rule_list(peer, RequestDirection::Outbound));
                            }
                            let mut k: usize = 0;
                            while k < v.len()
                                invariant
                                    k <= lst.len(),
                                    v@ == lst,
                                    pairs@ == after_in + lst.subrange(0, k as int).map_values(
                                        |id: RequestId| (id, RequestDirection::Outbound),
                                    ),
                                decreases lst.len() - k,
                            {
                                pairs.push((v[k], RequestDirection::Outbound));
                                proof {
                                    assert(lst.subrange(0, k + 1 as int).drop_last()
                                        =~= lst.subrange(0, k as int));
                                    assert(pairs@ =~= after_in + lst.subrange(
                                        0,
                                        k + 1 as int,
                                    ).map_values(|id: RequestId| (id, RequestDirection::Outbound)));
                                }
                                k = k + 1;
                            }
                            proof {
                                assert(lst.subrange(0, lst.len() as int) =~= lst);
                                assert(pairs@ =~= in_part + out_part);
                            }
                        },
                    }
                } else {
                    proof {
                        assert(pairs@ =~= in_part + out_part);
                    }
                }
                let ghost ps = pairs@;
                proof {
                    assert(ps == pairs_of(m, peer, direction));
                    assert forall|k1: int, k2: int| 0 <= k1 < k2 < ps.len() implies ps[k1]
                        != ps[k2] by {
                        if k2 < in_part.len() {
                            assert(ps[k1] == in_part[k1] && ps[k2] == in_part[k2]);
                            assert(m.rule_list(peer, RequestDirection::Inbound)[k1] != m.rule_list(
                                peer,
                                RequestDirection::Inbound,
                            )[k2]);
                        } else if k1 >= in_part.len() {
                            assert(ps[k1] == out_part[k1 - in_part.len()] && ps[k2]
                                == out_part[k2 - in_part.len()]);
                            assert(m.rule_list(peer, RequestDirection::Outbound)[k1
                                - in_part.len()] != m.rule_list(
                                peer,
                                RequestDirection::Outbound,
                            )[k2 - in_part.len()]);
                        } else {
                            assert(ps[k1] == in_part[k1] && ps[k2] == out_part[k2
                                - in_part.len()]);
                            assert(ps[k1].1 != ps[k2].1);
                        }
                    }
                }
                let keep = entry.inbound.is_some() || entry.outbound.is_some();
                if keep {
                    self.awaiting_peer_rule.insert(e, entry);
                }
                proof {
                    let prev = m;
                    let n = prev.awaiting_peer_rule@.len() as int;
                    assert(mid_rows == prev.awaiting_peer_rule@.remove(e as int));
                    assert(forall|k: int|
                        0 <= k < e ==> mid_rows[k] == prev.awaiting_peer_rule@[k]);
                    assert(forall|k: int|
                        e <= k < n - 1 ==> mid_rows[k] == prev.awaiting_peer_rule@[k + 1]);
                    if keep {
                        assert(self.awaiting_peer_rule@ == mid_rows.insert(e as int, entry));
                        assert(forall|k: int|
                            0 <= k < n && k != e ==> self.awaiting_peer_rule@[k]
                                == prev.awaiting_peer_rule@[k]);
                        assert(self.awaiting_peer_rule@[e as int].peer == peer);
                        assert(self.wf());
                        rule_frames_after_change(prev, *self, e as int, peer);
                        assert(self.rule_entry_at(peer) == e as int);
                        assert forall|d: RequestDirection| self.rule_list(peer, d) == (if covers(
                            direction,
                            d,
                        ) {
                            Seq::<RequestId>::empty()
                        } else {
                            prev.rule_list(peer, d)
                        }) by {
                            if covers(direction, d) {
                                assert(entry.list(d) =~= Seq::<RequestId>::empty());
                            } else {
                                assert(entry.list(d) == prev.awaiting_peer_rule@[e as int].list(d));
                            }
                        }
                    } else {
                        assert(self.awaiting_peer_rule@ == mid_rows);
                        assert(!self.has_rule_entry(peer)) by {
                            if self.has_rule_entry(peer) {
                                let w = self.rule_entry_at(peer);
                                assert(mid_rows[w].peer == peer);
                                if w < e {
                                    assert(prev.awaiting_peer_rule@[w].peer == peer);
                                } else {
                                    assert(prev.awaiting_peer_rule@[w + 1].peer == peer);
                                }
                            }
                        }
                        assert forall|p: PeerId, d: RequestDirection|
                            p != peer implies self.rule_list(p, d) == prev.rule_list(p, d)
                            && self.rule_pending(p, d) == prev.rule_pending(p, d) by {
                            if prev.has_rule_entry(p) {
                                let w = prev.rule_entry_at(p);
                                assert(prev.awaiting_peer_rule@[w].peer == p);
                                assert(w != e);
                                if w < e {
                                    assert(mid_rows[w].peer == p);
                                    assert(self.rule_entry_at(p) == w);
                                } else {
                                    assert(mid_rows[w - 1].peer == p);
                                    assert(self.rule_entry_at(p) == w - 1);
                                }
                            } else {
                                if self.has_rule_entry(p) {
                                    let w = self.rule_entry_at(p);
                                    assert(mid_rows[w].peer == p);
                                    if w < e {
                                        assert(prev.awaiting_peer_rule@[w].peer == p);
                                    } else {
                                        assert(prev.awaiting_peer_rule@[w + 1].peer == p);
                                    }
                                }
                            }
                        }
                        assert forall|d: RequestDirection| self.rule_list(peer, d) == (if covers(
                            direction,
                            d,
                        ) {
                            Seq::<RequestId>::empty()
                        } else {
                            prev.rule_list(peer, d)
                        }) by {
                            if !covers(direction, d) {
                                assert(!prev.awaiting_peer_rule@[e as int].has_dir(d));
                                assert(prev.rule_list(peer, d) =~= Seq::<RequestId>::empty());
                            }
                        }
                    }
                }
                let ghost rows_final = self.awaiting_peer_rule@;
                let mut require_ask: Vec<(RequestId, u64, RequestDirection)> = Vec::new();
                proof {
                    assert(ps.subrange(0, 0) =~= Seq::<(RequestId, RequestDirection)>::empty());
                    assert(rule_batches(m, rules, ps.subrange(0, 0)) =~= Seq::<
                        BehaviourAction,
                    >::empty());
                    assert(rule_ask_entries(m, rules, ps.subrange(0, 0)) =~= Seq::<
                        (RequestId, u64, RequestDirection),
                    >::empty());
                    assert(self.actions@ =~= m.actions@ + rule_batches(m, rules, ps.subrange(0, 0)));
                    assert forall|c: ConnectionId, d3: RequestDirection| #[trigger]
                        self.connections.in_flight(c, d3) == m.connections.in_flight(c, d3)
                            + attached_ids(m, rules, ps.subrange(0, 0), c, d3) by {
                        assert(attached_ids(m, rules, ps.subrange(0, 0), c, d3) =~= Seq::<
                            RequestId,
                        >::empty());
                        assert(m.connections.in_flight(c, d3) + Seq::<RequestId>::empty()
                            =~= m.connections.in_flight(c, d3));
                    }
                }
                let mut j: usize = 0;
                while j < pairs.len()
                    invariant
                        j <= ps.len(),
                        pairs@ == ps,
                        self.wf(),
                        self.awaiting_peer_rule@ == rows_final,
                        forall|k1: int, k2: int| 0 <= k1 < k2 < ps.len() ==> ps[k1] != ps[k2],
                        forall|d3: RequestDirection, id2: RequestId| #[trigger]
                            self.in_store(d3, id2) == (m.in_store(d3, id2) && !(ps.subrange(
                                0,
                                j as int,
                            ).contains((id2, d3)) && pair_removed(m, rules, id2, d3))),
                        forall|d3: RequestDirection, id2: RequestId|
                            #[trigger] self.in_store(d3, id2) ==> self.store_of(d3)[self.store_index(
                                d3,
                                id2,
                            )] == m.store_of(d3)[m.store_index(d3, id2)],
                        forall|c: ConnectionId, d3: RequestDirection| #[trigger]
                            self.connections.in_flight(c, d3) == m.connections.in_flight(c, d3)
                                + attached_ids(m, rules, ps.subrange(0, j as int), c, d3),
                        forall|p2: PeerId|
                            self.connections.conns_of(p2) == m.connections.conns_of(p2)
                                && self.connections.connected(p2) == m.connections.connected(p2),
                        forall|id2: RequestId| #[trigger]
                            self.in_conn_wait(id2) == (m.in_conn_wait(id2) || exists|k: int|
                                0 <= k < j && (#[trigger] ps[k]).0 == id2 && pair_dials(
                                    m,
                                    rules,
                                    id2,
                                    ps[k].1,
                                )),
                        self.actions@ == m.actions@ + rule_batches(
                            m,
                            rules,
                            ps.subrange(0, j as int),
                        ),
                        require_ask@ == rule_ask_entries(m, rules, ps.subrange(0, j as int)),
                    decreases ps.len() - j,
                {
                    let pr = pairs[j];
                    let id = pr.0;
                    let d2 = pr.1;
                    let ghost pre = *self;
                    proof {
                        assert(ps[j as int] == (id, d2));
                        assert(!ps.subrange(0, j as int).contains((id, d2))) by {
                            if ps.subrange(0, j as int).contains((id, d2)) {
                                let w = choose|w: int|
                                    0 <= w < j && ps.subrange(0, j as int)[w] == (id, d2);
                                assert(ps[w] == (id, d2));
                            }
                        }
                        assert(pre.in_store(d2, id) == m.in_store(d2, id));
                        if pre.in_store(d2, id) {
                            assert(pre.store_of(d2)[pre.store_index(d2, id)] == m.store_of(
                                d2,
                            )[m.store_index(d2, id)]);
                        }
                        lemma_rule_accumulators_concat(
                            m,
                            rules,
                            ps.subrange(0, j as int),
                            seq![(id, d2)],
                        );
                        lemma_rule_single(m, rules, id, d2);
                        assert(ps.subrange(0, j + 1 as int) =~= ps.subrange(0, j as int) + seq![
                            (id, d2),
                        ]);
                    }
                    let rule = match d2 {
                        RequestDirection::Inbound => rules.inbound(),
                        RequestDirection::Outbound => rules.outbound(),
                    };
                    proof {
                        assert(rule == rule_for(rules, d2)) by {
                            if d2 is Inbound {
                            } else {
                            }
                        }
                    }
                    match rule {
                        Some(Rule::Ask) => {
                            let permo = self.get_request_permission(id, d2);
                            match permo {
                                None => {
                                    proof {
                                        assert(!m.in_store(d2, id));
                                        assert(!pair_ask(m, rules, id, d2));
                                        assert(!pair_removed(m, rules, id, d2));
                                        assert(!pair_dials(m, rules, id, d2));
                                        assert(!pair_attaches(m, rules, id, d2));
                                        assert(pair_batch(m, rules, id, d2) =~= Seq::<
                                            BehaviourAction,
                                        >::empty());
                                        lemma_after_skip(m, rules, *self, ps, j as int, require_ask@);
                                    }
                                },
                                Some(perm) => {
                                    let code = direction_code(d2);
                                    let ghost pre2 = *self;
                                    let inserted = self.awaiting_approval.insert_sorted(
                                        id.id,
                                        code,
                                    );
                                    require_ask.push((id, perm, d2));
                                    proof {
                                        assert(pair_ask(m, rules, id, d2));
                                        assert(perm == stored_permission(m, d2, id));
                                        assert(!pair_removed(m, rules, id, d2));
                                        assert(!pair_dials(m, rules, id, d2));
                                        assert(pair_batch(m, rules, id, d2) =~= Seq::<
                                            BehaviourAction,
                                        >::empty());
                                        assert(code == 0 || code == 1) by {
                                            if d2 is Inbound {
                                            } else {
                                            }
                                        }
                                        assert(pre2 == pre);
                                        assert forall|d3: RequestDirection, id2: RequestId|
                                            #[trigger] self.in_store(d3, id2) implies
                                            self.store_of(d3)[self.store_index(d3, id2)]
                                            == m.store_of(d3)[m.store_index(d3, id2)] by {
                                            assert(self.store_of(d3) == pre.store_of(d3)) by {
                                                if d3 is Inbound {
                                                } else {
                                                }
                                            }
                                            assert(pre.in_store(d3, id2));
                                            assert(pre.store_of(d3)[pre.store_index(d3, id2)]
                                                == m.store_of(d3)[m.store_index(d3, id2)]);
                                        }
                                        assert(self.wf()) by {
                                            assert forall|k2: int|
                                                0 <= k2 < self.approvals().len() implies (
                                            #[trigger] self.approvals()[k2]).1 == 0
                                                || self.approvals()[k2].1 == 1 by {
                                                assert(self.awaiting_approval@[k2].1 == code
                                                    || pre2.awaiting_approval@.contains(
                                                    self.awaiting_approval@[k2],
                                                ));
                                                if pre2.awaiting_approval@.contains(
                                                    self.awaiting_approval@[k2],
                                                ) {
                                                    let w = choose|w: int|
                                                        0 <= w < pre2.awaiting_approval@.len()
                                                            && pre2.awaiting_approval@[w]
                                                            == self.awaiting_approval@[k2];
                                                    assert(pre2.approvals()[w].1 == 0
                                                        || pre2.approvals()[w].1 == 1);
                                                }
                                            }
                                        }
                                        assert(require_ask@ =~= rule_ask_entries(
                                            m,
                                            rules,
                                            ps.subrange(0, j + 1 as int),
                                        ));
                                        assert(self.actions@ =~= m.actions@ + rule_batches(
                                            m,
                                            rules,
                                            ps.subrange(0, j + 1 as int),
                                        ));
                                        assert forall|c: ConnectionId, d3: RequestDirection|
                                            #[trigger] self.connections.in_flight(c, d3)
                                            == m.connections.in_flight(c, d3) + attached_ids(
                                            m,
                                            rules,
                                            ps.subrange(0, j + 1 as int),
                                            c,
                                            d3,
                                        ) by {
                                            assert(attached_ids(
                                                m,
                                                rules,
                                                ps.subrange(0, j + 1 as int),
                                                c,
                                                d3,
                                            ) =~= attached_ids(
                                                m,
                                                rules,
                                                ps.subrange(0, j as int),
                                                c,
                                                d3,
                                            ));
                                        }
                                        assert forall|d3: RequestDirection, id2: RequestId|
                                            #[trigger] self.in_store(d3, id2) == (m.in_store(
                                            d3,
                                            id2,
                                        ) && !(ps.subrange(0, j + 1 as int).contains((id2, d3))
                                            && pair_removed(m, rules, id2, d3))) by {
                                            lemma_prefix_extend_contains(ps, j as int, id2, d3);
                                            assert(pre.in_store(d3, id2) == (m.in_store(d3, id2)
                                                && !(ps.subrange(0, j as int).contains((id2, d3))
                                                && pair_removed(m, rules, id2, d3))));
                                            assert(self.inbound_request_store@
                                                == pre.inbound_request_store@);
                                            assert(self.outbound_request_store@
                                                == pre.outbound_request_store@);
                                            assert(self.in_store(d3, id2) == pre.in_store(
                                                d3,
                                                id2,
                                            )) by {
                                                if d3 is Inbound {
                                                    assert(self.store_of(d3) == pre.store_of(d3));
                                                } else {
                                                    assert(self.store_of(d3) == pre.store_of(d3));
                                                }
                                            }
                                            assert(!(ps[j as int] == (id2, d3) && pair_removed(
                                                m,
                                                rules,
                                                id2,
                                                d3,
                                            ))) by {
                                                if ps[j as int] == (id2, d3) {
                                                    assert(id2 == id && d3 == d2);
                                                    assert(!pair_removed(m, rules, id, d2));
                                                }
                                            }
                                        }
                                        assert forall|id2: RequestId| #[trigger] self.in_conn_wait(
                                            id2,
                                        ) == (m.in_conn_wait(id2) || exists|k: int|
                                            0 <= k < j + 1 && (#[trigger] ps[k]).0 == id2
                                                && pair_dials(m, rules, id2, ps[k].1)) by {
                                            assert(!pair_dials(m, rules, id, d2));
                                            assert(pre.in_conn_wait(id2) == (m.in_conn_wait(id2)
                                                || exists|k: int|
                                                0 <= k < j && (#[trigger] ps[k]).0 == id2
                                                    && pair_dials(m, rules, id2, ps[k].1)));
                                            assert(self.awaiting_connection@
                                                == pre.awaiting_connection@);
                                            assert(self.in_conn_wait(id2) == pre.in_conn_wait(
                                                id2,
                                            ));
                                            if exists|k: int|
                                                0 <= k < j + 1 && (#[trigger] ps[k]).0 == id2
                                                    && pair_dials(m, rules, id2, ps[k].1) {
                                                let k = choose|k: int|
                                                    0 <= k < j + 1 && (#[trigger] ps[k]).0 == id2
                                                        && pair_dials(m, rules, id2, ps[k].1);
                                                if k == j {
                                                    assert(ps[k].1 == d2 && id2 == id);
                                                    assert(false);
                                                }
                                            }
                                        }
                                    }
                                },
                            }
                        },
                        Some(Rule::Permission(mask)) => {
                            let permo = self.get_request_permission(id, d2);
                            match permo {
                                None => {
                                    proof {
                                        assert(!m.in_store(d2, id));
                                        assert(!pair_ask(m, rules, id, d2));
                                        assert(!pair_removed(m, rules, id, d2));
                                        assert(!pair_dials(m, rules, id, d2));
                                        assert(!pair_attaches(m, rules, id, d2));
                                        assert(pair_batch(m, rules, id, d2) =~= Seq::<
                                            BehaviourAction,
                                        >::empty());
                                        lemma_after_skip(m, rules, *self, ps, j as int, require_ask@);
                                    }
                                },
                                Some(perm) => {
                                    let allowed = permits(mask, perm);
                                    let _settled = self.handle_request_approval(id, d2, allowed);
                                    proof {
                                        assert(perm == stored_permission(m, d2, id));
                                        assert(pair_allowed(rules, d2, stored_permission(m, d2, id))
                                            == allowed);
                                        lemma_after_settle(
                                            m,
                                            rules,
                                            pre,
                                            *self,
                                            ps,
                                            j as int,
                                            id,
                                            d2,
                                            allowed,
                                            require_ask@,
                                        );
                                    }
                                },
                            }
                        },
                        None => {
                            let permo = self.get_request_permission(id, d2);
                            match permo {
                                None => {
                                    proof {
                                        assert(!m.in_store(d2, id));
                                        assert(!pair_ask(m, rules, id, d2));
                                        assert(!pair_removed(m, rules, id, d2));
                                        assert(!pair_dials(m, rules, id, d2));
                                        assert(!pair_attaches(m, rules, id, d2));
                                        assert(pair_batch(m, rules, id, d2) =~= Seq::<
                                            BehaviourAction,
                                        >::empty());
                                        lemma_after_skip(m, rules, *self, ps, j as int, require_ask@);
                                    }
                                },
                                Some(_perm) => {
                                    let _settled = self.handle_request_approval(id, d2, false);
                                    proof {
                                        lemma_after_settle(
                                            m,
                                            rules,
                                            pre,
                                            *self,
                                            ps,
                                            j as int,
                                            id,
                                            d2,
                                            false,
                                            require_ask@,
                                        );
                                    }
                                },
                            }
                        },
                    }
                    j = j + 1;
                }
                proof {
                    assert(ps.subrange(0, ps.len() as int) =~= ps);
                }
                Some(require_ask)
            },
        }
    }

    /// Resolve one entry of the awaiting-approval list: look the id up by
    /// binary search, take the entry out, and settle the request.
    pub fn on_request_approval(&mut self, request_id: RequestId, is_allowed: bool) -> (r: Option<
        (),
    >)
        requires
            old(self).wf(),
        ensures
            final(self).wf(),
            !(exists|k: int|
                0 <= k < old(self).approvals().len() && (#[trigger] old(self).approvals()[k]).0
                    == request_id.id) ==> r is None && *final(self) == *old(self),
            (exists|k: int|
                0 <= k < old(self).approvals().len() && (#[trigger] old(self).approvals()[k]).0
                    == request_id.id) ==> {
                let k = choose|k: int|
                    0 <= k < old(self).approvals().len() && (#[trigger] old(self).approvals()[k]).0
                        == request_id.id;
                let direction = spec_code_direction(old(self).approvals()[k].1);
                &&& old(self).in_store(direction, request_id) ==> r is Some && resolves_request(
                    *old(self),
                    *final(self),
                    request_id,
                    direction,
                    is_allowed,
                    old(self).approvals().remove(k),
                )
                &&& !old(self).in_store(direction, request_id) ==> {
                    &&& r is None
                    &&& final(self).approvals() == old(self).approvals().remove(k)
                    &&& final(self).inbound_request_store@ == old(self).inbound_request_store@
                    &&& final(self).outbound_request_store@ == old(self).outbound_request_store@
                    &&& final(self).connections == old(self).connections
                    &&& final(self).awaiting_connection@ == old(self).awaiting_connection@
                    &&& final(self).awaiting_peer_rule@ == old(self).awaiting_peer_rule@
                    &&& final(self).actions@ == old(self).actions@
                }
            },
    {
        let found = self.awaiting_approval.find_id(request_id.id);
        match found {
            None => None,
            Some(i) => {
                proof {
                    let k = choose|k: int|
                        0 <= k < old(self).approvals().len() && (#[trigger] old(self).approvals()[k]).0 == request_id.id;
                    assert(k == i as int);
                }
                let entry = self.awaiting_approval.remove(i);
                let ghost mid = *self;
                let direction = code_direction(entry.1);
                proof {
                    let t = self.approvals();
                    let s = old(self).approvals();
                    assert forall|i2: int, j2: int| 0 <= i2 < j2 < t.len() implies (#[trigger] t[i2]).0
                        < (#[trigger] t[j2]).0 by {
                        if j2 < i as int {
                        } else if i2 < i as int {
                            assert(t[j2] == s[j2 + 1]);
                        } else {
                            assert(t[i2] == s[i2 + 1] && t[j2] == s[j2 + 1]);
                        }
                    }
                    assert(forall|k2: int|
                        0 <= k2 < t.len() ==> (#[trigger] t[k2]).1 == 0 || t[k2].1 == 1);
                }
                let res = self.handle_request_approval(request_id, direction, is_allowed);
                proof {
                    lemma_same_books(*old(self), mid);
                    if direction is Inbound {
                        assert(old(self).store_of(direction) == old(self).inbound_request_store@);
                        assert(old(self).store_of(opposite(direction)) == old(self).outbound_request_store@);
                        assert(self.store_of(direction) == self.inbound_request_store@);
                        assert(self.store_of(opposite(direction)) == self.outbound_request_store@);
                    } else {
                        assert(old(self).store_of(direction) == old(self).outbound_request_store@);
                        assert(old(self).store_of(opposite(direction)) == old(self).inbound_request_store@);
                        assert(self.store_of(direction) == self.outbound_request_store@);
                        assert(self.store_of(opposite(direction)) == self.inbound_request_store@);
                    }
                    if res is Some {
                        assert(resolves_request(
                            *old(self),
                            *self,
                            request_id,
                            direction,
                            is_allowed,
                            old(self).approvals().remove(i as int),
                        ));
                    }
                }
                res
            },
        }
    }
}

/// How a resolved request changes the manager: relative to `pre` (which
/// holds the request in the store for `direction`), `post` reflects the
/// failure, the attachment to the peer's first connection, or the demanded
/// dial, and the matching action is appended. `approvals_after` is the
/// awaiting-approval list `post` must carry.
pub open spec fn resolves_request(
    pre: RequestManager,
    post: RequestManager,
    request_id: RequestId,
    direction: RequestDirection,
    is_allowed: bool,
    approvals_after: Seq<(u64, u64)>,
) -> bool {
    let i = pre.store_index(direction, request_id);
    let peer = pre.store_of(direction)[i].peer;
    let msg = pre.store_of(direction)[i].request;
    let connected = pre.connections.connected(peer);
    let conn = pre.connections.conns_of(peer)[0];
    &&& post.awaiting_peer_rule@ == pre.awaiting_peer_rule@
    &&& post.approvals() == approvals_after
    &&& post.store_of(opposite(direction)) == pre.store_of(opposite(direction))
    &&& if !is_allowed {
        &&& post.store_of(direction) == pre.store_of(direction).remove(i)
        &&& post.connections == pre.connections
        &&& post.awaiting_connection@ == pre.awaiting_connection@
        &&& post.actions@ == pre.actions@.push(
            not_permitted_action(peer, request_id, direction),
        )
    } else if connected {
        &&& post.store_of(direction) == pre.store_of(direction).remove(i)
        &&& post.awaiting_connection@ == pre.awaiting_connection@
        &&& post.connections.in_flight(conn, direction) == pre.connections.in_flight(
            conn,
            direction,
        ).push(request_id)
        &&& forall|c: ConnectionId, d: RequestDirection|
            !(c == conn && d == direction) ==> post.connections.in_flight(c, d)
                == pre.connections.in_flight(c, d)
        &&& forall|p: PeerId| post.connections.conns_of(p) == pre.connections.conns_of(p)
        &&& forall|p: PeerId| post.connections.connected(p) == pre.connections.connected(p)
        &&& post.actions@ == pre.actions@.push(
            ready_action(peer, request_id, conn, msg, direction),
        )
    } else if direction is Inbound {
        &&& post.store_of(direction) == pre.store_of(direction).remove(i)
        &&& post.connections == pre.connections
        &&& post.awaiting_connection@ == pre.awaiting_connection@
        &&& post.actions@ == pre.actions@.push(
            (BehaviourAction::InboundFailure {
                peer,
                request_id,
                reason: InboundFailure::ConnectionClosed,
            }),
        )
    } else {
        &&& post.store_of(direction) == pre.store_of(direction)
        &&& post.connections == pre.connections
        &&& post.conn_wait_list(peer) == pre.conn_wait_list(peer).push(request_id)
        &&& post.has_conn_wait_entry(peer)
        &&& forall|p: PeerId|
            p != peer ==> post.conn_wait_list(p) == pre.conn_wait_list(p)
                && post.has_conn_wait_entry(p) == pre.has_conn_wait_entry(p)
        &&& post.in_conn_wait(request_id)
        &&& forall|id: RequestId|
            id != request_id ==> post.in_conn_wait(id) == pre.in_conn_wait(id)
        &&& post.actions@ == pre.actions@.push(BehaviourAction::RequireDialAttempt(peer))
    }
}


/// How an already approved new request changes the manager: attached to the
/// peer's first connection and emitted as ready, parked awaiting a dial
/// (outbound without a connection), or failed at once (inbound without a
/// connection).
pub open spec fn admits_new_request(
    pre: RequestManager,
    post: RequestManager,
    peer: PeerId,
    request_id: RequestId,
    msg: RequestMessage,
    direction: RequestDirection,
) -> bool {
    let connected = pre.connections.connected(peer);
    let conn = pre.connections.conns_of(peer)[0];
    &&& post.awaiting_peer_rule@ == pre.awaiting_peer_rule@
    &&& post.approvals() == pre.approvals()
    &&& if connected {
        &&& post.inbound_request_store@ == pre.inbound_request_store@
        &&& post.outbound_request_store@ == pre.outbound_request_store@
        &&& post.awaiting_connection@ == pre.awaiting_connection@
        &&& post.connections.in_flight(conn, direction) == pre.connections.in_flight(
            conn,
            direction,
        ).push(request_id)
        &&& forall|c: ConnectionId, d: RequestDirection|
            !(c == conn && d == direction) ==> post.connections.in_flight(c, d)
                == pre.connections.in_flight(c, d)
        &&& forall|p: PeerId| post.connections.conns_of(p) == pre.connections.conns_of(p)
        &&& forall|p: PeerId| post.connections.connected(p) == pre.connections.connected(p)
        &&& post.actions@ == pre.actions@.push(
            ready_action(peer, request_id, conn, msg, direction),
        )
    } else if direction is Outbound {
        &&& post.store_of(RequestDirection::Outbound) == pre.store_of(
            RequestDirection::Outbound,
        ).push((StoredRequest { request_id, peer, request: msg }))
        &&& post.store_of(RequestDirection::Inbound) == pre.store_of(RequestDirection::Inbound)
        &&& post.connections == pre.connections
        &&& post.conn_wait_list(peer) == pre.conn_wait_list(peer).push(request_id)
        &&& post.has_conn_wait_entry(peer)
        &&& forall|p: PeerId|
            p != peer ==> post.conn_wait_list(p) == pre.conn_wait_list(p)
                && post.has_conn_wait_entry(p) == pre.has_conn_wait_entry(p)
        &&& post.in_conn_wait(request_id)
        &&& forall|id: RequestId|
            id != request_id ==> post.in_conn_wait(id) == pre.in_conn_wait(id)
        &&& post.actions@ == pre.actions@.push(BehaviourAction::RequireDialAttempt(peer))
    } else {
        &&& post.inbound_request_store@ == pre.inbound_request_store@
        &&& post.outbound_request_store@ == pre.outbound_request_store@
        &&& post.connections == pre.connections
        &&& post.awaiting_connection@ == pre.awaiting_connection@
        &&& post.actions@ == pre.actions@.push(
            (BehaviourAction::InboundFailure {
                peer,
                request_id,
                reason: InboundFailure::ConnectionClosed,
            }),
        )
    }
}


/// The failure actions a closing connection emits: one per in-flight
/// request, outbound first, each batch in list order.
pub open spec fn closed_conn_actions(
    peer: PeerId,
    out_ids: Seq<RequestId>,
    in_ids: Seq<RequestId>,
) -> Seq<BehaviourAction> {
    out_ids.map_values(
        |id: RequestId| (BehaviourAction::OutboundFailure {
            peer,
            request_id: id,
            reason: OutboundFailure::ConnectionClosed,
        }),
    ) + in_ids.map_values(
        |id: RequestId| (BehaviourAction::InboundFailure {
            peer,
            request_id: id,
            reason: InboundFailure::ConnectionClosed,
        }),
    )
}

/// A connection close emits exactly as many failures as there were requests
/// in flight on the connection: one per request.
pub proof fn lemma_connection_closed_failure_count(
    peer: PeerId,
    out_ids: Seq<RequestId>,
    in_ids: Seq<RequestId>,
)
    ensures
        closed_conn_actions(peer, out_ids, in_ids).len() == out_ids.len() + in_ids.len(),
{
}


/// The failure batches a full disconnect emits: for each connection in
/// order, the failures its close emits, computed against the books before
/// the disconnect.
pub open spec fn disconnect_actions(
    cm: PeerConnectionManager,
    peer: PeerId,
    conns: Seq<ConnectionId>,
) -> Seq<BehaviourAction>
    decreases conns.len(),
{
    if conns.len() == 0 {
        Seq::empty()
    } else {
        closed_conn_actions(
            peer,
            cm.in_flight(conns[0], RequestDirection::Outbound),
            cm.in_flight(conns[0], RequestDirection::Inbound),
        ) + disconnect_actions(cm, peer, conns.drop_first())
    }
}

/// `disconnect_actions` distributes over concatenation of connection lists.
proof fn lemma_disconnect_actions_concat(
    cm: PeerConnectionManager,
    peer: PeerId,
    a: Seq<ConnectionId>,
    b: Seq<ConnectionId>,
)
    ensures
        disconnect_actions(cm, peer, a + b) == disconnect_actions(cm, peer, a)
            + disconnect_actions(cm, peer, b),
    decreases a.len(),
{
    if a.len() == 0 {
        assert(a + b =~= b);
        assert(disconnect_actions(cm, peer, a) =~= Seq::<BehaviourAction>::empty());
        assert(disconnect_actions(cm, peer, a) + disconnect_actions(cm, peer, b)
            =~= disconnect_actions(cm, peer, b));
    } else {
        lemma_disconnect_actions_concat(cm, peer, a.drop_first(), b);
        assert((a + b).drop_first() =~= a.drop_first() + b);
        assert((a + b)[0] == a[0]);
        assert(disconnect_actions(cm, peer, a + b) =~= disconnect_actions(cm, peer, a)
            + disconnect_actions(cm, peer, b));
    }
}

/// What flushing the awaiting-connection ids of a peer does, id by id in
/// order: the store left behind, the ready actions emitted, and the ids
/// attached to the connection. An id without a parked request is skipped.
pub open spec fn flush_ready(
    store: Seq<StoredRequest>,
    conn: ConnectionId,
    ids: Seq<RequestId>,
) -> (Seq<StoredRequest>, Seq<BehaviourAction>, Seq<RequestId>)
    decreases ids.len(),
{
    if ids.len() == 0 {
        (store, Seq::empty(), Seq::empty())
    } else {
        let id = ids[0];
        if store_has(store, id) {
            let i = store_at(store, id);
            let rest = flush_ready(store.remove(i), conn, ids.drop_first());
            (
                rest.0,
                seq![
                    ready_action(
                        store[i].peer,
                        id,
                        conn,
                        store[i].request,
                        RequestDirection::Outbound,
                    ),
                ] + rest.1,
                seq![id] + rest.2,
            )
        } else {
            flush_ready(store, conn, ids.drop_first())
        }
    }
}

/// `flush_ready` over a concatenation runs the first block, then the second
/// on the store the first left behind.
proof fn lemma_flush_ready_concat(
    store: Seq<StoredRequest>,
    conn: ConnectionId,
    a: Seq<RequestId>,
    b: Seq<RequestId>,
)
    ensures
        ({
            let fa = flush_ready(store, conn, a);
            let fb = flush_ready(fa.0, conn, b);
            flush_ready(store, conn, a + b) == (fb.0, fa.1 + fb.1, fa.2 + fb.2)
        }),
    decreases a.len(),
{
    let fa = flush_ready(store, conn, a);
    let fb = flush_ready(fa.0, conn, b);
    if a.len() == 0 {
        assert(a + b =~= b);
        assert(fa.0 == store && fa.1 =~= Seq::<BehaviourAction>::empty() && fa.2 =~= Seq::<
            RequestId,
        >::empty());
        assert(fa.1 + fb.1 =~= fb.1);
        assert(fa.2 + fb.2 =~= fb.2);
    } else {
        assert((a + b)[0] == a[0]);
        assert((a + b).drop_first() =~= a.drop_first() + b);
        if store_has(store, a[0]) {
            let i = store_at(store, a[0]);
            lemma_flush_ready_concat(store.remove(i), conn, a.drop_first(), b);
            let fa2 = flush_ready(store.remove(i), conn, a.drop_first());
            let fb2 = flush_ready(fa2.0, conn, b);
            assert(fa.0 == fa2.0 && fb == fb2);
            assert(flush_ready(store, conn, a + b).1 =~= fa.1 + fb.1);
            assert(flush_ready(store, conn, a + b).2 =~= fa.2 + fb.2);
        } else {
            lemma_flush_ready_concat(store, conn, a.drop_first(), b);
            assert(flush_ready(store, conn, a + b).1 =~= fa.1 + fb.1);
            assert(flush_ready(store, conn, a + b).2 =~= fa.2 + fb.2);
        }
    }
}

/// Removing one request from a store removes exactly its id.
proof fn lemma_store_remove_membership(s: Seq<StoredRequest>, i: int)
    requires
        0 <= i < s.len(),
        forall|a: int, b: int|
            0 <= a < s.len() && 0 <= b < s.len() && a != b ==> (#[trigger] s[a]).request_id
                != (#[trigger] s[b]).request_id,
    ensures
        forall|id: RequestId| #[trigger]
            store_has(s.remove(i), id) == (store_has(s, id) && id != s[i].request_id),
{
    let t = s.remove(i);
    assert(forall|k: int| 0 <= k < i ==> t[k] == s[k]);
    assert(forall|k: int| i <= k < s.len() - 1 ==> t[k] == s[k + 1]);
    assert forall|id: RequestId| #[trigger] store_has(t, id) == (store_has(s, id) && id
        != s[i].request_id) by {
        if store_has(t, id) {
            let w = choose|w: int| 0 <= w < t.len() && (#[trigger] t[w]).request_id == id;
            if w < i {
                assert(s[w].request_id == id);
            } else {
                assert(s[w + 1].request_id == id);
            }
        }
        if store_has(s, id) && id != s[i].request_id {
            let w = choose|w: int| 0 <= w < s.len() && (#[trigger] s[w]).request_id == id;
            if w < i {
                assert(t[w].request_id == id);
            } else {
                assert(w != i);
                assert(t[w - 1].request_id == id);
            }
        }
    }
}

/// Removing one request from a store leaves every other request where its
/// id finds it, unchanged.
proof fn lemma_store_remove_content(s: Seq<StoredRequest>, i: int)
    requires
        0 <= i < s.len(),
        forall|a: int, b: int|
            0 <= a < s.len() && 0 <= b < s.len() && a != b ==> (#[trigger] s[a]).request_id
                != (#[trigger] s[b]).request_id,
    ensures
        forall|id: RequestId|
            #[trigger] store_has(s.remove(i), id) ==> s.remove(i)[store_at(s.remove(i), id)]
                == s[store_at(s, id)],
{
    let t = s.remove(i);
    assert(forall|k: int| 0 <= k < i ==> t[k] == s[k]);
    assert(forall|k: int| i <= k < s.len() - 1 ==> t[k] == s[k + 1]);
    lemma_store_remove_membership(s, i);
    assert forall|id: RequestId| #[trigger] store_has(t, id) implies t[store_at(t, id)] == s[store_at(
        s,
        id,
    )] by {
        let wt = store_at(t, id);
        assert(0 <= wt < t.len() && t[wt].request_id == id);
        let ws = store_at(s, id);
        assert(store_has(s, id));
        assert(0 <= ws < s.len() && s[ws].request_id == id);
        if wt < i {
            assert(t[wt] == s[wt]);
            assert(s[wt].request_id == id);
            assert(ws == wt);
        } else {
            assert(t[wt] == s[wt + 1]);
            assert(s[wt + 1].request_id == id);
            assert(ws == wt + 1);
        }
    }
}


/// How installing rule-query placeholders changes the manager: the covered
/// directions of `peer` become pending, nothing else moves — in particular
/// no waiting list gains or loses an id.
pub open spec fn pending_marked(
    pre: RequestManager,
    post: RequestManager,
    peer: PeerId,
    direction: RuleDirection,
) -> bool {
    &&& post.rule_pending(peer, RequestDirection::Inbound) == (pre.rule_pending(
        peer,
        RequestDirection::Inbound,
    ) || direction.spec_is_inbound())
    &&& post.rule_pending(peer, RequestDirection::Outbound) == (pre.rule_pending(
        peer,
        RequestDirection::Outbound,
    ) || direction.spec_is_outbound())
    &&& forall|d: RequestDirection| post.rule_list(peer, d) == pre.rule_list(peer, d)
    &&& forall|p: PeerId, d: RequestDirection|
        p != peer ==> post.rule_list(p, d) == pre.rule_list(p, d) && post.rule_pending(p, d)
            == pre.rule_pending(p, d)
    &&& forall|id: RequestId, d: RequestDirection|
        post.in_rule_wait(id, d) == pre.in_rule_wait(id, d)
    &&& post.inbound_request_store@ == pre.inbound_request_store@
    &&& post.outbound_request_store@ == pre.outbound_request_store@
    &&& post.connections == pre.connections
    &&& post.awaiting_connection@ == pre.awaiting_connection@
    &&& post.approvals() == pre.approvals()
    &&& post.actions@ == pre.actions@
}

/// Installing the placeholders twice changes nothing the second time:
/// whatever the second call touches, it leaves every view of the manager as
/// the first call left it.
pub proof fn lemma_add_pending_idempotent(
    s0: RequestManager,
    s1: RequestManager,
    s2: RequestManager,
    peer: PeerId,
    direction: RuleDirection,
)
    requires
        pending_marked(s0, s1, peer, direction),
        pending_marked(s1, s2, peer, direction),
    ensures
        forall|p: PeerId, d: RequestDirection| #[trigger]
            s2.rule_pending(p, d) == s1.rule_pending(p, d),
        forall|p: PeerId, d: RequestDirection| #[trigger] s2.rule_list(p, d) == s1.rule_list(p, d),
        forall|id: RequestId, d: RequestDirection| #[trigger]
            s2.in_rule_wait(id, d) == s1.in_rule_wait(id, d),
        s2.inbound_request_store@ == s1.inbound_request_store@,
        s2.outbound_request_store@ == s1.outbound_request_store@,
        s2.connections == s1.connections,
        s2.awaiting_connection@ == s1.awaiting_connection@,
        s2.approvals() == s1.approvals(),
        s2.actions@ == s1.actions@,
{
    assert forall|p: PeerId, d: RequestDirection| #[trigger] s2.rule_pending(p, d)
        == s1.rule_pending(p, d) by {
        if p == peer {
            if d is Inbound {
            } else {
            }
        }
    }
    assert forall|p: PeerId, d: RequestDirection| #[trigger] s2.rule_list(p, d) == s1.rule_list(
        p,
        d,
    ) by {
        if p == peer {
        }
    }
}


/// Whether a rule direction covers a request direction.
pub open spec fn covers(direction: RuleDirection, d: RequestDirection) -> bool {
    match d {
        RequestDirection::Inbound => direction.spec_is_inbound(),
        RequestDirection::Outbound => direction.spec_is_outbound(),
    }
}

/// One not-permitted failure per id, in list order.
pub open spec fn not_permitted_batch(
    peer: PeerId,
    ids: Seq<RequestId>,
    direction: RequestDirection,
) -> Seq<BehaviourAction> {
    ids.map_values(|id: RequestId| not_permitted_action(peer, id, direction))
}


/// The rule a pair of optional rules gives for one request direction.
pub open spec fn rule_for(rules: FirewallRules, d: RequestDirection) -> Option<Rule> {
    match d {
        RequestDirection::Inbound => rules.inbound,
        RequestDirection::Outbound => rules.outbound,
    }
}

/// The peer a parked request belongs to.
pub open spec fn stored_peer(m: RequestManager, d: RequestDirection, id: RequestId) -> PeerId {
    m.store_of(d)[m.store_index(d, id)].peer
}

/// The permission value of a parked request.
pub open spec fn stored_permission(m: RequestManager, d: RequestDirection, id: RequestId) -> u64 {
    m.store_of(d)[m.store_index(d, id)].request.permission
}

/// The message of a parked request.
pub open spec fn stored_message(
    m: RequestManager,
    d: RequestDirection,
    id: RequestId,
) -> RequestMessage {
    m.store_of(d)[m.store_index(d, id)].request
}

/// A waiting pair that the arrived rule sends into individual approval.
pub open spec fn pair_ask(
    m: RequestManager,
    rules: FirewallRules,
    id: RequestId,
    d: RequestDirection,
) -> bool {
    m.in_store(d, id) && rule_for(rules, d) == Some(Rule::Ask)
}

/// Whether the arrived rule admits a permission value outright.
pub open spec fn pair_allowed(rules: FirewallRules, d: RequestDirection, perm: u64) -> bool {
    match rule_for(rules, d) {
        Some(Rule::Permission(mask)) => spec_permits(mask, perm),
        _ => false,
    }
}

/// A waiting pair the rule admits while its peer is connected: it attaches.
pub open spec fn pair_attaches(
    m: RequestManager,
    rules: FirewallRules,
    id: RequestId,
    d: RequestDirection,
) -> bool {
    m.in_store(d, id) && pair_allowed(rules, d, stored_permission(m, d, id))
        && m.connections.connected(stored_peer(m, d, id))
}

/// A waiting pair the rule admits while its peer is not connected, outbound:
/// it demands a dial and stays parked.
pub open spec fn pair_dials(
    m: RequestManager,
    rules: FirewallRules,
    id: RequestId,
    d: RequestDirection,
) -> bool {
    m.in_store(d, id) && pair_allowed(rules, d, stored_permission(m, d, id))
        && !m.connections.connected(stored_peer(m, d, id)) && d is Outbound
}

/// A waiting pair whose request leaves the store when the rule arrives.
pub open spec fn pair_removed(
    m: RequestManager,
    rules: FirewallRules,
    id: RequestId,
    d: RequestDirection,
) -> bool {
    m.in_store(d, id) && rule_for(rules, d) != Some(Rule::Ask) && !pair_dials(m, rules, id, d)
}

/// The actions one waiting pair contributes when the rule arrives, judged
/// against the books before the arrival.
pub open spec fn pair_batch(
    m: RequestManager,
    rules: FirewallRules,
    id: RequestId,
    d: RequestDirection,
) -> Seq<BehaviourAction> {
    if !m.in_store(d, id) {
        Seq::empty()
    } else if rule_for(rules, d) == Some(Rule::Ask) {
        Seq::empty()
    } else {
        let peer = stored_peer(m, d, id);
        if pair_attaches(m, rules, id, d) {
            seq![
                ready_action(
                    peer,
                    id,
                    m.connections.conns_of(peer)[0],
                    stored_message(m, d, id),
                    d,
                ),
            ]
        } else if pair_dials(m, rules, id, d) {
            seq![BehaviourAction::RequireDialAttempt(peer)]
        } else if pair_allowed(rules, d, stored_permission(m, d, id)) {
            seq![
                (BehaviourAction::InboundFailure {
                    peer,
                    request_id: id,
                    reason: InboundFailure::ConnectionClosed,
                }),
            ]
        } else {
            seq![not_permitted_action(peer, id, d)]
        }
    }
}

/// The actions a rule arrival emits for a list of waiting pairs, in
/// processing order.
pub open spec fn rule_batches(
    m: RequestManager,
    rules: FirewallRules,
    ps: Seq<(RequestId, RequestDirection)>,
) -> Seq<BehaviourAction>
    decreases ps.len(),
{
    if ps.len() == 0 {
        Seq::empty()
    } else {
        pair_batch(m, rules, ps[0].0, ps[0].1) + rule_batches(m, rules, ps.drop_first())
    }
}

/// The entries a rule arrival hands back for individual approval queries, in
/// processing order.
pub open spec fn rule_ask_entries(
    m: RequestManager,
    rules: FirewallRules,
    ps: Seq<(RequestId, RequestDirection)>,
) -> Seq<(RequestId, u64, RequestDirection)>
    decreases ps.len(),
{
    if ps.len() == 0 {
        Seq::empty()
    } else {
        let rest = rule_ask_entries(m, rules, ps.drop_first());
        if pair_ask(m, rules, ps[0].0, ps[0].1) {
            seq![(ps[0].0, stored_permission(m, ps[0].1, ps[0].0), ps[0].1)] + rest
        } else {
            rest
        }
    }
}

/// The ids a rule arrival attaches to connection `c` in direction `d2`, in
/// processing order.
pub open spec fn attached_ids(
    m: RequestManager,
    rules: FirewallRules,
    ps: Seq<(RequestId, RequestDirection)>,
    c: ConnectionId,
    d2: RequestDirection,
) -> Seq<RequestId>
    decreases ps.len(),
{
    if ps.len() == 0 {
        Seq::empty()
    } else {
        let rest = attached_ids(m, rules, ps.drop_first(), c, d2);
        if pair_attaches(m, rules, ps[0].0, ps[0].1) && ps[0].1 == d2 && m.connections.conns_of(
            stored_peer(m, ps[0].1, ps[0].0),
        )[0] == c {
            seq![ps[0].0] + rest
        } else {
            rest
        }
    }
}

/// The affected pairs of a rule arrival: the covered inbound list, then the
/// covered outbound list, each in stored order.
pub open spec fn pairs_of(
    m: RequestManager,
    peer: PeerId,
    direction: RuleDirection,
) -> Seq<(RequestId, RequestDirection)> {
    (if covers(direction, RequestDirection::Inbound) {
        m.rule_list(peer, RequestDirection::Inbound).map_values(
            |id: RequestId| (id, RequestDirection::Inbound),
        )
    } else {
        Seq::empty()
    }) + (if covers(direction, RequestDirection::Outbound) {
        m.rule_list(peer, RequestDirection::Outbound).map_values(
            |id: RequestId| (id, RequestDirection::Outbound),
        )
    } else {
        Seq::empty()
    })
}

/// The three per-pair accumulators distribute over concatenation.
proof fn lemma_rule_accumulators_concat(
    m: RequestManager,
    rules: FirewallRules,
    a: Seq<(RequestId, RequestDirection)>,
    b: Seq<(RequestId, RequestDirection)>,
)
    ensures
        rule_batches(m, rules, a + b) == rule_batches(m, rules, a) + rule_batches(m, rules, b),
        rule_ask_entries(m, rules, a + b) == rule_ask_entries(m, rules, a) + rule_ask_entries(
            m,
            rules,
            b,
        ),
        forall|c: ConnectionId, d2: RequestDirection| #[trigger] attached_ids(m, rules, a + b, c, d2)
            == attached_ids(m, rules, a, c, d2) + attached_ids(m, rules, b, c, d2),
    decreases a.len(),
{
    if a.len() == 0 {
        assert(a + b =~= b);
        assert(rule_batches(m, rules, a) =~= Seq::<BehaviourAction>::empty());
        assert(rule_batches(m, rules, a) + rule_batches(m, rules, b) =~= rule_batches(
            m,
            rules,
            b,
        ));
        assert(rule_ask_entries(m, rules, a) + rule_ask_entries(m, rules, b) =~= rule_ask_entries(
            m,
            rules,
            b,
        ));
        assert forall|c: ConnectionId, d2: RequestDirection| #[trigger] attached_ids(
            m,
            rules,
            a + b,
            c,
            d2,
        ) == attached_ids(m, rules, a, c, d2) + attached_ids(m, rules, b, c, d2) by {
            assert(attached_ids(m, rules, a, c, d2) + attached_ids(m, rules, b, c, d2)
                =~= attached_ids(m, rules, b, c, d2));
        }
    } else {
        lemma_rule_accumulators_concat(m, rules, a.drop_first(), b);
        assert((a + b).drop_first() =~= a.drop_first() + b);
        assert((a + b)[0] == a[0]);
        assert(rule_batches(m, rules, a + b) =~= rule_batches(m, rules, a) + rule_batches(
            m,
            rules,
            b,
        ));
        assert(rule_ask_entries(m, rules, a + b) =~= rule_ask_entries(m, rules, a)
            + rule_ask_entries(m, rules, b));
        assert forall|c: ConnectionId, d2: RequestDirection| #[trigger] attached_ids(
            m,
            rules,
            a + b,
            c,
            d2,
        ) == attached_ids(m, rules, a, c, d2) + attached_ids(m, rules, b, c, d2) by {
            assert(attached_ids(m, rules, a.drop_first() + b, c, d2) == attached_ids(
                m,
                rules,
                a.drop_first(),
                c,
                d2,
            ) + attached_ids(m, rules, b, c, d2));
            assert(attached_ids(m, rules, a + b, c, d2) =~= attached_ids(m, rules, a, c, d2)
                + attached_ids(m, rules, b, c, d2));
        }
    }
}


/// What one pair contributes to each accumulator.
proof fn lemma_rule_single(
    m: RequestManager,
    rules: FirewallRules,
    id: RequestId,
    d: RequestDirection,
)
    ensures
        rule_batches(m, rules, seq![(id, d)]) == pair_batch(m, rules, id, d),
        rule_ask_entries(m, rules, seq![(id, d)]) == (if pair_ask(m, rules, id, d) {
            seq![(id, stored_permission(m, d, id), d)]
        } else {
            Seq::<(RequestId, u64, RequestDirection)>::empty()
        }),
        forall|c: ConnectionId, d2: RequestDirection| #[trigger]
            attached_ids(m, rules, seq![(id, d)], c, d2) == (if pair_attaches(m, rules, id, d) && d
                == d2 && m.connections.conns_of(stored_peer(m, d, id))[0] == c {
                seq![id]
            } else {
                Seq::<RequestId>::empty()
            }),
{
    let s = seq![(id, d)];
    assert(s.drop_first() =~= Seq::<(RequestId, RequestDirection)>::empty());
    assert(rule_batches(m, rules, s.drop_first()) =~= Seq::<BehaviourAction>::empty());
    assert(rule_batches(m, rules, s) =~= pair_batch(m, rules, id, d));
    assert(rule_ask_entries(m, rules, s.drop_first()) =~= Seq::<
        (RequestId, u64, RequestDirection),
    >::empty());
    if pair_ask(m, rules, id, d) {
        assert(rule_ask_entries(m, rules, s) =~= seq![(id, stored_permission(m, d, id), d)]);
    } else {
        assert(rule_ask_entries(m, rules, s) =~= Seq::<
            (RequestId, u64, RequestDirection),
        >::empty());
    }
    assert forall|c: ConnectionId, d2: RequestDirection| #[trigger]
        attached_ids(m, rules, s, c, d2) == (if pair_attaches(m, rules, id, d) && d == d2
            && m.connections.conns_of(stored_peer(m, d, id))[0] == c {
            seq![id]
        } else {
            Seq::<RequestId>::empty()
        }) by {
        assert(attached_ids(m, rules, s.drop_first(), c, d2) =~= Seq::<RequestId>::empty());
        if pair_attaches(m, rules, id, d) && d == d2 && m.connections.conns_of(
            stored_peer(m, d, id),
        )[0] == c {
            assert(attached_ids(m, rules, s, c, d2) =~= seq![id]);
        } else {
            assert(attached_ids(m, rules, s, c, d2) =~= Seq::<RequestId>::empty());
        }
    }
}


/// Extending a processed prefix by one pair extends what it contains by
/// exactly that pair.
proof fn lemma_prefix_extend_contains(
    ps: Seq<(RequestId, RequestDirection)>,
    j: int,
    id2: RequestId,
    d3: RequestDirection,
)
    requires
        0 <= j < ps.len(),
    ensures
        ps.subrange(0, j + 1).contains((id2, d3)) == (ps.subrange(0, j).contains((id2, d3)) || (
        id2,
        d3,
        ) == ps[j]),
{
    assert(forall|k: int|
        0 <= k < j ==> (#[trigger] ps.subrange(0, j + 1)[k]) == ps.subrange(0, j)[k]);
    assert(ps.subrange(0, j + 1)[j] == ps[j]);
    if ps.subrange(0, j).contains((id2, d3)) {
        let w = choose|w: int| 0 <= w < j && (#[trigger] ps.subrange(0, j)[w]) == (id2, d3);
        assert(0 <= w < j && ps.subrange(0, j)[w] == (id2, d3));
        assert(ps.subrange(0, j + 1)[w] == (id2, d3));
    }
    if ps.subrange(0, j + 1).contains((id2, d3)) {
        let w = choose|w: int|
            0 <= w < j + 1 && (#[trigger] ps.subrange(0, j + 1)[w]) == (id2, d3);
        assert(0 <= w < j + 1 && ps.subrange(0, j + 1)[w] == (id2, d3));
        if w < j {
            assert(ps.subrange(0, j)[w] == (id2, d3));
        }
    }
}

/// A pair without a parked request contributes nothing: every accumulator of
/// the rule arrival is unchanged by the step.
proof fn lemma_after_skip(
    m: RequestManager,
    rules: FirewallRules,
    cur: RequestManager,
    ps: Seq<(RequestId, RequestDirection)>,
    j: int,
    ask: Seq<(RequestId, u64, RequestDirection)>,
)
    requires
        0 <= j < ps.len(),
        !m.in_store(ps[j].1, ps[j].0),
        forall|d3: RequestDirection, id2: RequestId| #[trigger]
            cur.in_store(d3, id2) == (m.in_store(d3, id2) && !(ps.subrange(0, j).contains(
                (id2, d3),
            ) && pair_removed(m, rules, id2, d3))),
        forall|c: ConnectionId, d3: RequestDirection| #[trigger]
            cur.connections.in_flight(c, d3) == m.connections.in_flight(c, d3) + attached_ids(
                m,
                rules,
                ps.subrange(0, j),
                c,
                d3,
            ),
        forall|id2: RequestId| #[trigger]
            cur.in_conn_wait(id2) == (m.in_conn_wait(id2) || exists|k: int|
                0 <= k < j && (#[trigger] ps[k]).0 == id2 && pair_dials(m, rules, id2, ps[k].1)),
        cur.actions@ == m.actions@ + rule_batches(m, rules, ps.subrange(0, j)),
        ask == rule_ask_entries(m, rules, ps.subrange(0, j)),
    ensures
        forall|d3: RequestDirection, id2: RequestId| #[trigger]
            cur.in_store(d3, id2) == (m.in_store(d3, id2) && !(ps.subrange(0, j + 1).contains(
                (id2, d3),
            ) && pair_removed(m, rules, id2, d3))),
        forall|c: ConnectionId, d3: RequestDirection| #[trigger]
            cur.connections.in_flight(c, d3) == m.connections.in_flight(c, d3) + attached_ids(
                m,
                rules,
                ps.subrange(0, j + 1),
                c,
                d3,
            ),
        forall|id2: RequestId| #[trigger]
            cur.in_conn_wait(id2) == (m.in_conn_wait(id2) || exists|k: int|
                0 <= k < j + 1 && (#[trigger] ps[k]).0 == id2 && pair_dials(
                    m,
                    rules,
                    id2,
                    ps[k].1,
                )),
        cur.actions@ == m.actions@ + rule_batches(m, rules, ps.subrange(0, j + 1)),
        ask == rule_ask_entries(m, rules, ps.subrange(0, j + 1)),
{
    let id = ps[j].0;
    let d = ps[j].1;
    assert(ps[j] == (id, d));
    lemma_rule_accumulators_concat(m, rules, ps.subrange(0, j), seq![(id, d)]);
    lemma_rule_single(m, rules, id, d);
    assert(ps.subrange(0, j + 1) =~= ps.subrange(0, j) + seq![(id, d)]);
    assert(!pair_ask(m, rules, id, d));
    assert(!pair_removed(m, rules, id, d));
    assert(!pair_dials(m, rules, id, d));
    assert(!pair_attaches(m, rules, id, d));
    assert(pair_batch(m, rules, id, d) =~= Seq::<BehaviourAction>::empty());
    assert(cur.actions@ =~= m.actions@ + rule_batches(m, rules, ps.subrange(0, j + 1)));
    assert(ask =~= rule_ask_entries(m, rules, ps.subrange(0, j + 1)));
    assert forall|d3: RequestDirection, id2: RequestId| #[trigger] cur.in_store(d3, id2) == (
    m.in_store(d3, id2) && !(ps.subrange(0, j + 1).contains((id2, d3)) && pair_removed(
        m,
        rules,
        id2,
        d3,
    ))) by {
        lemma_prefix_extend_contains(ps, j, id2, d3);
    }
    assert forall|c: ConnectionId, d3: RequestDirection| #[trigger] cur.connections.in_flight(
        c,
        d3,
    ) == m.connections.in_flight(c, d3) + attached_ids(m, rules, ps.subrange(0, j + 1), c, d3) by {
        assert(attached_ids(m, rules, ps.subrange(0, j + 1), c, d3) =~= attached_ids(
            m,
            rules,
            ps.subrange(0, j),
            c,
            d3,
        ));
    }
    assert forall|id2: RequestId| #[trigger] cur.in_conn_wait(id2) == (m.in_conn_wait(id2)
        || exists|k: int|
        0 <= k < j + 1 && (#[trigger] ps[k]).0 == id2 && pair_dials(m, rules, id2, ps[k].1)) by {
        if exists|k: int|
            0 <= k < j + 1 && (#[trigger] ps[k]).0 == id2 && pair_dials(m, rules, id2, ps[k].1) {
            let k = choose|k: int|
                0 <= k < j + 1 && (#[trigger] ps[k]).0 == id2 && pair_dials(
                    m,
                    rules,
                    id2,
                    ps[k].1,
                );
            assert(k < j);
        }
    }
}

/// One settled pair advances every accumulator of the rule arrival by
/// exactly its own contribution.
proof fn lemma_after_settle(
    m: RequestManager,
    rules: FirewallRules,
    pre: RequestManager,
    cur: RequestManager,
    ps: Seq<(RequestId, RequestDirection)>,
    j: int,
    id: RequestId,
    d: RequestDirection,
    allowed: bool,
    ask: Seq<(RequestId, u64, RequestDirection)>,
)
    requires
        0 <= j < ps.len(),
        ps[j] == (id, d),
        forall|k1: int, k2: int| 0 <= k1 < k2 < ps.len() ==> ps[k1] != ps[k2],
        m.in_store(d, id),
        pre.wf(),
        rule_for(rules, d) != Some(Rule::Ask),
        allowed == pair_allowed(rules, d, stored_permission(m, d, id)),
        forall|d3: RequestDirection, id2: RequestId| #[trigger]
            pre.in_store(d3, id2) == (m.in_store(d3, id2) && !(ps.subrange(0, j).contains(
                (id2, d3),
            ) && pair_removed(m, rules, id2, d3))),
        forall|d3: RequestDirection, id2: RequestId|
            #[trigger] pre.in_store(d3, id2) ==> pre.store_of(d3)[pre.store_index(d3, id2)]
                == m.store_of(d3)[m.store_index(d3, id2)],
        forall|c: ConnectionId, d3: RequestDirection| #[trigger]
            pre.connections.in_flight(c, d3) == m.connections.in_flight(c, d3) + attached_ids(
                m,
                rules,
                ps.subrange(0, j),
                c,
                d3,
            ),
        forall|p2: PeerId|
            pre.connections.conns_of(p2) == m.connections.conns_of(p2)
                && pre.connections.connected(p2) == m.connections.connected(p2),
        forall|id2: RequestId| #[trigger]
            pre.in_conn_wait(id2) == (m.in_conn_wait(id2) || exists|k: int|
                0 <= k < j && (#[trigger] ps[k]).0 == id2 && pair_dials(m, rules, id2, ps[k].1)),
        pre.actions@ == m.actions@ + rule_batches(m, rules, ps.subrange(0, j)),
        ask == rule_ask_entries(m, rules, ps.subrange(0, j)),
        resolves_request(pre, cur, id, d, allowed, pre.approvals()),
    ensures
        forall|d3: RequestDirection, id2: RequestId| #[trigger]
            cur.in_store(d3, id2) == (m.in_store(d3, id2) && !(ps.subrange(0, j + 1).contains(
                (id2, d3),
            ) && pair_removed(m, rules, id2, d3))),
        forall|d3: RequestDirection, id2: RequestId|
            #[trigger] cur.in_store(d3, id2) ==> cur.store_of(d3)[cur.store_index(d3, id2)]
                == m.store_of(d3)[m.store_index(d3, id2)],
        forall|c: ConnectionId, d3: RequestDirection| #[trigger]
            cur.connections.in_flight(c, d3) == m.connections.in_flight(c, d3) + attached_ids(
                m,
                rules,
                ps.subrange(0, j + 1),
                c,
                d3,
            ),
        forall|p2: PeerId|
            cur.connections.conns_of(p2) == m.connections.conns_of(p2)
                && cur.connections.connected(p2) == m.connections.connected(p2),
        forall|id2: RequestId| #[trigger]
            cur.in_conn_wait(id2) == (m.in_conn_wait(id2) || exists|k: int|
                0 <= k < j + 1 && (#[trigger] ps[k]).0 == id2 && pair_dials(
                    m,
                    rules,
                    id2,
                    ps[k].1,
                )),
        cur.actions@ == m.actions@ + rule_batches(m, rules, ps.subrange(0, j + 1)),
        ask == rule_ask_entries(m, rules, ps.subrange(0, j + 1)),
{
    lemma_rule_accumulators_concat(m, rules, ps.subrange(0, j), seq![(id, d)]);
    lemma_rule_single(m, rules, id, d);
    assert(ps.subrange(0, j + 1) =~= ps.subrange(0, j) + seq![(id, d)]);
    assert(!ps.subrange(0, j).contains((id, d))) by {
        if ps.subrange(0, j).contains((id, d)) {
            let w = choose|w: int| 0 <= w < j && ps.subrange(0, j)[w] == (id, d);
            assert(ps[w] == (id, d));
            assert(ps[w] != ps[j]);
        }
    }
    assert(pre.in_store(d, id));
    let i = pre.store_index(d, id);
    assert(pre.store_of(d)[i] == m.store_of(d)[m.store_index(d, id)]);
    let peer = pre.store_of(d)[i].peer;
    assert(peer == stored_peer(m, d, id));
    assert(pre.store_of(d)[i].request == stored_message(m, d, id));
    let connected = pre.connections.connected(peer);
    assert(connected == m.connections.connected(peer));
    assert(!pair_ask(m, rules, id, d));
    assert(ask =~= rule_ask_entries(m, rules, ps.subrange(0, j + 1)));
    // which branch of the settlement applies, and what it did
    if !allowed {
        assert(cur.store_of(d) == pre.store_of(d).remove(i));
        assert(cur.connections == pre.connections);
        assert(cur.awaiting_connection@ == pre.awaiting_connection@);
        assert(cur.actions@ == pre.actions@.push(not_permitted_action(peer, id, d)));
        assert(!pair_attaches(m, rules, id, d) && !pair_dials(m, rules, id, d));
        assert(pair_removed(m, rules, id, d));
        assert(pair_batch(m, rules, id, d) == seq![not_permitted_action(peer, id, d)]);
    } else if connected {
        assert(cur.store_of(d) == pre.store_of(d).remove(i));
        assert(cur.awaiting_connection@ == pre.awaiting_connection@);
        assert(cur.connections.in_flight(pre.connections.conns_of(peer)[0], d)
            == pre.connections.in_flight(pre.connections.conns_of(peer)[0], d).push(id));
        assert(cur.actions@ == pre.actions@.push(
            ready_action(peer, id, pre.connections.conns_of(peer)[0], stored_message(m, d, id), d),
        ));
        assert(pair_attaches(m, rules, id, d));
        assert(!pair_dials(m, rules, id, d));
        assert(pair_removed(m, rules, id, d));
        assert(pair_batch(m, rules, id, d) == seq![
            ready_action(
                peer,
                id,
                m.connections.conns_of(peer)[0],
                stored_message(m, d, id),
                d,
            ),
        ]);
    } else if d is Inbound {
        assert(cur.store_of(d) == pre.store_of(d).remove(i));
        assert(cur.connections == pre.connections);
        assert(cur.awaiting_connection@ == pre.awaiting_connection@);
        assert(cur.actions@ == pre.actions@.push(
            (BehaviourAction::InboundFailure {
                peer,
                request_id: id,
                reason: InboundFailure::ConnectionClosed,
            }),
        ));
        assert(!pair_attaches(m, rules, id, d) && !pair_dials(m, rules, id, d));
        assert(pair_removed(m, rules, id, d));
        assert(pair_batch(m, rules, id, d) == seq![
            (BehaviourAction::InboundFailure {
                peer,
                request_id: id,
                reason: InboundFailure::ConnectionClosed,
            }),
        ]);
    } else {
        assert(cur.store_of(d) == pre.store_of(d));
        assert(cur.connections == pre.connections);
        assert(cur.actions@ == pre.actions@.push(BehaviourAction::RequireDialAttempt(peer)));
        assert(pair_dials(m, rules, id, d));
        assert(!pair_removed(m, rules, id, d));
        assert(pair_batch(m, rules, id, d) == seq![BehaviourAction::RequireDialAttempt(peer)]);
    }
    assert(cur.actions@ =~= m.actions@ + rule_batches(m, rules, ps.subrange(0, j + 1)));
    // stores
    let removed_here = pair_removed(m, rules, id, d);
    if removed_here {
        lemma_store_remove_membership(pre.store_of(d), i);
        lemma_store_remove_content(pre.store_of(d), i);
        assert(cur.store_of(d) == pre.store_of(d).remove(i));
    } else {
        assert(cur.store_of(d) == pre.store_of(d));
    }
    assert(cur.store_of(opposite(d)) == pre.store_of(opposite(d)));
    assert forall|d3: RequestDirection, id2: RequestId| #[trigger] cur.in_store(d3, id2) == (
    m.in_store(d3, id2) && !(ps.subrange(0, j + 1).contains((id2, d3)) && pair_removed(
        m,
        rules,
        id2,
        d3,
    ))) by {
        lemma_prefix_extend_contains(ps, j, id2, d3);
        assert(pre.in_store(d3, id2) == (m.in_store(d3, id2) && !(ps.subrange(0, j).contains(
            (id2, d3),
        ) && pair_removed(m, rules, id2, d3))));
        if d3 == d {
            if removed_here {
                assert(store_has(cur.store_of(d3), id2) == (store_has(pre.store_of(d3), id2)
                    && id2 != id));
            }
        } else {
            assert(d3 == opposite(d)) by {
                if d is Inbound {
                } else {
                }
            }
            assert(cur.store_of(d3) == pre.store_of(d3));
            assert((id2, d3) != (id, d));
        }
    }
    assert forall|d3: RequestDirection, id2: RequestId| #[trigger] cur.in_store(d3, id2) implies
        cur.store_of(d3)[cur.store_index(d3, id2)] == m.store_of(d3)[m.store_index(d3, id2)] by {
        assert(pre.in_store(d3, id2) == (m.in_store(d3, id2) && !(ps.subrange(0, j).contains(
            (id2, d3),
        ) && pair_removed(m, rules, id2, d3))));
        if d3 == d && removed_here {
            lemma_store_remove_membership(pre.store_of(d), i);
            lemma_store_remove_content(pre.store_of(d), i);
            assert(store_has(cur.store_of(d3), id2));
            assert(cur.store_of(d3)[store_at(cur.store_of(d3), id2)] == pre.store_of(
                d3,
            )[store_at(pre.store_of(d3), id2)]);
            assert(pre.in_store(d3, id2));
            assert(pre.store_of(d3)[pre.store_index(d3, id2)] == m.store_of(d3)[m.store_index(
                d3,
                id2,
            )]);
        } else {
            assert(cur.store_of(d3) == pre.store_of(d3));
            assert(pre.in_store(d3, id2));
            assert(pre.store_of(d3)[pre.store_index(d3, id2)] == m.store_of(d3)[m.store_index(
                d3,
                id2,
            )]);
        }
    }
    assert(cur.approvals() == pre.approvals());
    // in-flight
    assert forall|c: ConnectionId, d3: RequestDirection| #[trigger] cur.connections.in_flight(
        c,
        d3,
    ) == m.connections.in_flight(c, d3) + attached_ids(m, rules, ps.subrange(0, j + 1), c, d3) by {
        assert(pre.connections.in_flight(c, d3) == m.connections.in_flight(c, d3) + attached_ids(
            m,
            rules,
            ps.subrange(0, j),
            c,
            d3,
        ));
        if allowed && connected {
            let conn = pre.connections.conns_of(peer)[0];
            assert(conn == m.connections.conns_of(peer)[0]);
            if c == conn && d3 == d {
                assert(cur.connections.in_flight(c, d3) == pre.connections.in_flight(c, d3).push(
                    id,
                ));
                assert(attached_ids(m, rules, seq![(id, d)], c, d3) == seq![id]);
                assert(cur.connections.in_flight(c, d3) =~= m.connections.in_flight(c, d3)
                    + attached_ids(m, rules, ps.subrange(0, j + 1), c, d3));
            } else {
                assert(cur.connections.in_flight(c, d3) == pre.connections.in_flight(c, d3));
                assert(attached_ids(m, rules, seq![(id, d)], c, d3) =~= Seq::<RequestId>::empty());
                assert(attached_ids(m, rules, ps.subrange(0, j + 1), c, d3) =~= attached_ids(
                    m,
                    rules,
                    ps.subrange(0, j),
                    c,
                    d3,
                ));
            }
        } else {
            assert(cur.connections == pre.connections);
            assert(!pair_attaches(m, rules, id, d));
            assert(attached_ids(m, rules, seq![(id, d)], c, d3) =~= Seq::<RequestId>::empty());
            assert(attached_ids(m, rules, ps.subrange(0, j + 1), c, d3) =~= attached_ids(
                m,
                rules,
                ps.subrange(0, j),
                c,
                d3,
            ));
        }
    }
    // topology frames
    assert forall|p2: PeerId|
        cur.connections.conns_of(p2) == m.connections.conns_of(p2) && cur.connections.connected(
            p2,
        ) == m.connections.connected(p2) by {
        if allowed && connected {
        } else {
            assert(cur.connections == pre.connections);
        }
    }
    // awaiting-connection membership
    assert forall|id2: RequestId| #[trigger] cur.in_conn_wait(id2) == (m.in_conn_wait(id2)
        || exists|k: int|
        0 <= k < j + 1 && (#[trigger] ps[k]).0 == id2 && pair_dials(m, rules, id2, ps[k].1)) by {
        assert(pre.in_conn_wait(id2) == (m.in_conn_wait(id2) || exists|k: int|
            0 <= k < j && (#[trigger] ps[k]).0 == id2 && pair_dials(m, rules, id2, ps[k].1)));
        if allowed && !connected && d is Outbound {
            if id2 == id {
                assert(cur.in_conn_wait(id));
                assert(pair_dials(m, rules, id, ps[j].1));
            } else {
                assert(cur.in_conn_wait(id2) == pre.in_conn_wait(id2));
                if exists|k: int|
                    0 <= k < j + 1 && (#[trigger] ps[k]).0 == id2 && pair_dials(
                        m,
                        rules,
                        id2,
                        ps[k].1,
                    ) {
                    let k = choose|k: int|
                        0 <= k < j + 1 && (#[trigger] ps[k]).0 == id2 && pair_dials(
                            m,
                            rules,
                            id2,
                            ps[k].1,
                        );
                    assert(k < j);
                }
            }
        } else {
            assert(cur.awaiting_connection@ == pre.awaiting_connection@);
            assert(cur.in_conn_wait(id2) == pre.in_conn_wait(id2));
            if exists|k: int|
                0 <= k < j + 1 && (#[trigger] ps[k]).0 == id2 && pair_dials(
                    m,
                    rules,
                    id2,
                    ps[k].1,
                ) {
                let k = choose|k: int|
                    0 <= k < j + 1 && (#[trigger] ps[k]).0 == id2 && pair_dials(
                        m,
                        rules,
                        id2,
                        ps[k].1,
                    );
                if k == j {
                    assert(!pair_dials(m, rules, id, d));
                    assert(false);
                }
            }
        }
    }
}


/// The bookkeeping discipline of the waiting sets (stated over the books
/// alone): a request id is parked in a direction's store exactly when it
/// waits in one of that direction's waiting sets, and it waits in at most
/// one of them.
pub open spec fn consistent_books(
    in_store: Seq<StoredRequest>,
    out_store: Seq<StoredRequest>,
    cw: Seq<AwaitingConnectionEntry>,
    re: Seq<PeerRuleEntry>,
    ap: Seq<(u64, u64)>,
) -> bool {
    &&& forall|id: RequestId| #[trigger]
        store_has(in_store, id) == (re_waits(re, id, RequestDirection::Inbound) || ap.contains(
            (id.id, spec_direction_code(RequestDirection::Inbound)),
        ))
    &&& forall|id: RequestId| #[trigger]
        store_has(out_store, id) == (cw_waits(cw, id) || re_waits(
            re,
            id,
            RequestDirection::Outbound,
        ) || ap.contains((id.id, spec_direction_code(RequestDirection::Outbound))))
    &&& forall|id: RequestId|
        !(#[trigger] cw_waits(cw, id) && re_waits(re, id, RequestDirection::Outbound))
    &&& forall|id: RequestId|
        !(#[trigger] cw_waits(cw, id) && ap.contains(
            (id.id, spec_direction_code(RequestDirection::Outbound)),
        ))
    &&& forall|id: RequestId|
        !(#[trigger] re_waits(re, id, RequestDirection::Outbound) && ap.contains(
            (id.id, spec_direction_code(RequestDirection::Outbound)),
        ))
    &&& forall|id: RequestId|
        !(#[trigger] re_waits(re, id, RequestDirection::Inbound) && ap.contains(
            (id.id, spec_direction_code(RequestDirection::Inbound)),
        ))
}

impl RequestManager {
    /// The bookkeeping discipline, over this manager's books: every parked
    /// request waits in exactly one waiting set of its direction.
    pub open spec fn consistent(self) -> bool {
        consistent_books(
            self.inbound_request_store@,
            self.outbound_request_store@,
            self.awaiting_connection@,
            self.awaiting_peer_rule@,
            self.approvals(),
        )
    }
}

/// The permission failure for a rejected request, by direction.
pub open spec fn not_permitted_action(
    peer: PeerId,
    request_id: RequestId,
    direction: RequestDirection,
) -> BehaviourAction {
    match direction {
        RequestDirection::Outbound => BehaviourAction::OutboundFailure {
            peer,
            request_id,
            reason: OutboundFailure::NotPermitted,
        },
        RequestDirection::Inbound => BehaviourAction::InboundFailure {
            peer,
            request_id,
            reason: InboundFailure::NotPermitted,
        },
    }
}

/// Find the awaiting-rule entry of `peer`.
fn find_rule_entry(rows: &Vec<PeerRuleEntry>, peer: PeerId) -> (r: Option<usize>)
    ensures
        match r {
            Some(e) => e < rows@.len() && rows@[e as int].peer == peer,
            None => forall|k: int| 0 <= k < rows@.len() ==> (#[trigger] rows@[k]).peer != peer,
        },
{
    let mut i: usize = 0;
    while i < rows.len()
        invariant
            i <= rows@.len(),
            forall|k: int| 0 <= k < i ==> (#[trigger] rows@[k]).peer != peer,
        decreases rows@.len() - i,
    {
        if rows[i].peer == peer {
            return Some(i);
        }
        i = i + 1;
    }
    None
}

/// After changing (or adding) the rule entry at one index without touching
/// the peers of other rows, every other peer's lists and pending flags are
/// as before, and waiting ids outside the changed row are as before.
proof fn rule_frames_after_change(
    pre: RequestManager,
    post: RequestManager,
    e: int,
    peer: PeerId,
)
    requires
        pre.wf(),
        0 <= e < post.awaiting_peer_rule@.len(),
        post.awaiting_peer_rule@.len() == pre.awaiting_peer_rule@.len() || (
        post.awaiting_peer_rule@.len() == pre.awaiting_peer_rule@.len() + 1 && e
            == pre.awaiting_peer_rule@.len()),
        forall|k: int|
            0 <= k < post.awaiting_peer_rule@.len() && k != e
                ==> post.awaiting_peer_rule@[k] == pre.awaiting_peer_rule@[k],
        post.awaiting_peer_rule@[e].peer == peer,
        e < pre.awaiting_peer_rule@.len() ==> pre.awaiting_peer_rule@[e].peer == peer,
        forall|k: int|
            0 <= k < pre.awaiting_peer_rule@.len() && k != e
                ==> (#[trigger] pre.awaiting_peer_rule@[k]).peer != peer,
    ensures
        forall|p: PeerId, d: RequestDirection|
            p != peer ==> post.rule_list(p, d) == pre.rule_list(p, d) && post.rule_pending(p, d)
                == pre.rule_pending(p, d),
        forall|p: PeerId| p != peer ==> post.has_rule_entry(p) == pre.has_rule_entry(p),
        forall|id: RequestId, d: RequestDirection|
            !(#[trigger] post.awaiting_peer_rule@[e].list(d).contains(id)) && !pre.rule_list(
                peer,
                d,
            ).contains(id) ==> post.in_rule_wait(id, d) == pre.in_rule_wait(id, d),
        forall|d: RequestDirection|
            post.rule_list(peer, d) == post.awaiting_peer_rule@[e].list(d),
        post.has_rule_entry(peer),
{
    assert(post.has_rule_entry(peer));
    assert(post.rule_entry_at(peer) == e);
    if e < pre.awaiting_peer_rule@.len() {
        assert(pre.has_rule_entry(peer));
        assert(pre.rule_entry_at(peer) == e);
    }
    assert forall|p: PeerId| p != peer implies post.has_rule_entry(p) == pre.has_rule_entry(
        p,
    ) by {
        if pre.has_rule_entry(p) {
            let k = pre.rule_entry_at(p);
            assert(pre.awaiting_peer_rule@[k].peer == p);
            assert(k != e);
            assert(post.awaiting_peer_rule@[k].peer == p);
        }
        if post.has_rule_entry(p) {
            let k = post.rule_entry_at(p);
            assert(post.awaiting_peer_rule@[k].peer == p);
            assert(k != e);
            assert(pre.awaiting_peer_rule@[k].peer == p);
        }
    }
    assert forall|p: PeerId, d: RequestDirection| p != peer implies post.rule_list(p, d)
        == pre.rule_list(p, d) && post.rule_pending(p, d) == pre.rule_pending(p, d) by {
        if pre.has_rule_entry(p) {
            let k = pre.rule_entry_at(p);
            assert(pre.awaiting_peer_rule@[k].peer == p);
            assert(k != e);
            assert(post.awaiting_peer_rule@[k].peer == p);
            assert(post.rule_entry_at(p) == k);
        }
    }
    assert forall|id: RequestId, d: RequestDirection|
        !(#[trigger] post.awaiting_peer_rule@[e].list(d).contains(id)) && !pre.rule_list(
            peer,
            d,
        ).contains(id) implies post.in_rule_wait(id, d) == pre.in_rule_wait(id, d) by {
        if pre.in_rule_wait(id, d) {
            let k = choose|k: int|
                0 <= k < pre.awaiting_peer_rule@.len() && (#[trigger] pre.awaiting_peer_rule@[k]).list(
                    d,
                ).contains(id);
            if k == e {
                assert(pre.rule_list(peer, d).contains(id));
            } else {
                assert(post.awaiting_peer_rule@[k].list(d).contains(id));
            }
        }
        if post.in_rule_wait(id, d) {
            let k = choose|k: int|
                0 <= k < post.awaiting_peer_rule@.len()
                    && (#[trigger] post.awaiting_peer_rule@[k]).list(d).contains(id);
            if k != e {
                assert(pre.awaiting_peer_rule@[k].list(d).contains(id));
            }
        }
    }
}

/// An id awaits a rule in a direction exactly when some peer's waiting list
/// for that direction holds it.
proof fn lemma_in_rule_wait_iff(m: RequestManager, id: RequestId, d: RequestDirection)
    requires
        forall|e1: int, e2: int|
            0 <= e1 < m.awaiting_peer_rule@.len() && 0 <= e2 < m.awaiting_peer_rule@.len() && e1
                != e2 ==> (#[trigger] m.awaiting_peer_rule@[e1]).peer
                != (#[trigger] m.awaiting_peer_rule@[e2]).peer,
    ensures
        m.in_rule_wait(id, d) <==> exists|p: PeerId| #[trigger] m.rule_list(p, d).contains(id),
{
    if m.in_rule_wait(id, d) {
        let k = choose|k: int|
            0 <= k < m.awaiting_peer_rule@.len() && (#[trigger] m.awaiting_peer_rule@[k]).list(
                d,
            ).contains(id);
        let p = m.awaiting_peer_rule@[k].peer;
        assert(m.has_rule_entry(p));
        assert(m.rule_entry_at(p) == k);
        assert(m.rule_list(p, d).contains(id));
    }
    if exists|p: PeerId| #[trigger] m.rule_list(p, d).contains(id) {
        let p = choose|p: PeerId| #[trigger] m.rule_list(p, d).contains(id);
        assert(m.has_rule_entry(p));
        let k = m.rule_entry_at(p);
        assert(m.awaiting_peer_rule@[k].list(d).contains(id));
    }
}


/// Two managers with the same books (stores, connections, waiting tables)
/// agree on every derived view of them, whatever their approval lists and
/// action queues hold.
proof fn lemma_same_books(a: RequestManager, b: RequestManager)
    requires
        a.inbound_request_store@ == b.inbound_request_store@,
        a.outbound_request_store@ == b.outbound_request_store@,
        a.connections == b.connections,
        a.awaiting_connection@ == b.awaiting_connection@,
        a.awaiting_peer_rule@ == b.awaiting_peer_rule@,
        forall|i: int, j: int|
            0 <= i < a.inbound_request_store@.len() && 0 <= j < a.inbound_request_store@.len()
                && i != j ==> (#[trigger] a.inbound_request_store@[i]).request_id
                != (#[trigger] a.inbound_request_store@[j]).request_id,
        forall|i: int, j: int|
            0 <= i < a.outbound_request_store@.len() && 0 <= j < a.outbound_request_store@.len()
                && i != j ==> (#[trigger] a.outbound_request_store@[i]).request_id
                != (#[trigger] a.outbound_request_store@[j]).request_id,
        forall|e1: int, e2: int|
            0 <= e1 < a.awaiting_connection@.len() && 0 <= e2 < a.awaiting_connection@.len() && e1
                != e2 ==> (#[trigger] a.awaiting_connection@[e1]).peer
                != (#[trigger] a.awaiting_connection@[e2]).peer,
        forall|e1: int, e2: int|
            0 <= e1 < a.awaiting_peer_rule@.len() && 0 <= e2 < a.awaiting_peer_rule@.len() && e1
                != e2 ==> (#[trigger] a.awaiting_peer_rule@[e1]).peer
                != (#[trigger] a.awaiting_peer_rule@[e2]).peer,
    ensures
        forall|d: RequestDirection| #[trigger] a.store_of(d) == b.store_of(d),
        forall|d: RequestDirection, id: RequestId| #[trigger]
            a.in_store(d, id) == b.in_store(d, id),
        forall|d: RequestDirection, id: RequestId|
            a.in_store(d, id) ==> #[trigger] a.store_index(d, id) == b.store_index(d, id),
        forall|p: PeerId| #[trigger] a.has_conn_wait_entry(p) == b.has_conn_wait_entry(p),
        forall|p: PeerId| #[trigger] a.conn_wait_list(p) == b.conn_wait_list(p),
        forall|id: RequestId| #[trigger] a.in_conn_wait(id) == b.in_conn_wait(id),
        forall|p: PeerId| #[trigger] a.has_rule_entry(p) == b.has_rule_entry(p),
        forall|p: PeerId, d: RequestDirection| #[trigger] a.rule_list(p, d) == b.rule_list(p, d),
        forall|p: PeerId, d: RequestDirection| #[trigger]
            a.rule_pending(p, d) == b.rule_pending(p, d),
        forall|id: RequestId, d: RequestDirection| #[trigger]
            a.in_rule_wait(id, d) == b.in_rule_wait(id, d),
{
    assert forall|d: RequestDirection| #[trigger] a.store_of(d) == b.store_of(d) by {
        if d is Inbound {
        } else {
        }
    }
    assert forall|d: RequestDirection, id: RequestId| #[trigger] a.in_store(d, id) == b.in_store(
        d,
        id,
    ) by {
        assert(a.store_of(d) == b.store_of(d));
    }
    assert forall|d: RequestDirection, id: RequestId|
        a.in_store(d, id) implies #[trigger] a.store_index(d, id) == b.store_index(d, id) by {
        assert(a.store_of(d) == b.store_of(d));
        let wa = a.store_index(d, id);
        let wb = b.store_index(d, id);
        assert(a.store_of(d)[wa].request_id == id);
        assert(b.store_of(d)[wb].request_id == id);
        if d is Inbound {
            assert(a.inbound_request_store@[wa].request_id == id);
            assert(a.inbound_request_store@[wb].request_id == id);
        } else {
            assert(a.outbound_request_store@[wa].request_id == id);
            assert(a.outbound_request_store@[wb].request_id == id);
        }
    }
    assert forall|p: PeerId| #[trigger] a.has_conn_wait_entry(p) == b.has_conn_wait_entry(p) by {
        if a.has_conn_wait_entry(p) {
            let e = a.conn_wait_at(p);
            assert(b.awaiting_connection@[e].peer == p);
        }
        if b.has_conn_wait_entry(p) {
            let e = b.conn_wait_at(p);
            assert(a.awaiting_connection@[e].peer == p);
        }
    }
    assert forall|p: PeerId| #[trigger] a.conn_wait_list(p) == b.conn_wait_list(p) by {
        if a.has_conn_wait_entry(p) {
            let ea = a.conn_wait_at(p);
            let eb = b.conn_wait_at(p);
            assert(a.awaiting_connection@[ea].peer == p);
            assert(b.awaiting_connection@[eb].peer == p);
            assert(a.awaiting_connection@[eb].peer == p);
            assert(ea == eb);
        }
    }
    assert forall|id: RequestId| #[trigger] a.in_conn_wait(id) == b.in_conn_wait(id) by {
        if a.in_conn_wait(id) {
            let e = choose|e: int|
                0 <= e < a.awaiting_connection@.len()
                    && (#[trigger] a.awaiting_connection@[e]).requests@.contains(id);
            assert(b.awaiting_connection@[e].requests@.contains(id));
        }
        if b.in_conn_wait(id) {
            let e = choose|e: int|
                0 <= e < b.awaiting_connection@.len()
                    && (#[trigger] b.awaiting_connection@[e]).requests@.contains(id);
            assert(a.awaiting_connection@[e].requests@.contains(id));
        }
    }
    assert forall|p: PeerId| #[trigger] a.has_rule_entry(p) == b.has_rule_entry(p) by {
        if a.has_rule_entry(p) {
            let e = a.rule_entry_at(p);
            assert(b.awaiting_peer_rule@[e].peer == p);
        }
        if b.has_rule_entry(p) {
            let e = b.rule_entry_at(p);
            assert(a.awaiting_peer_rule@[e].peer == p);
        }
    }
    assert forall|p: PeerId, d: RequestDirection| #[trigger] a.rule_list(p, d) == b.rule_list(
        p,
        d,
    ) by {
        if a.has_rule_entry(p) {
            let ea = a.rule_entry_at(p);
            let eb = b.rule_entry_at(p);
            assert(a.awaiting_peer_rule@[ea].peer == p);
            assert(b.awaiting_peer_rule@[eb].peer == p);
            assert(a.awaiting_peer_rule@[eb].peer == p);
            assert(ea == eb);
        }
    }
    assert forall|p: PeerId, d: RequestDirection| #[trigger] a.rule_pending(p, d)
        == b.rule_pending(p, d) by {
        if a.has_rule_entry(p) {
            let ea = a.rule_entry_at(p);
            let eb = b.rule_entry_at(p);
            assert(a.awaiting_peer_rule@[ea].peer == p);
            assert(b.awaiting_peer_rule@[eb].peer == p);
            assert(a.awaiting_peer_rule@[eb].peer == p);
            assert(ea == eb);
        }
    }
    assert forall|id: RequestId, d: RequestDirection| #[trigger] a.in_rule_wait(id, d)
        == b.in_rule_wait(id, d) by {
        if a.in_rule_wait(id, d) {
            let e = choose|e: int|
                0 <= e < a.awaiting_peer_rule@.len() && (#[trigger] a.awaiting_peer_rule@[e]).list(
                    d,
                ).contains(id);
            assert(b.awaiting_peer_rule@[e].list(d).contains(id));
        }
        if b.in_rule_wait(id, d) {
            let e = choose|e: int|
                0 <= e < b.awaiting_peer_rule@.len() && (#[trigger] b.awaiting_peer_rule@[e]).list(
                    d,
                ).contains(id);
            assert(a.awaiting_peer_rule@[e].list(d).contains(id));
        }
    }
}

/// The direction a request's counterpart store belongs to.
pub open spec fn opposite(direction: RequestDirection) -> RequestDirection {
    match direction {
        RequestDirection::Inbound => RequestDirection::Outbound,
        RequestDirection::Outbound => RequestDirection::Inbound,
    }
}

/// The ready action for an attached request: inbound requests go to the
/// application, outbound ones to the connection's handler.
pub open spec fn ready_action(
    peer: PeerId,
    request_id: RequestId,
    connection: ConnectionId,
    request: RequestMessage,
    direction: RequestDirection,
) -> BehaviourAction {
    match direction {
        RequestDirection::Inbound => BehaviourAction::InboundReady { request_id, peer, request },
        RequestDirection::Outbound => BehaviourAction::OutboundReady {
            request_id,
            peer,
            connection,
            request,
        },
    }
}

/// Find the awaiting-connection entry of `peer`.
fn find_conn_wait(rows: &Vec<AwaitingConnectionEntry>, peer: PeerId) -> (r: Option<usize>)
    ensures
        match r {
            Some(e) => e < rows@.len() && rows@[e as int].peer == peer && forall|k: int|
                0 <= k < e ==> (#[trigger] rows@[k]).peer != peer,
            None => forall|k: int| 0 <= k < rows@.len() ==> (#[trigger] rows@[k]).peer != peer,
        },
{
    let mut i: usize = 0;
    while i < rows.len()
        invariant
            i <= rows@.len(),
            forall|k: int| 0 <= k < i ==> (#[trigger] rows@[k]).peer != peer,
        decreases rows@.len() - i,
    {
        if rows[i].peer == peer {
            return Some(i);
        }
        i = i + 1;
    }
    None
}

/// Take the request with `request_id` out of `store`, if it is there.
fn take_from_store(store: &mut Vec<StoredRequest>, request_id: RequestId) -> (r: Option<
    (PeerId, RequestMessage),
>)
    requires
        forall|i: int, j: int|
            0 <= i < old(store)@.len() && 0 <= j < old(store)@.len() && i != j
                ==> (#[trigger] old(store)@[i]).request_id != (#[trigger] old(store)@[j]).request_id,
    ensures
        match r {
            None => final(store)@ == old(store)@ && forall|i: int|
                0 <= i < old(store)@.len() ==> (#[trigger] old(store)@[i]).request_id
                    != request_id,
            Some(pr) => exists|i: int|
                {
                    &&& 0 <= i < old(store)@.len()
                    &&& (#[trigger] old(store)@[i]).request_id == request_id
                    &&& pr.0 == old(store)@[i].peer
                    &&& pr.1 == old(store)@[i].request
                    &&& final(store)@ == old(store)@.remove(i)
                },
        },
{
    let mut i: usize = 0;
    while i < store.len()
        invariant
            i <= store@.len(),
            store@ == old(store)@,
            forall|k: int| 0 <= k < i ==> (#[trigger] store@[k]).request_id != request_id,
        decreases store@.len() - i,
    {
        if store[i].request_id == request_id {
            let entry = store.remove(i);
            return Some((entry.peer, entry.request));
        }
        i = i + 1;
    }
    None
}

/// The support-change actions for the given connections, in order.
pub open spec fn support_actions(
    peer: PeerId,
    conns: Seq<ConnectionId>,
    support: ProtocolSupport,
) -> Seq<BehaviourAction>
    decreases conns.len(),
{
    if conns.len() == 0 {
        Seq::empty()
    } else {
        support_actions(peer, conns.drop_last(), support).push(
            BehaviourAction::SetProtocolSupport { peer, connection: conns.last(), support },
        )
    }
}

/// Relies on std::collections::VecDeque::capacity: how many elements fit
/// without reallocation; the allocator decides it, so nothing is promised.
#[verifier::external_body]
fn queue_capacity(q: &VecDeque<BehaviourAction>) -> usize {
    q.capacity()
}

/// Relies on std::collections::VecDeque::shrink_to_fit: gives spare
/// capacity back and keeps the elements as they are.
#[verifier::external_body]
fn shrink_queue(q: &mut VecDeque<BehaviourAction>)
    ensures
        final(q)@ == old(q)@,
{
    q.shrink_to_fit()
}

} // verus!
