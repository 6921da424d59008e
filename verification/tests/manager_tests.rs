use futures::channel::oneshot;
use stronghold_p2p::firewall::FirewallRules;
use stronghold_p2p::firewall::Rule;
use stronghold_p2p::firewall::RuleDirection;
use stronghold_p2p::firewall::permits;
use stronghold_p2p::message::RequestMessage;
use stronghold_p2p::request_manager::ApprovalStatus;
use stronghold_p2p::request_manager::BehaviourAction;
use stronghold_p2p::request_manager::RequestManager;
use stronghold_p2p::types::ConnectionId;
use stronghold_p2p::types::InboundFailure;
use stronghold_p2p::types::OutboundFailure;
use stronghold_p2p::types::PeerId;
use stronghold_p2p::types::RequestDirection;
use stronghold_p2p::types::RequestId;

fn msg(payload: &[u8]) -> (RequestMessage, oneshot::Receiver<Vec<u8>>) {
    let (tx, rx) = oneshot::channel();
    (
        RequestMessage {
            data: payload.to_vec(),
            permission: 1,
            response_tx: tx,
        },
        rx,
    )
}

fn peer(n: u64) -> PeerId {
    PeerId { id: n }
}

fn conn(n: u64) -> ConnectionId {
    ConnectionId { id: n }
}

fn rid(n: u64) -> RequestId {
    RequestId { id: n }
}

#[test]
fn happy_outbound_attaches_and_completes() {
    let mut mgr = RequestManager::new();
    mgr.on_connection_established(peer(1), conn(10));
    mgr.on_peer_connected(peer(1));
    let (m, _rx) = msg(b"ping");
    mgr.on_new_request(peer(1), rid(1), m, ApprovalStatus::Approved, RequestDirection::Outbound);
    match mgr.take_next_action() {
        Some(BehaviourAction::OutboundReady { request_id, peer: p, connection, request }) => {
            assert_eq!(request_id, rid(1));
            assert_eq!(p, peer(1));
            assert_eq!(connection, conn(10));
            assert_eq!(request.data, b"ping".to_vec());
        }
        _ => panic!("expected an outbound ready action"),
    }
    assert!(mgr.take_next_action().is_none());
    mgr.on_res_for_outbound(peer(1), conn(10), rid(1), Ok(()));
    assert!(mgr.take_next_action().is_none());
    // closing the connection now emits no failure: nothing is in flight
    mgr.on_connection_closed(peer(1), conn(10));
    assert!(mgr.take_next_action().is_none());
}

#[test]
fn outbound_without_connection_requires_dial() {
    let mut mgr = RequestManager::new();
    let (m, _rx) = msg(b"later");
    mgr.on_new_request(peer(2), rid(2), m, ApprovalStatus::Approved, RequestDirection::Outbound);
    match mgr.take_next_action() {
        Some(BehaviourAction::RequireDialAttempt(p)) => assert_eq!(p, peer(2)),
        _ => panic!("expected a dial attempt"),
    }
    assert!(mgr.take_next_action().is_none());
    mgr.on_connection_established(peer(2), conn(20));
    mgr.on_peer_connected(peer(2));
    match mgr.take_next_action() {
        Some(BehaviourAction::OutboundReady { request_id, peer: p, connection, .. }) => {
            assert_eq!(request_id, rid(2));
            assert_eq!(p, peer(2));
            assert_eq!(connection, conn(20));
        }
        _ => panic!("expected the parked request to become ready"),
    }
    assert!(mgr.take_next_action().is_none());
}

#[test]
fn dial_failure_fails_parked_request_and_drops_sink() {
    let mut mgr = RequestManager::new();
    let (m, mut rx) = msg(b"late");
    mgr.on_new_request(peer(3), rid(3), m, ApprovalStatus::Approved, RequestDirection::Outbound);
    match mgr.take_next_action() {
        Some(BehaviourAction::RequireDialAttempt(_)) => {}
        _ => panic!("expected a dial attempt"),
    }
    mgr.on_dial_failure(peer(3));
    match mgr.take_next_action() {
        Some(BehaviourAction::OutboundFailure { peer: p, request_id, reason }) => {
            assert_eq!(p, peer(3));
            assert_eq!(request_id, rid(3));
            assert_eq!(reason, OutboundFailure::DialFailure);
        }
        _ => panic!("expected a dial failure"),
    }
    // the sink was dropped with the parked request
    assert_eq!(rx.try_recv(), Err(oneshot::Canceled));
}

#[test]
fn rule_ask_then_approval_emits_inbound_ready() {
    let mut mgr = RequestManager::new();
    mgr.on_connection_established(peer(4), conn(40));
    let (m, _rx) = msg(b"ask me");
    mgr.on_new_request(peer(4), rid(4), m, ApprovalStatus::MissingRule, RequestDirection::Inbound);
    assert!(mgr.take_next_action().is_none());
    assert_eq!(mgr.pending_rule_requests(peer(4)), Some(RuleDirection::Inbound));
    let rules = FirewallRules { inbound: Some(Rule::Ask), outbound: None };
    let ask = mgr.on_peer_rule(peer(4), rules, RuleDirection::Inbound).unwrap();
    assert_eq!(ask.len(), 1);
    assert_eq!(ask[0].0, rid(4));
    assert_eq!(ask[0].2, RequestDirection::Inbound);
    assert!(mgr.take_next_action().is_none());
    mgr.on_request_approval(rid(4), true);
    match mgr.take_next_action() {
        Some(BehaviourAction::InboundReady { request_id, peer: p, request }) => {
            assert_eq!(request_id, rid(4));
            assert_eq!(p, peer(4));
            assert_eq!(request.data, b"ask me".to_vec());
        }
        _ => panic!("expected an inbound ready action"),
    }
}

#[test]
fn rule_permission_denial_fails_request_and_drops_sink() {
    let mut mgr = RequestManager::new();
    mgr.on_connection_established(peer(5), conn(50));
    let (m, mut rx) = msg(b"blocked");
    mgr.on_new_request(peer(5), rid(5), m, ApprovalStatus::MissingRule, RequestDirection::Inbound);
    // the mask 0 admits no permission value
    assert!(!permits(0, 1));
    let rules = FirewallRules { inbound: Some(Rule::Permission(0)), outbound: None };
    let ask = mgr.on_peer_rule(peer(5), rules, RuleDirection::Inbound).unwrap();
    assert!(ask.is_empty());
    match mgr.take_next_action() {
        Some(BehaviourAction::InboundFailure { peer: p, request_id, reason }) => {
            assert_eq!(p, peer(5));
            assert_eq!(request_id, rid(5));
            assert_eq!(reason, InboundFailure::NotPermitted);
        }
        _ => panic!("expected a not-permitted failure"),
    }
    assert_eq!(rx.try_recv(), Err(oneshot::Canceled));
}

#[test]
fn connection_closed_mid_flight_fails_in_flight_request() {
    let mut mgr = RequestManager::new();
    mgr.on_connection_established(peer(6), conn(60));
    let (m, _rx) = msg(b"out");
    mgr.on_new_request(peer(6), rid(6), m, ApprovalStatus::Approved, RequestDirection::Outbound);
    match mgr.take_next_action() {
        Some(BehaviourAction::OutboundReady { .. }) => {}
        _ => panic!("expected an outbound ready action"),
    }
    mgr.on_connection_closed(peer(6), conn(60));
    match mgr.take_next_action() {
        Some(BehaviourAction::OutboundFailure { request_id, reason, .. }) => {
            assert_eq!(request_id, rid(6));
            assert_eq!(reason, OutboundFailure::ConnectionClosed);
        }
        _ => panic!("expected a connection-closed failure"),
    }
}

#[test]
fn disconnect_equals_closing_each_connection() {
    // run the same history once with on_peer_disconnected and once with
    // on_connection_closed per live connection; the emitted actions agree
    let run = |disconnect: bool| -> Vec<(RequestId, bool)> {
        let mut mgr = RequestManager::new();
        mgr.on_connection_established(peer(7), conn(70));
        mgr.on_connection_established(peer(7), conn(71));
        let (m1, _r1) = msg(b"a");
        let (m2, _r2) = msg(b"b");
        mgr.on_new_request(peer(7), rid(7), m1, ApprovalStatus::Approved, RequestDirection::Outbound);
        mgr.on_new_request(peer(7), rid(8), m2, ApprovalStatus::Approved, RequestDirection::Inbound);
        while let Some(a) = mgr.take_next_action() {
            drop(a);
        }
        if disconnect {
            mgr.on_peer_disconnected(peer(7));
        } else {
            mgr.on_connection_closed(peer(7), conn(70));
            mgr.on_connection_closed(peer(7), conn(71));
        }
        let mut out = Vec::new();
        while let Some(a) = mgr.take_next_action() {
            match a {
                BehaviourAction::OutboundFailure { request_id, reason, .. } => {
                    assert_eq!(reason, OutboundFailure::ConnectionClosed);
                    out.push((request_id, true));
                }
                BehaviourAction::InboundFailure { request_id, reason, .. } => {
                    assert_eq!(reason, InboundFailure::ConnectionClosed);
                    out.push((request_id, false));
                }
                _ => panic!("expected only failures"),
            }
        }
        assert!(mgr.connected_peers().is_empty() == disconnect || !disconnect);
        out
    };
    assert_eq!(run(true), run(false));
}

#[test]
fn add_pending_rule_requests_is_idempotent() {
    let mut mgr = RequestManager::new();
    mgr.add_pending_rule_requests(peer(8), RuleDirection::Both);
    assert_eq!(mgr.pending_rule_requests(peer(8)), Some(RuleDirection::Both));
    mgr.add_pending_rule_requests(peer(8), RuleDirection::Both);
    assert_eq!(mgr.pending_rule_requests(peer(8)), Some(RuleDirection::Both));
    mgr.add_pending_rule_requests(peer(8), RuleDirection::Inbound);
    assert_eq!(mgr.pending_rule_requests(peer(8)), Some(RuleDirection::Both));
    assert!(mgr.take_next_action().is_none());
}

#[test]
fn no_peer_rule_fails_awaiting_requests() {
    let mut mgr = RequestManager::new();
    let (m, mut rx) = msg(b"never");
    mgr.on_new_request(peer(9), rid(9), m, ApprovalStatus::MissingRule, RequestDirection::Outbound);
    mgr.on_no_peer_rule(peer(9), RuleDirection::Both);
    match mgr.take_next_action() {
        Some(BehaviourAction::OutboundFailure { request_id, reason, .. }) => {
            assert_eq!(request_id, rid(9));
            assert_eq!(reason, OutboundFailure::NotPermitted);
        }
        _ => panic!("expected a not-permitted failure"),
    }
    assert_eq!(mgr.pending_rule_requests(peer(9)), None);
    assert_eq!(rx.try_recv(), Err(oneshot::Canceled));
}

#[test]
fn rejected_request_fails_immediately() {
    let mut mgr = RequestManager::new();
    let (m, mut rx) = msg(b"no");
    mgr.on_new_request(peer(10), rid(10), m, ApprovalStatus::Rejected, RequestDirection::Inbound);
    match mgr.take_next_action() {
        Some(BehaviourAction::InboundFailure { request_id, reason, .. }) => {
            assert_eq!(request_id, rid(10));
            assert_eq!(reason, InboundFailure::NotPermitted);
        }
        _ => panic!("expected a not-permitted failure"),
    }
    assert_eq!(rx.try_recv(), Err(oneshot::Canceled));
}

#[test]
fn inbound_without_connection_fails_as_connection_closed() {
    let mut mgr = RequestManager::new();
    let (m, _rx) = msg(b"in");
    mgr.on_new_request(peer(11), rid(11), m, ApprovalStatus::Approved, RequestDirection::Inbound);
    match mgr.take_next_action() {
        Some(BehaviourAction::InboundFailure { reason, .. }) => {
            assert_eq!(reason, InboundFailure::ConnectionClosed);
        }
        _ => panic!("expected a connection-closed failure"),
    }
}

#[test]
fn actions_come_out_in_fifo_order() {
    let mut mgr = RequestManager::new();
    let (m1, _r1) = msg(b"1");
    let (m2, _r2) = msg(b"2");
    let (m3, _r3) = msg(b"3");
    mgr.on_new_request(peer(12), rid(20), m1, ApprovalStatus::Approved, RequestDirection::Outbound);
    mgr.on_new_request(peer(13), rid(21), m2, ApprovalStatus::Rejected, RequestDirection::Outbound);
    mgr.on_new_request(peer(12), rid(22), m3, ApprovalStatus::Approved, RequestDirection::Outbound);
    match mgr.take_next_action() {
        Some(BehaviourAction::RequireDialAttempt(p)) => assert_eq!(p, peer(12)),
        _ => panic!("first action out of order"),
    }
    match mgr.take_next_action() {
        Some(BehaviourAction::OutboundFailure { request_id, .. }) => assert_eq!(request_id, rid(21)),
        _ => panic!("second action out of order"),
    }
    match mgr.take_next_action() {
        Some(BehaviourAction::RequireDialAttempt(p)) => assert_eq!(p, peer(12)),
        _ => panic!("third action out of order"),
    }
    assert!(mgr.take_next_action().is_none());
}

#[test]
fn connected_peers_lists_each_peer_once() {
    let mut mgr = RequestManager::new();
    mgr.on_connection_established(peer(14), conn(80));
    mgr.on_connection_established(peer(14), conn(81));
    mgr.on_connection_established(peer(15), conn(82));
    let peers = mgr.connected_peers();
    assert_eq!(peers.len(), 2);
    assert!(peers.contains(&peer(14)));
    assert!(peers.contains(&peer(15)));
}
