use futures::channel::oneshot;
use stronghold_p2p::codec::CodecError;
use stronghold_p2p::codec::encode_frame;
use stronghold_p2p::message::RequestMessage;
use stronghold_p2p::protocol::CommunicationProtocol;
use stronghold_p2p::protocol::RequestProtocol;
use stronghold_p2p::protocol::ResponseProtocol;

#[test]
fn protocol_name_matches_the_wire_identifier() {
    assert_eq!(CommunicationProtocol.protocol_name(), "/stronghold-communication/1.0.0");
}

#[test]
fn empty_protocol_set_rejects_the_substream() {
    let (tx, _rx) = oneshot::channel();
    let upgrade = ResponseProtocol { protocols: Vec::new(), request_tx: tx };
    assert!(!upgrade.accepts_substream());
    assert!(upgrade.protocol_info().is_empty());
    let (tx2, _rx2) = oneshot::channel();
    let outbound = RequestProtocol {
        protocols: Vec::new(),
        request: RequestMessage { data: b"x".to_vec(), permission: 1, response_tx: tx2 },
    };
    assert!(!outbound.accepts_substream());
}

#[test]
fn advertised_protocol_set_admits_the_substream() {
    let (tx, _rx) = oneshot::channel();
    let upgrade = ResponseProtocol { protocols: vec![CommunicationProtocol], request_tx: tx };
    assert!(upgrade.accepts_substream());
    assert_eq!(upgrade.protocol_info().len(), 1);
}

#[test]
fn deliver_request_hands_the_decoded_payload_to_the_manager() {
    let (tx, mut manager_rx) = oneshot::channel();
    let upgrade = ResponseProtocol { protocols: vec![CommunicationProtocol], request_tx: tx };
    let frame = encode_frame(&b"hello".to_vec());
    let _response_rx = upgrade.deliver_request(&frame, 1024, 3).unwrap();
    let received = manager_rx.try_recv().unwrap().unwrap();
    assert_eq!(received.data, b"hello".to_vec());
    assert_eq!(received.permission, 3);
}

#[test]
fn deliver_request_rejects_a_bad_frame() {
    let (tx, _rx) = oneshot::channel();
    let upgrade = ResponseProtocol { protocols: vec![CommunicationProtocol], request_tx: tx };
    let bad: Vec<u8> = vec![0, 0];
    match upgrade.deliver_request(&bad, 1024, 0) {
        Err(CodecError::InvalidData) => {}
        _ => panic!("expected the frame to be rejected"),
    }
}

#[test]
fn response_sink_answer_reaches_the_handler_side() {
    let (tx, mut manager_rx) = oneshot::channel();
    let upgrade = ResponseProtocol { protocols: vec![CommunicationProtocol], request_tx: tx };
    let frame = encode_frame(&b"question".to_vec());
    let mut response_rx = upgrade.deliver_request(&frame, 1024, 0).unwrap();
    let request = manager_rx.try_recv().unwrap().unwrap();
    request.response_tx.send(b"answer".to_vec()).unwrap();
    assert_eq!(response_rx.try_recv().unwrap(), Some(b"answer".to_vec()));
}

#[test]
fn dropped_response_sink_cancels_the_handler_side() {
    let (tx, mut manager_rx) = oneshot::channel();
    let upgrade = ResponseProtocol { protocols: vec![CommunicationProtocol], request_tx: tx };
    let frame = encode_frame(&b"question".to_vec());
    let mut response_rx = upgrade.deliver_request(&frame, 1024, 0).unwrap();
    let request = manager_rx.try_recv().unwrap().unwrap();
    drop(request.response_tx);
    assert_eq!(response_rx.try_recv(), Err(oneshot::Canceled));
}

#[test]
fn outbound_exchange_frames_request_and_delivers_response() {
    let (tx, mut caller_rx) = oneshot::channel();
    let outbound = RequestProtocol {
        protocols: vec![CommunicationProtocol],
        request: RequestMessage { data: b"req".to_vec(), permission: 1, response_tx: tx },
    };
    let frame = outbound.request_frame().unwrap();
    assert_eq!(frame, encode_frame(&b"req".to_vec()));
    let response_frame = encode_frame(&b"res".to_vec());
    let delivered = outbound.complete(&response_frame, 1024).unwrap();
    assert!(delivered);
    assert_eq!(caller_rx.try_recv().unwrap(), Some(b"res".to_vec()));
}

#[test]
fn outbound_completion_reports_a_dropped_caller() {
    let (tx, caller_rx) = oneshot::channel();
    let outbound = RequestProtocol {
        protocols: vec![CommunicationProtocol],
        request: RequestMessage { data: b"req".to_vec(), permission: 1, response_tx: tx },
    };
    drop(caller_rx);
    let response_frame = encode_frame(&b"res".to_vec());
    let delivered = outbound.complete(&response_frame, 1024).unwrap();
    assert!(!delivered);
}
