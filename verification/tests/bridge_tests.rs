use host_exposer::bridge::{
    addresses_or_placeholder, classify_reply, gather_reports, request_addresses,
};
use host_exposer::codec::encode_message;
use host_exposer::error::CoreError;
use host_exposer::message::{IpAddresses, MessageKind, MessagePack};
use host_exposer::registry::{ConnectionHandle, Registry};
use tokio::sync::mpsc::unbounded_channel;

fn one_addr(name: &str, v4: &str) -> IpAddresses {
    IpAddresses { name: name.to_string(), v4: Some(v4.to_string()), v6: None }
}

#[test]
fn classify_no_reply_as_connection_lost() {
    assert!(matches!(classify_reply(None), Err(CoreError::ConnectionLost)));
}

#[test]
fn classify_a_response_as_success() {
    let text = encode_message(&MessagePack::AddrResponse {
        adapter_addresses: vec![one_addr("eth0", "10.0.0.1")],
    });
    let got = classify_reply(Some(text)).unwrap();
    assert_eq!(got.len(), 1);
    assert_eq!(got[0].name, "eth0");
}

#[test]
fn classify_other_variants_as_unexpected_reply() {
    let text = encode_message(&MessagePack::Error { message: "busy".to_string() });
    match classify_reply(Some(text)) {
        Err(CoreError::UnexpectedReply(kind)) => assert_eq!(kind, MessageKind::Error),
        _ => panic!("expected an unexpected-reply failure"),
    }
    let text = encode_message(&MessagePack::Acknowledge);
    match classify_reply(Some(text)) {
        Err(CoreError::UnexpectedReply(kind)) => assert_eq!(kind, MessageKind::Acknowledge),
        _ => panic!("expected an unexpected-reply failure"),
    }
}

#[test]
fn classify_garbage_as_malformed() {
    match classify_reply(Some("garbage".to_string())) {
        Err(CoreError::MalformedMessage(t)) => assert_eq!(t, "garbage"),
        _ => panic!("expected a malformed-message failure"),
    }
}

#[test]
fn request_on_a_terminated_pump_fails_fast_with_connection_lost() {
    // Both pipe peers are gone: the pump of this handle has terminated.
    // The call must return, not hang.
    let (tx, out_rx) = unbounded_channel::<String>();
    let (in_tx, rx) = unbounded_channel::<String>();
    drop(out_rx);
    drop(in_tx);
    let mut handle = ConnectionHandle::new(1, tx, rx);
    let err = request_addresses(&mut handle).expect_err("must fail");
    assert!(matches!(err, CoreError::ConnectionLost));
}

#[test]
fn request_with_queued_reply_succeeds_without_external_help() {
    let (tx, mut out_rx) = unbounded_channel::<String>();
    let (in_tx, rx) = unbounded_channel::<String>();
    let mut handle = ConnectionHandle::new(2, tx, rx);
    in_tx
        .send(encode_message(&MessagePack::AddrResponse {
            adapter_addresses: vec![one_addr("lo", "127.0.0.1")],
        }))
        .unwrap();
    let got = request_addresses(&mut handle).unwrap();
    assert_eq!(got.len(), 1);
    assert_eq!(got[0].v4.as_deref(), Some("127.0.0.1"));
    assert!(out_rx.try_recv().is_ok());
}

#[test]
fn placeholder_substitutes_a_named_empty_record() {
    let out = addresses_or_placeholder(Err(CoreError::ConnectionLost));
    assert_eq!(out.len(), 1);
    assert_eq!(out[0].name, "connection lost");
    assert_eq!(out[0].v4, None);
    assert_eq!(out[0].v6, None);

    let kept = addresses_or_placeholder(Ok(vec![one_addr("eth0", "10.0.0.9")]));
    assert_eq!(kept.len(), 1);
    assert_eq!(kept[0].name, "eth0");
}

#[test]
fn describe_names_each_failure() {
    assert_eq!(CoreError::ConnectionLost.describe(), "connection lost");
    assert_eq!(CoreError::NotFound.describe(), "not found");
    assert_eq!(CoreError::UnexpectedReply(MessageKind::Error).describe(), "unexpected reply");
    assert_eq!(
        CoreError::MalformedMessage("x".to_string()).describe(),
        "malformed message: x"
    );
    assert_eq!(
        CoreError::ProtocolViolation("invalid credential".to_string()).describe(),
        "protocol violation: invalid credential"
    );
}

#[test]
fn gather_substitutes_per_agent_failures_and_drops_lost_connections() {
    let mut registry = Registry::new();

    // Agent 1 answers; its reply is queued before the exchange starts.
    let (tx1, _out1) = unbounded_channel::<String>();
    let (in1, rx1) = unbounded_channel::<String>();
    in1.send(encode_message(&MessagePack::AddrResponse {
        adapter_addresses: vec![one_addr("eth0", "10.0.0.1")],
    }))
    .unwrap();
    registry.insert(ConnectionHandle::new(1, tx1, rx1));

    // Agent 2's pump is gone.
    let (tx2, _out2) = unbounded_channel::<String>();
    let (in2, rx2) = unbounded_channel::<String>();
    drop(in2);
    registry.insert(ConnectionHandle::new(2, tx2, rx2));

    let reports = gather_reports(&mut registry);
    assert_eq!(reports.len(), 2);
    let by_id = |id: u128| reports.iter().find(|r| r.id == id).unwrap();
    assert_eq!(by_id(1).adapter_addresses[0].name, "eth0");
    assert_eq!(by_id(2).adapter_addresses.len(), 1);
    assert_eq!(by_id(2).adapter_addresses[0].name, "connection lost");

    // The answering agent stays admitted; the lost one is gone.
    let ids = registry.snapshot_identities();
    assert!(ids.contains(&1));
    assert!(!ids.contains(&2));
    drop(in1);
}

#[test]
fn connection_stays_usable_after_an_unexpected_reply() {
    let (tx, _out_rx) = unbounded_channel::<String>();
    let (in_tx, rx) = unbounded_channel::<String>();
    let mut handle = ConnectionHandle::new(3, tx, rx);
    in_tx.send(encode_message(&MessagePack::Acknowledge)).unwrap();
    match request_addresses(&mut handle) {
        Err(CoreError::UnexpectedReply(kind)) => assert_eq!(kind, MessageKind::Acknowledge),
        _ => panic!("expected an unexpected-reply failure"),
    }
    in_tx
        .send(encode_message(&MessagePack::AddrResponse {
            adapter_addresses: vec![one_addr("eth1", "10.1.0.1")],
        }))
        .unwrap();
    let got = request_addresses(&mut handle).unwrap();
    assert_eq!(got[0].name, "eth1");
}
