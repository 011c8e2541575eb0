use host_exposer::codec::{decode_message, encode_message};
use host_exposer::error::CoreError;
use host_exposer::handshake::{run_handshake, HandshakeOutcome};
use host_exposer::message::MessagePack;
use host_exposer::registry::Registry;
use tokio::sync::mpsc::{unbounded_channel, UnboundedReceiver, UnboundedSender};

type Frame = String;

struct Wires {
    out_rx: UnboundedReceiver<Frame>,
    in_tx: UnboundedSender<Frame>,
}

fn run(
    registry: &mut Registry,
    first: Option<String>,
    expected: &str,
) -> (HandshakeOutcome, Wires) {
    let (tx, out_rx) = unbounded_channel();
    let (in_tx, rx) = unbounded_channel();
    let outcome = run_handshake(registry, first, expected, tx, rx);
    (outcome, Wires { out_rx, in_tx })
}

fn establish_frame(id: u128, password: &str) -> String {
    encode_message(&MessagePack::Establish { id, password: password.to_string() })
}

const U1: u128 = 0x550e8400e29b41d4a716446655440000;

#[test]
fn valid_establish_is_admitted_and_acknowledged() {
    let mut registry = Registry::new();
    let (outcome, mut wires) = run(&mut registry, Some(establish_frame(U1, "secret")), "secret");
    match outcome {
        HandshakeOutcome::Admitted { id } => assert_eq!(id, U1),
        HandshakeOutcome::Rejected { .. } => panic!("valid establish was rejected"),
    }
    assert!(registry.snapshot_identities().contains(&U1));
    let reply = wires.out_rx.try_recv().expect("an acknowledge must be queued");
    assert!(matches!(decode_message(&reply), Ok(MessagePack::Acknowledge)));
    drop(wires.in_tx);
}

#[test]
fn non_establish_first_message_is_rejected_and_never_admitted() {
    let mut registry = Registry::new();
    let (outcome, mut wires) = run(
        &mut registry,
        Some(encode_message(&MessagePack::AddrRequest)),
        "secret",
    );
    match outcome {
        HandshakeOutcome::Rejected { error } => {
            assert!(matches!(error, CoreError::ProtocolViolation(_)));
        }
        HandshakeOutcome::Admitted { .. } => panic!("protocol violation was admitted"),
    }
    assert!(registry.snapshot_identities().is_empty());
    let reply = wires.out_rx.try_recv().expect("an error reply must be attempted");
    assert!(matches!(decode_message(&reply), Ok(MessagePack::Error { .. })));
}

#[test]
fn wrong_credential_is_rejected_with_an_error_reply_and_table_unchanged() {
    let mut registry = Registry::new();
    let (outcome, mut wires) = run(&mut registry, Some(establish_frame(U1, "wrong")), "secret");
    match outcome {
        HandshakeOutcome::Rejected { error } => {
            assert!(matches!(error, CoreError::ProtocolViolation(_)));
        }
        HandshakeOutcome::Admitted { .. } => panic!("wrong credential was admitted"),
    }
    assert!(registry.snapshot_identities().is_empty());
    assert!(!registry.contains(U1));
    let reply = wires.out_rx.try_recv().expect("an error reply must be attempted");
    match decode_message(&reply) {
        Ok(MessagePack::Error { message }) => assert_eq!(message, "Invalid password"),
        _ => panic!("expected an error reply"),
    }
}

#[test]
fn malformed_first_message_is_rejected_with_the_text_kept() {
    let mut registry = Registry::new();
    let (outcome, _wires) = run(&mut registry, Some("not json".to_string()), "secret");
    match outcome {
        HandshakeOutcome::Rejected { error } => match error {
            CoreError::MalformedMessage(t) => assert_eq!(t, "not json"),
            _ => panic!("wrong error kind"),
        },
        HandshakeOutcome::Admitted { .. } => panic!("malformed text was admitted"),
    }
    assert!(registry.snapshot_identities().is_empty());
}

#[test]
fn silent_close_before_speaking_is_a_lost_connection() {
    let mut registry = Registry::new();
    let (outcome, _wires) = run(&mut registry, None, "secret");
    match outcome {
        HandshakeOutcome::Rejected { error } => {
            assert!(matches!(error, CoreError::ConnectionLost));
        }
        HandshakeOutcome::Admitted { .. } => panic!("a silent close was admitted"),
    }
    assert!(registry.snapshot_identities().is_empty());
}

#[test]
fn admitted_agent_answers_one_address_request() {
    // An agent establishes with the right credential, the registry asks for
    // its addresses, and the agent answers with one interface.
    let mut registry = Registry::new();
    let (outcome, mut wires) = run(&mut registry, Some(establish_frame(U1, "secret")), "secret");
    assert!(matches!(outcome, HandshakeOutcome::Admitted { .. }));
    assert!(matches!(
        decode_message(&wires.out_rx.try_recv().unwrap()),
        Ok(MessagePack::Acknowledge)
    ));
    assert!(registry.snapshot_identities().contains(&U1));

    let mut handle = registry.take(U1).expect("admitted identity");
    let reply = MessagePack::AddrResponse {
        adapter_addresses: vec![host_exposer::message::IpAddresses {
            name: "eth0".to_string(),
            v4: Some("192.168.1.5".to_string()),
            v6: None,
        }],
    };
    wires.in_tx.send(encode_message(&reply)).unwrap();
    let got = host_exposer::bridge::request_addresses(&mut handle).expect("reply must classify");
    assert_eq!(got.len(), 1);
    assert_eq!(got[0].name, "eth0");
    assert_eq!(got[0].v4.as_deref(), Some("192.168.1.5"));
    assert_eq!(got[0].v6, None);
    let request = wires.out_rx.try_recv().expect("the request must be queued");
    assert!(matches!(decode_message(&request), Ok(MessagePack::AddrRequest)));
    registry.insert(handle);
    assert!(registry.contains(U1));
}

#[test]
fn transport_closing_before_the_reply_loses_the_connection() {
    // Same setup, but the agent's transport closes before replying: the
    // exchange fails with a lost connection and the identity leaves the
    // table.
    let mut registry = Registry::new();
    let (outcome, wires) = run(&mut registry, Some(establish_frame(U1, "secret")), "secret");
    assert!(matches!(outcome, HandshakeOutcome::Admitted { .. }));

    let mut handle = registry.take(U1).expect("admitted identity");
    drop(wires.in_tx);
    let err = host_exposer::bridge::request_addresses(&mut handle)
        .expect_err("a closed inbound queue must fail");
    assert!(matches!(err, CoreError::ConnectionLost));
    drop(handle);
    registry.remove(U1);
    assert!(!registry.snapshot_identities().contains(&U1));
}

#[test]
fn reconnecting_identity_replaces_the_prior_entry() {
    let mut registry = Registry::new();
    let (first, _wires1) = run(&mut registry, Some(establish_frame(U1, "secret")), "secret");
    assert!(matches!(first, HandshakeOutcome::Admitted { .. }));
    let (second, _wires2) = run(&mut registry, Some(establish_frame(U1, "secret")), "secret");
    assert!(matches!(second, HandshakeOutcome::Admitted { .. }));
    assert_eq!(registry.len(), 1);
    assert!(registry.contains(U1));
}
