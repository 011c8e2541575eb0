use host_exposer::codec::{decode_message, encode_message};
use host_exposer::error::CoreError;
use host_exposer::message::{IpAddresses, MessagePack};

fn addr(name: &str, v4: Option<&str>, v6: Option<&str>) -> IpAddresses {
    IpAddresses {
        name: name.to_string(),
        v4: v4.map(|s| s.to_string()),
        v6: v6.map(|s| s.to_string()),
    }
}

fn assert_addr_eq(a: &IpAddresses, name: &str, v4: Option<&str>, v6: Option<&str>) {
    assert_eq!(a.name, name);
    assert_eq!(a.v4.as_deref(), v4);
    assert_eq!(a.v6.as_deref(), v6);
}

fn round_trip(m: &MessagePack) -> MessagePack {
    let text = encode_message(m);
    decode_message(&text).expect("canonical text must decode")
}

#[test]
fn exact_wire_text_of_unit_variants() {
    assert_eq!(encode_message(&MessagePack::Acknowledge), "\"Acknowledge\"");
    assert_eq!(encode_message(&MessagePack::AddrRequest), "\"AddrRequest\"");
}

#[test]
fn exact_wire_text_of_establish() {
    let m = MessagePack::Establish {
        id: 0x550e8400e29b41d4a716446655440000u128,
        password: "pw".to_string(),
    };
    assert_eq!(
        encode_message(&m),
        "{\"Establish\":{\"id\":\"550e8400-e29b-41d4-a716-446655440000\",\"password\":\"pw\"}}"
    );
}

#[test]
fn exact_wire_text_of_response() {
    let m = MessagePack::AddrResponse {
        adapter_addresses: vec![addr("eth0", Some("10.0.0.1"), None)],
    };
    assert_eq!(
        encode_message(&m),
        "{\"AddrResponse\":{\"adapter_addresses\":[{\"name\":\"eth0\",\"v4\":\"10.0.0.1\",\"v6\":null}]}}"
    );
}

#[test]
fn round_trip_acknowledge_and_request() {
    assert!(matches!(round_trip(&MessagePack::Acknowledge), MessagePack::Acknowledge));
    assert!(matches!(round_trip(&MessagePack::AddrRequest), MessagePack::AddrRequest));
}

#[test]
fn round_trip_establish_with_empty_password() {
    let m = MessagePack::Establish { id: 0, password: String::new() };
    match round_trip(&m) {
        MessagePack::Establish { id, password } => {
            assert_eq!(id, 0);
            assert_eq!(password, "");
        }
        other => panic!("wrong variant: {:?}", kind_name(&other)),
    }
}

#[test]
fn round_trip_establish_with_extreme_ids() {
    for id in [0u128, 1, u128::MAX, 0xdeadbeefdeadbeefdeadbeefdeadbeefu128] {
        match round_trip(&MessagePack::Establish { id, password: "s".to_string() }) {
            MessagePack::Establish { id: rid, .. } => assert_eq!(rid, id),
            _ => panic!("wrong variant"),
        }
    }
}

#[test]
fn round_trip_error_with_non_ascii_and_escapes() {
    let text = "héllo — 世界 \"quoted\" back\\slash and\nnewline\ttab";
    let m = MessagePack::Error { message: text.to_string() };
    match round_trip(&m) {
        MessagePack::Error { message } => assert_eq!(message, text),
        _ => panic!("wrong variant"),
    }
}

#[test]
fn round_trip_empty_error_message() {
    match round_trip(&MessagePack::Error { message: String::new() }) {
        MessagePack::Error { message } => assert_eq!(message, ""),
        _ => panic!("wrong variant"),
    }
}

#[test]
fn round_trip_empty_address_list() {
    match round_trip(&MessagePack::AddrResponse { adapter_addresses: vec![] }) {
        MessagePack::AddrResponse { adapter_addresses } => assert!(adapter_addresses.is_empty()),
        _ => panic!("wrong variant"),
    }
}

#[test]
fn round_trip_response_with_both_families_and_non_ascii_name() {
    let m = MessagePack::AddrResponse {
        adapter_addresses: vec![
            addr("eth0", Some("192.168.1.5"), Some("fe80::1")),
            addr("wlán0", None, Some("::1")),
        ],
    };
    match round_trip(&m) {
        MessagePack::AddrResponse { adapter_addresses } => {
            assert_eq!(adapter_addresses.len(), 2);
            assert_addr_eq(&adapter_addresses[0], "eth0", Some("192.168.1.5"), Some("fe80::1"));
            assert_addr_eq(&adapter_addresses[1], "wlán0", None, Some("::1"));
        }
        _ => panic!("wrong variant"),
    }
}

#[test]
fn duplicate_interface_names_collapse_to_last_value_per_family() {
    let text = "{\"AddrResponse\":{\"adapter_addresses\":[\
        {\"name\":\"eth0\",\"v4\":\"10.0.0.1\",\"v6\":null},\
        {\"name\":\"eth0\",\"v4\":\"10.0.0.2\",\"v6\":null}]}}";
    match decode_message(text).unwrap() {
        MessagePack::AddrResponse { adapter_addresses } => {
            assert_eq!(adapter_addresses.len(), 1);
            assert_addr_eq(&adapter_addresses[0], "eth0", Some("10.0.0.2"), None);
        }
        _ => panic!("wrong variant"),
    }
}

#[test]
fn duplicate_names_keep_the_other_family() {
    let text = "{\"AddrResponse\":{\"adapter_addresses\":[\
        {\"name\":\"eth0\",\"v4\":\"10.0.0.1\",\"v6\":\"fe80::1\"},\
        {\"name\":\"eth0\",\"v4\":\"10.0.0.2\",\"v6\":null}]}}";
    match decode_message(text).unwrap() {
        MessagePack::AddrResponse { adapter_addresses } => {
            assert_eq!(adapter_addresses.len(), 1);
            assert_addr_eq(&adapter_addresses[0], "eth0", Some("10.0.0.2"), Some("fe80::1"));
        }
        _ => panic!("wrong variant"),
    }
}

#[test]
fn malformed_text_is_rejected_and_carried_back() {
    for bad in [
        "",
        "garbage",
        "\"Acknowledge",
        "{\"Establish\":{\"id\":\"not-a-uuid-at-all-not-a-uuid-at-a\",\"password\":\"x\"}}",
        "{\"Establish\":{\"id\":\"550e8400-e29b-41d4-a716-44665544000\",\"password\":\"x\"}}",
        "{\"Error\":{\"message\":\"unterminated}}",
        "{\"AddrResponse\":{\"adapter_addresses\":[{\"name\":\"e\",\"v4\":null}]}}",
        "{\"AddrResponse\":{\"adapter_addresses\":[]}} ",
        "{\"Error\":{\"message\":\"bad escape \\x\"}}",
    ] {
        match decode_message(bad) {
            Err(CoreError::MalformedMessage(t)) => assert_eq!(t, bad),
            Err(_) => panic!("wrong error kind for {:?}", bad),
            Ok(_) => panic!("accepted malformed text {:?}", bad),
        }
    }
}

#[test]
fn decoder_accepts_short_escapes() {
    match decode_message("{\"Error\":{\"message\":\"a\\nb\\tc\\rd\\\"e\\\\f\"}}").unwrap() {
        MessagePack::Error { message } => assert_eq!(message, "a\nb\tc\rd\"e\\f"),
        _ => panic!("wrong variant"),
    }
}

fn kind_name(m: &MessagePack) -> &'static str {
    match m {
        MessagePack::Establish { .. } => "Establish",
        MessagePack::Acknowledge => "Acknowledge",
        MessagePack::AddrRequest => "AddrRequest",
        MessagePack::AddrResponse { .. } => "AddrResponse",
        MessagePack::Error { .. } => "Error",
    }
}
