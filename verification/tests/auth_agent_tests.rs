use host_exposer::agent::{
    build_ip_addresses_response, format_agent_id, fresh_identity, parse_agent_id,
    supported_ws_scheme,
};
use host_exposer::auth::{authorization_matches, random_password};
use host_exposer::message::{HostAddress, IpAddresses, MessagePack};

const CHARSET: &str =
    "abcdefghijklmnopqrstuvwxyzABCDEFGHIJKLMNPQRSTUVWXYZ123456789!(),._-?@#[]`~=+*^%";

#[test]
fn random_password_has_the_requested_length_and_charset() {
    for length in [0u8, 1, 16, 255] {
        let pwd = random_password(length);
        assert_eq!(pwd.chars().count(), length as usize);
        assert!(pwd.chars().all(|c| CHARSET.contains(c)));
    }
}

#[test]
fn random_passwords_differ_between_draws() {
    // 16 characters over 79 symbols: a collision would be astronomically
    // unlikely; equality would point at a wrapper handing back a constant.
    assert_ne!(random_password(16), random_password(16));
}

#[test]
fn authorization_header_must_match_exactly() {
    assert!(authorization_matches("Basic c2VjcmV0", "c2VjcmV0"));
    assert!(!authorization_matches("Basic c2VjcmV0x", "c2VjcmV0"));
    assert!(!authorization_matches("basic c2VjcmV0", "c2VjcmV0"));
    assert!(!authorization_matches("c2VjcmV0", "c2VjcmV0"));
    assert!(!authorization_matches("", "c2VjcmV0"));
    assert!(!authorization_matches("Bearer c2VjcmV0", "c2VjcmV0"));
}

#[test]
fn only_websocket_schemes_are_supported() {
    assert!(supported_ws_scheme("ws"));
    assert!(supported_ws_scheme("wss"));
    assert!(!supported_ws_scheme("http"));
    assert!(!supported_ws_scheme("wsss"));
    assert!(!supported_ws_scheme(""));
}

#[test]
fn agent_id_formats_in_hyphenated_lowercase() {
    assert_eq!(
        format_agent_id(0x550e8400e29b41d4a716446655440000),
        "550e8400-e29b-41d4-a716-446655440000"
    );
    assert_eq!(format_agent_id(0), "00000000-0000-0000-0000-000000000000");
    assert_eq!(format_agent_id(u128::MAX), "ffffffff-ffff-ffff-ffff-ffffffffffff");
}

#[test]
fn agent_id_parses_its_own_format() {
    for id in [0u128, 1, u128::MAX, 0x550e8400e29b41d4a716446655440000] {
        assert_eq!(parse_agent_id(&format_agent_id(id)), Some(id));
    }
    let fresh = fresh_identity();
    assert_eq!(parse_agent_id(&format_agent_id(fresh)), Some(fresh));
}

#[test]
fn agent_id_rejects_malformed_text() {
    assert_eq!(parse_agent_id(""), None);
    assert_eq!(parse_agent_id("550e8400e29b41d4a716446655440000"), None);
    assert_eq!(parse_agent_id("550e8400-e29b-41d4-a716-44665544000"), None);
    assert_eq!(parse_agent_id("550e8400-e29b-41d4-a716-4466554400000"), None);
    assert_eq!(parse_agent_id("550e8400-e29b-41d4-a716-44665544000g"), None);
    assert_eq!(parse_agent_id("550E8400-E29B-41D4-A716-446655440000"), None);
}

#[test]
fn fresh_identities_differ_between_draws() {
    assert_ne!(fresh_identity(), fresh_identity());
}

#[test]
fn append_address_overwrites_one_family_and_keeps_the_other() {
    let mut rec = IpAddresses::empty("eth0".to_string());
    assert_eq!(rec.v4, None);
    assert_eq!(rec.v6, None);
    rec.append_address(HostAddress::V4("10.0.0.1".to_string()));
    rec.append_address(HostAddress::V6("fe80::1".to_string()));
    rec.append_address(HostAddress::V4("10.0.0.2".to_string()));
    assert_eq!(rec.name, "eth0");
    assert_eq!(rec.v4.as_deref(), Some("10.0.0.2"));
    assert_eq!(rec.v6.as_deref(), Some("fe80::1"));
}

#[test]
fn new_with_one_address_fills_only_that_family() {
    let rec = IpAddresses::new_with_one_address(
        "lo".to_string(),
        HostAddress::V4("127.0.0.1".to_string()),
    );
    assert_eq!(rec.name, "lo");
    assert_eq!(rec.v4.as_deref(), Some("127.0.0.1"));
    assert_eq!(rec.v6, None);
}

#[test]
fn host_report_is_a_response_with_unique_interface_names() {
    match build_ip_addresses_response() {
        MessagePack::AddrResponse { adapter_addresses } => {
            for i in 0..adapter_addresses.len() {
                for j in (i + 1)..adapter_addresses.len() {
                    assert_ne!(adapter_addresses[i].name, adapter_addresses[j].name);
                }
            }
        }
        _ => panic!("the host report must be an address response"),
    }
}

#[test]
fn default_log_level_keeps_informational_messages() {
    let level = host_exposer::logging::TracingLogLevel::default();
    assert!(matches!(level, host_exposer::logging::TracingLogLevel::Info));
}

#[test]
fn rename_body_carries_the_new_name() {
    let body = host_exposer::auth::ModifyClientNameBody { new_name: "front door".to_string() };
    assert_eq!(body.new_name, "front door");
}
