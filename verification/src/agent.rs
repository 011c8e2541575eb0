//! Agent-side helpers: the agent's persisted identity, the target scheme
//! check, and building the address response from what the host reports.

use vstd::prelude::*;
use vstd::string::*;

use crate::codec::{chars_to_string, push_uuid, sp_uuid_parse, str_chars, uuid_seq};
use crate::message::{addr_models, merge_adapter_sets, merged, unique_names, HostAddress,
    IpAddresses, MessageModel, MessagePack};

verus! {

/// The hyphenated lowercase form of an identity, as carried on the wire and
/// persisted by the agent.
pub fn format_agent_id(id: u128) -> (r: String)
    ensures
        r@ == uuid_seq(id),
{
    let mut out: Vec<char> = Vec::new();
    push_uuid(&mut out, id);
    proof {
        assert(out@ =~= uuid_seq(id));
    }
    chars_to_string(&out)
}

/// Reads an identity back from its hyphenated 36-character form; anything
/// else is rejected.
pub fn parse_agent_id(text: &str) -> (r: Option<u128>)
    ensures
        match r {
            Option::Some(id) => text@.len() == 36 && sp_uuid_parse(text@, 0) == Option::Some(id),
            Option::None => text@.len() != 36 || sp_uuid_parse(text@, 0) is None,
        },
{
    let v = str_chars(text);
    if v.len() != 36 {
        return None;
    }
    crate::codec::px_uuid(&v, 0)
}

/// Relies on `uuid::Uuid::new_v4`: a freshly drawn random 128-bit identity.
/// Nothing is assumed of the value.
#[verifier::external_body]
pub fn fresh_identity() -> (r: u128) {
    uuid::Uuid::new_v4().as_u128()
}

/// Whether a target scheme is one the agent's transport speaks.
pub fn supported_ws_scheme(scheme: &str) -> (r: bool)
    ensures
        r == (scheme@ == "ws"@ || scheme@ == "wss"@),
{
    let s = scheme.to_owned();
    s == String::from_str("ws") || s == String::from_str("wss")
}

/// Relies on `local_ip_address::list_afinet_netifas`: the interface
/// name/address pairs this host reports, each address rendered in its
/// textual form.  The outcome depends on the machine; nothing is assumed of
/// it.  `None` is a host that could not be queried.
#[verifier::external_body]
fn list_interface_addresses() -> (r: Option<Vec<(String, HostAddress)>>) {
    match local_ip_address::list_afinet_netifas() {
        Ok(v) => Some(
            v.into_iter().map(
                |(name, ip)|
                    if ip.is_ipv4() {
                        (name, HostAddress::V4(ip.to_string()))
                    } else {
                        (name, HostAddress::V6(ip.to_string()))
                    },
            ).collect(),
        ),
        Err(_) => None,
    }
}

/// The agent's reply to an `AddressRequest`: one record per interface name
/// this host reports, later observations of a family overwriting earlier
/// ones.  A host that could not be queried yields an empty response rather
/// than a failure.
pub fn build_ip_addresses_response() -> (r: MessagePack)
    ensures
        r@ matches MessageModel::AddrResponse { adapter_addresses } && unique_names(
            adapter_addresses,
        ),
{
    let observed = match list_interface_addresses() {
        Some(v) => v,
        None => Vec::new(),
    };
    let mut singles: Vec<IpAddresses> = Vec::new();
    let mut i: usize = 0;
    while i < observed.len()
        decreases observed.len() - i,
    {
        let name = observed[i].0.clone();
        let addr = observed[i].1.clone();
        singles.push(IpAddresses::new_with_one_address(name, addr));
        i += 1;
    }
    let collapsed = merge_adapter_sets(&singles);
    proof {
        assert(addr_models(collapsed@) == merged(addr_models(singles@)));
    }
    MessagePack::AddrResponse { adapter_addresses: collapsed }
}

} // verus!
