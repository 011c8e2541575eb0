//! The request/response bridge: one typed request down a live connection,
//! one typed reply back, turning the push-style transport into a
//! call/response primitive.  At most one exchange runs per connection at a
//! time: an exchange needs the handle exclusively (`&mut`), and a caller
//! obtains that by taking the handle out of the table, so the table is
//! never held across a wait.

use vstd::prelude::*;

use crate::codec::{encode_message, spec_decode};
use crate::error::{CoreError, ErrorModel};
use crate::message::{addr_models, kind_of, AddrModel, IpAddresses, MessageModel, MessagePack};
use crate::registry::{ConnectionHandle, Registry};
use crate::transport::{recv_frame_blocking, send_frame};

verus! {

/// The model of an optional reply frame.
pub open spec fn reply_model(o: Option<String>) -> Option<Seq<char>> {
    match o {
        Option::Some(s) => Option::Some(s@),
        Option::None => Option::None,
    }
}

/// The model of a bridge result.
pub open spec fn result_model(r: Result<Vec<IpAddresses>, CoreError>) -> Result<
    Seq<AddrModel>,
    ErrorModel,
> {
    match r {
        Result::Ok(v) => Result::Ok(addr_models(v@)),
        Result::Err(e) => Result::Err(e@),
    }
}

/// What one bridge exchange yields for each possible transport reply.  A
/// closed inbound queue is a lost connection; an undecodable frame is
/// malformed; a decodable frame that is not an `AddressResponse` is an
/// unexpected reply; an `AddressResponse` succeeds with its records,
/// collapsed per interface name.
pub open spec fn classify_model(reply: Option<Seq<char>>) -> Result<Seq<AddrModel>, ErrorModel> {
    match reply {
        Option::None => Result::Err(ErrorModel::ConnectionLost),
        Option::Some(t) => match spec_decode(t) {
            Option::None => Result::Err(ErrorModel::MalformedMessage(t)),
            Option::Some(MessageModel::AddrResponse { adapter_addresses }) => Result::Ok(
                adapter_addresses,
            ),
            Option::Some(m) => Result::Err(ErrorModel::UnexpectedReply(kind_of(m))),
        },
    }
}

/// Sorts one transport reply into the bridge's result.
pub fn classify_reply(reply: Option<String>) -> (r: Result<Vec<IpAddresses>, CoreError>)
    ensures
        result_model(r) == classify_model(reply_model(reply)),
{
    match reply {
        None => Err(CoreError::ConnectionLost),
        Some(text) => {
            match crate::codec::decode_message(text.as_str()) {
                Err(e) => Err(e),
                Ok(MessagePack::AddrResponse { adapter_addresses }) => Ok(adapter_addresses),
                Ok(m) => Err(CoreError::UnexpectedReply(m.kind())),
            }
        },
    }
}

/// Sends one `AddressRequest` down the handle's outbound lane and waits for
/// the next inbound frame on that handle; the reply is nondeterministic, and
/// the result is the classification of whatever came back.  A handle whose
/// pump has terminated yields `ConnectionLost` (its inbound queue is closed)
/// and never leaves the caller waiting forever.
pub fn request_addresses(handle: &mut ConnectionHandle) -> (r: Result<Vec<IpAddresses>, CoreError>)
    ensures
        final(handle).id == old(handle).id,
        exists|reply: Option<Seq<char>>| result_model(r) == classify_model(reply),
{
    let frame = encode_message(&MessagePack::AddrRequest);
    if !send_frame(&handle.tx, frame) {
        let r: Result<Vec<IpAddresses>, CoreError> = Err(CoreError::ConnectionLost);
        proof {
            assert(result_model(r) == classify_model(Option::<Seq<char>>::None));
        }
        return r;
    }
    let reply = recv_frame_blocking(&mut handle.rx);
    let r = classify_reply(reply);
    proof {
        assert(result_model(r) == classify_model(reply_model(reply)));
    }
    r
}

/// The records of a successful exchange, or the single placeholder record
/// that stands in for a failed one so that one bad agent never aborts a
/// whole aggregation.
pub fn addresses_or_placeholder(r: Result<Vec<IpAddresses>, CoreError>) -> (out: Vec<IpAddresses>)
    ensures
        match r {
            Result::Ok(v) => out@ == v@,
            Result::Err(e) => out@.len() == 1 && out@[0]@.name == crate::error::describe_model(e@)
                && out@[0]@.v4 is None && out@[0]@.v6 is None,
        },
{
    match r {
        Ok(v) => v,
        Err(e) => {
            let mut out: Vec<IpAddresses> = Vec::new();
            out.push(IpAddresses::empty(e.describe()));
            out
        },
    }
}

/// One aggregated row: an identity and what its exchange yielded.
pub struct ClientReport {
    pub id: u128,
    pub adapter_addresses: Vec<IpAddresses>,
}

/// Performs one bridge exchange per admitted identity and aggregates the
/// results, substituting a placeholder for any identity whose exchange
/// failed.  Each handle is taken out of the table for its exchange and put
/// back unless the exchange showed the connection lost, so the table never
/// keeps a handle known dead, and never grows.
pub fn gather_reports(registry: &mut Registry) -> (r: Vec<ClientReport>)
    requires
        old(registry).wf(),
    ensures
        final(registry).wf(),
        final(registry).ids().subset_of(old(registry).ids()),
        r@.map_values(|c: ClientReport| c.id).to_set() == old(registry).ids(),
        forall|i: int, j: int| 0 <= i < j < r@.len() ==> r@[i].id != r@[j].id,
{
    let ids = registry.snapshot_identities();
    let mut out: Vec<ClientReport> = Vec::new();
    let mut n: usize = 0;
    while n < ids.len()
        invariant
            registry.wf(),
            n <= ids@.len(),
            ids@.to_set() == old(registry).ids(),
            forall|i: int, j: int| 0 <= i < j < ids@.len() ==> ids@[i] != ids@[j],
            out@.len() == n,
            forall|k: int| 0 <= k < n ==> out@[k].id == ids@[k],
            registry.ids().subset_of(old(registry).ids()),
            forall|k: int| n <= k < ids@.len() ==> registry.ids().contains(#[trigger] ids@[k]),
        decreases ids@.len() - n,
    {
        let id = ids[n];
        let ghost pre_ids = registry.ids();
        match registry.take(id) {
            Some(handle) => {
                let mut handle = handle;
                let result = request_addresses(&mut handle);
                let lost = match &result {
                    Err(CoreError::ConnectionLost) => true,
                    _ => false,
                };
                if !lost {
                    registry.insert(handle);
                    proof {
                        assert(registry.ids() =~= pre_ids);
                    }
                }
                out.push(ClientReport { id, adapter_addresses: addresses_or_placeholder(result) });
            },
            None => {
                proof {
                    assert(false);
                }
                out.push(ClientReport { id, adapter_addresses: Vec::new() });
            },
        }
        n += 1;
    }
    proof {
        assert(out@.map_values(|c: ClientReport| c.id) =~= ids@);
        assert forall|i: int, j: int| 0 <= i < j < out@.len() implies out@[i].id != out@[j].id by {
            assert(out@[i].id == ids@[i]);
            assert(out@[j].id == ids@[j]);
        }
    }
    out
}

} // verus!
