//! The wire vocabulary exchanged between the registry and an agent, and the
//! per-interface address records carried inside an address response.

use vstd::prelude::*;

verus! {

/// The addresses reported for one network interface: at most one IPv4 and at
/// most one IPv6 address, each kept in its textual form.
#[derive(Debug)]
pub struct IpAddresses {
    pub name: String,
    pub v4: Option<String>,
    pub v6: Option<String>,
}

/// One observed address, of either family, in textual form.
#[derive(Clone, Debug)]
pub enum HostAddress {
    V4(String),
    V6(String),
}

/// Mathematical model of `IpAddresses`.
pub struct AddrModel {
    pub name: Seq<char>,
    pub v4: Option<Seq<char>>,
    pub v6: Option<Seq<char>>,
}

impl View for IpAddresses {
    type V = AddrModel;

    open spec fn view(&self) -> AddrModel {
        AddrModel {
            name: self.name@,
            v4: match self.v4 {
                Option::Some(s) => Option::Some(s@),
                Option::None => Option::None,
            },
            v6: match self.v6 {
                Option::Some(s) => Option::Some(s@),
                Option::None => Option::None,
            },
        }
    }
}

/// One message of the protocol.  `Establish` must be the first and only
/// first message of a connection; `AddrResponse` answers `AddrRequest`;
/// `Error` terminates the current exchange in either direction.
#[derive(Debug)]
pub enum MessagePack {
    Establish { id: u128, password: String },
    Acknowledge,
    AddrRequest,
    AddrResponse { adapter_addresses: Vec<IpAddresses> },
    Error { message: String },
}

/// Mathematical model of `MessagePack`.
pub enum MessageModel {
    Establish { id: u128, password: Seq<char> },
    Acknowledge,
    AddrRequest,
    AddrResponse { adapter_addresses: Seq<AddrModel> },
    Error { message: Seq<char> },
}

/// The views of a sequence of address records.
pub open spec fn addr_models(s: Seq<IpAddresses>) -> Seq<AddrModel> {
    s.map_values(|a: IpAddresses| a@)
}

impl View for MessagePack {
    type V = MessageModel;

    open spec fn view(&self) -> MessageModel {
        match self {
            MessagePack::Establish { id, password } => (MessageModel::Establish {
                id: *id,
                password: password@,
            }),
            MessagePack::Acknowledge => MessageModel::Acknowledge,
            MessagePack::AddrRequest => MessageModel::AddrRequest,
            MessagePack::AddrResponse { adapter_addresses } => (MessageModel::AddrResponse {
                adapter_addresses: addr_models(adapter_addresses@),
            }),
            MessagePack::Error { message } => (MessageModel::Error { message: message@ }),
        }
    }
}

/// The variant of a message, without its payload.
#[derive(PartialEq, Eq, Structural, Clone, Copy, Debug)]
pub enum MessageKind {
    Establish,
    Acknowledge,
    AddrRequest,
    AddrResponse,
    Error,
}

/// The variant of a message model.
pub open spec fn kind_of(m: MessageModel) -> MessageKind {
    match m {
        MessageModel::Establish { .. } => MessageKind::Establish,
        MessageModel::Acknowledge => MessageKind::Acknowledge,
        MessageModel::AddrRequest => MessageKind::AddrRequest,
        MessageModel::AddrResponse { .. } => MessageKind::AddrResponse,
        MessageModel::Error { .. } => MessageKind::Error,
    }
}

impl MessagePack {
    /// The variant of this message, without its payload.
    pub fn kind(&self) -> (k: MessageKind)
        ensures
            k == kind_of(self@),
    {
        match self {
            MessagePack::Establish { .. } => MessageKind::Establish,
            MessagePack::Acknowledge => MessageKind::Acknowledge,
            MessagePack::AddrRequest => MessageKind::AddrRequest,
            MessagePack::AddrResponse { .. } => MessageKind::AddrResponse,
            MessagePack::Error { .. } => MessageKind::Error,
        }
    }
}

impl IpAddresses {
    /// A record for `name` with no address of either family.
    pub fn empty(name: String) -> (r: IpAddresses)
        ensures
            r@ == (AddrModel { name: name@, v4: Option::None, v6: Option::None }),
    {
        IpAddresses { name, v4: None, v6: None }
    }

    /// A record for `name` holding exactly the one given address.
    pub fn new_with_one_address(name: String, ip: HostAddress) -> (r: IpAddresses)
        ensures
            r@.name == name@,
            match ip {
                HostAddress::V4(a) => r@.v4 == Option::Some(a@) && r@.v6 is None,
                HostAddress::V6(a) => r@.v6 == Option::Some(a@) && r@.v4 is None,
            },
    {
        match ip {
            HostAddress::V4(a) => IpAddresses { name, v4: Some(a), v6: None },
            HostAddress::V6(a) => IpAddresses { name, v4: None, v6: Some(a) },
        }
    }

    /// Overwrites the address of `ip`'s family; the other family is kept.
    pub fn append_address(&mut self, ip: HostAddress)
        ensures
            final(self)@.name == old(self)@.name,
            match ip {
                HostAddress::V4(a) => final(self)@.v4 == Option::Some(a@) && final(self)@.v6
                    == old(self)@.v6,
                HostAddress::V6(a) => final(self)@.v6 == Option::Some(a@) && final(self)@.v4
                    == old(self)@.v4,
            },
    {
        match ip {
            HostAddress::V4(a) => self.v4 = Some(a),
            HostAddress::V6(a) => self.v6 = Some(a),
        }
    }
}

/// The interface names of a sequence of records, in order.
pub open spec fn names_of(s: Seq<AddrModel>) -> Seq<Seq<char>> {
    s.map_values(|a: AddrModel| a.name)
}

/// Every interface name appears at most once.
pub open spec fn unique_names(s: Seq<AddrModel>) -> bool {
    forall|i: int, j: int| 0 <= i < j < s.len() ==> s[i].name != s[j].name
}

/// The IPv4 address of the last record named `name` that carries one.
pub open spec fn last_v4(s: Seq<AddrModel>, name: Seq<char>) -> Option<Seq<char>>
    decreases s.len(),
{
    if s.len() == 0 {
        Option::None
    } else if s.last().name == name && s.last().v4 is Some {
        s.last().v4
    } else {
        last_v4(s.drop_last(), name)
    }
}

/// The IPv6 address of the last record named `name` that carries one.
pub open spec fn last_v6(s: Seq<AddrModel>, name: Seq<char>) -> Option<Seq<char>>
    decreases s.len(),
{
    if s.len() == 0 {
        Option::None
    } else if s.last().name == name && s.last().v6 is Some {
        s.last().v6
    } else {
        last_v6(s.drop_last(), name)
    }
}

/// The distinct interface names of `s`, in order of first appearance.
pub open spec fn distinct_names(s: Seq<AddrModel>) -> Seq<Seq<char>>
    decreases s.len(),
{
    if s.len() == 0 {
        Seq::<Seq<char>>::empty()
    } else {
        let rest = distinct_names(s.drop_last());
        if rest.contains(s.last().name) {
            rest
        } else {
            rest.push(s.last().name)
        }
    }
}

/// Collapses repeated records for one interface name: per address family the
/// last written address wins, and each name keeps its first-appearance slot.
pub open spec fn merged(s: Seq<AddrModel>) -> Seq<AddrModel> {
    distinct_names(s).map_values(
        |n: Seq<char>| AddrModel { name: n, v4: last_v4(s, n), v6: last_v6(s, n) },
    )
}

proof fn lemma_distinct_names_members(s: Seq<AddrModel>)
    ensures
        forall|n: Seq<char>| #[trigger] distinct_names(s).contains(n) <==> names_of(s).contains(
            n,
        ),
    decreases s.len(),
{
    if s.len() > 0 {
        lemma_distinct_names_members(s.drop_last());
        assert forall|n: Seq<char>| #[trigger] distinct_names(s).contains(n) implies names_of(
            s,
        ).contains(n) by {
            if distinct_names(s.drop_last()).contains(n) {
                let k = choose|k: int|
                    0 <= k < names_of(s.drop_last()).len() && names_of(s.drop_last())[k] == n;
                assert(names_of(s)[k] == n);
            } else {
                assert(names_of(s)[s.len() - 1] == s.last().name);
            }
        }
        assert forall|n: Seq<char>| #[trigger] names_of(s).contains(n) implies distinct_names(
            s,
        ).contains(n) by {
            let k = choose|k: int| 0 <= k < names_of(s).len() && names_of(s)[k] == n;
            if k < s.len() - 1 {
                assert(names_of(s.drop_last())[k] == n);
                assert(distinct_names(s.drop_last()).contains(n));
                if !distinct_names(s).contains(n) {
                    assert(distinct_names(s) == distinct_names(s.drop_last()).push(s.last().name));
                    let j = choose|j: int|
                        0 <= j < distinct_names(s.drop_last()).len() && distinct_names(
                            s.drop_last(),
                        )[j] == n;
                    assert(distinct_names(s)[j] == n);
                }
            } else {
                if !distinct_names(s.drop_last()).contains(n) {
                    assert(distinct_names(s).last() == n);
                } else {
                    let j = choose|j: int|
                        0 <= j < distinct_names(s.drop_last()).len() && distinct_names(
                            s.drop_last(),
                        )[j] == n;
                    assert(distinct_names(s)[j] == n);
                }
            }
        }
    }
}

proof fn lemma_distinct_names_unique(s: Seq<AddrModel>)
    ensures
        forall|i: int, j: int|
            0 <= i < j < distinct_names(s).len() ==> distinct_names(s)[i] != distinct_names(s)[j],
    decreases s.len(),
{
    if s.len() > 0 {
        lemma_distinct_names_unique(s.drop_last());
        let rest = distinct_names(s.drop_last());
        if !rest.contains(s.last().name) {
            assert forall|i: int, j: int|
                0 <= i < j < distinct_names(s).len() implies distinct_names(s)[i]
                != distinct_names(s)[j] by {
                if j < rest.len() {
                } else {
                    assert(distinct_names(s)[j] == s.last().name);
                    assert(rest[i] == distinct_names(s)[i]);
                    if distinct_names(s)[i] == s.last().name {
                        assert(rest.contains(s.last().name));
                    }
                }
            }
        }
    }
}

/// The merged form of any record sequence has unique interface names.
pub proof fn lemma_merged_unique(s: Seq<AddrModel>)
    ensures
        unique_names(merged(s)),
{
    lemma_distinct_names_unique(s);
}

proof fn lemma_last_v4_absent(s: Seq<AddrModel>, name: Seq<char>)
    requires
        forall|k: int| 0 <= k < s.len() ==> s[k].name != name,
    ensures
        last_v4(s, name) is None,
        last_v6(s, name) is None,
    decreases s.len(),
{
    if s.len() > 0 {
        lemma_last_v4_absent(s.drop_last(), name);
    }
}

proof fn lemma_last_family_unique(s: Seq<AddrModel>, i: int)
    requires
        unique_names(s),
        0 <= i < s.len(),
    ensures
        last_v4(s, s[i].name) == s[i].v4,
        last_v6(s, s[i].name) == s[i].v6,
    decreases s.len(),
{
    if s.len() > 0 {
        if i == s.len() - 1 {
            if !(s.last().v4 is Some) {
                assert(forall|k: int|
                    0 <= k < s.drop_last().len() ==> s.drop_last()[k].name != s.last().name);
                lemma_last_v4_absent(s.drop_last(), s.last().name);
            }
            if !(s.last().v6 is Some) {
                assert(forall|k: int|
                    0 <= k < s.drop_last().len() ==> s.drop_last()[k].name != s.last().name);
                lemma_last_v4_absent(s.drop_last(), s.last().name);
            }
        } else {
            assert(s.last().name != s[i].name);
            assert(s.drop_last()[i] == s[i]);
            lemma_last_family_unique(s.drop_last(), i);
        }
    }
}

/// Merging leaves a sequence whose interface names are already unique
/// unchanged.
pub proof fn lemma_merged_identity(s: Seq<AddrModel>)
    requires
        unique_names(s),
    ensures
        merged(s) == s,
    decreases s.len(),
{
    if s.len() == 0 {
        assert(merged(s) =~= s);
    } else {
        lemma_distinct_names_members(s.drop_last());
        if distinct_names(s.drop_last()).contains(s.last().name) {
            let k = choose|k: int|
                0 <= k < names_of(s.drop_last()).len() && names_of(s.drop_last())[k]
                    == s.last().name;
            assert(s[k].name == s.last().name);
            assert(false);
        }
        lemma_merged_identity_names(s);
        assert forall|i: int| 0 <= i < s.len() implies merged(s)[i] == s[i] by {
            lemma_last_family_unique(s, i);
        }
        assert(merged(s) =~= s);
    }
}

proof fn lemma_merged_identity_names(s: Seq<AddrModel>)
    requires
        unique_names(s),
    ensures
        distinct_names(s) == names_of(s),
    decreases s.len(),
{
    if s.len() == 0 {
        assert(distinct_names(s) =~= names_of(s));
    } else {
        assert(unique_names(s.drop_last()));
        lemma_merged_identity_names(s.drop_last());
        lemma_distinct_names_members(s.drop_last());
        if distinct_names(s.drop_last()).contains(s.last().name) {
            let k = choose|k: int|
                0 <= k < names_of(s.drop_last()).len() && names_of(s.drop_last())[k]
                    == s.last().name;
            assert(s[k].name == s.last().name);
            assert(false);
        }
        assert(names_of(s.drop_last()) =~= names_of(s).drop_last());
        assert(distinct_names(s) =~= names_of(s));
    }
}

/// How one more record changes the merged form: a new name is appended, a
/// known name has each family overwritten only where the record carries an
/// address of that family.
proof fn lemma_merged_push(s: Seq<AddrModel>, e: AddrModel)
    ensures
        distinct_names(s).contains(e.name) ==> merged(s.push(e)) == merged(s).map_values(
            |a: AddrModel|
                if a.name == e.name {
                    AddrModel {
                        name: a.name,
                        v4: if e.v4 is Some {
                            e.v4
                        } else {
                            a.v4
                        },
                        v6: if e.v6 is Some {
                            e.v6
                        } else {
                            a.v6
                        },
                    }
                } else {
                    a
                },
        ),
        !distinct_names(s).contains(e.name) ==> merged(s.push(e)) == merged(s).push(e),
{
    let sp = s.push(e);
    assert(sp.drop_last() =~= s);
    assert(sp.last() == e);
    assert forall|n: Seq<char>| true implies #[trigger] last_v4(sp, n) == (if e.name == n
        && e.v4 is Some {
        e.v4
    } else {
        last_v4(s, n)
    }) by {}
    assert forall|n: Seq<char>| true implies #[trigger] last_v6(sp, n) == (if e.name == n
        && e.v6 is Some {
        e.v6
    } else {
        last_v6(s, n)
    }) by {}
    if distinct_names(s).contains(e.name) {
        assert(distinct_names(sp) == distinct_names(s));
        let patched = merged(s).map_values(
            |a: AddrModel|
                if a.name == e.name {
                    AddrModel {
                        name: a.name,
                        v4: if e.v4 is Some {
                            e.v4
                        } else {
                            a.v4
                        },
                        v6: if e.v6 is Some {
                            e.v6
                        } else {
                            a.v6
                        },
                    }
                } else {
                    a
                },
        );
        assert forall|i: int| 0 <= i < merged(sp).len() implies merged(sp)[i] == patched[i] by {
            assert(merged(s)[i].name == distinct_names(s)[i]);
        }
        assert(merged(sp) =~= patched);
    } else {
        assert(distinct_names(sp) == distinct_names(s).push(e.name));
        lemma_distinct_names_members(s);
        assert forall|i: int| 0 <= i < merged(sp).len() implies merged(sp)[i] == merged(s).push(
            e,
        )[i] by {
            if i < distinct_names(s).len() {
                if distinct_names(s)[i] == e.name {
                    assert(distinct_names(s).contains(e.name));
                }
            } else {
                assert(distinct_names(sp)[i] == e.name);
                assert forall|k: int| 0 <= k < s.len() implies s[k].name != e.name by {
                    if s[k].name == e.name {
                        assert(names_of(s)[k] == e.name);
                        assert(names_of(s).contains(e.name));
                    }
                }
                lemma_last_v4_absent(s, e.name);
            }
        }
        assert(merged(sp) =~= merged(s).push(e));
    }
}

fn clone_opt_string(o: &Option<String>) -> (r: Option<String>)
    ensures
        match o {
            Option::Some(s) => r matches Option::Some(t) && t@ == s@,
            Option::None => r is None,
        },
{
    match o {
        Some(s) => Some(s.clone()),
        None => None,
    }
}

/// Collapses repeated records for one interface name, last write per address
/// family winning; names keep their first-appearance order.
pub fn merge_adapter_sets(items: &Vec<IpAddresses>) -> (r: Vec<IpAddresses>)
    ensures
        addr_models(r@) == merged(addr_models(items@)),
        unique_names(addr_models(r@)),
{
    let mut out: Vec<IpAddresses> = Vec::new();
    let mut k: usize = 0;
    while k < items.len()
        invariant
            k <= items.len(),
            addr_models(out@) == merged(addr_models(items@).take(k as int)),
        decreases items.len() - k,
    {
        let ghost prefix = addr_models(items@).take(k as int);
        let ghost e = items@[k as int]@;
        let mut found: Option<usize> = None;
        let mut i: usize = 0;
        while i < out.len()
            invariant
                i <= out.len(),
                k < items.len(),
                found is None ==> forall|j: int|
                    0 <= j < i ==> out@[j]@.name != items@[k as int]@.name,
                match found {
                    Option::Some(f) => f < out.len() && out@[f as int]@.name
                        == items@[k as int]@.name,
                    Option::None => true,
                },
            decreases out.len() - i,
        {
            if found.is_none() && out[i].name == items[k].name {
                found = Some(i);
            }
            i += 1;
        }
        proof {
            lemma_merged_push(prefix, e);
            lemma_merged_unique(prefix);
            assert(addr_models(items@).take(k as int + 1) =~= prefix.push(e));
        }
        match found {
            Some(f) => {
                proof {
                    assert(addr_models(out@)[f as int] == out@[f as int]@);
                    assert(addr_models(out@).len() == distinct_names(prefix).len());
                    assert(merged(prefix)[f as int].name == distinct_names(prefix)[f as int]);
                    assert(distinct_names(prefix)[f as int] == e.name);
                    assert(distinct_names(prefix).contains(e.name));
                }
                let new_name = out[f].name.clone();
                let new_v4 = if items[k].v4.is_some() {
                    clone_opt_string(&items[k].v4)
                } else {
                    clone_opt_string(&out[f].v4)
                };
                let new_v6 = if items[k].v6.is_some() {
                    clone_opt_string(&items[k].v6)
                } else {
                    clone_opt_string(&out[f].v6)
                };
                let rec = IpAddresses { name: new_name, v4: new_v4, v6: new_v6 };
                out[f] = rec;
                proof {
                    assert(addr_models(out@) =~= merged(prefix.push(e)));
                }
            },
            None => {
                proof {
                    assert forall|j: int|
                        0 <= j < distinct_names(prefix).len() implies distinct_names(prefix)[j]
                        != e.name by {
                        assert(addr_models(out@)[j].name == distinct_names(prefix)[j]);
                    }
                    if distinct_names(prefix).contains(e.name) {
                        let j = choose|j: int|
                            0 <= j < distinct_names(prefix).len() && distinct_names(prefix)[j]
                                == e.name;
                        assert(false);
                    }
                }
                let new_name = items[k].name.clone();
                let new_v4 = clone_opt_string(&items[k].v4);
                let new_v6 = clone_opt_string(&items[k].v6);
                out.push(IpAddresses { name: new_name, v4: new_v4, v6: new_v6 });
                proof {
                    assert(addr_models(out@) =~= merged(prefix.push(e)));
                }
            },
        }
        k += 1;
    }
    proof {
        assert(addr_models(items@).take(items@.len() as int) =~= addr_models(items@));
        lemma_merged_unique(addr_models(items@));
    }
    out
}

} // verus!
