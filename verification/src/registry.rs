//! The shared table of admitted connections, keyed by agent identity, and
//! the per-connection handle it stores.

use vstd::prelude::*;

verus! {

/// Per-agent state: the identity, the outbound pipe to the transport pump,
/// and the inbound pipe carrying agent-originated frames not yet consumed.
pub struct ConnectionHandle {
    pub id: u128,
    pub tx: tokio::sync::mpsc::UnboundedSender<String>,
    pub rx: tokio::sync::mpsc::UnboundedReceiver<String>,
}

impl ConnectionHandle {
    /// A handle for `id` over the two given pipes.
    pub fn new(
        id: u128,
        tx: tokio::sync::mpsc::UnboundedSender<String>,
        rx: tokio::sync::mpsc::UnboundedReceiver<String>,
    ) -> (r: ConnectionHandle)
        ensures
            r.id == id,
    {
        ConnectionHandle { id, tx, rx }
    }
}

/// The table of currently admitted connections.  Unique identities; no
/// ordering guarantee.
pub struct Registry {
    entries: Vec<ConnectionHandle>,
}

impl Registry {
    /// The identities currently admitted.
    pub closed spec fn ids(self) -> Set<u128> {
        Set::new(
            |x: u128|
                exists|k: int| 0 <= k < self.entries@.len() && self.entries@[k].id == x,
        )
    }

    /// Well-formedness: one entry per identity.  Established by `new`,
    /// preserved by every method.
    pub closed spec fn wf(self) -> bool {
        forall|i: int, j: int|
            0 <= i < j < self.entries@.len() ==> self.entries@[i].id != self.entries@[j].id
    }

    /// An empty table.
    pub fn new() -> (r: Registry)
        ensures
            r.ids() == Set::<u128>::empty(),
            r.wf(),
    {
        let r = Registry { entries: Vec::new() };
        proof {
            assert(r.ids() =~= Set::<u128>::empty());
        }
        r
    }

    fn find_index(&self, id: u128) -> (r: Option<usize>)
        ensures
            match r {
                Option::Some(k) => k < self.entries@.len() && self.entries@[k as int].id == id,
                Option::None => forall|k: int|
                    0 <= k < self.entries@.len() ==> self.entries@[k].id != id,
            },
    {
        let mut i: usize = 0;
        while i < self.entries.len()
            invariant
                i <= self.entries@.len(),
                forall|k: int| 0 <= k < i ==> self.entries@[k].id != id,
            decreases self.entries@.len() - i,
        {
            if self.entries[i].id == id {
                return Some(i);
            }
            i += 1;
        }
        None
    }

    /// Whether `id` is currently admitted.
    pub fn contains(&self, id: u128) -> (r: bool)
        ensures
            r == self.ids().contains(id),
    {
        let r = self.find_index(id);
        proof {
            if r is Some {
                assert(self.ids().contains(id));
            } else {
                if self.ids().contains(id) {
                    let k = choose|k: int|
                        0 <= k < self.entries@.len() && self.entries@[k].id == id;
                    assert(false);
                }
            }
        }
        r.is_some()
    }

    /// Admits `handle`: inserts it, replacing any prior entry under the same
    /// identity (a reconnecting agent; last established wins).  The replaced
    /// handle's pump, if still alive, is not killed here: it fails on its own
    /// transport and deregisters itself.
    pub fn insert(&mut self, handle: ConnectionHandle)
        requires
            old(self).wf(),
        ensures
            final(self).ids() == old(self).ids().insert(handle.id),
            final(self).wf(),
    {
        let ghost oldids = self.ids();
        let ghost hid = handle.id;
        match self.find_index(handle.id) {
            Some(k) => {
                proof {
                    assert(old(self).entries@[k as int].id == hid);
                }
                self.entries[k] = handle;
                proof {
                    assert forall|x: u128| self.ids().contains(x) implies oldids.insert(
                        hid,
                    ).contains(x) by {
                        let j = choose|j: int|
                            0 <= j < self.entries@.len() && self.entries@[j].id == x;
                        if j == k {
                            assert(x == hid);
                        } else {
                            assert(old(self).entries@[j].id == x);
                        }
                    }
                    assert forall|x: u128| oldids.insert(hid).contains(x) implies self.ids()
                        .contains(x) by {
                        if x == hid {
                            assert(self.entries@[k as int].id == x);
                        } else {
                            let j = choose|j: int|
                                0 <= j < old(self).entries@.len() && old(self).entries@[j].id == x;
                            assert(j != k);
                            assert(self.entries@[j].id == x);
                        }
                    }
                    assert(self.ids() =~= oldids.insert(hid));
                }
            },
            None => {
                self.entries.push(handle);
                proof {
                    let n = self.entries@.len() - 1;
                    assert forall|x: u128| self.ids().contains(x) implies oldids.insert(
                        hid,
                    ).contains(x) by {
                        let j = choose|j: int|
                            0 <= j < self.entries@.len() && self.entries@[j].id == x;
                        if j == n {
                            assert(x == hid);
                        } else {
                            assert(old(self).entries@[j].id == x);
                        }
                    }
                    assert forall|x: u128| oldids.insert(hid).contains(x) implies self.ids()
                        .contains(x) by {
                        if x == hid {
                            assert(self.entries@[n].id == x);
                        } else {
                            let j = choose|j: int|
                                0 <= j < old(self).entries@.len() && old(self).entries@[j].id == x;
                            assert(self.entries@[j].id == x);
                        }
                    }
                    assert(self.ids() =~= oldids.insert(hid));
                }
            },
        }
    }

    /// Removes the entry for `id`, if any; removing an absent identity is a
    /// no-op, not an error.
    pub fn remove(&mut self, id: u128)
        requires
            old(self).wf(),
        ensures
            final(self).ids() == old(self).ids().remove(id),
            final(self).wf(),
    {
        let ghost oldids = self.ids();
        match self.find_index(id) {
            Some(k) => {
                self.entries.remove(k);
                proof {
                    assert forall|x: u128| self.ids().contains(x) implies oldids.remove(
                        id,
                    ).contains(x) by {
                        let j = choose|j: int|
                            0 <= j < self.entries@.len() && self.entries@[j].id == x;
                        if j < k {
                            assert(old(self).entries@[j].id == x);
                        } else {
                            assert(old(self).entries@[j + 1].id == x);
                        }
                    }
                    assert forall|x: u128| oldids.remove(id).contains(x) implies self.ids()
                        .contains(x) by {
                        let j = choose|j: int|
                            0 <= j < old(self).entries@.len() && old(self).entries@[j].id == x;
                        if j < k {
                            assert(self.entries@[j].id == x);
                        } else {
                            assert(j != k);
                            assert(self.entries@[j - 1].id == x);
                        }
                    }
                    assert(self.ids() =~= oldids.remove(id));
                }
            },
            None => {
                proof {
                    assert(!oldids.contains(id));
                    assert(self.ids() =~= oldids.remove(id));
                }
            },
        }
    }

    /// Takes the handle for `id` out of the table, to use it for an exchange
    /// without holding the table; an admitted caller puts it back with
    /// `insert` afterwards unless the exchange showed the connection lost.
    pub fn take(&mut self, id: u128) -> (r: Option<ConnectionHandle>)
        requires
            old(self).wf(),
        ensures
            final(self).wf(),
            match r {
                Option::Some(h) => h.id == id && old(self).ids().contains(id) && final(self).ids()
                    == old(self).ids().remove(id),
                Option::None => !old(self).ids().contains(id) && final(self).ids() == old(
                    self,
                ).ids(),
            },
    {
        let ghost oldids = self.ids();
        match self.find_index(id) {
            Some(k) => {
                let h = self.entries.remove(k);
                proof {
                    assert(oldids.contains(id));
                    assert forall|x: u128| self.ids().contains(x) implies oldids.remove(
                        id,
                    ).contains(x) by {
                        let j = choose|j: int|
                            0 <= j < self.entries@.len() && self.entries@[j].id == x;
                        if j < k {
                            assert(old(self).entries@[j].id == x);
                        } else {
                            assert(old(self).entries@[j + 1].id == x);
                        }
                    }
                    assert forall|x: u128| oldids.remove(id).contains(x) implies self.ids()
                        .contains(x) by {
                        let j = choose|j: int|
                            0 <= j < old(self).entries@.len() && old(self).entries@[j].id == x;
                        if j < k {
                            assert(self.entries@[j].id == x);
                        } else {
                            assert(j != k);
                            assert(self.entries@[j - 1].id == x);
                        }
                    }
                    assert(self.ids() =~= oldids.remove(id));
                }
                Some(h)
            },
            None => {
                proof {
                    if oldids.contains(id) {
                        let k = choose|k: int|
                            0 <= k < self.entries@.len() && self.entries@[k].id == id;
                        assert(false);
                    }
                }
                None
            },
        }
    }

    /// A point-in-time copy of the admitted identities, safe to iterate
    /// without holding the table.
    pub fn snapshot_identities(&self) -> (r: Vec<u128>)
        requires
            self.wf(),
        ensures
            r@.to_set() == self.ids(),
            forall|i: int, j: int| 0 <= i < j < r@.len() ==> r@[i] != r@[j],
    {
        let mut out: Vec<u128> = Vec::new();
        let mut i: usize = 0;
        while i < self.entries.len()
            invariant
                i <= self.entries@.len(),
                out@.len() == i,
                forall|k: int| 0 <= k < i ==> out@[k] == self.entries@[k].id,
                forall|a: int, b: int|
                    0 <= a < b < self.entries@.len() ==> self.entries@[a].id
                        != self.entries@[b].id,
            decreases self.entries@.len() - i,
        {
            out.push(self.entries[i].id);
            i += 1;
        }
        proof {
            assert forall|x: u128| out@.to_set().contains(x) implies self.ids().contains(x) by {
                let k = choose|k: int| 0 <= k < out@.len() && out@[k] == x;
                assert(self.entries@[k].id == x);
            }
            assert forall|x: u128| self.ids().contains(x) implies out@.to_set().contains(x) by {
                let k = choose|k: int| 0 <= k < self.entries@.len() && self.entries@[k].id == x;
                assert(out@[k] == x);
                assert(out@.contains(x));
            }
            assert(out@.to_set() =~= self.ids());
        }
        out
    }

    /// How many connections are admitted.
    pub fn len(&self) -> (r: usize)
        requires
            self.wf(),
        ensures
            r == self.ids().len(),
    {
        proof {
            lemma_distinct_entry_count(self.entries@, self.entries@.len() as int);
            assert(ids_of_prefix(self.entries@, self.entries@.len() as int) =~= self.ids());
        }
        self.entries.len()
    }
}

/// The identities of the first `n` entries.
spec fn ids_of_prefix(s: Seq<ConnectionHandle>, n: int) -> Set<u128> {
    Set::new(|x: u128| exists|k: int| 0 <= k < n && k < s.len() && s[k].id == x)
}

proof fn lemma_distinct_entry_count(s: Seq<ConnectionHandle>, n: int)
    requires
        0 <= n <= s.len(),
        forall|i: int, j: int| 0 <= i < j < s.len() ==> s[i].id != s[j].id,
    ensures
        ids_of_prefix(s, n).finite(),
        ids_of_prefix(s, n).len() == n,
    decreases n,
{
    if n == 0 {
        assert(ids_of_prefix(s, 0) =~= Set::<u128>::empty());
    } else {
        lemma_distinct_entry_count(s, n - 1);
        assert(!ids_of_prefix(s, n - 1).contains(s[n - 1].id));
        assert(ids_of_prefix(s, n) =~= ids_of_prefix(s, n - 1).insert(s[n - 1].id));
    }
}

/// One step of the registry's mutating interface.
pub enum RegistryOp {
    Insert(u128),
    Remove(u128),
}

/// The admitted set after running `ops` from the set `s`, by the step
/// semantics that `insert` and `remove` guarantee.
pub open spec fn apply_ops(s: Set<u128>, ops: Seq<RegistryOp>) -> Set<u128>
    decreases ops.len(),
{
    if ops.len() == 0 {
        s
    } else {
        let prev = apply_ops(s, ops.drop_last());
        match ops.last() {
            RegistryOp::Insert(i) => prev.insert(i),
            RegistryOp::Remove(i) => prev.remove(i),
        }
    }
}

/// The identities admitted by `ops` and not removed afterwards.
pub open spec fn admitted_not_removed(ops: Seq<RegistryOp>) -> Set<u128> {
    Set::new(
        |x: u128|
            exists|k: int|
                0 <= k < ops.len() && ops[k] == RegistryOp::Insert(x) && (forall|j: int|
                    k < j < ops.len() ==> ops[j] != RegistryOp::Remove(x)),
    )
}

/// Registry consistency: for every sequence of insert/remove steps starting
/// from the empty table, the admitted set — what `snapshot_identities`
/// returns — is exactly the set of identities admitted and not yet removed,
/// independent of interleaving.
pub proof fn lemma_registry_consistency(ops: Seq<RegistryOp>)
    ensures
        apply_ops(Set::<u128>::empty(), ops) == admitted_not_removed(ops),
    decreases ops.len(),
{
    if ops.len() == 0 {
        assert(apply_ops(Set::<u128>::empty(), ops) =~= admitted_not_removed(ops));
    } else {
        let prefix = ops.drop_last();
        lemma_registry_consistency(prefix);
        let prev = apply_ops(Set::<u128>::empty(), prefix);
        match ops.last() {
            RegistryOp::Insert(i) => {
                assert forall|x: u128| admitted_not_removed(ops).contains(x) implies prev.insert(
                    i,
                ).contains(x) by {
                    let k = choose|k: int|
                        0 <= k < ops.len() && ops[k] == RegistryOp::Insert(x) && (forall|j: int|
                            k < j < ops.len() ==> ops[j] != RegistryOp::Remove(x));
                    if k < ops.len() - 1 {
                        assert(prefix[k] == ops[k]);
                        assert(forall|j: int|
                            k < j < prefix.len() ==> prefix[j] == ops[j] && ops[j]
                                != RegistryOp::Remove(x));
                        assert(admitted_not_removed(prefix).contains(x));
                    } else {
                        assert(ops[k] == RegistryOp::Insert(i));
                        assert(x == i);
                    }
                }
                assert forall|x: u128| prev.insert(i).contains(x) implies admitted_not_removed(
                    ops,
                ).contains(x) by {
                    if x == i {
                        let k = ops.len() - 1;
                        assert(ops[k] == RegistryOp::Insert(x));
                        assert(forall|j: int| k < j < ops.len() ==> ops[j] != RegistryOp::Remove(x));
                    } else {
                        assert(admitted_not_removed(prefix).contains(x));
                        let k = choose|k: int|
                            0 <= k < prefix.len() && prefix[k] == RegistryOp::Insert(x) && (forall|
                                j: int,
                            | k < j < prefix.len() ==> prefix[j] != RegistryOp::Remove(x));
                        assert(ops[k] == RegistryOp::Insert(x));
                        assert forall|j: int| k < j < ops.len() implies ops[j]
                            != RegistryOp::Remove(x) by {
                            if j < ops.len() - 1 {
                                assert(ops[j] == prefix[j]);
                            }
                        }
                    }
                }
                assert(apply_ops(Set::<u128>::empty(), ops) =~= admitted_not_removed(ops));
            },
            RegistryOp::Remove(i) => {
                assert forall|x: u128| admitted_not_removed(ops).contains(x) implies prev.remove(
                    i,
                ).contains(x) by {
                    let k = choose|k: int|
                        0 <= k < ops.len() && ops[k] == RegistryOp::Insert(x) && (forall|j: int|
                            k < j < ops.len() ==> ops[j] != RegistryOp::Remove(x));
                    assert(k < ops.len() - 1);
                    assert(ops[ops.len() - 1] != RegistryOp::Remove(x));
                    assert(x != i);
                    assert(prefix[k] == ops[k]);
                    assert(forall|j: int|
                        k < j < prefix.len() ==> prefix[j] == ops[j] && ops[j]
                            != RegistryOp::Remove(x));
                    assert(admitted_not_removed(prefix).contains(x));
                }
                assert forall|x: u128| prev.remove(i).contains(x) implies admitted_not_removed(
                    ops,
                ).contains(x) by {
                    assert(x != i);
                    assert(admitted_not_removed(prefix).contains(x));
                    let k = choose|k: int|
                        0 <= k < prefix.len() && prefix[k] == RegistryOp::Insert(x) && (forall|
                            j: int,
                        | k < j < prefix.len() ==> prefix[j] != RegistryOp::Remove(x));
                    assert(ops[k] == RegistryOp::Insert(x));
                    assert forall|j: int| k < j < ops.len() implies ops[j] != RegistryOp::Remove(
                        x,
                    ) by {
                        if j < ops.len() - 1 {
                            assert(ops[j] == prefix[j]);
                        } else {
                            assert(ops[j] == RegistryOp::Remove(i));
                        }
                    }
                }
                assert(apply_ops(Set::<u128>::empty(), ops) =~= admitted_not_removed(ops));
            },
        }
    }
}

} // verus!
