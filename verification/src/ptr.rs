//! Reverse authorities: one per distinct subnet among the listening
//! addresses, each answering only for addresses of its own subnet.

use vstd::prelude::*;
use crate::ip::{Cidr, Ip};
use crate::record::name_wf;

verus! {

/// One reverse mapping: an address and the forward name it resolves to.
#[derive(Debug)]
pub struct PtrEntry {
    pub addr: Ip,
    pub name: Vec<Vec<u8>>,
}

/// Spec-level value of [`PtrEntry`].
pub ghost struct PtrEntryModel {
    pub addr: Ip,
    pub name: Seq<Seq<u8>>,
}

impl View for PtrEntry {
    type V = PtrEntryModel;

    open spec fn view(&self) -> PtrEntryModel {
        PtrEntryModel { addr: self.addr, name: self.name.deep_view() }
    }
}

impl DeepView for PtrEntry {
    type V = PtrEntryModel;

    open spec fn deep_view(&self) -> PtrEntryModel {
        self.view()
    }
}

/// Spec-level state of a [`PtrAuthority`].
pub ghost struct PtrModel {
    pub subnet: Cidr,
    pub entries: Seq<PtrEntryModel>,
}

impl PtrModel {
    /// The subnet key is masked, and every held entry lies inside it.
    pub open spec fn wf(self) -> bool {
        &&& self.subnet.wf()
        &&& self.subnet == self.subnet.subnet_spec()
        &&& self.entries.len() <= 0xffff
        &&& forall|i: int|
            0 <= i < self.entries.len() ==> self.subnet.contains_ip(
                (#[trigger] self.entries[i]).addr,
            ) && name_wf(self.entries[i].name)
    }
}

/// The names an address reverse-resolves to out of one snapshot.
pub open spec fn spec_ptr_lookup(m: PtrModel, a: Ip) -> Seq<Seq<Seq<u8>>> {
    m.entries.filter(|e: PtrEntryModel| e.addr == a).map_values(|e: PtrEntryModel| e.name)
}

/// The reverse authority of one subnet, following the same wholesale
/// replace / read-only lookup discipline as the forward zone.
pub struct PtrAuthority {
    pub subnet: Cidr,
    pub entries: Vec<PtrEntry>,
}

impl View for PtrAuthority {
    type V = PtrModel;

    open spec fn view(&self) -> PtrModel {
        PtrModel { subnet: self.subnet, entries: self.entries.deep_view() }
    }
}

impl DeepView for PtrAuthority {
    type V = PtrModel;

    open spec fn deep_view(&self) -> PtrModel {
        self.view()
    }
}

impl PtrAuthority {
    /// A fresh, empty authority for the subnet of `c`.
    pub fn new(c: &Cidr) -> (r: PtrAuthority)
        requires
            c.wf(),
        ensures
            r@.subnet == c.subnet_spec(),
            r@.entries == Seq::<PtrEntryModel>::empty(),
            r@.wf(),
    {
        let entries: Vec<PtrEntry> = Vec::new();
        proof {
            c.lemma_subnet_idempotent();
            assert(entries.deep_view() =~= Seq::<PtrEntryModel>::empty());
        }
        PtrAuthority { subnet: c.subnet(), entries }
    }

    /// Installs a whole new entry set in one step, keeping only the entries
    /// that lie in this authority's subnet.
    pub fn replace(&mut self, entries: Vec<PtrEntry>)
        requires
            old(self)@.wf(),
            entries.deep_view().len() <= 0xffff,
            forall|i: int|
                0 <= i < entries.deep_view().len() ==> name_wf(
                    (#[trigger] entries.deep_view()[i]).name,
                ),
        ensures
            final(self)@.subnet == old(self)@.subnet,
            final(self)@.entries == entries.deep_view().filter(
                |e: PtrEntryModel| old(self)@.subnet.contains_ip(e.addr),
            ),
            final(self)@.wf(),
    {
        let ghost pred = |e: PtrEntryModel| old(self)@.subnet.contains_ip(e.addr);
        let mut kept: Vec<PtrEntry> = Vec::new();
        let mut i: usize = 0;
        proof {
            assert(entries.deep_view().take(0) =~= Seq::<PtrEntryModel>::empty());
            assert(kept.deep_view() =~= Seq::<PtrEntryModel>::empty());
            reveal(Seq::filter);
        }
        while i < entries.len()
            invariant
                i <= entries.len(),
                entries@.len() == entries.deep_view().len(),
                self == old(self),
                self@.wf(),
                kept.deep_view() == entries.deep_view().take(i as int).filter(pred),
                pred == (|e: PtrEntryModel| old(self)@.subnet.contains_ip(e.addr)),
                forall|j: int|
                    0 <= j < entries.deep_view().len() ==> name_wf(
                        (#[trigger] entries.deep_view()[j]).name,
                    ),
            decreases entries.len() - i,
        {
            let e = &entries[i];
            proof {
                assert(entries.deep_view()[i as int] == entries@[i as int].deep_view());
            }
            if self.subnet.contains(&e.addr) {
                let ghost pre = kept.deep_view();
                kept.push(PtrEntry { addr: e.addr, name: crate::record::copy_name(&e.name) });
                proof {
                    assert(kept.deep_view() =~= pre.push(entries.deep_view()[i as int]));
                }
            }
            i = i + 1;
            proof {
                let dv = entries.deep_view();
                let j = i - 1;
                assert(dv.take(j + 1) =~= dv.take(j).push(dv[j]));
                dv.take(j).lemma_filter_push(dv[j], pred);
            }
        }
        proof {
            let dv = entries.deep_view();
            assert(dv.take(dv.len() as int) =~= dv);
            let filtered = dv.filter(pred);
            dv.lemma_filter_len(pred);
            assert forall|k: int|
                0 <= k < filtered.len() implies old(self)@.subnet.contains_ip(filtered[k].addr)
                && name_wf(filtered[k].name) by {
                dv.lemma_filter_pred(pred, k);
                assert(filtered.contains(filtered[k]));
                dv.lemma_filter_contains_rev(pred, filtered[k]);
                let j = choose|j: int| 0 <= j < dv.len() && dv[j] == filtered[k];
                assert(name_wf(dv[j].name));
            }
        }
        self.entries = kept;
    }

    /// The forward names the address reverse-resolves to; empty whenever
    /// the address is outside this authority's subnet.
    pub fn lookup(&self, a: &Ip) -> (r: Vec<Vec<Vec<u8>>>)
        ensures
            r.deep_view() == spec_ptr_lookup(self@, *a),
    {
        let ghost pred = |e: PtrEntryModel| e.addr == *a;
        let ghost f = |e: PtrEntryModel| e.name;
        let mut out: Vec<Vec<Vec<u8>>> = Vec::new();
        let mut i: usize = 0;
        proof {
            assert(self.entries.deep_view().take(0) =~= Seq::<PtrEntryModel>::empty());
            assert(out.deep_view() =~= Seq::<Seq<Seq<u8>>>::empty());
            reveal(Seq::filter);
            assert(Seq::<PtrEntryModel>::empty().filter(pred).map_values(f)
                =~= Seq::<Seq<Seq<u8>>>::empty());
        }
        while i < self.entries.len()
            invariant
                i <= self.entries.len(),
                self.entries@.len() == self.entries.deep_view().len(),
                out.deep_view() == self.entries.deep_view().take(i as int).filter(
                    pred,
                ).map_values(f),
                pred == (|e: PtrEntryModel| e.addr == *a),
                f == (|e: PtrEntryModel| e.name),
            decreases self.entries.len() - i,
        {
            let e = &self.entries[i];
            proof {
                assert(self.entries.deep_view()[i as int] == self.entries@[i as int].deep_view());
            }
            if e.addr == *a {
                let ghost pre = out.deep_view();
                out.push(crate::record::copy_name(&e.name));
                proof {
                    assert(out.deep_view() =~= pre.push(
                        self.entries.deep_view()[i as int].name,
                    ));
                }
            }
            i = i + 1;
            proof {
                let dv = self.entries.deep_view();
                let j = i - 1;
                assert(dv.take(j + 1) =~= dv.take(j).push(dv[j]));
                dv.take(j).lemma_filter_push(dv[j], pred);
                if pred(dv[j]) {
                    assert(dv.take(i as int).filter(pred).map_values(f)
                        =~= dv.take(j).filter(pred).map_values(f).push(f(dv[j])));
                } else {
                    assert(dv.take(i as int).filter(pred).map_values(f)
                        =~= dv.take(j).filter(pred).map_values(f));
                }
            }
        }
        proof {
            let dv = self.entries.deep_view();
            assert(dv.take(dv.len() as int) =~= dv);
        }
        out
    }
}

/// A reverse query for an address outside an authority's subnet answers
/// empty: records of another subnet can never leak through this authority.
pub proof fn lemma_subnet_isolation(m: PtrModel, a: Ip)
    requires
        m.wf(),
        !m.subnet.contains_ip(a),
    ensures
        spec_ptr_lookup(m, a).len() == 0,
{
    let pred = |e: PtrEntryModel| e.addr == a;
    assert forall|i: int| 0 <= i < m.entries.len() implies !pred(m.entries[i]) by {
        assert(m.subnet.contains_ip(m.entries[i].addr));
    }
    assert(m.entries.all(|e: PtrEntryModel| !pred(e)));
    m.entries.lemma_all_neg_filter_empty(pred);
}

/// The set of reverse authorities: exactly one per distinct subnet seen
/// among the node's listening addresses.
pub struct PtrAuthoritySet {
    pub auths: Vec<PtrAuthority>,
}

impl PtrAuthoritySet {
    /// Every held authority is well formed, and no two share a subnet.
    pub open spec fn wf(self) -> bool {
        &&& forall|i: int| 0 <= i < self.auths@.len() ==> (#[trigger] self.auths@[i])@.wf()
        &&& forall|i: int, j: int|
            0 <= i < j < self.auths@.len() ==> (#[trigger] self.auths@[i])@.subnet != (
            #[trigger] self.auths@[j])@.subnet
    }

    pub fn new() -> (r: PtrAuthoritySet)
        ensures
            r.wf(),
            r.auths@.len() == 0,
    {
        PtrAuthoritySet { auths: Vec::new() }
    }

    /// The index of the authority holding this subnet key, if any.
    pub fn find(&self, key: &Cidr) -> (r: Option<usize>)
        ensures
            match r {
                Some(i) => i < self.auths@.len() && self.auths@[i as int]@.subnet == *key,
                None => forall|i: int|
                    0 <= i < self.auths@.len() ==> (#[trigger] self.auths@[i])@.subnet != *key,
            },
    {
        let mut i: usize = 0;
        while i < self.auths.len()
            invariant
                i <= self.auths@.len(),
                forall|j: int|
                    0 <= j < i ==> (#[trigger] self.auths@[j])@.subnet != *key,
            decreases self.auths.len() - i,
        {
            if self.auths[i].subnet == *key {
                return Some(i);
            }
            i = i + 1;
        }
        None
    }

    /// Registers the subnet of `c`, reusing the existing authority if the
    /// subnet was already discovered; returns the authority's index.
    pub fn register(&mut self, c: &Cidr) -> (idx: usize)
        requires
            old(self).wf(),
            c.wf(),
            old(self).auths@.len() < usize::MAX,
        ensures
            final(self).wf(),
            idx < final(self).auths@.len(),
            final(self).auths@[idx as int]@.subnet == c.subnet_spec(),
            (exists|i: int|
                0 <= i < old(self).auths@.len() && (#[trigger] old(self).auths@[i])@.subnet
                    == c.subnet_spec()) ==> *final(self) == *old(self),
            !(exists|i: int|
                0 <= i < old(self).auths@.len() && (#[trigger] old(self).auths@[i])@.subnet
                    == c.subnet_spec()) ==> {
                &&& final(self).auths@.len() == old(self).auths@.len() + 1
                &&& idx == old(self).auths@.len()
                &&& forall|i: int|
                    0 <= i < old(self).auths@.len() ==> final(self).auths@[i] == old(
                        self,
                    ).auths@[i]
                &&& final(self).auths@[idx as int]@.entries
                    == Seq::<PtrEntryModel>::empty()
            },
    {
        let key = c.subnet();
        let found = self.find(&key);
        match found {
            Some(i) => i,
            None => {
                let idx = self.auths.len();
                let fresh = PtrAuthority::new(c);
                proof {
                    c.lemma_subnet_idempotent();
                }
                self.auths.push(fresh);
                idx
            },
        }
    }
}

} // verus!
