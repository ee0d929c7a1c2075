//! The forward-zone authority: a queryable record set replaced wholesale.

use vstd::prelude::*;
use crate::record::{name_wf, Record, RecordModel};

verus! {

broadcast use vstd::seq_lib::group_filter_ensures;

/// Spec-level state of a [`ZoneAuthority`].
pub ghost struct ZoneModel {
    pub domain: Seq<Seq<u8>>,
    pub wildcard: bool,
    pub records: Seq<RecordModel>,
}

/// The record answers this name and type.
pub open spec fn spec_matches(r: RecordModel, name: Seq<Seq<u8>>, qtype: u16) -> bool {
    r.name == name && crate::record::qtype_of(r.data) == qtype
}

/// The name under which catch-all records are stored in wildcard mode.
pub open spec fn wildcard_name(domain: Seq<Seq<u8>>) -> Seq<Seq<u8>> {
    seq![seq![42u8]] + domain
}

/// The name has at least one label of its own in front of the domain.
pub open spec fn strictly_under(name: Seq<Seq<u8>>, domain: Seq<Seq<u8>>) -> bool {
    name.len() > domain.len() && name.subrange(
        name.len() - domain.len(),
        name.len() as int,
    ) == domain
}

impl ZoneModel {
    pub open spec fn wf(self) -> bool {
        &&& name_wf(self.domain)
        &&& self.domain.len() <= 64
        &&& self.records.len() <= 0xffff
        &&& forall|i: int| 0 <= i < self.records.len() ==> (#[trigger] self.records[i]).wf()
    }
}

/// What a lookup answers out of one zone snapshot: the records matching the
/// name and type exactly; in wildcard mode a name below the domain with no
/// exact match is answered from the catch-all name instead.
pub open spec fn spec_lookup(z: ZoneModel, name: Seq<Seq<u8>>, qtype: u16) -> Seq<RecordModel> {
    let exact = z.records.filter(|r: RecordModel| spec_matches(r, name, qtype));
    if exact.len() == 0 && z.wildcard && strictly_under(name, z.domain) {
        z.records.filter(|r: RecordModel| spec_matches(r, wildcard_name(z.domain), qtype))
    } else {
        exact
    }
}

/// Owns the forward record set for one network and subnet. Lookups read the
/// current snapshot; `replace` installs a whole new one in a single step.
pub struct ZoneAuthority {
    pub domain: Vec<Vec<u8>>,
    pub wildcard: bool,
    pub records: Vec<Record>,
}

impl View for ZoneAuthority {
    type V = ZoneModel;

    open spec fn view(&self) -> ZoneModel {
        ZoneModel {
            domain: self.domain.deep_view(),
            wildcard: self.wildcard,
            records: self.records.deep_view(),
        }
    }
}

/// The records of `v` matching `name` and `qtype`, as fresh copies.
fn collect_matching(v: &Vec<Record>, target: &Vec<Vec<u8>>, qtype: u16) -> (r: Vec<Record>)
    ensures
        r.deep_view() == v.deep_view().filter(
            |rm: RecordModel| spec_matches(rm, target.deep_view(), qtype),
        ),
{
    let ghost pred = |rm: RecordModel| spec_matches(rm, target.deep_view(), qtype);
    let mut out: Vec<Record> = Vec::new();
    let mut i: usize = 0;
    proof {
        assert(v.deep_view().take(0) =~= Seq::<RecordModel>::empty());
        assert(out.deep_view() =~= Seq::<RecordModel>::empty());
        reveal(Seq::filter);
    }
    while i < v.len()
        invariant
            i <= v.len(),
            v@.len() == v.deep_view().len(),
            out.deep_view() == v.deep_view().take(i as int).filter(pred),
            pred == (|rm: RecordModel| spec_matches(rm, target.deep_view(), qtype)),
        decreases v.len() - i,
    {
        let rec = &v[i];
        proof {
            assert(v.deep_view()[i as int] == v@[i as int].deep_view());
        }
        let qt = match &rec.data {
            crate::record::RecordData::A(_) => crate::record::QTYPE_A,
            crate::record::RecordData::Aaaa(_) => crate::record::QTYPE_AAAA,
            crate::record::RecordData::Ptr(_) => crate::record::QTYPE_PTR,
        };
        let keep = qt == qtype && crate::record::names_eq(&rec.name, target);
        proof {
            assert(keep == pred(v.deep_view()[i as int]));
        }
        if keep {
            let ghost pre = out.deep_view();
            out.push(rec.duplicate());
            proof {
                assert(out.deep_view() =~= pre.push(v.deep_view()[i as int]));
            }
        }
        i = i + 1;
        proof {
            let dv = v.deep_view();
            let j = i - 1;
            assert(dv.take(j + 1) =~= dv.take(j).push(dv[j]));
            dv.take(j).lemma_filter_push(dv[j], pred);
            assert(out.deep_view() == dv.take(i as int).filter(pred));
        }
    }
    proof {
        assert(v.deep_view().take(v.deep_view().len() as int) =~= v.deep_view());
    }
    out
}

/// The query name lies strictly below the domain: it ends with the domain's
/// labels and has at least one more in front.
pub fn name_strictly_under(name: &Vec<Vec<u8>>, domain: &Vec<Vec<u8>>) -> (r: bool)
    ensures
        r == strictly_under(name.deep_view(), domain.deep_view()),
{
    if name.len() <= domain.len() {
        return false;
    }
    let off: usize = name.len() - domain.len();
    let mut idx: usize = off;
    while idx < name.len()
        invariant
            off <= idx <= name@.len(),
            name@.len() == name.deep_view().len(),
            domain@.len() == domain.deep_view().len(),
            off == name@.len() - domain@.len(),
            name@.len() > domain@.len(),
            forall|j: int|
                0 <= j < idx - off ==> name.deep_view()[off + j] == domain.deep_view()[j],
        decreases name.len() - idx,
    {
        if !crate::record::bytes_eq(&name[idx], &domain[idx - off]) {
            proof {
                let i = idx - off;
                assert(name.deep_view()[idx as int] == name@[idx as int]@);
                assert(domain.deep_view()[i as int] == domain@[i as int]@);
                assert(name.deep_view().subrange(
                    off as int,
                    name.deep_view().len() as int,
                )[i as int] == name.deep_view()[off + i]);
            }
            return false;
        }
        idx = idx + 1;
        proof {
            assert(name.deep_view()[idx - 1] == name@[idx - 1]@);
            assert(domain.deep_view()[idx - 1 - off] == domain@[idx - 1 - off]@);
        }
    }
    proof {
        assert(name.deep_view().subrange(off as int, name.deep_view().len() as int)
            =~= domain.deep_view());
    }
    true
}

impl ZoneAuthority {
    /// A fresh authority with no records; the wildcard flag is fixed here
    /// for the life of the authority.
    pub fn new(domain: Vec<Vec<u8>>, wildcard: bool) -> (r: ZoneAuthority)
        requires
            name_wf(domain.deep_view()),
            domain.deep_view().len() <= 64,
        ensures
            r@.domain == domain.deep_view(),
            r@.wildcard == wildcard,
            r@.records == Seq::<RecordModel>::empty(),
            r@.wf(),
    {
        let records: Vec<Record> = Vec::new();
        proof {
            assert(records.deep_view() =~= Seq::<RecordModel>::empty());
        }
        ZoneAuthority { domain, wildcard, records }
    }

    /// Installs a whole new record set in one step; the previous snapshot
    /// is discarded entire, never patched.
    pub fn replace(&mut self, recs: Vec<Record>)
        requires
            old(self)@.wf(),
            recs.deep_view().len() <= 0xffff,
            forall|i: int|
                0 <= i < recs.deep_view().len() ==> (#[trigger] recs.deep_view()[i]).wf(),
        ensures
            final(self)@.records == recs.deep_view(),
            final(self)@.domain == old(self)@.domain,
            final(self)@.wildcard == old(self)@.wildcard,
            final(self)@.wf(),
    {
        self.records = recs;
    }

    /// Point lookup: zero or more records, never a fault; an unknown name
    /// answers empty.
    pub fn lookup(&self, name: &Vec<Vec<u8>>, qtype: u16) -> (r: Vec<Record>)
        ensures
            r.deep_view() == spec_lookup(self@, name.deep_view(), qtype),
    {
        let exact = collect_matching(&self.records, name, qtype);
        if exact.len() == 0 && self.wildcard && name_strictly_under(name, &self.domain) {
            let mut wname: Vec<Vec<u8>> = Vec::new();
            wname.push(vec![42u8]);
            let mut i: usize = 0;
            while i < self.domain.len()
                invariant
                    i <= self.domain.len(),
                    self.domain@.len() == self.domain.deep_view().len(),
                    wname@.len() == i + 1,
                    wname@[0]@ == seq![42u8],
                    forall|j: int| 0 <= j < i ==> wname@[j + 1]@ == self.domain.deep_view()[j],
                decreases self.domain.len() - i,
            {
                wname.push(crate::record::copy_bytes(&self.domain[i]));
                i = i + 1;
                proof {
                    assert(self.domain.deep_view()[i - 1] == self.domain@[i - 1]@);
                }
            }
            proof {
                assert forall|j: int| 0 <= j < wname@.len() implies wname.deep_view()[j]
                    == wildcard_name(self@.domain)[j] by {
                    assert(wname.deep_view()[j] == wname@[j]@);
                }
                assert(wname.deep_view() =~= wildcard_name(self@.domain));
                assert(exact.deep_view().len() == 0);
            }
            collect_matching(&self.records, &wname, qtype)
        } else {
            proof {
                if !(exact.len() == 0 && self.wildcard
                    && strictly_under(name.deep_view(), self@.domain)) {
                    assert(exact.deep_view().len() == exact@.len());
                }
            }
            exact
        }
    }
}

/// Two authorities holding the same snapshot answer every query alike: a
/// lookup is a function of the installed record set, domain and wildcard
/// flag alone. Since `replace` installs a record set whole, a lookup that
/// runs before or after it answers from the entire old or the entire new
/// set — there is no state in which a mixture is visible.
pub proof fn lemma_lookup_reads_one_snapshot(
    z1: ZoneModel,
    z2: ZoneModel,
    name: Seq<Seq<u8>>,
    qtype: u16,
)
    requires
        z1.records == z2.records,
        z1.domain == z2.domain,
        z1.wildcard == z2.wildcard,
    ensures
        spec_lookup(z1, name, qtype) == spec_lookup(z2, name, qtype),
{
    assert(z1 == z2);
}

/// Every answered record is drawn from the installed snapshot: a lookup
/// can never surface a record outside the set `replace` put in.
pub proof fn lemma_lookup_within_snapshot(z: ZoneModel, name: Seq<Seq<u8>>, qtype: u16)
    ensures
        forall|i: int|
            0 <= i < spec_lookup(z, name, qtype).len() ==> z.records.contains(
                #[trigger] spec_lookup(z, name, qtype)[i],
            ),
{
    let out = spec_lookup(z, name, qtype);
    assert forall|i: int| 0 <= i < out.len() implies z.records.contains(out[i]) by {
        let exact = z.records.filter(|r: RecordModel| spec_matches(r, name, qtype));
        if exact.len() == 0 && z.wildcard && strictly_under(name, z.domain) {
            let p = |r: RecordModel| spec_matches(r, wildcard_name(z.domain), qtype);
            assert(z.records.filter(p).contains(out[i]));
            z.records.lemma_filter_contains_rev(p, out[i]);
        } else {
            let p = |r: RecordModel| spec_matches(r, name, qtype);
            assert(z.records.filter(p).contains(out[i]));
            z.records.lemma_filter_contains_rev(p, out[i]);
        }
    }
}

} // verus!
