//! The refresh step: resolving fetched members, deriving forward and
//! reverse records, and installing them wholesale into the authorities.

use vstd::prelude::*;
use crate::hostname::{assign_names, candidate_spec, taken_before};
use crate::ip::{cidr_of_text, parse_cidr, Ip};
use crate::ptr::{PtrAuthority, PtrEntry, PtrEntryModel};
use crate::record::{
    data_of_ip, eligible, name_wf, valid_label, Member, MemberModel, Record, RecordData,
    RecordModel, RECORD_TTL,
};
use crate::zone::ZoneAuthority;

verus! {

/// A member as fetched from the membership service: addresses still in
/// the textual address/prefix form the service hands out.
pub struct RawMember {
    pub id: Vec<u8>,
    pub display: Vec<u8>,
    pub addrs: Vec<String>,
    pub online: bool,
}

/// The usable addresses among the fetched address texts: those the
/// address parser accepts, in order.
pub open spec fn usable_addrs(ss: Seq<Seq<char>>) -> Seq<Ip> {
    ss.filter_map(
        |s: Seq<char>|
            match cidr_of_text(s) {
                Some(c) => Some(c.ip),
                None => None,
            },
    )
}

/// Parses one member's address texts, dropping the unusable ones.
fn resolve_addrs(v: &Vec<String>) -> (r: Vec<Ip>)
    ensures
        r@ == usable_addrs(v.deep_view()),
{
    let ghost f = |s: Seq<char>|
        match cidr_of_text(s) {
            Some(c) => Some(c.ip),
            None => None,
        };
    let mut out: Vec<Ip> = Vec::new();
    let mut i: usize = 0;
    proof {
        assert(v.deep_view().take(0) =~= Seq::<Seq<char>>::empty());
        assert(Seq::<Seq<char>>::empty().filter_map(f) =~= Seq::<Ip>::empty());
        assert(out@ =~= Seq::<Ip>::empty());
    }
    while i < v.len()
        invariant
            i <= v@.len(),
            v@.len() == v.deep_view().len(),
            out@ == v.deep_view().take(i as int).filter_map(f),
            f == (|s: Seq<char>|
                match cidr_of_text(s) {
                    Some(c) => Some(c.ip),
                    None => None,
                }),
        decreases v.len() - i,
    {
        let parsed = parse_cidr(v[i].as_str());
        proof {
            assert(v.deep_view()[i as int] == v@[i as int]@);
        }
        match parsed {
            Some(c) => {
                out.push(c.ip);
            },
            None => {},
        }
        i = i + 1;
        proof {
            let dv = v.deep_view();
            let j = i - 1;
            assert(dv.take(j + 1).drop_last() =~= dv.take(j));
            assert(dv.take(j + 1).last() == dv[j]);
            assert(dv.take(j + 1).len() > 0);
            match f(dv[j]) {
                Some(x) => {
                    assert(dv.take(j + 1).filter_map(f) == dv.take(j).filter_map(f) + seq![x]);
                    assert(out@ =~= dv.take(j).filter_map(f) + seq![x]);
                },
                None => {
                    assert(dv.take(j + 1).filter_map(f) == dv.take(j).filter_map(f));
                },
            }
        }
    }
    proof {
        assert(v.deep_view().take(v.deep_view().len() as int) =~= v.deep_view());
    }
    out
}

/// Resolves a fetched member list into the plain form the refresh step
/// computes over: identifiers, display names and online flags carried
/// through, address texts parsed and the unusable ones dropped.
pub fn resolve_members(raw: Vec<RawMember>) -> (r: Vec<Member>)
    ensures
        r@.len() == raw@.len(),
        forall|i: int|
            0 <= i < raw@.len() ==> {
                &&& (#[trigger] r.deep_view()[i]).id == raw@[i].id@
                &&& r.deep_view()[i].display == raw@[i].display@
                &&& r.deep_view()[i].online == raw@[i].online
                &&& r.deep_view()[i].addrs == usable_addrs(raw@[i].addrs.deep_view())
            },
{
    let mut out: Vec<Member> = Vec::new();
    let mut i: usize = 0;
    while i < raw.len()
        invariant
            i <= raw@.len(),
            out@.len() == i,
            forall|j: int|
                0 <= j < i ==> {
                    &&& (#[trigger] out.deep_view()[j]).id == raw@[j].id@
                    &&& out.deep_view()[j].display == raw@[j].display@
                    &&& out.deep_view()[j].online == raw@[j].online
                    &&& out.deep_view()[j].addrs == usable_addrs(raw@[j].addrs.deep_view())
                },
        decreases raw.len() - i,
    {
        let rm = &raw[i];
        let m = Member {
            id: crate::record::copy_bytes(&rm.id),
            display: crate::record::copy_bytes(&rm.display),
            addrs: resolve_addrs(&rm.addrs),
            online: rm.online,
        };
        proof {
            assert(m@.id == raw@[i as int].id@);
            assert(m@.display == raw@[i as int].display@);
            assert(m@.online == raw@[i as int].online);
            assert(m@.addrs == usable_addrs(raw@[i as int].addrs.deep_view()));
        }
        let ghost pre = out.deep_view();
        let ghost mm = m@;
        out.push(m);
        i = i + 1;
        proof {
            assert forall|j: int|
                0 <= j < i implies {
                &&& (#[trigger] out.deep_view()[j]).id == raw@[j].id@
                &&& out.deep_view()[j].display == raw@[j].display@
                &&& out.deep_view()[j].online == raw@[j].online
                &&& out.deep_view()[j].addrs == usable_addrs(raw@[j].addrs.deep_view())
            } by {
                assert(out.deep_view()[j] == out@[j]@);
                if j < i - 1 {
                    assert(pre[j] == out@[j]@);
                    assert(pre[j].id == raw@[j].id@);
                } else {
                    assert(out@[j]@ == mm);
                }
            }
        }
    }
    out
}

/// The full name of a member label under the zone's domain.
pub open spec fn fqdn(label: Seq<u8>, domain: Seq<Seq<u8>>) -> Seq<Seq<u8>> {
    seq![label] + domain
}

/// The forward records of one named member: one per address.
pub open spec fn member_records(m: MemberModel, label: Seq<u8>, domain: Seq<Seq<u8>>) -> Seq<
    RecordModel,
> {
    m.addrs.map_values(
        |a: Ip| RecordModel { name: fqdn(label, domain), data: data_of_ip(a), ttl: RECORD_TTL },
    )
}

/// The reverse entries of one named member: one per address.
pub open spec fn member_ptr_entries(m: MemberModel, label: Seq<u8>, domain: Seq<Seq<u8>>) -> Seq<
    PtrEntryModel,
> {
    m.addrs.map_values(|a: Ip| PtrEntryModel { addr: a, name: fqdn(label, domain) })
}

/// All forward records derived from a snapshot under an assignment of
/// names: the records of each named member, in member order.
pub open spec fn members_forward(
    ms: Seq<MemberModel>,
    nv: Seq<Option<Seq<u8>>>,
    domain: Seq<Seq<u8>>,
) -> Seq<RecordModel>
    decreases ms.len(),
{
    if ms.len() == 0 {
        Seq::empty()
    } else {
        members_forward(ms.drop_last(), nv.drop_last(), domain) + (match nv[ms.len() - 1] {
            Some(l) => member_records(ms.last(), l, domain),
            None => Seq::empty(),
        })
    }
}

/// All reverse entries derived from a snapshot under an assignment.
pub open spec fn members_ptr(
    ms: Seq<MemberModel>,
    nv: Seq<Option<Seq<u8>>>,
    domain: Seq<Seq<u8>>,
) -> Seq<PtrEntryModel>
    decreases ms.len(),
{
    if ms.len() == 0 {
        Seq::empty()
    } else {
        members_ptr(ms.drop_last(), nv.drop_last(), domain) + (match nv[ms.len() - 1] {
            Some(l) => member_ptr_entries(ms.last(), l, domain),
            None => Seq::empty(),
        })
    }
}

/// The catch-all records of wildcard mode: every eligible member's
/// addresses under the one synthesized name.
pub open spec fn wildcard_records(ms: Seq<MemberModel>, domain: Seq<Seq<u8>>) -> Seq<RecordModel>
    decreases ms.len(),
{
    if ms.len() == 0 {
        Seq::empty()
    } else {
        wildcard_records(ms.drop_last(), domain) + (if eligible(ms.last()) {
            member_records(ms.last(), seq![42u8], domain)
        } else {
            Seq::empty()
        })
    }
}

/// The whole forward record set of one refresh: the static hosts entries
/// first, then the member records, then the catch-all records when
/// wildcard mode is on. Static entries and member records are simply
/// united; a name served by both answers with both record sets.
pub open spec fn spec_zone_records(
    hosts: Seq<RecordModel>,
    ms: Seq<MemberModel>,
    nv: Seq<Option<Seq<u8>>>,
    domain: Seq<Seq<u8>>,
    wildcard: bool,
) -> Seq<RecordModel> {
    hosts + members_forward(ms, nv, domain) + (if wildcard {
        wildcard_records(ms, domain)
    } else {
        Seq::empty()
    })
}

/// Builds the full name of a member label under the domain.
pub fn make_fqdn(label: &Vec<u8>, domain: &Vec<Vec<u8>>) -> (r: Vec<Vec<u8>>)
    ensures
        r.deep_view() == fqdn(label@, domain.deep_view()),
{
    let mut r: Vec<Vec<u8>> = Vec::new();
    r.push(crate::record::copy_bytes(label));
    let mut i: usize = 0;
    while i < domain.len()
        invariant
            i <= domain@.len(),
            domain@.len() == domain.deep_view().len(),
            r@.len() == i + 1,
            r@[0]@ == label@,
            forall|j: int| 0 <= j < i ==> r@[j + 1]@ == domain.deep_view()[j],
        decreases domain.len() - i,
    {
        r.push(crate::record::copy_bytes(&domain[i]));
        i = i + 1;
        proof {
            assert(domain.deep_view()[i - 1] == domain@[i - 1]@);
        }
    }
    proof {
        assert forall|j: int| 0 <= j < r@.len() implies r.deep_view()[j] == fqdn(
            label@,
            domain.deep_view(),
        )[j] by {
            assert(r.deep_view()[j] == r@[j]@);
        }
        assert(r.deep_view() =~= fqdn(label@, domain.deep_view()));
    }
    r
}

/// Derives the whole forward record set of one tick: static hosts
/// entries, the records of each named member, and in wildcard mode the
/// catch-all records.
pub fn build_forward(
    members: &Vec<Member>,
    names: &Vec<Option<Vec<u8>>>,
    domain: &Vec<Vec<u8>>,
    wildcard: bool,
    hosts: &Vec<Record>,
) -> (r: Vec<Record>)
    requires
        names.deep_view().len() == members.deep_view().len(),
        names@.len() == members@.len(),
        name_wf(domain.deep_view()),
        domain.deep_view().len() <= 64,
        forall|i: int|
            0 <= i < names.deep_view().len() && names.deep_view()[i] is Some ==> valid_label(
                (#[trigger] names.deep_view()[i]).unwrap(),
            ),
        forall|i: int|
            0 <= i < hosts.deep_view().len() ==> (#[trigger] hosts.deep_view()[i]).wf(),
    ensures
        r.deep_view() == spec_zone_records(
            hosts.deep_view(),
            members.deep_view(),
            names.deep_view(),
            domain.deep_view(),
            wildcard,
        ),
        forall|i: int| 0 <= i < r.deep_view().len() ==> (#[trigger] r.deep_view()[i]).wf(),
{
    let ghost mdv = members.deep_view();
    let ghost ndv = names.deep_view();
    let ghost dd = domain.deep_view();
    let mut out: Vec<Record> = Vec::new();
    let mut h: usize = 0;
    while h < hosts.len()
        invariant
            h <= hosts@.len(),
            hosts@.len() == hosts.deep_view().len(),
            out.deep_view() == hosts.deep_view().take(h as int),
            forall|i: int|
                0 <= i < hosts.deep_view().len() ==> (#[trigger] hosts.deep_view()[i]).wf(),
        decreases hosts.len() - h,
    {
        let ghost pre = out.deep_view();
        out.push(hosts[h].duplicate());
        h = h + 1;
        proof {
            assert(hosts.deep_view()[h - 1] == hosts@[h - 1]@);
            assert(out.deep_view() =~= pre.push(hosts.deep_view()[h - 1]));
            assert(out.deep_view() =~= hosts.deep_view().take(h as int));
        }
    }
    proof {
        assert(hosts.deep_view().take(hosts.deep_view().len() as int) =~= hosts.deep_view());
    }
    let mut i: usize = 0;
    while i < members.len()
        invariant
            i <= members@.len(),
            members@.len() == mdv.len(),
            names@.len() == members@.len(),
            ndv.len() == mdv.len(),
            mdv == members.deep_view(),
            ndv == names.deep_view(),
            dd == domain.deep_view(),
            name_wf(dd),
            dd.len() <= 64,
            forall|j: int|
                0 <= j < ndv.len() && ndv[j] is Some ==> valid_label(
                    (#[trigger] ndv[j]).unwrap(),
                ),
            out.deep_view() == hosts.deep_view() + members_forward(
                mdv.take(i as int),
                ndv.take(i as int),
                dd,
            ),
            forall|j: int|
                0 <= j < out.deep_view().len() ==> (#[trigger] out.deep_view()[j]).wf(),
        decreases members.len() - i,
    {
        match &names[i] {
            Some(label) => {
                proof {
                    assert(ndv[i as int] == names@[i as int].deep_view());
                    assert(ndv[i as int] == Some(label@));
                }
                let name = make_fqdn(label, domain);
                proof {
                    assert(name_wf(name.deep_view())) by {
                        assert forall|j: int|
                            0 <= j < name.deep_view().len() implies crate::record::valid_label(
                            #[trigger] name.deep_view()[j],
                        ) by {
                            if j > 0 {
                                assert(name.deep_view()[j] == dd[j - 1]);
                            }
                        }
                    }
                }
                let m = &members[i];
                proof {
                    assert(mdv[i as int] == members@[i as int]@);
                }
                let mut a: usize = 0;
                while a < m.addrs.len()
                    invariant
                        a <= m.addrs@.len(),
                        mdv == members.deep_view(),
                        ndv == names.deep_view(),
                        dd == domain.deep_view(),
                        0 <= i < mdv.len(),
                        m == members@[i as int],
                        mdv[i as int] == members@[i as int]@,
                        ndv[i as int] == Some(name.deep_view().first()),
                        name.deep_view() == fqdn(ndv[i as int].unwrap(), dd),
                        name_wf(name.deep_view()),
                        out.deep_view() == hosts.deep_view() + members_forward(
                            mdv.take(i as int),
                            ndv.take(i as int),
                            dd,
                        ) + member_records(
                            mdv[i as int],
                            ndv[i as int].unwrap(),
                            dd,
                        ).take(a as int),
                        forall|j: int|
                            0 <= j < out.deep_view().len() ==> (
                            #[trigger] out.deep_view()[j]).wf(),
                    decreases m.addrs.len() - a,
                {
                    let data = match &m.addrs[a] {
                        Ip::V4(v) => RecordData::A(*v),
                        Ip::V6(v) => RecordData::Aaaa(*v),
                    };
                    let rec = Record {
                        name: crate::record::copy_name(&name),
                        data,
                        ttl: RECORD_TTL,
                    };
                    proof {
                        assert(rec@ == member_records(mdv[i as int], ndv[i as int].unwrap(), dd)[
                            a as int]);
                        assert(rec@.wf());
                    }
                    let ghost pre = out.deep_view();
                    out.push(rec);
                    a = a + 1;
                    proof {
                        assert(out.deep_view() =~= pre.push(member_records(
                            mdv[i as int],
                            ndv[i as int].unwrap(),
                            dd,
                        )[a - 1]));
                        assert(member_records(mdv[i as int], ndv[i as int].unwrap(), dd).take(
                            a as int,
                        ) =~= member_records(mdv[i as int], ndv[i as int].unwrap(), dd).take(a - 1)
                            .push(member_records(mdv[i as int], ndv[i as int].unwrap(), dd)[a
                            - 1]));
                        assert(out.deep_view() =~= hosts.deep_view() + members_forward(
                            mdv.take(i as int),
                            ndv.take(i as int),
                            dd,
                        ) + member_records(mdv[i as int], ndv[i as int].unwrap(), dd).take(
                            a as int,
                        ));
                    }
                }
                proof {
                    let mr = member_records(mdv[i as int], ndv[i as int].unwrap(), dd);
                    assert(mr.take(mr.len() as int) =~= mr);
                }
            },
            None => {
                proof {
                    assert(ndv[i as int] == names@[i as int].deep_view());
                    assert(ndv[i as int] is None);
                }
            },
        }
        i = i + 1;
        proof {
            let tail: Seq<RecordModel> = match ndv[i - 1] {
                Some(l) => member_records(mdv[i - 1], l, dd),
                None => Seq::empty(),
            };
            assert(mdv.take(i as int).drop_last() =~= mdv.take(i - 1));
            assert(ndv.take(i as int).drop_last() =~= ndv.take(i - 1));
            assert(mdv.take(i as int).last() == mdv[i - 1]);
            assert(mdv.take(i as int).len() == i);
            assert(members_forward(mdv.take(i as int), ndv.take(i as int), dd)
                == members_forward(mdv.take(i - 1), ndv.take(i - 1), dd) + tail);
            if ndv[i - 1] is None {
                assert(members_forward(mdv.take(i as int), ndv.take(i as int), dd)
                    =~= members_forward(mdv.take(i - 1), ndv.take(i - 1), dd));
            }
            assert(out.deep_view() =~= hosts.deep_view() + members_forward(
                mdv.take(i as int),
                ndv.take(i as int),
                dd,
            ));
        }
    }
    proof {
        assert(mdv.take(mdv.len() as int) =~= mdv);
        assert(ndv.take(ndv.len() as int) =~= ndv);
    }
    if wildcard {
        let mut wlabel: Vec<u8> = Vec::new();
        wlabel.push(42u8);
        proof {
            assert(wlabel@ =~= seq![42u8]);
        }
        let wname = make_fqdn(&wlabel, domain);
        proof {
            assert(name_wf(wname.deep_view())) by {
                assert forall|j: int|
                    0 <= j < wname.deep_view().len() implies crate::record::valid_label(
                    #[trigger] wname.deep_view()[j],
                ) by {
                    if j > 0 {
                        assert(wname.deep_view()[j] == dd[j - 1]);
                    }
                }
            }
        }
        let mut i2: usize = 0;
        while i2 < members.len()
            invariant
                i2 <= members@.len(),
                members@.len() == mdv.len(),
                mdv == members.deep_view(),
                dd == domain.deep_view(),
                wname.deep_view() == fqdn(seq![42u8], dd),
                name_wf(wname.deep_view()),
                out.deep_view() == hosts.deep_view() + members_forward(mdv, ndv, dd)
                    + wildcard_records(mdv.take(i2 as int), dd),
                forall|j: int|
                    0 <= j < out.deep_view().len() ==> (#[trigger] out.deep_view()[j]).wf(),
            decreases members.len() - i2,
        {
            let m = &members[i2];
            proof {
                assert(mdv[i2 as int] == members@[i2 as int]@);
            }
            if m.online && m.addrs.len() > 0 {
                let mut a: usize = 0;
                while a < m.addrs.len()
                    invariant
                        a <= m.addrs@.len(),
                        mdv == members.deep_view(),
                        dd == domain.deep_view(),
                        0 <= i2 < mdv.len(),
                        m == members@[i2 as int],
                        mdv[i2 as int] == members@[i2 as int]@,
                        eligible(mdv[i2 as int]),
                        wname.deep_view() == fqdn(seq![42u8], dd),
                        name_wf(wname.deep_view()),
                        out.deep_view() == hosts.deep_view() + members_forward(mdv, ndv, dd)
                            + wildcard_records(mdv.take(i2 as int), dd) + member_records(
                            mdv[i2 as int],
                            seq![42u8],
                            dd,
                        ).take(a as int),
                        forall|j: int|
                            0 <= j < out.deep_view().len() ==> (
                            #[trigger] out.deep_view()[j]).wf(),
                    decreases m.addrs.len() - a,
                {
                    let data = match &m.addrs[a] {
                        Ip::V4(v) => RecordData::A(*v),
                        Ip::V6(v) => RecordData::Aaaa(*v),
                    };
                    let rec = Record {
                        name: crate::record::copy_name(&wname),
                        data,
                        ttl: RECORD_TTL,
                    };
                    proof {
                        assert(rec@ == member_records(mdv[i2 as int], seq![42u8], dd)[a as int]);
                        assert(rec@.wf());
                    }
                    let ghost pre = out.deep_view();
                    out.push(rec);
                    a = a + 1;
                    proof {
                        let mr = member_records(mdv[i2 as int], seq![42u8], dd);
                        assert(out.deep_view() =~= pre.push(mr[a - 1]));
                        assert(mr.take(a as int) =~= mr.take(a - 1).push(mr[a - 1]));
                        assert(out.deep_view() =~= hosts.deep_view() + members_forward(
                            mdv,
                            ndv,
                            dd,
                        ) + wildcard_records(mdv.take(i2 as int), dd) + mr.take(a as int));
                    }
                }
                proof {
                    let mr = member_records(mdv[i2 as int], seq![42u8], dd);
                    assert(mr.take(mr.len() as int) =~= mr);
                }
            }
            i2 = i2 + 1;
            proof {
                let tail: Seq<RecordModel> = if eligible(mdv[i2 - 1]) {
                    member_records(mdv[i2 - 1], seq![42u8], dd)
                } else {
                    Seq::empty()
                };
                assert(mdv.take(i2 as int).drop_last() =~= mdv.take(i2 - 1));
                assert(mdv.take(i2 as int).last() == mdv[i2 - 1]);
                assert(wildcard_records(mdv.take(i2 as int), dd) == wildcard_records(
                    mdv.take(i2 - 1),
                    dd,
                ) + tail);
                assert(out.deep_view() =~= hosts.deep_view() + members_forward(mdv, ndv, dd)
                    + wildcard_records(mdv.take(i2 as int), dd));
            }
        }
        proof {
            assert(mdv.take(mdv.len() as int) =~= mdv);
            assert(out.deep_view() =~= spec_zone_records(hosts.deep_view(), mdv, ndv, dd, true));
        }
    } else {
        proof {
            assert(out.deep_view() =~= spec_zone_records(hosts.deep_view(), mdv, ndv, dd, false));
        }
    }
    out
}

/// Derives the reverse entries of one tick, one per named member address.
pub fn build_ptr_entries(
    members: &Vec<Member>,
    names: &Vec<Option<Vec<u8>>>,
    domain: &Vec<Vec<u8>>,
) -> (r: Vec<PtrEntry>)
    requires
        names.deep_view().len() == members.deep_view().len(),
        names@.len() == members@.len(),
        name_wf(domain.deep_view()),
        domain.deep_view().len() <= 64,
        forall|i: int|
            0 <= i < names.deep_view().len() && names.deep_view()[i] is Some ==> valid_label(
                (#[trigger] names.deep_view()[i]).unwrap(),
            ),
    ensures
        r.deep_view() == members_ptr(
            members.deep_view(),
            names.deep_view(),
            domain.deep_view(),
        ),
        forall|i: int|
            0 <= i < r.deep_view().len() ==> name_wf((#[trigger] r.deep_view()[i]).name),
{
    let ghost mdv = members.deep_view();
    let ghost ndv = names.deep_view();
    let ghost dd = domain.deep_view();
    let mut out: Vec<PtrEntry> = Vec::new();
    let mut i: usize = 0;
    proof {
        assert(out.deep_view() =~= members_ptr(mdv.take(0), ndv.take(0), dd));
    }
    while i < members.len()
        invariant
            i <= members@.len(),
            members@.len() == mdv.len(),
            names@.len() == members@.len(),
            ndv.len() == mdv.len(),
            mdv == members.deep_view(),
            ndv == names.deep_view(),
            dd == domain.deep_view(),
            name_wf(dd),
            dd.len() <= 64,
            forall|j: int|
                0 <= j < ndv.len() && ndv[j] is Some ==> valid_label(
                    (#[trigger] ndv[j]).unwrap(),
                ),
            out.deep_view() == members_ptr(mdv.take(i as int), ndv.take(i as int), dd),
            forall|j: int|
                0 <= j < out.deep_view().len() ==> name_wf(
                    (#[trigger] out.deep_view()[j]).name,
                ),
        decreases members.len() - i,
    {
        match &names[i] {
            Some(label) => {
                proof {
                    assert(ndv[i as int] == names@[i as int].deep_view());
                    assert(ndv[i as int] == Some(label@));
                }
                let name = make_fqdn(label, domain);
                proof {
                    assert(name_wf(name.deep_view())) by {
                        assert forall|j: int|
                            0 <= j < name.deep_view().len() implies crate::record::valid_label(
                            #[trigger] name.deep_view()[j],
                        ) by {
                            if j > 0 {
                                assert(name.deep_view()[j] == dd[j - 1]);
                            }
                        }
                    }
                }
                let m = &members[i];
                proof {
                    assert(mdv[i as int] == members@[i as int]@);
                }
                let mut a: usize = 0;
                while a < m.addrs.len()
                    invariant
                        a <= m.addrs@.len(),
                        mdv == members.deep_view(),
                        ndv == names.deep_view(),
                        dd == domain.deep_view(),
                        0 <= i < mdv.len(),
                        m == members@[i as int],
                        mdv[i as int] == members@[i as int]@,
                        ndv[i as int] == Some(name.deep_view().first()),
                        name.deep_view() == fqdn(ndv[i as int].unwrap(), dd),
                        name_wf(name.deep_view()),
                        out.deep_view() == members_ptr(mdv.take(i as int), ndv.take(i as int), dd)
                            + member_ptr_entries(
                            mdv[i as int],
                            ndv[i as int].unwrap(),
                            dd,
                        ).take(a as int),
                        forall|j: int|
                            0 <= j < out.deep_view().len() ==> name_wf(
                                (#[trigger] out.deep_view()[j]).name,
                            ),
                    decreases m.addrs.len() - a,
                {
                    let e = PtrEntry { addr: m.addrs[a], name: crate::record::copy_name(&name) };
                    proof {
                        assert(e@ == member_ptr_entries(mdv[i as int], ndv[i as int].unwrap(), dd)[
                            a as int]);
                    }
                    let ghost pre = out.deep_view();
                    out.push(e);
                    a = a + 1;
                    proof {
                        let mr = member_ptr_entries(mdv[i as int], ndv[i as int].unwrap(), dd);
                        assert(out.deep_view() =~= pre.push(mr[a - 1]));
                        assert(mr.take(a as int) =~= mr.take(a - 1).push(mr[a - 1]));
                        assert(out.deep_view() =~= members_ptr(
                            mdv.take(i as int),
                            ndv.take(i as int),
                            dd,
                        ) + mr.take(a as int));
                    }
                }
                proof {
                    let mr = member_ptr_entries(mdv[i as int], ndv[i as int].unwrap(), dd);
                    assert(mr.take(mr.len() as int) =~= mr);
                }
            },
            None => {
                proof {
                    assert(ndv[i as int] == names@[i as int].deep_view());
                    assert(ndv[i as int] is None);
                }
            },
        }
        i = i + 1;
        proof {
            let tail: Seq<PtrEntryModel> = match ndv[i - 1] {
                Some(l) => member_ptr_entries(mdv[i - 1], l, dd),
                None => Seq::empty(),
            };
            assert(mdv.take(i as int).drop_last() =~= mdv.take(i - 1));
            assert(ndv.take(i as int).drop_last() =~= ndv.take(i - 1));
            assert(mdv.take(i as int).last() == mdv[i - 1]);
            assert(members_ptr(mdv.take(i as int), ndv.take(i as int), dd) == members_ptr(
                mdv.take(i - 1),
                ndv.take(i - 1),
                dd,
            ) + tail);
            assert(out.deep_view() =~= members_ptr(mdv.take(i as int), ndv.take(i as int), dd));
        }
    }
    proof {
        assert(mdv.take(mdv.len() as int) =~= mdv);
        assert(ndv.take(ndv.len() as int) =~= ndv);
    }
    out
}

/// One refresh tick against the authorities of one network and subnet.
/// A missed fetch leaves the previous snapshot standing untouched; a
/// successful fetch derives the whole new record and entry sets and
/// installs each in one step. A derived set too large to serve is
/// treated like a failed fetch: the tick is skipped.
pub fn tick(
    zone: &mut ZoneAuthority,
    ptr: &mut PtrAuthority,
    fetched: Option<Vec<Member>>,
    hosts: &Vec<Record>,
) -> (ok: bool)
    requires
        old(zone)@.wf(),
        old(ptr)@.wf(),
        forall|i: int|
            0 <= i < hosts.deep_view().len() ==> (#[trigger] hosts.deep_view()[i]).wf(),
        fetched matches Some(m) ==> m@.len() <= usize::MAX - 3,
    ensures
        final(zone)@.wf(),
        final(ptr)@.wf(),
        final(zone)@.domain == old(zone)@.domain,
        final(zone)@.wildcard == old(zone)@.wildcard,
        final(ptr)@.subnet == old(ptr)@.subnet,
        fetched is None ==> !ok && final(zone)@ == old(zone)@ && final(ptr)@ == old(ptr)@,
        fetched matches Some(mems) ==> exists|nv: Seq<Option<Seq<u8>>>|
            {
                &&& #[trigger] names_ok(nv, mems.deep_view())
                &&& {
                    let recs = spec_zone_records(
                        hosts.deep_view(),
                        mems.deep_view(),
                        nv,
                        old(zone)@.domain,
                        old(zone)@.wildcard,
                    );
                    let entries = members_ptr(mems.deep_view(), nv, old(zone)@.domain);
                    if recs.len() <= 0xffff && entries.len() <= 0xffff {
                        &&& ok
                        &&& final(zone)@.records == recs
                        &&& final(ptr)@.entries == entries.filter(
                            |e: PtrEntryModel| old(ptr)@.subnet.contains_ip(e.addr),
                        )
                    } else {
                        &&& !ok
                        &&& final(zone)@ == old(zone)@
                        &&& final(ptr)@ == old(ptr)@
                    }
                }
            },
{
    match fetched {
        None => false,
        Some(mems) => {
            let names = assign_names(&mems);
            let recs = build_forward(&mems, &names, &zone.domain, zone.wildcard, hosts);
            let entries = build_ptr_entries(&mems, &names, &zone.domain);
            let ghost nv = names.deep_view();
            proof {
                assert(names_ok(nv, mems.deep_view()));
            }
            if recs.len() <= 0xffff && entries.len() <= 0xffff {
                proof {
                    assert(recs.deep_view().len() == recs@.len());
                    assert(entries.deep_view().len() == entries@.len());
                }
                zone.replace(recs);
                ptr.replace(entries);
                true
            } else {
                proof {
                    assert(recs.deep_view().len() == recs@.len());
                    assert(entries.deep_view().len() == entries@.len());
                }
                false
            }
        },
    }
}

/// A name assignment as `assign_names` hands it out: filled exactly for
/// the eligible members, valid, unique, and first-free in candidate order.
pub open spec fn names_ok(nv: Seq<Option<Seq<u8>>>, ms: Seq<MemberModel>) -> bool {
    &&& nv.len() == ms.len()
    &&& forall|i: int| 0 <= i < nv.len() ==> ((#[trigger] nv[i]) is Some <==> eligible(ms[i]))
    &&& forall|i: int|
        0 <= i < nv.len() && nv[i] is Some ==> valid_label((#[trigger] nv[i]).unwrap())
    &&& forall|i: int, j: int|
        0 <= i < j < nv.len() && nv[i] is Some && nv[j] is Some ==> (#[trigger] nv[i]).unwrap()
            != (#[trigger] nv[j]).unwrap()
    &&& forall|i: int|
        0 <= i < nv.len() && (#[trigger] nv[i]) is Some ==> exists|k: nat|
            nv[i].unwrap() == candidate_spec(ms[i].display, ms[i].id, k) && (forall|k2: nat|
                k2 < k ==> taken_before(nv, i, candidate_spec(ms[i].display, ms[i].id, k2)))
}

proof fn lemma_members_forward_contains(
    ms: Seq<MemberModel>,
    nv: Seq<Option<Seq<u8>>>,
    domain: Seq<Seq<u8>>,
    i: int,
    j: int,
)
    requires
        nv.len() == ms.len(),
        0 <= i < ms.len(),
        nv[i] is Some,
        0 <= j < ms[i].addrs.len(),
    ensures
        members_forward(ms, nv, domain).contains(
            RecordModel {
                name: fqdn(nv[i].unwrap(), domain),
                data: data_of_ip(ms[i].addrs[j]),
                ttl: RECORD_TTL,
            },
        ),
    decreases ms.len(),
{
    let r = RecordModel {
        name: fqdn(nv[i].unwrap(), domain),
        data: data_of_ip(ms[i].addrs[j]),
        ttl: RECORD_TTL,
    };
    let whole = members_forward(ms, nv, domain);
    let front = members_forward(ms.drop_last(), nv.drop_last(), domain);
    if i == ms.len() - 1 {
        let tail = member_records(ms.last(), nv[i].unwrap(), domain);
        assert(tail[j] == r);
        assert(whole[front.len() + j] == r);
        assert(whole.contains(r));
    } else {
        assert(ms.drop_last()[i] == ms[i]);
        assert(nv.drop_last()[i] == nv[i]);
        lemma_members_forward_contains(ms.drop_last(), nv.drop_last(), domain, i, j);
        let idx = choose|idx: int| 0 <= idx < front.len() && front[idx] == r;
        assert(whole[idx] == r);
        assert(whole.contains(r));
    }
}

/// After a successful tick every online member with an address is
/// served: for each address of each eligible member the installed
/// record set holds a forward record under the member's assigned name.
pub proof fn lemma_snapshot_covers_members(
    hosts: Seq<RecordModel>,
    ms: Seq<MemberModel>,
    nv: Seq<Option<Seq<u8>>>,
    domain: Seq<Seq<u8>>,
    wildcard: bool,
    i: int,
    j: int,
)
    requires
        names_ok(nv, ms),
        0 <= i < ms.len(),
        eligible(ms[i]),
        0 <= j < ms[i].addrs.len(),
    ensures
        nv[i] is Some,
        spec_zone_records(hosts, ms, nv, domain, wildcard).contains(
            RecordModel {
                name: fqdn(nv[i].unwrap(), domain),
                data: data_of_ip(ms[i].addrs[j]),
                ttl: RECORD_TTL,
            },
        ),
{
    let r = RecordModel {
        name: fqdn(nv[i].unwrap(), domain),
        data: data_of_ip(ms[i].addrs[j]),
        ttl: RECORD_TTL,
    };
    lemma_members_forward_contains(ms, nv, domain, i, j);
    let mf = members_forward(ms, nv, domain);
    let whole = spec_zone_records(hosts, ms, nv, domain, wildcard);
    let idx = choose|idx: int| 0 <= idx < mf.len() && mf[idx] == r;
    assert(whole[hosts.len() + idx] == r);
    assert(whole.contains(r));
}

proof fn lemma_members_forward_sound(
    ms: Seq<MemberModel>,
    nv: Seq<Option<Seq<u8>>>,
    domain: Seq<Seq<u8>>,
    idx: int,
)
    requires
        nv.len() == ms.len(),
        0 <= idx < members_forward(ms, nv, domain).len(),
    ensures
        exists|i: int|
            0 <= i < ms.len() && #[trigger] nv[i] is Some && member_records(
                ms[i],
                nv[i].unwrap(),
                domain,
            ).contains(members_forward(ms, nv, domain)[idx]),
    decreases ms.len(),
{
    let whole = members_forward(ms, nv, domain);
    let front = members_forward(ms.drop_last(), nv.drop_last(), domain);
    if idx < front.len() {
        lemma_members_forward_sound(ms.drop_last(), nv.drop_last(), domain, idx);
        let i = choose|i: int|
            0 <= i < ms.drop_last().len() && #[trigger] nv.drop_last()[i] is Some
                && member_records(
                ms.drop_last()[i],
                nv.drop_last()[i].unwrap(),
                domain,
            ).contains(front[idx]);
        assert(ms.drop_last()[i] == ms[i]);
        assert(nv.drop_last()[i] == nv[i]);
        assert(whole[idx] == front[idx]);
        assert(nv[i] is Some && member_records(ms[i], nv[i].unwrap(), domain).contains(
            whole[idx],
        ));
    } else {
        let i = ms.len() - 1;
        assert(nv[i] is Some);
        let tail = member_records(ms.last(), nv[i].unwrap(), domain);
        assert(whole[idx] == tail[idx - front.len()]);
        assert(tail.contains(whole[idx]));
        assert(nv[i] is Some && member_records(ms[i], nv[i].unwrap(), domain).contains(
            whole[idx],
        ));
    }
}

proof fn lemma_wildcard_sound(ms: Seq<MemberModel>, domain: Seq<Seq<u8>>, idx: int)
    requires
        0 <= idx < wildcard_records(ms, domain).len(),
    ensures
        exists|i: int|
            0 <= i < ms.len() && #[trigger] eligible(ms[i]) && member_records(
                ms[i],
                seq![42u8],
                domain,
            ).contains(wildcard_records(ms, domain)[idx]),
    decreases ms.len(),
{
    let whole = wildcard_records(ms, domain);
    let front = wildcard_records(ms.drop_last(), domain);
    if idx < front.len() {
        lemma_wildcard_sound(ms.drop_last(), domain, idx);
        let i = choose|i: int|
            0 <= i < ms.drop_last().len() && #[trigger] eligible(ms.drop_last()[i])
                && member_records(ms.drop_last()[i], seq![42u8], domain).contains(front[idx]);
        assert(ms.drop_last()[i] == ms[i]);
        assert(whole[idx] == front[idx]);
        assert(eligible(ms[i]) && member_records(ms[i], seq![42u8], domain).contains(whole[idx]));
    } else {
        let i = ms.len() - 1;
        assert(eligible(ms[i]));
        let tail = member_records(ms.last(), seq![42u8], domain);
        assert(whole[idx] == tail[idx - front.len()]);
        assert(tail.contains(whole[idx]));
        assert(eligible(ms[i]) && member_records(ms[i], seq![42u8], domain).contains(whole[idx]));
    }
}

/// A member absent from the snapshot leaves no trace: every installed
/// record is a static hosts entry, a record of a currently named member,
/// or a catch-all record of a currently eligible member. Replacing the
/// snapshot therefore drops every record of a departed member.
pub proof fn lemma_snapshot_sound(
    hosts: Seq<RecordModel>,
    ms: Seq<MemberModel>,
    nv: Seq<Option<Seq<u8>>>,
    domain: Seq<Seq<u8>>,
    wildcard: bool,
    idx: int,
)
    requires
        names_ok(nv, ms),
        0 <= idx < spec_zone_records(hosts, ms, nv, domain, wildcard).len(),
    ensures
        ({
            let r = spec_zone_records(hosts, ms, nv, domain, wildcard)[idx];
            ||| hosts.contains(r)
            ||| exists|i: int|
                0 <= i < ms.len() && #[trigger] nv[i] is Some && member_records(
                    ms[i],
                    nv[i].unwrap(),
                    domain,
                ).contains(r)
            ||| (wildcard && exists|i: int|
                0 <= i < ms.len() && #[trigger] eligible(ms[i]) && member_records(
                    ms[i],
                    seq![42u8],
                    domain,
                ).contains(r))
        }),
{
    let whole = spec_zone_records(hosts, ms, nv, domain, wildcard);
    let mf = members_forward(ms, nv, domain);
    let r = whole[idx];
    if idx < hosts.len() {
        assert(hosts[idx] == r);
        assert(hosts.contains(r));
    } else if idx < hosts.len() + mf.len() {
        assert(mf[idx - hosts.len()] == r);
        lemma_members_forward_sound(ms, nv, domain, idx - hosts.len());
    } else {
        assert(wildcard);
        let wc = wildcard_records(ms, domain);
        assert(wc[idx - hosts.len() - mf.len()] == r);
        lemma_wildcard_sound(ms, domain, idx - hosts.len() - mf.len());
    }
}

proof fn lemma_members_ptr_contains(
    ms: Seq<MemberModel>,
    nv: Seq<Option<Seq<u8>>>,
    domain: Seq<Seq<u8>>,
    i: int,
    j: int,
)
    requires
        nv.len() == ms.len(),
        0 <= i < ms.len(),
        nv[i] is Some,
        0 <= j < ms[i].addrs.len(),
    ensures
        members_ptr(ms, nv, domain).contains(
            PtrEntryModel { addr: ms[i].addrs[j], name: fqdn(nv[i].unwrap(), domain) },
        ),
    decreases ms.len(),
{
    let e = PtrEntryModel { addr: ms[i].addrs[j], name: fqdn(nv[i].unwrap(), domain) };
    let whole = members_ptr(ms, nv, domain);
    let front = members_ptr(ms.drop_last(), nv.drop_last(), domain);
    if i == ms.len() - 1 {
        let tail = member_ptr_entries(ms.last(), nv[i].unwrap(), domain);
        assert(tail[j] == e);
        assert(whole[front.len() + j] == e);
        assert(whole.contains(e));
    } else {
        assert(ms.drop_last()[i] == ms[i]);
        assert(nv.drop_last()[i] == nv[i]);
        lemma_members_ptr_contains(ms.drop_last(), nv.drop_last(), domain, i, j);
        let idx = choose|idx: int| 0 <= idx < front.len() && front[idx] == e;
        assert(whole[idx] == e);
        assert(whole.contains(e));
    }
}

/// The reverse round trip at the authority level: after a tick, an
/// eligible member's address inside the reverse authority's subnet
/// reverse-resolves to the member's forward name, and looking that name
/// up in the forward zone yields a record carrying the same address.
/// Together with `revname::lemma_reverse_round_trip`, a reverse query
/// for the encoded address reaches exactly this entry.
pub proof fn lemma_ptr_round_trip(
    z: crate::zone::ZoneModel,
    p: crate::ptr::PtrModel,
    hosts: Seq<RecordModel>,
    ms: Seq<MemberModel>,
    nv: Seq<Option<Seq<u8>>>,
    i: int,
    j: int,
)
    requires
        names_ok(nv, ms),
        0 <= i < ms.len(),
        eligible(ms[i]),
        0 <= j < ms[i].addrs.len(),
        p.subnet.contains_ip(ms[i].addrs[j]),
        z.records == spec_zone_records(hosts, ms, nv, z.domain, z.wildcard),
        p.entries == members_ptr(ms, nv, z.domain).filter(
            |e: PtrEntryModel| p.subnet.contains_ip(e.addr),
        ),
    ensures
        crate::ptr::spec_ptr_lookup(p, ms[i].addrs[j]).contains(fqdn(nv[i].unwrap(), z.domain)),
        crate::zone::spec_lookup(
            z,
            fqdn(nv[i].unwrap(), z.domain),
            crate::record::qtype_of(data_of_ip(ms[i].addrs[j])),
        ).contains(
            RecordModel {
                name: fqdn(nv[i].unwrap(), z.domain),
                data: data_of_ip(ms[i].addrs[j]),
                ttl: RECORD_TTL,
            },
        ),
{
    broadcast use vstd::seq_lib::group_filter_ensures;

    let a = ms[i].addrs[j];
    let name = fqdn(nv[i].unwrap(), z.domain);
    let e = PtrEntryModel { addr: a, name };
    // reverse side
    lemma_members_ptr_contains(ms, nv, z.domain, i, j);
    let all = members_ptr(ms, nv, z.domain);
    let inidx = choose|idx: int| 0 <= idx < all.len() && all[idx] == e;
    let sub_pred = |e2: PtrEntryModel| p.subnet.contains_ip(e2.addr);
    all.lemma_filter_contains(sub_pred, inidx);
    assert(p.entries.contains(e));
    let pidx = choose|idx: int| 0 <= idx < p.entries.len() && p.entries[idx] == e;
    let addr_pred = |e2: PtrEntryModel| e2.addr == a;
    p.entries.lemma_filter_contains(addr_pred, pidx);
    let matched = p.entries.filter(addr_pred);
    let midx = choose|idx: int| 0 <= idx < matched.len() && matched[idx] == e;
    assert(matched.map_values(|e2: PtrEntryModel| e2.name)[midx] == name);
    assert(crate::ptr::spec_ptr_lookup(p, a).contains(name));
    // forward side
    let r = RecordModel { name, data: data_of_ip(a), ttl: RECORD_TTL };
    lemma_snapshot_covers_members(hosts, ms, nv, z.domain, z.wildcard, i, j);
    let ridx = choose|idx: int| 0 <= idx < z.records.len() && z.records[idx] == r;
    let qt = crate::record::qtype_of(data_of_ip(a));
    let match_pred = |r2: RecordModel| crate::zone::spec_matches(r2, name, qt);
    assert(match_pred(z.records[ridx]));
    z.records.lemma_filter_contains(match_pred, ridx);
    let exact = z.records.filter(match_pred);
    assert(exact.contains(r));
    assert(exact.len() > 0);
    assert(crate::zone::spec_lookup(z, name, qt) == exact);
}

} // verus!
