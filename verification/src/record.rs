//! The zone data model: members, records and DNS names held as label lists.

use vstd::prelude::*;
use crate::ip::Ip;

verus! {

/// Wire value of an A query or record type.
pub const QTYPE_A: u16 = 1;

/// Wire value of a PTR query or record type.
pub const QTYPE_PTR: u16 = 12;

/// Wire value of an AAAA query or record type.
pub const QTYPE_AAAA: u16 = 28;

/// Time-to-live put on every derived record.
pub const RECORD_TTL: u32 = 60;

/// A label is one dot-free component of a DNS name; its length must fit
/// the six-bit length field of the wire format.
pub open spec fn valid_label(l: Seq<u8>) -> bool {
    1 <= l.len() <= 63
}

/// A name is a non-empty list of labels, short enough that its wire
/// encoding fits every length field it can stand in.
pub open spec fn name_wf(n: Seq<Seq<u8>>) -> bool {
    1 <= n.len() <= 127 && forall|i: int| 0 <= i < n.len() ==> valid_label(#[trigger] n[i])
}

/// The value carried by one record.
#[derive(Debug)]
pub enum RecordData {
    A(u32),
    Aaaa(u128),
    Ptr(Vec<Vec<u8>>),
}

/// Spec-level value of [`RecordData`].
pub ghost enum RecordDataModel {
    A(u32),
    Aaaa(u128),
    Ptr(Seq<Seq<u8>>),
}

impl View for RecordData {
    type V = RecordDataModel;

    open spec fn view(&self) -> RecordDataModel {
        match self {
            RecordData::A(a) => RecordDataModel::A(*a),
            RecordData::Aaaa(a) => RecordDataModel::Aaaa(*a),
            RecordData::Ptr(n) => RecordDataModel::Ptr(n.deep_view()),
        }
    }
}

impl DeepView for RecordData {
    type V = RecordDataModel;

    open spec fn deep_view(&self) -> RecordDataModel {
        self.view()
    }
}

/// The record type a data value answers.
pub open spec fn qtype_of(d: RecordDataModel) -> u16 {
    match d {
        RecordDataModel::A(_) => QTYPE_A,
        RecordDataModel::Aaaa(_) => QTYPE_AAAA,
        RecordDataModel::Ptr(_) => QTYPE_PTR,
    }
}

/// The forward data value of one member address.
pub open spec fn data_of_ip(a: Ip) -> RecordDataModel {
    match a {
        Ip::V4(v) => RecordDataModel::A(v),
        Ip::V6(v) => RecordDataModel::Aaaa(v),
    }
}

/// One authoritative record: a name, its value and a time-to-live.
#[derive(Debug)]
pub struct Record {
    pub name: Vec<Vec<u8>>,
    pub data: RecordData,
    pub ttl: u32,
}

/// Spec-level value of [`Record`].
pub ghost struct RecordModel {
    pub name: Seq<Seq<u8>>,
    pub data: RecordDataModel,
    pub ttl: u32,
}

impl RecordModel {
    /// The record's name, and a PTR target if it carries one, fit the wire
    /// format.
    pub open spec fn wf(self) -> bool {
        &&& name_wf(self.name)
        &&& (self.data matches RecordDataModel::Ptr(t) ==> name_wf(t))
    }
}

impl View for Record {
    type V = RecordModel;

    open spec fn view(&self) -> RecordModel {
        RecordModel { name: self.name.deep_view(), data: self.data@, ttl: self.ttl }
    }
}

impl DeepView for Record {
    type V = RecordModel;

    open spec fn deep_view(&self) -> RecordModel {
        self.view()
    }
}

/// One member of the overlay network, as handed to the refresh step:
/// identifier, display name, assigned addresses already resolved to plain
/// values, and the online flag.
#[derive(Debug)]
pub struct Member {
    pub id: Vec<u8>,
    pub display: Vec<u8>,
    pub addrs: Vec<Ip>,
    pub online: bool,
}

/// Spec-level value of [`Member`].
pub ghost struct MemberModel {
    pub id: Seq<u8>,
    pub display: Seq<u8>,
    pub addrs: Seq<Ip>,
    pub online: bool,
}

impl View for Member {
    type V = MemberModel;

    open spec fn view(&self) -> MemberModel {
        MemberModel {
            id: self.id@,
            display: self.display@,
            addrs: self.addrs@,
            online: self.online,
        }
    }
}

impl DeepView for Member {
    type V = MemberModel;

    open spec fn deep_view(&self) -> MemberModel {
        self.view()
    }
}

/// A member earns records exactly when it is online with at least one
/// usable address.
pub open spec fn eligible(m: MemberModel) -> bool {
    m.online && m.addrs.len() > 0
}

/// Byte-for-byte copy of one label or other byte string.
pub fn copy_bytes(v: &Vec<u8>) -> (r: Vec<u8>)
    ensures
        r@ == v@,
{
    let mut r: Vec<u8> = Vec::new();
    let mut i: usize = 0;
    while i < v.len()
        invariant
            i <= v.len(),
            r@ == v@.take(i as int),
        decreases v.len() - i,
    {
        r.push(v[i]);
        i = i + 1;
        proof {
            assert(v@.take(i as int) == v@.take(i - 1).push(v@[i - 1]));
        }
    }
    proof {
        assert(v@.take(v@.len() as int) == v@);
    }
    r
}

/// Label-for-label copy of a name.
pub fn copy_name(v: &Vec<Vec<u8>>) -> (r: Vec<Vec<u8>>)
    ensures
        r.deep_view() == v.deep_view(),
{
    let mut r: Vec<Vec<u8>> = Vec::new();
    let mut i: usize = 0;
    while i < v.len()
        invariant
            i <= v.len(),
            r@.len() == i,
            forall|j: int| 0 <= j < i ==> r@[j]@ == v@[j]@,
        decreases v.len() - i,
    {
        r.push(copy_bytes(&v[i]));
        i = i + 1;
    }
    proof {
        assert forall|j: int| 0 <= j < v@.len() implies r.deep_view()[j] == v.deep_view()[j] by {
            assert(r.deep_view()[j] == r@[j].deep_view());
            assert(v.deep_view()[j] == v@[j].deep_view());
            assert(r@[j].deep_view() =~= r@[j]@);
            assert(v@[j].deep_view() =~= v@[j]@);
        }
        assert(r.deep_view() =~= v.deep_view());
    }
    r
}

impl Record {
    /// A copy with the same model.
    pub fn duplicate(&self) -> (r: Record)
        ensures
            r@ == self@,
    {
        let data = match &self.data {
            RecordData::A(a) => RecordData::A(*a),
            RecordData::Aaaa(a) => RecordData::Aaaa(*a),
            RecordData::Ptr(n) => RecordData::Ptr(copy_name(n)),
        };
        Record { name: copy_name(&self.name), data, ttl: self.ttl }
    }
}

/// Two byte strings hold the same bytes.
pub fn bytes_eq(a: &Vec<u8>, b: &Vec<u8>) -> (r: bool)
    ensures
        r == (a@ == b@),
{
    if a.len() != b.len() {
        proof {
            assert(a@.len() != b@.len());
        }
        return false;
    }
    let mut i: usize = 0;
    while i < a.len()
        invariant
            i <= a.len(),
            a@.len() == b@.len(),
            forall|j: int| 0 <= j < i ==> a@[j] == b@[j],
        decreases a.len() - i,
    {
        if a[i] != b[i] {
            return false;
        }
        i = i + 1;
    }
    proof {
        assert(a@ =~= b@);
    }
    true
}

/// Two names hold the same labels.
pub fn names_eq(a: &Vec<Vec<u8>>, b: &Vec<Vec<u8>>) -> (r: bool)
    ensures
        r == (a.deep_view() == b.deep_view()),
{
    if a.len() != b.len() {
        proof {
            assert(a.deep_view().len() != b.deep_view().len());
        }
        return false;
    }
    let mut i: usize = 0;
    while i < a.len()
        invariant
            i <= a.len(),
            a.deep_view().len() == b.deep_view().len(),
            a@.len() == a.deep_view().len(),
            b@.len() == b.deep_view().len(),
            forall|j: int| 0 <= j < i ==> a.deep_view()[j] == b.deep_view()[j],
        decreases a.len() - i,
    {
        if !bytes_eq(&a[i], &b[i]) {
            proof {
                assert(a.deep_view()[i as int] == a@[i as int]@);
                assert(b.deep_view()[i as int] == b@[i as int]@);
            }
            return false;
        }
        i = i + 1;
        proof {
            assert(a.deep_view()[i - 1] == a@[i - 1]@);
            assert(b.deep_view()[i - 1] == b@[i - 1]@);
        }
    }
    proof {
        assert(a.deep_view() =~= b.deep_view());
    }
    true
}

} // verus!
