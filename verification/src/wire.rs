//! The DNS wire subset the responder serves: parsing one-question
//! queries and encoding authoritative responses.

use vstd::prelude::*;
use crate::ptr::{PtrAuthority, PtrModel};
use crate::record::{
    name_wf, qtype_of, valid_label, Record, RecordData, RecordDataModel, RecordModel, QTYPE_A,
    QTYPE_AAAA, QTYPE_PTR, RECORD_TTL,
};
use crate::revname::spec_parse_reverse;
use crate::zone::{spec_lookup, ZoneAuthority, ZoneModel};

verus! {

broadcast use vstd::seq_lib::group_filter_ensures;

/// Big-endian bytes of a 16-bit value.
pub open spec fn be16(x: u16) -> Seq<u8> {
    seq![(x / 256) as u8, (x % 256) as u8]
}

/// Big-endian bytes of a 32-bit value.
pub open spec fn be32(x: u32) -> Seq<u8> {
    seq![
        (x / 0x1000000) as u8,
        ((x / 0x10000) % 256) as u8,
        ((x / 0x100) % 256) as u8,
        (x % 256) as u8,
    ]
}

/// Big-endian bytes of a 128-bit value.
pub open spec fn be128(x: u128) -> Seq<u8> {
    seq![
        (x / 0x1000000000000000000000000000000) as u8,
        ((x / 0x10000000000000000000000000000) % 256) as u8,
        ((x / 0x100000000000000000000000000) % 256) as u8,
        ((x / 0x1000000000000000000000000) % 256) as u8,
        ((x / 0x10000000000000000000000) % 256) as u8,
        ((x / 0x100000000000000000000) % 256) as u8,
        ((x / 0x1000000000000000000) % 256) as u8,
        ((x / 0x10000000000000000) % 256) as u8,
        ((x / 0x100000000000000) % 256) as u8,
        ((x / 0x1000000000000) % 256) as u8,
        ((x / 0x10000000000) % 256) as u8,
        ((x / 0x100000000) % 256) as u8,
        ((x / 0x1000000) % 256) as u8,
        ((x / 0x10000) % 256) as u8,
        ((x / 0x100) % 256) as u8,
        (x % 256) as u8,
    ]
}

/// The wire encoding of a name: length-prefixed labels ended by a zero.
pub open spec fn enc_labels(ls: Seq<Seq<u8>>) -> Seq<u8>
    decreases ls.len(),
{
    if ls.len() == 0 {
        seq![0u8]
    } else {
        seq![ls[0].len() as u8] + ls[0] + enc_labels(ls.drop_first())
    }
}

/// The record data bytes of an answer.
pub open spec fn rdata(d: RecordDataModel) -> Seq<u8> {
    match d {
        RecordDataModel::A(v) => be32(v),
        RecordDataModel::Aaaa(v) => be128(v),
        RecordDataModel::Ptr(n) => enc_labels(n),
    }
}

/// One answer section entry: a pointer to the question name, type and
/// class, time-to-live, and the length-prefixed record data.
pub open spec fn enc_answer(r: RecordModel) -> Seq<u8> {
    seq![0xc0u8, 0x0cu8] + be16(qtype_of(r.data)) + be16(1) + be32(r.ttl) + be16(
        rdata(r.data).len() as u16,
    ) + rdata(r.data)
}

pub open spec fn enc_answers(rs: Seq<RecordModel>) -> Seq<u8>
    decreases rs.len(),
{
    if rs.len() == 0 {
        Seq::empty()
    } else {
        enc_answers(rs.drop_last()) + enc_answer(rs.last())
    }
}

/// Spec-level value of a parsed query.
pub ghost struct QueryModel {
    pub id: u16,
    pub labels: Seq<Seq<u8>>,
    pub qtype: u16,
}

/// One parsed query: its identifier, question name and question type.
pub struct Query {
    pub id: u16,
    pub labels: Vec<Vec<u8>>,
    pub qtype: u16,
}

impl View for Query {
    type V = QueryModel;

    open spec fn view(&self) -> QueryModel {
        QueryModel { id: self.id, labels: self.labels.deep_view(), qtype: self.qtype }
    }
}

/// The whole response to a query: the query's identifier, the
/// authoritative-answer flags, the echoed question and the answers.
pub open spec fn spec_response(q: QueryModel, answers: Seq<RecordModel>) -> Seq<u8> {
    be16(q.id) + seq![0x84u8, 0x00u8] + be16(1) + be16(answers.len() as u16) + be16(0) + be16(0)
        + enc_labels(q.labels) + be16(q.qtype) + be16(1) + enc_answers(answers)
}

/// What an uncompressed name at `pos` denotes: the labels and the
/// position after the closing zero. A length byte over 63 — compression
/// included — refuses the message.
pub open spec fn spec_parse_labels(d: Seq<u8>, pos: int) -> Option<(Seq<Seq<u8>>, int)>
    decreases d.len() - pos,
{
    if pos < 0 || pos >= d.len() {
        None
    } else if d[pos] == 0 {
        Some((Seq::empty(), pos + 1))
    } else if d[pos] > 63 {
        None
    } else if pos + 1 + d[pos] > d.len() {
        None
    } else {
        match spec_parse_labels(d, pos + 1 + d[pos]) {
            Some((rest, end)) => Some(
                (seq![d.subrange(pos + 1, pos + 1 + d[pos])] + rest, end),
            ),
            None => None,
        }
    }
}

/// What a datagram denotes as a query, if anything: a standard-query
/// header carrying exactly one question of class IN with an uncompressed
/// name; anything else is malformed and denotes nothing.
pub open spec fn spec_parse_query(d: Seq<u8>) -> Option<QueryModel> {
    if d.len() < 12 {
        None
    } else if d[2] & 0x80 != 0 {
        None
    } else if (d[2] >> 3) & 0x0f != 0 {
        None
    } else if !(d[4] == 0 && d[5] == 1) {
        None
    } else if !(d[6] == 0 && d[7] == 0 && d[8] == 0 && d[9] == 0) {
        None
    } else {
        match spec_parse_labels(d, 12) {
            Some((labels, end)) => {
                if labels.len() == 0 || labels.len() > 127 {
                    None
                } else if end + 4 > d.len() {
                    None
                } else if !(d[end + 2] == 0 && d[end + 3] == 1) {
                    None
                } else {
                    Some(
                        QueryModel {
                            id: ((d[0] as int) * 256 + (d[1] as int)) as u16,
                            labels,
                            qtype: ((d[end] as int) * 256 + (d[end + 1] as int)) as u16,
                        },
                    )
                }
            },
            None => None,
        }
    }
}

/// Every label a name parse yields fits the wire label bounds.
proof fn lemma_parse_labels_wf(d: Seq<u8>, pos: int)
    requires
        spec_parse_labels(d, pos) is Some,
    ensures
        forall|i: int|
            0 <= i < spec_parse_labels(d, pos).unwrap().0.len() ==> valid_label(
                #[trigger] spec_parse_labels(d, pos).unwrap().0[i],
            ),
    decreases d.len() - pos,
{
    if 0 <= pos < d.len() && d[pos] != 0 {
        let l = d[pos] as int;
        lemma_parse_labels_wf(d, pos + 1 + l);
        let first = d.subrange(pos + 1, pos + 1 + l);
        assert(valid_label(first));
        let rest = spec_parse_labels(d, pos + 1 + l).unwrap().0;
        let whole = spec_parse_labels(d, pos).unwrap().0;
        assert forall|i: int| 0 <= i < whole.len() implies valid_label(#[trigger] whole[i]) by {
            if i == 0 {
                assert(whole[0] == first);
            } else {
                assert(whole[i] == rest[i - 1]);
            }
        }
    }
}

/// Copies `d[from..to]`.
pub(crate) fn copy_range(d: &Vec<u8>, from: usize, to: usize) -> (r: Vec<u8>)
    requires
        from <= to <= d@.len(),
    ensures
        r@ == d@.subrange(from as int, to as int),
{
    let mut r: Vec<u8> = Vec::new();
    let mut i: usize = from;
    while i < to
        invariant
            from <= i <= to <= d@.len(),
            r@.len() == i - from,
            forall|j: int| 0 <= j < i - from ==> r@[j] == d@[from + j],
        decreases to - i,
    {
        r.push(d[i]);
        i = i + 1;
    }
    proof {
        assert(r@ =~= d@.subrange(from as int, to as int));
    }
    r
}

/// Parses the name starting at `pos`.
fn parse_labels_at(d: &Vec<u8>, pos: usize) -> (r: Option<(Vec<Vec<u8>>, usize)>)
    ensures
        r is Some <==> spec_parse_labels(d@, pos as int) is Some,
        r matches Some((ls, end)) ==> spec_parse_labels(d@, pos as int) == Some(
            (ls.deep_view(), end as int),
        ),
    decreases d@.len() - pos,
{
    if pos >= d.len() {
        return None;
    }
    let l = d[pos];
    if l == 0 {
        let empty: Vec<Vec<u8>> = Vec::new();
        proof {
            assert(empty.deep_view() =~= Seq::<Seq<u8>>::empty());
        }
        return Some((empty, pos + 1));
    }
    if l > 63 {
        return None;
    }
    if d.len() - pos - 1 < l as usize {
        proof {
            assert(pos + 1 + d@[pos as int] > d@.len());
        }
        return None;
    }
    let next: usize = pos + 1 + l as usize;
    match parse_labels_at(d, next) {
        Some((rest, end)) => {
            let first = copy_range(d, pos + 1, next);
            let mut ls: Vec<Vec<u8>> = Vec::new();
            ls.push(first);
            let mut i: usize = 0;
            while i < rest.len()
                invariant
                    i <= rest@.len(),
                    rest@.len() == rest.deep_view().len(),
                    ls@.len() == i + 1,
                    ls@[0]@ == d@.subrange(pos as int + 1, next as int),
                    forall|j: int| 0 <= j < i ==> ls@[j + 1]@ == rest.deep_view()[j],
                decreases rest.len() - i,
            {
                ls.push(crate::record::copy_bytes(&rest[i]));
                i = i + 1;
                proof {
                    assert(rest.deep_view()[i - 1] == rest@[i - 1]@);
                }
            }
            proof {
                let want = seq![d@.subrange(pos as int + 1, pos + 1 + d@[pos as int])]
                    + rest.deep_view();
                assert forall|j: int| 0 <= j < ls@.len() implies ls.deep_view()[j] == want[j] by {
                    assert(ls.deep_view()[j] == ls@[j]@);
                }
                assert(ls.deep_view() =~= want);
            }
            Some((ls, end))
        },
        None => None,
    }
}

/// Parses a whole datagram as one query.
pub fn parse_query(d: &Vec<u8>) -> (r: Option<Query>)
    ensures
        r is Some <==> spec_parse_query(d@) is Some,
        r matches Some(q) ==> spec_parse_query(d@) == Some(q@),
{
    if d.len() < 12 {
        return None;
    }
    if d[2] & 0x80 != 0 {
        return None;
    }
    if (d[2] >> 3u8) & 0x0f != 0 {
        return None;
    }
    if !(d[4] == 0 && d[5] == 1) {
        return None;
    }
    if !(d[6] == 0 && d[7] == 0 && d[8] == 0 && d[9] == 0) {
        return None;
    }
    match parse_labels_at(d, 12) {
        Some((labels, end)) => {
            if labels.len() == 0 || labels.len() > 127 {
                return None;
            }
            if d.len() < 4 || end > d.len() - 4 {
                proof {
                    assert(end + 4 > d@.len());
                }
                return None;
            }
            if !(d[end + 2] == 0 && d[end + 3] == 1) {
                return None;
            }
            let id: u16 = (d[0] as u16) * 256 + (d[1] as u16);
            let qtype: u16 = (d[end] as u16) * 256 + (d[end + 1] as u16);
            Some(Query { id, labels, qtype })
        },
        None => None,
    }
}

/// Encoded labels stay short: each label costs its length and one byte.
proof fn lemma_enc_labels_len(ls: Seq<Seq<u8>>)
    requires
        forall|i: int| 0 <= i < ls.len() ==> (#[trigger] ls[i]).len() <= 63,
    ensures
        enc_labels(ls).len() <= 1 + 64 * ls.len(),
    decreases ls.len(),
{
    if ls.len() > 0 {
        assert(ls[0].len() <= 63);
        assert forall|i: int| 0 <= i < ls.drop_first().len() implies (
        #[trigger] ls.drop_first()[i]).len() <= 63 by {
            assert(ls.drop_first()[i] == ls[i + 1]);
        }
        lemma_enc_labels_len(ls.drop_first());
    }
}

/// Encodes a name.
fn encode_labels_from(ls: &Vec<Vec<u8>>, i: usize) -> (r: Vec<u8>)
    requires
        i <= ls@.len(),
        forall|j: int|
            0 <= j < ls.deep_view().len() ==> (#[trigger] ls.deep_view()[j]).len() <= 63,
    ensures
        r@ == enc_labels(ls.deep_view().skip(i as int)),
    decreases ls@.len() - i,
{
    if i == ls.len() {
        let mut r: Vec<u8> = Vec::new();
        r.push(0);
        proof {
            assert(ls.deep_view().skip(i as int) =~= Seq::<Seq<u8>>::empty());
            assert(r@ =~= enc_labels(ls.deep_view().skip(i as int)));
        }
        r
    } else {
        let lab = &ls[i];
        proof {
            assert(ls.deep_view()[i as int] == ls@[i as int]@);
        }
        let mut r: Vec<u8> = Vec::new();
        r.push(lab.len() as u8);
        crate::hostname::push_all(&mut r, lab);
        let rest = encode_labels_from(ls, i + 1);
        crate::hostname::push_all(&mut r, &rest);
        proof {
            let tail = ls.deep_view().skip(i as int);
            assert(tail[0] == ls.deep_view()[i as int]);
            assert(tail.drop_first() =~= ls.deep_view().skip(i + 1));
            assert(r@ =~= seq![tail[0].len() as u8] + tail[0] + enc_labels(tail.drop_first()));
        }
        r
    }
}

/// Encodes one record's data bytes.
fn encode_rdata(data: &RecordData) -> (r: Vec<u8>)
    requires
        data@ matches RecordDataModel::Ptr(n) ==> name_wf(n),
    ensures
        r@ == rdata(data@),
        r@.len() <= 0xffff,
{
    match data {
        RecordData::A(v) => {
            let mut r: Vec<u8> = Vec::new();
            r.push((*v / 0x1000000) as u8);
            r.push(((*v / 0x10000) % 256) as u8);
            r.push(((*v / 0x100) % 256) as u8);
            r.push((*v % 256) as u8);
            proof {
                assert(r@ =~= be32(*v));
            }
            r
        },
        RecordData::Aaaa(v) => {
            let mut r: Vec<u8> = Vec::new();
            r.push((*v / 0x1000000000000000000000000000000) as u8);
            r.push(((*v / 0x10000000000000000000000000000) % 256) as u8);
            r.push(((*v / 0x100000000000000000000000000) % 256) as u8);
            r.push(((*v / 0x1000000000000000000000000) % 256) as u8);
            r.push(((*v / 0x10000000000000000000000) % 256) as u8);
            r.push(((*v / 0x100000000000000000000) % 256) as u8);
            r.push(((*v / 0x1000000000000000000) % 256) as u8);
            r.push(((*v / 0x10000000000000000) % 256) as u8);
            r.push(((*v / 0x100000000000000) % 256) as u8);
            r.push(((*v / 0x1000000000000) % 256) as u8);
            r.push(((*v / 0x10000000000) % 256) as u8);
            r.push(((*v / 0x100000000) % 256) as u8);
            r.push(((*v / 0x1000000) % 256) as u8);
            r.push(((*v / 0x10000) % 256) as u8);
            r.push(((*v / 0x100) % 256) as u8);
            r.push((*v % 256) as u8);
            proof {
                assert(r@ =~= be128(*v));
            }
            r
        },
        RecordData::Ptr(n) => {
            let r = encode_labels_from(n, 0);
            proof {
                assert(n.deep_view().skip(0) =~= n.deep_view());
                lemma_enc_labels_len(n.deep_view());
            }
            r
        },
    }
}

/// Encodes one answer entry.
fn encode_answer(rec: &Record) -> (r: Vec<u8>)
    requires
        rec@.wf(),
    ensures
        r@ == enc_answer(rec@),
{
    let mut r: Vec<u8> = Vec::new();
    r.push(0xc0);
    r.push(0x0c);
    let qt: u16 = match &rec.data {
        RecordData::A(_) => QTYPE_A,
        RecordData::Aaaa(_) => QTYPE_AAAA,
        RecordData::Ptr(_) => QTYPE_PTR,
    };
    r.push((qt / 256) as u8);
    r.push((qt % 256) as u8);
    r.push(0);
    r.push(1);
    r.push((rec.ttl / 0x1000000) as u8);
    r.push(((rec.ttl / 0x10000) % 256) as u8);
    r.push(((rec.ttl / 0x100) % 256) as u8);
    r.push((rec.ttl % 256) as u8);
    let rd = encode_rdata(&rec.data);
    let rdlen: u16 = rd.len() as u16;
    r.push((rdlen / 256) as u8);
    r.push((rdlen % 256) as u8);
    crate::hostname::push_all(&mut r, &rd);
    proof {
        assert(qt == qtype_of(rec@.data));
        assert(rd@.len() as u16 == rdata(rec@.data).len() as u16);
        assert(r@ =~= enc_answer(rec@));
    }
    r
}

/// Builds the whole response datagram.
pub fn build_response(q: &Query, answers: &Vec<Record>) -> (r: Vec<u8>)
    requires
        answers.deep_view().len() <= 0xffff,
        answers@.len() == answers.deep_view().len(),
        forall|i: int|
            0 <= i < answers.deep_view().len() ==> (#[trigger] answers.deep_view()[i]).wf(),
        forall|j: int|
            0 <= j < q.labels.deep_view().len() ==> (
            #[trigger] q.labels.deep_view()[j]).len() <= 63,
    ensures
        r@ == spec_response(q@, answers.deep_view()),
{
    let mut r: Vec<u8> = Vec::new();
    r.push((q.id / 256) as u8);
    r.push((q.id % 256) as u8);
    r.push(0x84);
    r.push(0x00);
    r.push(0);
    r.push(1);
    let n: u16 = answers.len() as u16;
    r.push((n / 256) as u8);
    r.push((n % 256) as u8);
    r.push(0);
    r.push(0);
    r.push(0);
    r.push(0);
    let ghost header = be16(q@.id) + seq![0x84u8, 0x00u8] + be16(1) + be16(
        answers.deep_view().len() as u16,
    ) + be16(0) + be16(0);
    proof {
        assert(r@ =~= header);
    }
    let qn = encode_labels_from(&q.labels, 0);
    crate::hostname::push_all(&mut r, &qn);
    r.push((q.qtype / 256) as u8);
    r.push((q.qtype % 256) as u8);
    r.push(0);
    r.push(1);
    proof {
        assert(q.labels.deep_view().skip(0) =~= q@.labels);
        assert(r@ =~= header + enc_labels(q@.labels) + be16(q@.qtype) + be16(1));
    }
    let ghost prefix = header + enc_labels(q@.labels) + be16(q@.qtype) + be16(1);
    let mut i: usize = 0;
    proof {
        assert(r@ =~= prefix + enc_answers(answers.deep_view().take(0)));
    }
    while i < answers.len()
        invariant
            i <= answers@.len(),
            answers@.len() == answers.deep_view().len(),
            forall|j: int|
                0 <= j < answers.deep_view().len() ==> (#[trigger] answers.deep_view()[j]).wf(),
            r@ == prefix + enc_answers(answers.deep_view().take(i as int)),
            prefix == header + enc_labels(q@.labels) + be16(q@.qtype) + be16(1),
            header == be16(q@.id) + seq![0x84u8, 0x00u8] + be16(1) + be16(
                answers.deep_view().len() as u16,
            ) + be16(0) + be16(0),
        decreases answers.len() - i,
    {
        proof {
            assert(answers.deep_view()[i as int] == answers@[i as int]@);
        }
        let enc = encode_answer(&answers[i]);
        crate::hostname::push_all(&mut r, &enc);
        i = i + 1;
        proof {
            let dv = answers.deep_view();
            assert(dv.take(i as int).drop_last() =~= dv.take(i - 1));
            assert(dv.take(i as int).last() == dv[i - 1]);
            assert(enc_answers(dv.take(i as int)) == enc_answers(dv.take(i - 1)) + enc_answer(
                dv[i - 1],
            ));
            assert(r@ =~= prefix + enc_answers(dv.take(i as int)));
        }
    }
    proof {
        let dv = answers.deep_view();
        assert(dv.take(dv.len() as int) =~= dv);
        assert(r@ =~= spec_response(q@, dv));
    }
    r
}

/// What the responder answers a query with, out of the current
/// snapshots: forward lookups for A and AAAA, a reverse lookup for PTR
/// on a well-formed reverse name, and an empty answer for anything else.
pub open spec fn spec_answers(z: ZoneModel, p: PtrModel, q: QueryModel) -> Seq<RecordModel> {
    if q.qtype == QTYPE_A || q.qtype == QTYPE_AAAA {
        spec_lookup(z, q.labels, q.qtype)
    } else if q.qtype == QTYPE_PTR {
        match spec_parse_reverse(q.labels) {
            Some(a) => crate::ptr::spec_ptr_lookup(p, a).map_values(
                |n: Seq<Seq<u8>>| RecordModel {
                    name: q.labels,
                    data: RecordDataModel::Ptr(n),
                    ttl: RECORD_TTL,
                },
            ),
            None => Seq::empty(),
        }
    } else {
        Seq::empty()
    }
}

/// Handles one inbound datagram against the authorities of the socket's
/// subnet: a malformed datagram earns no reply at all; a well-formed
/// query earns exactly the encoded authoritative response, with an empty
/// answer section when nothing matches.
pub fn handle_datagram(d: &Vec<u8>, zone: &ZoneAuthority, ptr: &PtrAuthority) -> (r: Option<
    Vec<u8>,
>)
    requires
        zone@.wf(),
        ptr@.wf(),
    ensures
        spec_parse_query(d@) is None ==> r is None,
        spec_parse_query(d@) matches Some(q) ==> r matches Some(resp) && resp@ == spec_response(
            q,
            spec_answers(zone@, ptr@, q),
        ),
{
    match parse_query(d) {
        None => None,
        Some(q) => {
            let ghost qm = q@;
            proof {
                lemma_parse_labels_wf(d@, 12);
                assert(forall|j: int|
                    0 <= j < qm.labels.len() ==> valid_label(#[trigger] qm.labels[j]));
            }
            let answers: Vec<Record> = if q.qtype == QTYPE_A || q.qtype == QTYPE_AAAA {
                let found = zone.lookup(&q.labels, q.qtype);
                proof {
                    crate::zone::lemma_lookup_within_snapshot(zone@, qm.labels, qm.qtype);
                    assert forall|j: int|
                        0 <= j < found.deep_view().len() implies (
                    #[trigger] found.deep_view()[j]).wf() by {
                        assert(zone@.records.contains(found.deep_view()[j]));
                        let idx = choose|idx: int|
                            0 <= idx < zone@.records.len() && zone@.records[idx]
                                == found.deep_view()[j];
                    }
                    zone@.records.lemma_filter_len(
                        |rm: RecordModel| crate::zone::spec_matches(rm, qm.labels, qm.qtype),
                    );
                    zone@.records.lemma_filter_len(
                        |rm: RecordModel| crate::zone::spec_matches(
                            rm,
                            crate::zone::wildcard_name(zone@.domain),
                            qm.qtype,
                        ),
                    );
                }
                found
            } else if q.qtype == QTYPE_PTR {
                match crate::revname::parse_reverse(&q.labels) {
                    Some(a) => {
                        let names = ptr.lookup(&a);
                        let ghost f = |n: Seq<Seq<u8>>| RecordModel {
                            name: qm.labels,
                            data: RecordDataModel::Ptr(n),
                            ttl: RECORD_TTL,
                        };
                        let mut out: Vec<Record> = Vec::new();
                        let mut i: usize = 0;
                        proof {
                            assert(out.deep_view() =~= names.deep_view().take(0).map_values(f));
                        }
                        while i < names.len()
                            invariant
                                i <= names@.len(),
                                names@.len() == names.deep_view().len(),
                                names.deep_view() == crate::ptr::spec_ptr_lookup(ptr@, a),
                                ptr@.wf(),
                                name_wf(qm.labels),
                                qm.labels == q.labels.deep_view(),
                                q@ == qm,
                                out.deep_view() == names.deep_view().take(i as int).map_values(
                                    f,
                                ),
                                f == (|n: Seq<Seq<u8>>| RecordModel {
                                    name: qm.labels,
                                    data: RecordDataModel::Ptr(n),
                                    ttl: RECORD_TTL,
                                }),
                            decreases names.len() - i,
                        {
                            proof {
                                assert(names.deep_view()[i as int] == names@[i as int].deep_view());
                            }
                            let rec = Record {
                                name: crate::record::copy_name(&q.labels),
                                data: RecordData::Ptr(crate::record::copy_name(&names[i])),
                                ttl: RECORD_TTL,
                            };
                            let ghost pre = out.deep_view();
                            out.push(rec);
                            i = i + 1;
                            proof {
                                let dv = names.deep_view();
                                assert(out.deep_view() =~= pre.push(f(dv[i - 1])));
                                assert(dv.take(i as int).map_values(f) =~= dv.take(i - 1)
                                    .map_values(f).push(f(dv[i - 1])));
                            }
                        }
                        proof {
                            let dv = names.deep_view();
                            assert(dv.take(dv.len() as int) =~= dv);
                            assert(out.deep_view() =~= spec_answers(zone@, ptr@, qm));
                        }
                        out
                    },
                    None => {
                        let empty: Vec<Record> = Vec::new();
                        proof {
                            assert(empty.deep_view() =~= Seq::<RecordModel>::empty());
                        }
                        empty
                    },
                }
            } else {
                let empty: Vec<Record> = Vec::new();
                proof {
                    assert(empty.deep_view() =~= Seq::<RecordModel>::empty());
                }
                empty
            };
            proof {
                assert(answers.deep_view() == spec_answers(zone@, ptr@, qm));
                assert(answers.deep_view().len() <= 0xffff) by {
                    if qm.qtype == QTYPE_A || qm.qtype == QTYPE_AAAA {
                    } else if qm.qtype == QTYPE_PTR {
                        match spec_parse_reverse(qm.labels) {
                            Some(a) => {
                                ptr@.entries.lemma_filter_len(
                                    |e: crate::ptr::PtrEntryModel| e.addr == a,
                                );
                            },
                            None => {},
                        }
                    }
                }
                assert forall|j: int|
                    0 <= j < answers.deep_view().len() implies (
                #[trigger] answers.deep_view()[j]).wf() by {
                    if qm.qtype == QTYPE_A || qm.qtype == QTYPE_AAAA {
                        crate::zone::lemma_lookup_within_snapshot(zone@, qm.labels, qm.qtype);
                        assert(zone@.records.contains(answers.deep_view()[j]));
                        let idx = choose|idx: int|
                            0 <= idx < zone@.records.len() && zone@.records[idx]
                                == answers.deep_view()[j];
                    } else if qm.qtype == QTYPE_PTR {
                        match spec_parse_reverse(qm.labels) {
                            Some(a) => {
                                let looked = crate::ptr::spec_ptr_lookup(ptr@, a);
                                let pred = |e: crate::ptr::PtrEntryModel| e.addr == a;
                                let matched = ptr@.entries.filter(pred);
                                assert(answers.deep_view()[j].name == qm.labels);
                                assert(answers.deep_view()[j].data == RecordDataModel::Ptr(
                                    looked[j],
                                ));
                                assert(looked[j] == matched[j].name);
                                assert(matched.contains(matched[j]));
                                ptr@.entries.lemma_filter_contains_rev(pred, matched[j]);
                                let idx = choose|idx: int|
                                    0 <= idx < ptr@.entries.len() && ptr@.entries[idx]
                                        == matched[j];
                                assert(name_wf(matched[j].name));
                            },
                            None => {},
                        }
                    }
                }
            }
            Some(build_response(&q, &answers))
        },
    }
}

} // verus!
