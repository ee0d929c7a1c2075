//! Hostname derivation: display names are sanitized into labels, and on
//! collision a deterministic suffix chain derived from the member
//! identifier disambiguates, so names are unique within one snapshot.

use vstd::prelude::*;
use crate::record::{eligible, valid_label, Member};
use crate::revname::{dec_digits, dec_u64, lemma_dec_digits_len, lemma_dec_digits_shape};

verus! {

/// Bytes allowed in a forward label: lower-case letters, digits, dash.
pub open spec fn valid_host_byte(b: u8) -> bool {
    (97 <= b <= 122) || (48 <= b <= 57) || b == 45
}

/// Upper case folds to lower case; anything outside the label alphabet
/// becomes a dash.
pub open spec fn sanitize_byte(b: u8) -> u8 {
    if 65 <= b <= 90 {
        (b + 32) as u8
    } else if valid_host_byte(b) {
        b
    } else {
        45u8
    }
}

/// The sanitized form of a display name or identifier.
pub open spec fn sanitize_spec(s: Seq<u8>) -> Seq<u8> {
    s.map_values(|b: u8| sanitize_byte(b))
}

/// The first `n` bytes, or all of them when there are fewer.
pub open spec fn clip(s: Seq<u8>, n: nat) -> Seq<u8> {
    if s.len() <= n {
        s
    } else {
        s.take(n as int)
    }
}

/// The fallback label used when a member offers no usable name bytes.
pub open spec fn member_label() -> Seq<u8> {
    seq![109u8, 101, 109, 98, 101, 114]
}

/// The label a member's records hang under before disambiguation: the
/// sanitized display name clipped short, the sanitized identifier when
/// the display name sanitizes to nothing, and a fixed label when both do.
pub open spec fn base_label_spec(display: Seq<u8>, id: Seq<u8>) -> Seq<u8> {
    let d = clip(sanitize_spec(display), 30);
    let t = clip(sanitize_spec(id), 30);
    if d.len() > 0 {
        d
    } else if t.len() > 0 {
        t
    } else {
        member_label()
    }
}

/// The disambiguation suffix: the sanitized identifier clipped short.
pub open spec fn suffix_spec(id: Seq<u8>) -> Seq<u8> {
    clip(sanitize_spec(id), 10)
}

/// The naming candidates tried for a member, in order: the base label,
/// then the base with the identifier suffix, then the same with a
/// decimal counter.
pub open spec fn candidate_spec(display: Seq<u8>, id: Seq<u8>, k: nat) -> Seq<u8> {
    let base = base_label_spec(display, id);
    if k == 0 {
        base
    } else if k == 1 {
        base + seq![45u8] + suffix_spec(id)
    } else {
        base + seq![45u8] + suffix_spec(id) + seq![45u8] + dec_digits(k)
    }
}

pub proof fn lemma_base_label_bounds(display: Seq<u8>, id: Seq<u8>)
    ensures
        1 <= base_label_spec(display, id).len() <= 30,
        suffix_spec(id).len() <= 10,
{
}

pub fn sanitize(s: &Vec<u8>) -> (r: Vec<u8>)
    ensures
        r@ == sanitize_spec(s@),
{
    let mut r: Vec<u8> = Vec::new();
    let mut i: usize = 0;
    while i < s.len()
        invariant
            i <= s@.len(),
            r@.len() == i,
            forall|j: int| 0 <= j < i ==> r@[j] == sanitize_byte(s@[j]),
        decreases s.len() - i,
    {
        let b = s[i];
        let c: u8 = if 65 <= b && b <= 90 {
            b + 32
        } else if (97 <= b && b <= 122) || (48 <= b && b <= 57) || b == 45 {
            b
        } else {
            45u8
        };
        r.push(c);
        i = i + 1;
    }
    proof {
        assert(r@ =~= sanitize_spec(s@));
    }
    r
}

/// The first `n` bytes of `v`.
pub fn clip_bytes(v: &Vec<u8>, n: usize) -> (r: Vec<u8>)
    ensures
        r@ == clip(v@, n as nat),
{
    if v.len() <= n {
        crate::record::copy_bytes(v)
    } else {
        let mut r: Vec<u8> = Vec::new();
        let mut i: usize = 0;
        while i < n
            invariant
                i <= n,
                n < v@.len(),
                r@.len() == i,
                forall|j: int| 0 <= j < i ==> r@[j] == v@[j],
            decreases n - i,
        {
            r.push(v[i]);
            i = i + 1;
        }
        proof {
            assert(r@ =~= v@.take(n as int));
        }
        r
    }
}

/// Appends all of `src` onto `dst`.
pub fn push_all(dst: &mut Vec<u8>, src: &Vec<u8>)
    ensures
        final(dst)@ == old(dst)@ + src@,
{
    let mut i: usize = 0;
    while i < src.len()
        invariant
            i <= src@.len(),
            dst@ == old(dst)@ + src@.take(i as int),
        decreases src.len() - i,
    {
        dst.push(src[i]);
        i = i + 1;
        proof {
            assert(old(dst)@ + src@.take(i as int) =~= (old(dst)@ + src@.take(i - 1)).push(
                src@[i - 1],
            ));
        }
    }
    proof {
        assert(src@.take(src@.len() as int) =~= src@);
    }
}

/// Builds the sanitized base label of a member.
pub fn base_label(display: &Vec<u8>, id: &Vec<u8>) -> (r: Vec<u8>)
    ensures
        r@ == base_label_spec(display@, id@),
{
    let d = clip_bytes(&sanitize(display), 30);
    if d.len() > 0 {
        return d;
    }
    let t = clip_bytes(&sanitize(id), 30);
    if t.len() > 0 {
        return t;
    }
    let m = vec![109u8, 101, 109, 98, 101, 114];
    proof {
        assert(m@ =~= member_label());
    }
    m
}

/// Builds the `k`-th naming candidate from the prepared base and suffix.
pub(crate) fn make_candidate(
    base: &Vec<u8>,
    sid: &Vec<u8>,
    k: usize,
    Ghost(display): Ghost<Seq<u8>>,
    Ghost(id): Ghost<Seq<u8>>,
) -> (r: Vec<u8>)
    requires
        base@ == base_label_spec(display, id),
        sid@ == suffix_spec(id),
    ensures
        r@ == candidate_spec(display, id, k as nat),
        valid_label(r@),
{
    proof {
        lemma_base_label_bounds(display, id);
    }
    let mut r = crate::record::copy_bytes(base);
    if k == 0 {
        return r;
    }
    r.push(45);
    push_all(&mut r, sid);
    proof {
        assert(r@ =~= base@ + seq![45u8] + sid@);
    }
    if k >= 2 {
        r.push(45);
        let d = dec_u64(k as u64);
        push_all(&mut r, &d);
        proof {
            lemma_dec_digits_len(k as nat);
            assert(r@ =~= base@ + seq![45u8] + sid@ + seq![45u8] + dec_digits(k as nat));
        }
    }
    r
}

/// Appending to a common prefix is injective on the appended part.
proof fn lemma_append_right_inj(p: Seq<u8>, x: Seq<u8>, y: Seq<u8>)
    requires
        p + x == p + y,
    ensures
        x == y,
{
    assert(x =~= (p + x).subrange(p.len() as int, (p + x).len() as int));
    assert(y =~= (p + y).subrange(p.len() as int, (p + y).len() as int));
}

/// True when some entry of `list` holds exactly these bytes.
pub fn contains_bytes(list: &Vec<Vec<u8>>, x: &Vec<u8>) -> (r: bool)
    ensures
        r == list.deep_view().contains(x@),
{
    let mut i: usize = 0;
    while i < list.len()
        invariant
            i <= list@.len(),
            list@.len() == list.deep_view().len(),
            forall|j: int| 0 <= j < i ==> list.deep_view()[j] != x@,
        decreases list.len() - i,
    {
        if crate::record::bytes_eq(&list[i], x) {
            proof {
                assert(list.deep_view()[i as int] == list@[i as int]@);
                assert(list.deep_view()[i as int] == x@);
            }
            return true;
        }
        i = i + 1;
        proof {
            assert(list.deep_view()[i - 1] == list@[i - 1]@);
        }
    }
    proof {
        if list.deep_view().contains(x@) {
            let j = choose|j: int|
                0 <= j < list.deep_view().len() && list.deep_view()[j] == x@;
            assert(false);
        }
    }
    false
}

/// The values of the filled entries, in order.
pub open spec fn somes(nv: Seq<Option<Seq<u8>>>) -> Seq<Seq<u8>> {
    nv.filter_map(|o: Option<Seq<u8>>| o)
}

proof fn lemma_somes_push(nv: Seq<Option<Seq<u8>>>, o: Option<Seq<u8>>)
    ensures
        o is Some ==> somes(nv.push(o)) == somes(nv).push(o.unwrap()),
        o is None ==> somes(nv.push(o)) == somes(nv),
{
    let f = |o: Option<Seq<u8>>| o;
    assert(nv.push(o).drop_last() =~= nv);
    assert(nv.push(o).last() == o);
    if o is Some {
        assert(somes(nv.push(o)) == somes(nv) + seq![o.unwrap()]);
        assert(somes(nv) + seq![o.unwrap()] =~= somes(nv).push(o.unwrap()));
    }
}

/// A value stands among the filled entries exactly when some entry holds it.
proof fn lemma_somes_contains(nv: Seq<Option<Seq<u8>>>, x: Seq<u8>)
    ensures
        somes(nv).contains(x) <==> exists|a: int| 0 <= a < nv.len() && nv[a] == Some(x),
    decreases nv.len(),
{
    let f = |o: Option<Seq<u8>>| o;
    if nv.len() == 0 {
        assert(somes(nv).len() == 0);
    } else {
        let rest = nv.drop_last();
        lemma_somes_contains(rest, x);
        let tail: Seq<Seq<u8>> = match nv.last() {
            Some(v) => seq![v],
            None => Seq::empty(),
        };
        assert(somes(nv) == somes(rest) + tail);
        if somes(nv).contains(x) {
            let i = choose|i: int| 0 <= i < somes(nv).len() && somes(nv)[i] == x;
            if i < somes(rest).len() {
                assert(somes(rest)[i] == x);
                assert(somes(rest).contains(x));
                let a = choose|a: int| 0 <= a < rest.len() && rest[a] == Some(x);
                assert(nv[a] == Some(x));
            } else {
                assert(tail[i - somes(rest).len()] == x);
                assert(nv.last() == Some(x));
                assert(nv[nv.len() - 1] == Some(x));
            }
        }
        if exists|a: int| 0 <= a < nv.len() && nv[a] == Some(x) {
            let a = choose|a: int| 0 <= a < nv.len() && nv[a] == Some(x);
            if a < nv.len() - 1 {
                assert(rest[a] == Some(x));
                assert(somes(rest).contains(x));
                let i = choose|i: int| 0 <= i < somes(rest).len() && somes(rest)[i] == x;
                assert(somes(nv)[i] == x);
                assert(somes(nv).contains(x));
            } else {
                assert(nv.last() == Some(x));
                assert(somes(nv)[somes(rest).len() as int] == x);
                assert(somes(nv).contains(x));
            }
        }
    }
}

/// A candidate of this member was already claimed by an earlier member.
pub open spec fn taken_before(nv: Seq<Option<Seq<u8>>>, i: int, x: Seq<u8>) -> bool {
    exists|a: int| 0 <= a < i && nv[a] == Some(x)
}

/// Assigns each eligible member its forward label: the first naming
/// candidate not already claimed by an earlier member. Names are unique
/// within the snapshot, and a member gets a name exactly when it is
/// online with at least one address.
pub fn assign_names(members: &Vec<Member>) -> (names: Vec<Option<Vec<u8>>>)
    requires
        members@.len() <= usize::MAX - 3,
    ensures
        names.deep_view().len() == members@.len(),
        forall|i: int|
            0 <= i < names.deep_view().len() ==> ((#[trigger] names.deep_view()[i]) is Some
                <==> eligible(members.deep_view()[i])),
        forall|i: int|
            0 <= i < names.deep_view().len() && names.deep_view()[i] is Some ==> valid_label(
                (#[trigger] names.deep_view()[i]).unwrap(),
            ),
        forall|i: int, j: int|
            0 <= i < j < names.deep_view().len() && names.deep_view()[i] is Some
                && names.deep_view()[j] is Some ==> (#[trigger] names.deep_view()[i]).unwrap()
                != (#[trigger] names.deep_view()[j]).unwrap(),
        forall|i: int|
            0 <= i < names.deep_view().len() && (#[trigger] names.deep_view()[i]) is Some
                ==> exists|k: nat|
                names.deep_view()[i].unwrap() == candidate_spec(
                    members.deep_view()[i].display,
                    members.deep_view()[i].id,
                    k,
                ) && (forall|k2: nat|
                    k2 < k ==> taken_before(
                        names.deep_view(),
                        i,
                        candidate_spec(
                            members.deep_view()[i].display,
                            members.deep_view()[i].id,
                            k2,
                        ),
                    )),
{
    let ghost mdv = members.deep_view();
    let mut names: Vec<Option<Vec<u8>>> = Vec::new();
    let mut chosen: Vec<Vec<u8>> = Vec::new();
    let mut i: usize = 0;
    proof {
        assert(names.deep_view() =~= Seq::<Option<Seq<u8>>>::empty());
        assert(chosen.deep_view() =~= Seq::<Seq<u8>>::empty());
        assert(somes(names.deep_view()) =~= Seq::<Seq<u8>>::empty());
    }
    while i < members.len()
        invariant
            i <= members@.len(),
            members@.len() <= usize::MAX - 3,
            mdv == members.deep_view(),
            mdv.len() == members@.len(),
            names@.len() == i,
            names.deep_view().len() == i,
            chosen@.len() == chosen.deep_view().len(),
            chosen.deep_view() == somes(names.deep_view()),
            chosen@.len() <= i,
            forall|j: int|
                0 <= j < i ==> ((#[trigger] names.deep_view()[j]) is Some <==> eligible(mdv[j])),
            forall|j: int|
                0 <= j < i && names.deep_view()[j] is Some ==> valid_label(
                    (#[trigger] names.deep_view()[j]).unwrap(),
                ),
            forall|j1: int, j2: int|
                0 <= j1 < j2 < i && names.deep_view()[j1] is Some && names.deep_view()[j2] is Some
                    ==> (#[trigger] names.deep_view()[j1]).unwrap() != (
                #[trigger] names.deep_view()[j2]).unwrap(),
            forall|j: int|
                0 <= j < i && (#[trigger] names.deep_view()[j]) is Some ==> exists|k: nat|
                    names.deep_view()[j].unwrap() == candidate_spec(
                        mdv[j].display,
                        mdv[j].id,
                        k,
                    ) && (forall|k2: nat|
                        k2 < k ==> taken_before(
                            names.deep_view(),
                            j,
                            candidate_spec(mdv[j].display, mdv[j].id, k2),
                        )),
        decreases members.len() - i,
    {
        let m = &members[i];
        proof {
            assert(mdv[i as int] == members@[i as int]@);
        }
        let elig = m.online && m.addrs.len() > 0;
        proof {
            assert(elig == eligible(mdv[i as int]));
        }
        if !elig {
            let ghost pre_nv = names.deep_view();
            names.push(None);
            proof {
                assert(names.deep_view() =~= pre_nv.push(None));
                lemma_somes_push(pre_nv, None);
                assert forall|j: int| 0 <= j < i implies names.deep_view()[j] == pre_nv[j] by {}
                assert(names.deep_view()[i as int] is None);
            }
        } else {
            let base = base_label(&m.display, &m.id);
            let sid = clip_bytes(&sanitize(&m.id), 10);
            let ghost d = mdv[i as int].display;
            let ghost idq = mdv[i as int].id;
            proof {
                assert(m.display@ == d && m.id@ == idq);
            }
            let bound: usize = chosen.len() + 3;
            let mut k: usize = 0;
            let mut found: Option<Vec<u8>> = None;
            let ghost mut found_k: nat = 0;
            while k < bound
                invariant_except_break
                    k <= bound,
                    found is None,
                    base@ == base_label_spec(d, idq),
                    sid@ == suffix_spec(idq),
                    bound == chosen@.len() + 3,
                    chosen@.len() == chosen.deep_view().len(),
                    chosen@.len() <= usize::MAX - 3,
                    forall|k2: nat|
                        k2 < k ==> chosen.deep_view().contains(
                            #[trigger] candidate_spec(d, idq, k2),
                        ),
                ensures
                    base@ == base_label_spec(d, idq),
                    sid@ == suffix_spec(idq),
                    bound == chosen@.len() + 3,
                    chosen@.len() == chosen.deep_view().len(),
                    match found {
                        Some(c) => {
                            &&& c@ == candidate_spec(d, idq, found_k)
                            &&& valid_label(c@)
                            &&& !chosen.deep_view().contains(c@)
                            &&& forall|k2: nat|
                                k2 < found_k ==> chosen.deep_view().contains(
                                    #[trigger] candidate_spec(d, idq, k2),
                                )
                        },
                        None => forall|k2: nat|
                            k2 < bound ==> chosen.deep_view().contains(
                                #[trigger] candidate_spec(d, idq, k2),
                            ),
                    },
                decreases bound - k,
            {
                let cand = make_candidate(&base, &sid, k, Ghost(d), Ghost(idq));
                if !contains_bytes(&chosen, &cand) {
                    proof {
                        found_k = k as nat;
                    }
                    found = Some(cand);
                    break;
                }
                k = k + 1;
            }
            match found {
                Some(cand) => {
                    let ghost pre_nv = names.deep_view();
                    let ghost pre_ch = chosen.deep_view();
                    let cand2 = crate::record::copy_bytes(&cand);
                    names.push(Some(cand));
                    chosen.push(cand2);
                    proof {
                        assert(names@[i as int] is Some);
                        assert(names@[i as int].unwrap()@ == candidate_spec(d, idq, found_k));
                        assert(names.deep_view()[i as int] == names@[i as int].deep_view());
                        assert(names@[i as int].deep_view() == Some(
                            candidate_spec(d, idq, found_k),
                        ));
                        assert forall|j: int| 0 <= j < i implies names.deep_view()[j]
                            == pre_nv[j] by {
                            assert(names.deep_view()[j] == names@[j].deep_view());
                        }
                        assert(names.deep_view() =~= pre_nv.push(
                            Some(candidate_spec(d, idq, found_k)),
                        ));
                        assert(chosen.deep_view() =~= pre_ch.push(candidate_spec(d, idq, found_k)));
                        lemma_somes_push(pre_nv, Some(candidate_spec(d, idq, found_k)));
                        assert(chosen.deep_view() == somes(names.deep_view()));
                        assert forall|j: int| 0 <= j < i implies names.deep_view()[j]
                            == pre_nv[j] by {}
                        // uniqueness against earlier names
                        assert forall|j: int|
                            0 <= j < i && names.deep_view()[j] is Some implies names.deep_view()[
                            j].unwrap() != candidate_spec(d, idq, found_k) by {
                            lemma_somes_contains(pre_nv, pre_nv[j].unwrap());
                            assert(pre_ch.contains(pre_nv[j].unwrap()));
                            if pre_nv[j].unwrap() == candidate_spec(d, idq, found_k) {
                                assert(pre_ch.contains(candidate_spec(d, idq, found_k)));
                                assert(false);
                            }
                        }
                        // first-free witness for entry i
                        assert forall|k2: nat|
                            k2 < found_k implies taken_before(
                            names.deep_view(),
                            i as int,
                            candidate_spec(d, idq, k2),
                        ) by {
                            assert(pre_ch.contains(candidate_spec(d, idq, k2)));
                            lemma_somes_contains(pre_nv, candidate_spec(d, idq, k2));
                            let a = choose|a: int|
                                0 <= a < pre_nv.len() && pre_nv[a] == Some(
                                    candidate_spec(d, idq, k2),
                                );
                            assert(names.deep_view()[a] == Some(candidate_spec(d, idq, k2)));
                        }
                        assert(names.deep_view()[i as int] == Some(
                            candidate_spec(d, idq, found_k),
                        ));
                    }
                },
                None => {
                    proof {
                        let cl = chosen.deep_view().len() as int;
                        let cseq = Seq::new(
                            (cl + 1) as nat,
                            |j: int| candidate_spec(d, idq, (j + 2) as nat),
                        );
                        assert forall|a: int, b: int|
                            0 <= a < cseq.len() && 0 <= b < cseq.len() && a != b implies cseq[a]
                            != cseq[b] by {
                            if a < b {
                                lemma_candidates_distinct(d, idq, (a + 2) as nat, (b + 2) as nat);
                            } else {
                                lemma_candidates_distinct(d, idq, (b + 2) as nat, (a + 2) as nat);
                            }
                        }
                        assert(cseq.no_duplicates());
                        assert forall|j: int|
                            0 <= j < cseq.len() implies chosen.deep_view().contains(
                            cseq[j],
                        ) by {
                            assert(0 <= j + 2 < bound);
                            assert(chosen.deep_view().contains(
                                candidate_spec(d, idq, (j + 2) as nat),
                            ));
                        }
                        cseq.unique_seq_to_set();
                        chosen.deep_view().lemma_cardinality_of_set();
                        broadcast use vstd::seq_lib::seq_to_set_is_finite;

                        assert(cseq.to_set().subset_of(chosen.deep_view().to_set())) by {
                            assert forall|x: Seq<u8>| cseq.to_set().contains(x)
                                implies chosen.deep_view().to_set().contains(x) by {
                                assert(cseq.contains(x));
                                let j = choose|j: int| 0 <= j < cseq.len() && cseq[j] == x;
                                assert(chosen.deep_view().contains(x));
                            }
                        }
                        vstd::set_lib::lemma_len_subset(
                            cseq.to_set(),
                            chosen.deep_view().to_set(),
                        );
                        assert(cseq.to_set().len() == cl + 1);
                        assert(chosen.deep_view().to_set().len() <= cl);
                        assert(false);
                    }
                },
            }
        }
        i = i + 1;
    }
    proof {
        assert(names.deep_view().len() == mdv.len());
    }
    names
}

/// Counted candidates of one member never repeat: the counter is encoded
/// in canonical decimal, which is injective.
pub proof fn lemma_candidates_distinct(display: Seq<u8>, id: Seq<u8>, k1: nat, k2: nat)
    requires
        2 <= k1 < k2,
    ensures
        candidate_spec(display, id, k1) != candidate_spec(display, id, k2),
{
    let p = base_label_spec(display, id) + seq![45u8] + suffix_spec(id) + seq![45u8];
    assert(candidate_spec(display, id, k1) =~= p + dec_digits(k1));
    assert(candidate_spec(display, id, k2) =~= p + dec_digits(k2));
    if candidate_spec(display, id, k1) == candidate_spec(display, id, k2) {
        lemma_append_right_inj(p, dec_digits(k1), dec_digits(k2));
        lemma_dec_digits_shape(k1);
        lemma_dec_digits_shape(k2);
        assert(false);
    }
}

} // verus!
