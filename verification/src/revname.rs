//! Reverse-DNS names: encoding an address as the label list of its
//! reverse name, parsing such a list back, and the round trip between
//! the two.

use vstd::prelude::*;
use crate::ip::Ip;

verus! {

/// The decimal digits of a number, most significant first.
pub open spec fn dec_digits(n: nat) -> Seq<u8>
    decreases n,
{
    if n < 10 {
        seq![(48 + n) as u8]
    } else {
        dec_digits(n / 10).push((48 + n % 10) as u8)
    }
}

/// Every byte is an ASCII digit.
pub open spec fn is_dec_digits(s: Seq<u8>) -> bool {
    forall|i: int| 0 <= i < s.len() ==> 48 <= #[trigger] s[i] <= 57
}

/// A canonical decimal string: non-empty digits with no leading zero.
pub open spec fn canonical_dec(s: Seq<u8>) -> bool {
    is_dec_digits(s) && s.len() >= 1 && (s.len() > 1 ==> s[0] != 48)
}

/// The number a digit string denotes.
pub open spec fn dec_value(s: Seq<u8>) -> nat
    decreases s.len(),
{
    if s.len() == 0 {
        0
    } else {
        dec_value(s.drop_last()) * 10 + (if 48 <= s.last() <= 57 {
            (s.last() - 48) as nat
        } else {
            0
        })
    }
}

pub open spec fn pow10(n: nat) -> nat
    decreases n,
{
    if n == 0 {
        1nat
    } else {
        10 * pow10((n - 1) as nat)
    }
}

pub proof fn lemma_dec_digits_shape(n: nat)
    ensures
        is_dec_digits(dec_digits(n)),
        dec_digits(n).len() >= 1,
        dec_digits(n)[0] == 48 ==> n == 0,
        dec_value(dec_digits(n)) == n,
    decreases n,
{
    if n < 10 {
        assert(dec_digits(n) == seq![(48 + n) as u8]);
        assert(dec_digits(n).drop_last() =~= Seq::<u8>::empty());
        assert(dec_value(Seq::<u8>::empty()) == 0);
        assert(dec_digits(n).last() == (48 + n) as u8);
        assert(dec_value(dec_digits(n)) == 0 * 10 + n);
    } else {
        lemma_dec_digits_shape(n / 10);
        let rest = dec_digits(n / 10);
        assert(dec_digits(n) == rest.push((48 + n % 10) as u8));
        assert(dec_digits(n).drop_last() =~= rest);
        assert(dec_digits(n)[0] == rest[0]);
        assert(n / 10 >= 1);
        assert(dec_digits(n).last() == (48 + n % 10) as u8);
        assert(dec_value(dec_digits(n)) == dec_value(rest) * 10 + n % 10);
        vstd::arithmetic::div_mod::lemma_fundamental_div_mod(n as int, 10);
    }
}

/// At most `d` digits are needed below the `d`-th power of ten.
pub proof fn lemma_dec_digits_len_below(n: nat, d: nat)
    requires
        d >= 1,
        n < pow10(d),
    ensures
        dec_digits(n).len() <= d,
    decreases n,
{
    if n >= 10 {
        assert(d >= 2) by {
            if d == 1 {
                assert(pow10(1) == 10 * pow10(0));
            }
        }
        assert(pow10(d) == 10 * pow10((d - 1) as nat));
        assert(n / 10 < pow10((d - 1) as nat)) by (nonlinear_arith)
            requires
                n < 10 * pow10((d - 1) as nat),
        ;
        lemma_dec_digits_len_below(n / 10, (d - 1) as nat);
    }
}

pub proof fn lemma_dec_digits_len(n: nat)
    ensures
        n <= 9 ==> dec_digits(n).len() == 1,
        n <= 99 ==> dec_digits(n).len() <= 2,
        n <= 255 ==> dec_digits(n).len() <= 3,
        n <= 0xffff_ffff_ffff_ffff ==> dec_digits(n).len() <= 20,
{
    assert(pow10(0) == 1);
    assert(pow10(1) == 10);
    assert(pow10(2) == 100);
    assert(pow10(3) == 1000);
    assert(pow10(4) == 10000);
    assert(pow10(5) == 100000);
    assert(pow10(6) == 1000000);
    assert(pow10(7) == 10000000);
    assert(pow10(8) == 100000000);
    assert(pow10(9) == 1000000000);
    assert(pow10(10) == 10000000000);
    assert(pow10(11) == 100000000000);
    assert(pow10(12) == 1000000000000);
    assert(pow10(13) == 10000000000000);
    assert(pow10(14) == 100000000000000);
    assert(pow10(15) == 1000000000000000);
    assert(pow10(16) == 10000000000000000);
    assert(pow10(17) == 100000000000000000);
    assert(pow10(18) == 1000000000000000000);
    assert(pow10(19) == 10000000000000000000);
    assert(pow10(20) == 100000000000000000000);
    if n <= 9 {
        lemma_dec_digits_len_below(n, 1);
    }
    if n <= 99 {
        lemma_dec_digits_len_below(n, 2);
    }
    if n <= 255 {
        lemma_dec_digits_len_below(n, 3);
    }
    if n <= 0xffff_ffff_ffff_ffff {
        lemma_dec_digits_len_below(n, 20);
    }
}

pub proof fn lemma_dec_value_bound(s: Seq<u8>)
    requires
        is_dec_digits(s),
    ensures
        dec_value(s) < pow10(s.len()),
    decreases s.len(),
{
    if s.len() > 0 {
        assert(is_dec_digits(s.drop_last()));
        lemma_dec_value_bound(s.drop_last());
    }
}

/// What a reverse-name octet label denotes: a canonical decimal of at
/// most three digits with value at most 255.
pub open spec fn spec_parse_dec255(s: Seq<u8>) -> Option<u8> {
    if canonical_dec(s) && s.len() <= 3 && dec_value(s) <= 255 {
        Some(dec_value(s) as u8)
    } else {
        None
    }
}

/// A canonical decimal label round-trips to the number it was made from.
pub proof fn lemma_dec_round_trip(o: u8)
    ensures
        spec_parse_dec255(dec_digits(o as nat)) == Some(o),
{
    lemma_dec_digits_shape(o as nat);
    lemma_dec_digits_len(o as nat);
}

pub fn dec_u64(n: u64) -> (r: Vec<u8>)
    ensures
        r@ == dec_digits(n as nat),
    decreases n,
{
    if n < 10 {
        let mut v: Vec<u8> = Vec::new();
        v.push(48 + n as u8);
        proof {
            assert(v@ =~= dec_digits(n as nat));
        }
        v
    } else {
        let mut v = dec_u64(n / 10);
        v.push(48 + (n % 10) as u8);
        proof {
            assert(v@ =~= dec_digits(n as nat));
        }
        v
    }
}

pub fn parse_dec255(l: &Vec<u8>) -> (r: Option<u8>)
    ensures
        r == spec_parse_dec255(l@),
{
    if l.len() == 0 || l.len() > 3 {
        return None;
    }
    if l.len() > 1 && l[0] == 48 {
        return None;
    }
    let mut v: u32 = 0;
    let mut i: usize = 0;
    while i < l.len()
        invariant
            i <= l@.len(),
            1 <= l@.len() <= 3,
            forall|j: int| 0 <= j < i ==> 48 <= #[trigger] l@[j] <= 57,
            v == dec_value(l@.take(i as int)),
            v < 1000,
        decreases l.len() - i,
    {
        let b = l[i];
        if b < 48 || b > 57 {
            return None;
        }
        proof {
            assert(l@.take(i + 1).drop_last() =~= l@.take(i as int));
            assert(l@.take(i + 1).last() == l@[i as int]);
            assert(is_dec_digits(l@.take(i as int)));
            lemma_dec_value_bound(l@.take(i as int));
            assert(dec_value(l@.take(i as int)) < pow10(i as nat));
            assert(pow10(0) == 1 && pow10(1) == 10 && pow10(2) == 100);
        }
        v = v * 10 + (b - 48) as u32;
        i = i + 1;
    }
    proof {
        assert(l@.take(l@.len() as int) =~= l@);
    }
    if v <= 255 {
        Some(v as u8)
    } else {
        None
    }
}

/// The "in-addr" label.
pub open spec fn in_addr_label() -> Seq<u8> {
    seq![105u8, 110, 45, 97, 100, 100, 114]
}

/// The "arpa" label.
pub open spec fn arpa_label() -> Seq<u8> {
    seq![97u8, 114, 112, 97]
}

/// The "ip6" label.
pub open spec fn ip6_label() -> Seq<u8> {
    seq![105u8, 112, 54]
}

pub fn in_addr_bytes() -> (r: Vec<u8>)
    ensures
        r@ == in_addr_label(),
{
    let v = vec![105u8, 110, 45, 97, 100, 100, 114];
    proof {
        assert(v@ =~= in_addr_label());
    }
    v
}

pub fn arpa_bytes() -> (r: Vec<u8>)
    ensures
        r@ == arpa_label(),
{
    let v = vec![97u8, 114, 112, 97];
    proof {
        assert(v@ =~= arpa_label());
    }
    v
}

pub fn ip6_bytes() -> (r: Vec<u8>)
    ensures
        r@ == ip6_label(),
{
    let v = vec![105u8, 112, 54];
    proof {
        assert(v@ =~= ip6_label());
    }
    v
}

/// The `i`-th low-order nibble of a v6 address.
pub open spec fn nib(a: u128, i: int) -> u8 {
    ((a >> ((4 * i) as u128)) & 0xf) as u8
}

/// Lower-case hex digit of a nibble.
pub open spec fn hex_digit(n: u8) -> u8 {
    if n < 10 {
        (48 + n) as u8
    } else {
        (87 + n) as u8
    }
}

pub open spec fn is_hex(b: u8) -> bool {
    (48 <= b <= 57) || (97 <= b <= 102)
}

pub open spec fn hex_val(b: u8) -> u8 {
    if 48 <= b <= 57 {
        (b - 48) as u8
    } else if 97 <= b <= 102 {
        (b - 87) as u8
    } else {
        0
    }
}

/// The reverse-name labels of an address: for v4 the four octets as
/// decimal labels, least significant first, under "in-addr.arpa"; for v6
/// the thirty-two nibbles as hex labels, least significant first, under
/// "ip6.arpa".
pub open spec fn spec_reverse_labels(a: Ip) -> Seq<Seq<u8>> {
    match a {
        Ip::V4(v) => seq![
            dec_digits((v & 0xff) as nat),
            dec_digits(((v >> 8) & 0xff) as nat),
            dec_digits(((v >> 16) & 0xff) as nat),
            dec_digits(((v >> 24) & 0xff) as nat),
            in_addr_label(),
            arpa_label(),
        ],
        Ip::V6(v) => Seq::new(
            34,
            |i: int|
                if i < 32 {
                    seq![hex_digit(nib(v, i))]
                } else if i == 32 {
                    ip6_label()
                } else {
                    arpa_label()
                },
        ),
    }
}

/// What a label list denotes as a reverse name, if anything.
pub open spec fn spec_parse_reverse(ls: Seq<Seq<u8>>) -> Option<Ip> {
    if ls.len() == 6 && ls[4] == in_addr_label() && ls[5] == arpa_label()
        && spec_parse_dec255(ls[0]) is Some && spec_parse_dec255(ls[1]) is Some
        && spec_parse_dec255(ls[2]) is Some && spec_parse_dec255(ls[3]) is Some {
        Some(
            Ip::V4(
                ((spec_parse_dec255(ls[3]).unwrap() as u32) << 24u32) | (
                (spec_parse_dec255(ls[2]).unwrap() as u32) << 16u32) | (
                (spec_parse_dec255(ls[1]).unwrap() as u32) << 8u32) | (spec_parse_dec255(
                    ls[0],
                ).unwrap() as u32),
            ),
        )
    } else if ls.len() == 34 && ls[32] == ip6_label() && ls[33] == arpa_label() && (forall|i: int|
        0 <= i < 32 ==> (#[trigger] ls[i]).len() == 1 && is_hex(ls[i][0])) {
        Some(Ip::V6(v6_acc(ls, 32)))
    } else {
        None
    }
}

/// The v6 value denoted by the first `k` nibble labels.
pub open spec fn v6_acc(ls: Seq<Seq<u8>>, k: int) -> u128
    decreases k,
{
    if k <= 0 {
        0u128
    } else {
        v6_acc(ls, k - 1) | ((hex_val(ls[k - 1][0]) as u128) << ((4 * (k - 1)) as u128))
    }
}

pub fn reverse_labels(a: &Ip) -> (r: Vec<Vec<u8>>)
    ensures
        r.deep_view() == spec_reverse_labels(*a),
{
    match a {
        Ip::V4(v) => {
            let mut r: Vec<Vec<u8>> = Vec::new();
            r.push(dec_u64((*v & 0xff) as u64));
            r.push(dec_u64(((*v >> 8u32) & 0xff) as u64));
            r.push(dec_u64(((*v >> 16u32) & 0xff) as u64));
            r.push(dec_u64(((*v >> 24u32) & 0xff) as u64));
            r.push(in_addr_bytes());
            r.push(arpa_bytes());
            proof {
                assert forall|j: int| 0 <= j < 6 implies r.deep_view()[j]
                    == spec_reverse_labels(*a)[j] by {
                    assert(r.deep_view()[j] == r@[j]@);
                }
                assert(r.deep_view() =~= spec_reverse_labels(*a));
            }
            r
        },
        Ip::V6(v) => {
            let mut r: Vec<Vec<u8>> = Vec::new();
            let mut i: usize = 0;
            while i < 32
                invariant
                    i <= 32,
                    r@.len() == i,
                    forall|j: int| 0 <= j < i ==> r@[j]@ == seq![hex_digit(nib(*v, j))],
                decreases 32 - i,
            {
                let n: u8 = ((*v >> ((4 * i) as u32)) & 0xf) as u8;
                proof {
                    assert((4 * (i as int)) as u128 == (4 * i) as u32 as u128);
                    assert(n == nib(*v, i as int));
                    let s: u128 = (4 * (i as int)) as u128;
                    assert(((*v >> s) & 0xf) < 16) by (bit_vector);
                    assert(n < 16);
                }
                let d: u8 = if n < 10 {
                    48 + n
                } else {
                    87 + n
                };
                let mut lab: Vec<u8> = Vec::new();
                lab.push(d);
                proof {
                    assert(lab@ =~= seq![hex_digit(nib(*v, i as int))]);
                }
                r.push(lab);
                i = i + 1;
            }
            r.push(ip6_bytes());
            r.push(arpa_bytes());
            proof {
                assert forall|j: int| 0 <= j < 34 implies r.deep_view()[j]
                    == spec_reverse_labels(*a)[j] by {
                    assert(r.deep_view()[j] == r@[j]@);
                }
                assert(r.deep_view() =~= spec_reverse_labels(*a));
            }
            r
        },
    }
}

pub fn parse_reverse(labels: &Vec<Vec<u8>>) -> (r: Option<Ip>)
    ensures
        r == spec_parse_reverse(labels.deep_view()),
{
    let ghost dv = labels.deep_view();
    proof {
        assert(dv.len() == labels@.len());
    }
    if labels.len() == 6 {
        proof {
            assert forall|j: int| 0 <= j < 6 implies dv[j] == labels@[j]@ by {}
        }
        let ia = in_addr_bytes();
        let ar = arpa_bytes();
        if !crate::record::bytes_eq(&labels[4], &ia) || !crate::record::bytes_eq(
            &labels[5],
            &ar,
        ) {
            return None;
        }
        let o0 = parse_dec255(&labels[0]);
        let o1 = parse_dec255(&labels[1]);
        let o2 = parse_dec255(&labels[2]);
        let o3 = parse_dec255(&labels[3]);
        match (o0, o1, o2, o3) {
            (Some(b0), Some(b1), Some(b2), Some(b3)) => Some(
                Ip::V4(
                    ((b3 as u32) << 24u32) | ((b2 as u32) << 16u32) | ((b1 as u32) << 8u32) | (
                    b0 as u32),
                ),
            ),
            _ => None,
        }
    } else if labels.len() == 34 {
        proof {
            assert forall|j: int| 0 <= j < 34 implies dv[j] == labels@[j]@ by {}
        }
        let i6 = ip6_bytes();
        let ar = arpa_bytes();
        if !crate::record::bytes_eq(&labels[32], &i6) || !crate::record::bytes_eq(
            &labels[33],
            &ar,
        ) {
            return None;
        }
        let mut acc: u128 = 0;
        let mut i: usize = 0;
        while i < 32
            invariant
                i <= 32,
                dv == labels.deep_view(),
                dv.len() == 34,
                labels@.len() == 34,
                forall|j: int| 0 <= j < 34 ==> dv[j] == (#[trigger] labels@[j])@,
                forall|j: int| 0 <= j < i ==> (#[trigger] dv[j]).len() == 1 && is_hex(dv[j][0]),
                acc == v6_acc(dv, i as int),
            decreases 32 - i,
        {
            let lab = &labels[i];
            if lab.len() != 1 {
                return None;
            }
            let b = lab[0];
            let hv: u8;
            if 48 <= b && b <= 57 {
                hv = b - 48;
            } else if 97 <= b && b <= 102 {
                hv = b - 87;
            } else {
                return None;
            }
            proof {
                assert(dv[i as int][0] == b);
                assert(hv == hex_val(dv[i as int][0]));
                assert((4 * (i as int)) as u128 == (4 * i) as u32 as u128);
            }
            acc = acc | ((hv as u128) << ((4 * i) as u32));
            i = i + 1;
        }
        Some(Ip::V6(acc))
    } else {
        None
    }
}

/// The nibble masks rebuild the address: folding the encoded nibbles back
/// together yields the low bits, step by step.
proof fn lemma_v6_acc_prefix(a: u128, ls: Seq<Seq<u8>>, k: int)
    requires
        0 <= k <= 32,
        forall|i: int| 0 <= i < 32 ==> #[trigger] ls[i] == seq![hex_digit(nib(a, i))],
    ensures
        k < 32 ==> v6_acc(ls, k) == a & !((!0u128) << ((4 * k) as u128)),
        k == 32 ==> v6_acc(ls, k) == a,
    decreases k,
{
    if k == 0 {
        assert(0u128 == a & !((!0u128) << 0u128)) by (bit_vector);
        assert((4 * k) as u128 == 0u128);
        assert(v6_acc(ls, 0) == 0);
    }
    if k > 0 {
        lemma_v6_acc_prefix(a, ls, k - 1);
        let s: u128 = (4 * (k - 1)) as u128;
        let n = nib(a, k - 1);
        assert(n < 16 && (n as u128) == ((a >> s) & 0xf)) by {
            assert(((a >> s) & 0xf) as u8 as u128 == (a >> s) & 0xf && ((a >> s) & 0xf)
                < 16) by (bit_vector);
        }
        assert(hex_val(hex_digit(n)) == n);
        assert(ls[k - 1][0] == hex_digit(n));
        assert(v6_acc(ls, k) == v6_acc(ls, k - 1) | ((n as u128) << s));
        if k == 1 {
            assert(v6_acc(ls, 0) == 0);
            assert(s == 0);
            assert(v6_acc(ls, 1) == 0u128 | (((a >> 0u128) & 0xf) << 0u128));
            assert(0u128 | (((a >> 0u128) & 0xf) << 0u128) == a & !((!0u128)
                << 4u128)) by (bit_vector);
            assert((4 * k) as u128 == 4u128);
            assert(v6_acc(ls, k) == a & !((!0u128) << ((4 * k) as u128)));
        } else if k < 32 {
            let s_next: u128 = (4 * k) as u128;
            assert(s_next == s + 4);
            assert((a & !((!0u128) << s)) | (((a >> s) & 0xf) << s) == a & !((!0u128)
                << s_next)) by (bit_vector)
                requires
                    4 <= s <= 120 && s_next == s + 4,
            ;
            assert(v6_acc(ls, k - 1) == a & !((!0u128) << s));
            assert(v6_acc(ls, k) == (a & !((!0u128) << s)) | (((a >> s) & 0xf) << s));
            assert(v6_acc(ls, k) == a & !((!0u128) << ((4 * k) as u128)));
        } else {
            assert(s == 124);
            assert((a & !((!0u128) << 124u128)) | (((a >> 124u128) & 0xf) << 124u128)
                == a) by (bit_vector);
        }
    }
}

/// Reverse names round-trip: parsing the reverse name of an address gives
/// back exactly that address, so a reverse record written for an address
/// answers precisely the reverse query for it.
pub proof fn lemma_reverse_round_trip(a: Ip)
    ensures
        spec_parse_reverse(spec_reverse_labels(a)) == Some(a),
{
    match a {
        Ip::V4(v) => {
            let ls = spec_reverse_labels(a);
            lemma_dec_round_trip((v & 0xff) as u8);
            lemma_dec_round_trip(((v >> 8) & 0xff) as u8);
            lemma_dec_round_trip(((v >> 16) & 0xff) as u8);
            lemma_dec_round_trip(((v >> 24) & 0xff) as u8);
            assert((v & 0xff) as u8 as nat == (v & 0xff) as nat) by (bit_vector);
            assert(((v >> 8) & 0xff) as u8 as nat == ((v >> 8) & 0xff) as nat) by (bit_vector);
            assert(((v >> 16) & 0xff) as u8 as nat == ((v >> 16) & 0xff) as nat) by (bit_vector);
            assert(((v >> 24) & 0xff) as u8 as nat == ((v >> 24) & 0xff) as nat) by (bit_vector);
            let b0 = (v & 0xff) as u8;
            let b1 = ((v >> 8) & 0xff) as u8;
            let b2 = ((v >> 16) & 0xff) as u8;
            let b3 = ((v >> 24) & 0xff) as u8;
            assert((((v >> 24) & 0xff) as u8 as u32) << 24u32 | (((v >> 16) & 0xff) as u8 as u32)
                << 16u32 | (((v >> 8) & 0xff) as u8 as u32) << 8u32 | ((v & 0xff) as u8 as u32)
                == v) by (bit_vector);
        },
        Ip::V6(v) => {
            let ls = spec_reverse_labels(a);
            assert forall|i: int| 0 <= i < 32 implies #[trigger] ls[i] == seq![
                hex_digit(nib(v, i)),
            ] by {}
            assert forall|i: int| 0 <= i < 32 implies (#[trigger] ls[i]).len() == 1 && is_hex(
                ls[i][0],
            ) by {
                let s: u128 = (4 * i) as u128;
                assert(((v >> s) & 0xf) < 16) by (bit_vector);
                assert(nib(v, i) < 16);
            }
            lemma_v6_acc_prefix(v, ls, 32);
        },
    }
}

} // verus!
