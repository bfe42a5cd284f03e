use std::cmp::Ordering;
use std::hash::{Hash, Hasher};
use std::time::Duration;

use data_encoding::DecodeError;
use vstd::arithmetic::power2::{lemma2_to64, lemma_pow2_adds, pow2};
use vstd::prelude::*;
use vstd::string::StringSliceAdditionalSpecFns;
use vstd::utf8::is_ascii_chars;

use crate::ids::{IdGen, IdParseError};

verus! {

/// An identifier without an entity tag: a nanosecond time stamp and a random part.
/// Identifiers order by stamp first and random part second.
#[derive(Debug, Clone, Copy, PartialEq, Eq, Structural, Hash, Ord)]
pub struct UntypedId {
    pub stamp: u64,
    pub random: u64,
}

/// The order of identifiers: by stamp, then by random part.
pub open spec fn id_cmp(a: UntypedId, b: UntypedId) -> Ordering {
    if a.stamp < b.stamp {
        Ordering::Less
    } else if a.stamp > b.stamp {
        Ordering::Greater
    } else if a.random < b.random {
        Ordering::Less
    } else if a.random > b.random {
        Ordering::Greater
    } else {
        Ordering::Equal
    }
}

impl PartialOrd for UntypedId {
    fn partial_cmp(&self, other: &UntypedId) -> (r: Option<Ordering>) {
        if self.stamp < other.stamp {
            Some(Ordering::Less)
        } else if self.stamp > other.stamp {
            Some(Ordering::Greater)
        } else if self.random < other.random {
            Some(Ordering::Less)
        } else if self.random > other.random {
            Some(Ordering::Greater)
        } else {
            Some(Ordering::Equal)
        }
    }
}

impl vstd::std_specs::cmp::PartialOrdSpecImpl for UntypedId {
    open spec fn obeys_partial_cmp_spec() -> bool {
        true
    }

    open spec fn partial_cmp_spec(&self, other: &UntypedId) -> Option<Ordering> {
        Some(id_cmp(*self, *other))
    }
}

/// Identifiers are totally ordered: two distinct identifiers compare as strictly
/// less or greater, the order is antisymmetric, and an earlier stamp always
/// compares less, whatever the random parts.
pub proof fn lemma_id_order(a: UntypedId, b: UntypedId)
    ensures
        id_cmp(a, b) == Ordering::Equal <==> a == b,
        id_cmp(a, b) == Ordering::Less <==> id_cmp(b, a) == Ordering::Greater,
        a.stamp < b.stamp ==> id_cmp(a, b) == Ordering::Less,
{
}

/// The order of identifiers is transitive.
pub proof fn lemma_id_order_transitive(a: UntypedId, b: UntypedId, c: UntypedId)
    requires
        id_cmp(a, b) == Ordering::Less,
        id_cmp(b, c) == Ordering::Less,
    ensures
        id_cmp(a, c) == Ordering::Less,
{
}

/// The eight bytes of `x`, most significant first.
pub open spec fn be_bytes(x: u64) -> Seq<u8> {
    seq![
        (x >> 56u64) as u8,
        (x >> 48u64) as u8,
        (x >> 40u64) as u8,
        (x >> 32u64) as u8,
        (x >> 24u64) as u8,
        (x >> 16u64) as u8,
        (x >> 8u64) as u8,
        x as u8,
    ]
}

/// The integer whose big-endian bytes are `b[at..at + 8]`.
pub open spec fn from_be(b: Seq<u8>, at: int) -> u64 {
    (b[at] as u64) << 56u64 | (b[at + 1] as u64) << 48u64 | (b[at + 2] as u64) << 40u64 | (
    b[at + 3] as u64) << 32u64 | (b[at + 4] as u64) << 24u64 | (b[at + 5] as u64) << 16u64 | (
    b[at + 6] as u64) << 8u64 | (b[at + 7] as u64)
}

/// The binary form of an identifier: the stamp, then the random part, each big-endian.
pub open spec fn id_bytes(id: UntypedId) -> Seq<u8> {
    be_bytes(id.stamp) + be_bytes(id.random)
}

/// The identifier that a sixteen-byte binary form stands for.
pub open spec fn id_of_bytes(b: Seq<u8>) -> UntypedId {
    UntypedId { stamp: from_be(b, 0), random: from_be(b, 8) }
}

proof fn lemma_be_round_trip(x: u64)
    ensures
        from_be(be_bytes(x), 0) == x,
{
    let b = be_bytes(x);
    assert(b[0] == (x >> 56u64) as u8 && b[7] == x as u8);
    assert((((x >> 56u64) as u8) as u64) << 56u64 | (((x >> 48u64) as u8) as u64) << 48u64 | (((x
        >> 40u64) as u8) as u64) << 40u64 | (((x >> 32u64) as u8) as u64) << 32u64 | (((x
        >> 24u64) as u8) as u64) << 24u64 | (((x >> 16u64) as u8) as u64) << 16u64 | (((x
        >> 8u64) as u8) as u64) << 8u64 | ((x as u8) as u64) == x) by (bit_vector);
}

/// Reading the binary form of an identifier gives the identifier back.
pub proof fn lemma_id_bytes_round_trip(id: UntypedId)
    ensures
        id_bytes(id).len() == 16,
        id_of_bytes(id_bytes(id)) == id,
{
    lemma_be_round_trip(id.stamp);
    lemma_be_round_trip(id.random);
    let b = id_bytes(id);
    assert(b.subrange(0, 8) =~= be_bytes(id.stamp));
    assert(b.subrange(8, 16) =~= be_bytes(id.random));
    assert(from_be(b, 0) == from_be(be_bytes(id.stamp), 0));
    assert(from_be(b, 8) == from_be(be_bytes(id.random), 0));
}

/// Byte strings compared lexicographically: `a` comes strictly before `b`.
pub open spec fn bytes_lt(a: Seq<u8>, b: Seq<u8>) -> bool
    decreases a.len(),
{
    if a.len() == 0 || b.len() == 0 {
        false
    } else if a[0] != b[0] {
        a[0] < b[0]
    } else {
        bytes_lt(a.drop_first(), b.drop_first())
    }
}

proof fn lemma_bytes_lt_concat(p1: Seq<u8>, q1: Seq<u8>, p2: Seq<u8>, q2: Seq<u8>)
    requires
        p1.len() == p2.len(),
        q1.len() == q2.len(),
    ensures
        bytes_lt(p1 + q1, p2 + q2) == (bytes_lt(p1, p2) || (p1 == p2 && bytes_lt(q1, q2))),
    decreases p1.len(),
{
    if p1.len() == 0 {
        assert(p1 + q1 =~= q1);
        assert(p2 + q2 =~= q2);
        assert(p1 =~= p2);
    } else {
        assert((p1 + q1)[0] == p1[0]);
        assert((p2 + q2)[0] == p2[0]);
        if p1[0] == p2[0] {
            assert((p1 + q1).drop_first() =~= p1.drop_first() + q1);
            assert((p2 + q2).drop_first() =~= p2.drop_first() + q2);
            lemma_bytes_lt_concat(p1.drop_first(), q1, p2.drop_first(), q2);
            if p1.drop_first() == p2.drop_first() {
                assert(p1 =~= seq![p1[0]] + p1.drop_first());
                assert(p2 =~= seq![p2[0]] + p2.drop_first());
            }
            if p1 == p2 {
                assert(p1.drop_first() =~= p2.drop_first());
            }
        } else {
            assert(p1 != p2);
        }
    }
}

proof fn lemma_be_order(x: u64, y: u64)
    ensures
        bytes_lt(be_bytes(x), be_bytes(y)) == (x < y),
{
    reveal_with_fuel(bytes_lt, 9);
    let bx = be_bytes(x);
    let by = be_bytes(y);
    assert(bx.subrange(0, 8) =~= bx);
    assert(by.subrange(0, 8) =~= by);
    assert forall|k: int| 0 <= k < 8 implies #[trigger] bx.subrange(k, 8).drop_first() == bx.subrange(
        k + 1,
        8,
    ) && by.subrange(k, 8).drop_first() == by.subrange(k + 1, 8) by {
        assert(bx.subrange(k, 8).drop_first() =~= bx.subrange(k + 1, 8));
        assert(by.subrange(k, 8).drop_first() =~= by.subrange(k + 1, 8));
    }
    assert((x < y) == (if (x >> 56u64) as u8 != (y >> 56u64) as u8 {
        ((x >> 56u64) as u8) < ((y >> 56u64) as u8)
    } else if (x >> 48u64) as u8 != (y >> 48u64) as u8 {
        ((x >> 48u64) as u8) < ((y >> 48u64) as u8)
    } else if (x >> 40u64) as u8 != (y >> 40u64) as u8 {
        ((x >> 40u64) as u8) < ((y >> 40u64) as u8)
    } else if (x >> 32u64) as u8 != (y >> 32u64) as u8 {
        ((x >> 32u64) as u8) < ((y >> 32u64) as u8)
    } else if (x >> 24u64) as u8 != (y >> 24u64) as u8 {
        ((x >> 24u64) as u8) < ((y >> 24u64) as u8)
    } else if (x >> 16u64) as u8 != (y >> 16u64) as u8 {
        ((x >> 16u64) as u8) < ((y >> 16u64) as u8)
    } else if (x >> 8u64) as u8 != (y >> 8u64) as u8 {
        ((x >> 8u64) as u8) < ((y >> 8u64) as u8)
    } else {
        (x as u8) < (y as u8)
    })) by (bit_vector);
}

/// Comparing binary forms byte by byte orders identifiers as they are ordered:
/// the big-endian layout keeps the chronological order.
pub proof fn lemma_bytes_order(a: UntypedId, b: UntypedId)
    ensures
        bytes_lt(id_bytes(a), id_bytes(b)) <==> id_cmp(a, b) == Ordering::Less,
{
    lemma_bytes_lt_concat(be_bytes(a.stamp), be_bytes(a.random), be_bytes(b.stamp), be_bytes(b.random));
    lemma_be_order(a.stamp, b.stamp);
    lemma_be_order(a.random, b.random);
    lemma_be_round_trip(a.stamp);
    lemma_be_round_trip(b.stamp);
}

fn push_be(out: &mut Vec<u8>, x: u64)
    ensures
        final(out)@ == old(out)@ + be_bytes(x),
{
    out.push((x >> 56) as u8);
    out.push((x >> 48) as u8);
    out.push((x >> 40) as u8);
    out.push((x >> 32) as u8);
    out.push((x >> 24) as u8);
    out.push((x >> 16) as u8);
    out.push((x >> 8) as u8);
    out.push(x as u8);
    assert(final(out)@ =~= old(out)@ + be_bytes(x));
}

fn read_be(b: &[u8], at: usize) -> (r: u64)
    requires
        at + 8 <= b@.len(),
    ensures
        r == from_be(b@, at as int),
{
    (b[at] as u64) << 56 | (b[at + 1] as u64) << 48 | (b[at + 2] as u64) << 40 | (b[at
        + 3] as u64) << 32 | (b[at + 4] as u64) << 24 | (b[at + 5] as u64) << 16 | (b[at
        + 6] as u64) << 8 | (b[at + 7] as u64)
}

/// The length of the text form of an identifier.
pub const ENCODED_BARE_ID_LEN: usize = 26;

#[verifier::external_type_specification]
#[verifier::external_body]
pub struct ExDecodeError(DecodeError);

/// A symbol that the DNSSEC base-32 encoding writes: `0-9` and `a-v`.
pub open spec fn is_dnssec_symbol(c: char) -> bool {
    ('0' <= c && c <= '9') || ('a' <= c && c <= 'v')
}

/// A byte that DNSSEC base-32 decoding accepts as a symbol: `0-9`, `a-v` and `A-V`.
pub open spec fn is_dnssec_input(b: u8) -> bool {
    (48 <= b && b <= 57) || (97 <= b && b <= 118) || (65 <= b && b <= 86)
}

/// A character that DNSSEC base-32 decoding accepts as a symbol.
pub open spec fn is_dnssec_input_char(c: char) -> bool {
    ('0' <= c && c <= '9') || ('a' <= c && c <= 'v') || ('A' <= c && c <= 'V')
}

/// The bytes of a text made of ASCII characters.
pub open spec fn ascii_bytes(s: Seq<char>) -> Seq<u8> {
    s.map_values(|c: char| c as u8)
}

/// The symbols of DNSSEC base-32, in the order of the values they stand for.
pub open spec fn dnssec_alphabet() -> Seq<char> {
    seq![
        '0', '1', '2', '3', '4', '5', '6', '7', '8', '9', 'a', 'b', 'c', 'd', 'e', 'f',
        'g', 'h', 'i', 'j', 'k', 'l', 'm', 'n', 'o', 'p', 'q', 'r', 's', 't', 'u', 'v',
    ]
}

/// The integer that the bytes `b` spell, most significant first.
pub open spec fn be_value(b: Seq<u8>) -> nat
    decreases b.len(),
{
    if b.len() == 0 {
        0
    } else {
        be_value(b.drop_last()) * 256 + b.last() as nat
    }
}

/// The last `len` base-32 digits of `v`, most significant first.
pub open spec fn base32_digits(v: nat, len: nat) -> Seq<nat>
    decreases len,
{
    if len == 0 {
        seq![]
    } else {
        base32_digits(v / 32, (len - 1) as nat).push(v % 32)
    }
}

/// The DNSSEC base-32 text of a byte string: its bits, most significant first,
/// padded with zero bits to a multiple of five, read five bits to a symbol; no
/// padding characters.
pub open spec fn dnssec_base32(b: Seq<u8>) -> Seq<char> {
    let len = ((8 * b.len() + 4) / 5) as nat;
    base32_digits(be_value(b) * pow2((5 * len - 8 * b.len()) as nat), len).map_values(
        |d: nat| dnssec_alphabet()[d as int],
    )
}

/// The bytes that DNSSEC base-32 decoding makes of a text, if it accepts it.
pub open spec fn dnssec_base32_decoded(text: Seq<u8>) -> Option<Seq<u8>> {
    if exists|b: Seq<u8>| lowered(text) == ascii_bytes(#[trigger] dnssec_base32(b)) {
        Some(choose|b: Seq<u8>| lowered(text) == ascii_bytes(#[trigger] dnssec_base32(b)))
    } else {
        None
    }
}

/// The bytes of a text with the letters `A-V` in lower case, as DNSSEC base-32
/// decoding reads them.
pub open spec fn lowered(text: Seq<u8>) -> Seq<u8> {
    text.map_values(|x: u8| if 65 <= x && x <= 86 { (x + 32) as u8 } else { x })
}

/// Texts compared lexicographically: `a` comes strictly before `b`.
pub open spec fn text_lt(a: Seq<char>, b: Seq<char>) -> bool
    decreases a.len(),
{
    if a.len() == 0 || b.len() == 0 {
        false
    } else if a[0] != b[0] {
        a[0] < b[0]
    } else {
        text_lt(a.drop_first(), b.drop_first())
    }
}

proof fn lemma_text_lt_concat(p1: Seq<char>, q1: Seq<char>, p2: Seq<char>, q2: Seq<char>)
    requires
        p1.len() == p2.len(),
        q1.len() == q2.len(),
    ensures
        text_lt(p1 + q1, p2 + q2) == (text_lt(p1, p2) || (p1 == p2 && text_lt(q1, q2))),
    decreases p1.len(),
{
    if p1.len() == 0 {
        assert(p1 + q1 =~= q1);
        assert(p2 + q2 =~= q2);
        assert(p1 =~= p2);
    } else {
        assert((p1 + q1)[0] == p1[0]);
        assert((p2 + q2)[0] == p2[0]);
        if p1[0] == p2[0] {
            assert((p1 + q1).drop_first() =~= p1.drop_first() + q1);
            assert((p2 + q2).drop_first() =~= p2.drop_first() + q2);
            lemma_text_lt_concat(p1.drop_first(), q1, p2.drop_first(), q2);
            if p1.drop_first() == p2.drop_first() {
                assert(p1 =~= seq![p1[0]] + p1.drop_first());
                assert(p2 =~= seq![p2[0]] + p2.drop_first());
            }
            if p1 == p2 {
                assert(p1.drop_first() =~= p2.drop_first());
            }
        } else {
            assert(p1 != p2);
        }
    }
}

proof fn lemma_text_lt_push(a: Seq<char>, b: Seq<char>, x: char, y: char)
    requires
        a.len() == b.len(),
    ensures
        text_lt(a.push(x), b.push(y)) == (text_lt(a, b) || (a == b && x < y)),
{
    lemma_text_lt_concat(a, seq![x], b, seq![y]);
    assert(a + seq![x] =~= a.push(x));
    assert(b + seq![y] =~= b.push(y));
    assert(seq![x].drop_first() =~= Seq::<char>::empty());
    assert(seq![y].drop_first() =~= Seq::<char>::empty());
    assert(!text_lt(Seq::<char>::empty(), Seq::<char>::empty()));
    assert(text_lt(seq![x], seq![y]) == (x < y));
}

proof fn lemma_text_lt_total(a: Seq<char>, b: Seq<char>)
    requires
        a.len() == b.len(),
    ensures
        !text_lt(a, a),
        !text_lt(a, b) && !text_lt(b, a) ==> a == b,
    decreases a.len(),
{
    if a.len() > 0 {
        lemma_text_lt_total(a.drop_first(), b.drop_first());
        if !text_lt(a, b) && !text_lt(b, a) {
            assert(a =~= seq![a[0]] + a.drop_first());
            assert(b =~= seq![b[0]] + b.drop_first());
        }
    }
}

proof fn lemma_bytes_lt_push(a: Seq<u8>, b: Seq<u8>, x: u8, y: u8)
    requires
        a.len() == b.len(),
    ensures
        bytes_lt(a.push(x), b.push(y)) == (bytes_lt(a, b) || (a == b && x < y)),
{
    lemma_bytes_lt_concat(a, seq![x], b, seq![y]);
    assert(a + seq![x] =~= a.push(x));
    assert(b + seq![y] =~= b.push(y));
    assert(seq![x].drop_first() =~= Seq::<u8>::empty());
    assert(seq![y].drop_first() =~= Seq::<u8>::empty());
    assert(!bytes_lt(Seq::<u8>::empty(), Seq::<u8>::empty()));
    assert(bytes_lt(seq![x], seq![y]) == (x < y));
}

proof fn lemma_bytes_lt_total(a: Seq<u8>, b: Seq<u8>)
    requires
        a.len() == b.len(),
    ensures
        !bytes_lt(a, a),
        !bytes_lt(a, b) && !bytes_lt(b, a) ==> a == b,
    decreases a.len(),
{
    if a.len() > 0 {
        lemma_bytes_lt_total(a.drop_first(), b.drop_first());
        if !bytes_lt(a, b) && !bytes_lt(b, a) {
            assert(a =~= seq![a[0]] + a.drop_first());
            assert(b =~= seq![b[0]] + b.drop_first());
        }
    }
}

proof fn lemma_be_value_bound(a: Seq<u8>)
    ensures
        be_value(a) < pow2(8 * a.len()),
    decreases a.len(),
{
    lemma2_to64();
    if a.len() > 0 {
        let a1 = a.drop_last();
        lemma_be_value_bound(a1);
        lemma_pow2_adds(8 * a1.len(), 8);
        assert(8 * a.len() == 8 * a1.len() + 8);
        let v1 = be_value(a1);
        let p = pow2(8 * a1.len());
        let x = a.last() as nat;
        assert(v1 * 256 + x < p * 256) by (nonlinear_arith)
            requires
                v1 < p,
                x < 256,
        ;
    }
}

proof fn lemma_be_value_order(a: Seq<u8>, b: Seq<u8>)
    requires
        a.len() == b.len(),
    ensures
        (be_value(a) < be_value(b)) == bytes_lt(a, b),
    decreases a.len(),
{
    lemma_bytes_lt_total(a, b);
    if a.len() > 0 {
        let a1 = a.drop_last();
        let b1 = b.drop_last();
        let x = a.last();
        let y = b.last();
        assert(a =~= a1.push(x));
        assert(b =~= b1.push(y));
        lemma_bytes_lt_push(a1, b1, x, y);
        lemma_be_value_order(a1, b1);
        lemma_be_value_order(b1, a1);
        lemma_bytes_lt_total(a1, b1);
        let va = be_value(a1);
        let vb = be_value(b1);
        let xn = x as nat;
        let yn = y as nat;
        assert((va * 256 + xn < vb * 256 + yn) == (va < vb || (va == vb && xn < yn))) by (
        nonlinear_arith)
            requires
                xn < 256,
                yn < 256,
        ;
    }
}

/// The symbols of the last `len` base-32 digits of `v`.
pub open spec fn base32_text(v: nat, len: nat) -> Seq<char> {
    base32_digits(v, len).map_values(|d: nat| dnssec_alphabet()[d as int])
}

proof fn lemma_alphabet_order(d: nat, e: nat)
    requires
        d < 32,
        e < 32,
    ensures
        (dnssec_alphabet()[d as int] < dnssec_alphabet()[e as int]) == (d < e),
        (dnssec_alphabet()[d as int] == dnssec_alphabet()[e as int]) == (d == e),
{
}

proof fn lemma_base32_text_order(v: nat, w: nat, len: nat)
    requires
        v < pow2(5 * len),
        w < pow2(5 * len),
    ensures
        base32_text(v, len).len() == len,
        text_lt(base32_text(v, len), base32_text(w, len)) == (v < w),
    decreases len,
{
    if len == 0 {
        lemma2_to64();
        assert(base32_text(v, len) =~= Seq::<char>::empty());
        assert(base32_text(w, len) =~= Seq::<char>::empty());
    } else {
        let l1 = (len - 1) as nat;
        lemma2_to64();
        lemma_pow2_adds(5 * l1, 5);
        assert(5 * len == 5 * l1 + 5);
        let p = pow2(5 * l1);
        assert(v / 32 < p && w / 32 < p) by (nonlinear_arith)
            requires
                v < p * 32,
                w < p * 32,
        ;
        lemma_base32_text_order(v / 32, w / 32, l1);
        lemma_base32_text_order(w / 32, v / 32, l1);
        let t1 = base32_text(v / 32, l1);
        let u1 = base32_text(w / 32, l1);
        assert(base32_text(v, len) =~= t1.push(dnssec_alphabet()[(v % 32) as int]));
        assert(base32_text(w, len) =~= u1.push(dnssec_alphabet()[(w % 32) as int]));
        lemma_text_lt_push(t1, u1, dnssec_alphabet()[(v % 32) as int], dnssec_alphabet()[(w % 32)
            as int]);
        lemma_text_lt_total(t1, u1);
        lemma_alphabet_order(v % 32, w % 32);
        let (q, r, q2, r2) = (v / 32, v % 32, w / 32, w % 32);
        assert((v < w) == (q < q2 || (q == q2 && r < r2))) by (nonlinear_arith)
            requires
                v == q * 32 + r,
                w == q2 * 32 + r2,
                r < 32,
                r2 < 32,
        ;
    }
}

/// The text form orders identifiers as they are ordered: comparing the texts
/// of two identifiers character by character gives the identifiers' order.
pub proof fn lemma_text_order(a: UntypedId, b: UntypedId)
    ensures
        text_lt(untyped_text(a), untyped_text(b)) <==> id_cmp(a, b) == Ordering::Less,
{
    let ba = id_bytes(a);
    let bb = id_bytes(b);
    lemma_id_bytes_round_trip(a);
    lemma_id_bytes_round_trip(b);
    lemma_bytes_order(a, b);
    lemma_be_value_order(ba, bb);
    lemma_be_value_bound(ba);
    lemma_be_value_bound(bb);
    lemma2_to64();
    lemma_pow2_adds(128, 2);
    assert((8 * 16 + 4) / 5 == 26);
    assert(5 * 26nat - 8 * 16nat == 2);
    let va = be_value(ba);
    let vb = be_value(bb);
    let p = pow2(128);
    assert(va * 4 < p * 4 && vb * 4 < p * 4 && ((va * 4 < vb * 4) == (va < vb))) by (
    nonlinear_arith)
        requires
            va < p,
            vb < p,
    ;
    assert(5 * 26nat == 130);
    lemma_base32_text_order(va * 4, vb * 4, 26);
    assert(untyped_text(a) == base32_text(va * 4, 26));
    assert(untyped_text(b) == base32_text(vb * 4, 26));
}

proof fn lemma_encoded_len_injective(n1: nat, n2: nat)
    requires
        (8 * n1 + 4) / 5 == (8 * n2 + 4) / 5,
    ensures
        n1 == n2,
{
    assert(n1 == n2) by (nonlinear_arith)
        requires
            (8 * n1 + 4) / 5 == (8 * n2 + 4) / 5,
    ;
}

proof fn lemma_padded_value_bound(b: Seq<u8>)
    ensures
        ({
            let len = ((8 * b.len() + 4) / 5) as nat;
            &&& 5 * len >= 8 * b.len()
            &&& be_value(b) * pow2((5 * len - 8 * b.len()) as nat) < pow2(5 * len)
        }),
{
    let n = b.len();
    let len = ((8 * n + 4) / 5) as nat;
    assert(5 * len >= 8 * n) by (nonlinear_arith)
        requires
            len == (8 * n + 4) / 5,
    ;
    let pad = (5 * len - 8 * n) as nat;
    lemma_be_value_bound(b);
    lemma_pow2_adds(8 * n, pad);
    assert(8 * n + pad == 5 * len);
    let v = be_value(b);
    let p = pow2(8 * n);
    let q = pow2(pad);
    vstd::arithmetic::power2::lemma_pow2_pos(pad);
    assert(v * q < p * q) by (nonlinear_arith)
        requires
            v < p,
            q > 0,
    ;
}

/// Encoding is one to one: distinct byte strings have distinct texts.
pub proof fn lemma_dnssec_base32_injective(b1: Seq<u8>, b2: Seq<u8>)
    requires
        ascii_bytes(dnssec_base32(b1)) == ascii_bytes(dnssec_base32(b2)),
    ensures
        b1 == b2,
{
    let t1 = dnssec_base32(b1);
    let t2 = dnssec_base32(b2);
    let n1 = b1.len();
    let n2 = b2.len();
    let len = ((8 * n1 + 4) / 5) as nat;
    assert(base32_digits(be_value(b1) * pow2((5 * len - 8 * n1) as nat), len).len() == len) by {
        lemma_digits_len(be_value(b1) * pow2((5 * len - 8 * n1) as nat), len);
    }
    let len2 = ((8 * n2 + 4) / 5) as nat;
    assert(base32_digits(be_value(b2) * pow2((5 * len2 - 8 * n2) as nat), len2).len() == len2) by {
        lemma_digits_len(be_value(b2) * pow2((5 * len2 - 8 * n2) as nat), len2);
    }
    assert(t1.len() == ascii_bytes(t1).len());
    assert(t2.len() == ascii_bytes(t2).len());
    lemma_encoded_len_injective(n1, n2);
    lemma_padded_value_bound(b1);
    lemma_padded_value_bound(b2);
    let pad = (5 * len - 8 * n1) as nat;
    let v1 = be_value(b1) * pow2(pad);
    let v2 = be_value(b2) * pow2(pad);
    lemma_digits_symbols(v1, len);
    lemma_digits_symbols(v2, len);
    assert(t1 =~= t2) by {
        assert forall|i: int| 0 <= i < t1.len() implies t1[i] == t2[i] by {
            assert(ascii_bytes(t1)[i] == ascii_bytes(t2)[i]);
            let d1 = base32_digits(v1, len)[i];
            let d2 = base32_digits(v2, len)[i];
            assert(dnssec_alphabet()[d1 as int] as u8 == dnssec_alphabet()[d2 as int] as u8);
            lemma_alphabet_order(d1, d2);
            lemma_alphabet_bytes(d1, d2);
        }
    }
    lemma_base32_text_order(v1, v2, len);
    lemma_base32_text_order(v2, v1, len);
    lemma_text_lt_total(t1, t2);
    assert(v1 == v2);
    vstd::arithmetic::power2::lemma_pow2_pos(pad);
    let q = pow2(pad);
    assert(be_value(b1) == be_value(b2)) by (nonlinear_arith)
        requires
            be_value(b1) * q == be_value(b2) * q,
            q > 0,
    ;
    lemma_be_value_order(b1, b2);
    lemma_be_value_order(b2, b1);
    lemma_bytes_lt_total(b1, b2);
}

proof fn lemma_digits_len(v: nat, len: nat)
    ensures
        base32_digits(v, len).len() == len,
    decreases len,
{
    if len > 0 {
        lemma_digits_len(v / 32, (len - 1) as nat);
    }
}

proof fn lemma_digits_symbols(v: nat, len: nat)
    ensures
        forall|i: int| 0 <= i < len ==> #[trigger] base32_digits(v, len)[i] < 32,
    decreases len,
{
    lemma_digits_len(v, len);
    if len > 0 {
        lemma_digits_symbols(v / 32, (len - 1) as nat);
        lemma_digits_len(v / 32, (len - 1) as nat);
    }
}

proof fn lemma_alphabet_bytes(d: nat, e: nat)
    requires
        d < 32,
        e < 32,
    ensures
        (dnssec_alphabet()[d as int] as u8 == dnssec_alphabet()[e as int] as u8) == (d == e),
{
}

/// Relies on `data_encoding::BASE32_DNSSEC.encode`: RFC 4648 base-32 with the
/// extended hex alphabet in lower case (`0-9a-v`), one symbol for each five bits,
/// rounded up, without padding.
#[verifier::external_body]
fn dnssec_encode(bytes: &[u8]) -> (r: String)
    requires
        bytes@.len() <= usize::MAX / 512,
    ensures
        r@ == dnssec_base32(bytes@),
        r@.len() == (8 * bytes@.len() + 4) / 5,
        forall|i: int| 0 <= i < r@.len() ==> is_dnssec_symbol(#[trigger] r@[i]),
{
    data_encoding::BASE32_DNSSEC.encode(bytes)
}

/// Relies on `data_encoding::BASE32_DNSSEC.decode`: upper-case `A-V` are read as
/// lower case, and then exactly the texts that encoding writes are accepted, each
/// giving the bytes it encodes; so encoding followed by decoding gives the initial
/// data, and a byte that is no symbol of the alphabet, in either case, is refused.
#[verifier::external_body]
fn dnssec_decode(text: &[u8]) -> (r: Result<Vec<u8>, DecodeError>)
    requires
        text@.len() <= usize::MAX / 8,
    ensures
        r matches Ok(v) ==> lowered(text@) == ascii_bytes(dnssec_base32(v@)),
        r is Err ==> forall|b: Seq<u8>| lowered(text@) != ascii_bytes(#[trigger] dnssec_base32(b)),
        r is Err ==> forall|b: Seq<u8>| text@ != ascii_bytes(#[trigger] dnssec_base32(b)),
        r matches Ok(v) ==> forall|b: Seq<u8>|
            text@ == ascii_bytes(#[trigger] dnssec_base32(b)) ==> v@ == b,
        r is Ok ==> forall|i: int| 0 <= i < text@.len() ==> is_dnssec_input(#[trigger] text@[i]),
{
    data_encoding::BASE32_DNSSEC.decode(text)
}

/// The text form of an identifier: its binary form in DNSSEC base-32.
pub open spec fn untyped_text(id: UntypedId) -> Seq<char> {
    dnssec_base32(id_bytes(id))
}

/// What reading the text `b` as the body of an identifier gives.
pub open spec fn body_result(b: Seq<u8>) -> Result<UntypedId, IdParseError> {
    if b.len() != 26 {
        Err(IdParseError::Unparseable)
    } else {
        match dnssec_base32_decoded(b) {
            Some(v) => if v.len() == 16 {
                Ok(id_of_bytes(v))
            } else {
                Err(IdParseError::Unparseable)
            },
            None => Err(IdParseError::Unparseable),
        }
    }
}

/// The text form of every identifier is twenty-six symbols long.
pub proof fn lemma_text_shape(id: UntypedId)
    ensures
        id_bytes(id).len() == 16,
        (8 * id_bytes(id).len() + 4) / 5 == 26,
{
    lemma_id_bytes_round_trip(id);
}

/// The shape of the text form of an identifier: twenty-six symbols.
pub open spec fn is_id_text(s: Seq<char>) -> bool {
    s.len() == 26 && forall|i: int| 0 <= i < s.len() ==> is_dnssec_symbol(#[trigger] s[i])
}

/// What reading the text `s` as an identifier gives.
pub open spec fn untyped_result(s: Seq<char>) -> Result<UntypedId, IdParseError> {
    if is_ascii_chars(s) {
        body_result(ascii_bytes(s))
    } else {
        Err(IdParseError::Unparseable)
    }
}

/// Reads the body of an identifier: twenty-six symbols of DNSSEC base-32 that
/// decode to sixteen bytes.
pub fn decode_body(text: &[u8]) -> (r: Result<UntypedId, IdParseError>)
    ensures
        r == body_result(text@),
        forall|id: UntypedId|
            text@ == ascii_bytes(#[trigger] untyped_text(id)) && text@.len() == 26 ==> r == Ok::<
                UntypedId,
                IdParseError,
            >(id),
        (exists|i: int| 0 <= i < text@.len() && !is_dnssec_input(#[trigger] text@[i])) ==> r
            is Err,
{
    if text.len() != ENCODED_BARE_ID_LEN {
        return Err(IdParseError::Unparseable);
    }
    let decoded = dnssec_decode(text);
    let r = match decoded {
        Ok(bytes) => {
            proof {
                let c = choose|b: Seq<u8>| lowered(text@) == ascii_bytes(#[trigger] dnssec_base32(b));
                lemma_dnssec_base32_injective(c, bytes@);
            }
            if bytes.len() == 16 {
                Ok(UntypedId::from_bytes(bytes.as_slice()))
            } else {
                Err(IdParseError::Unparseable)
            }
        },
        Err(_) => Err(IdParseError::Unparseable),
    };
    assert forall|id: UntypedId|
        text@ == ascii_bytes(#[trigger] untyped_text(id)) && text@.len() == 26 implies r == Ok::<
        UntypedId,
        IdParseError,
    >(id) by {
        lemma_id_bytes_round_trip(id);
    }
    r
}

/// The bytes of an ASCII text are its characters, one for one.
pub proof fn lemma_ascii_str_bytes(s: &str)
    requires
        is_ascii_chars(s@),
    ensures
        s.spec_bytes() == ascii_bytes(s@),
{
    broadcast use vstd::string::is_ascii_spec_bytes;

    assert(vstd::string::is_ascii(s));
    assert(s.spec_bytes() =~= ascii_bytes(s@));
}

/// Relies on `rand::random::<u64>`: any value may come back.
#[verifier::external_body]
fn random_u64() -> u64 {
    rand::random::<u64>()
}

/// Relies on `SystemTime::elapsed` of the Unix epoch: the time from the epoch to now,
/// or nothing where the clock stands before the epoch.
#[verifier::external_body]
fn since_epoch() -> Option<Duration> {
    std::time::UNIX_EPOCH.elapsed().ok()
}

/// Relies on `Duration::as_nanos`: the whole duration in nanoseconds.
#[verifier::external_body]
fn total_nanos(d: &Duration) -> u128 {
    d.as_nanos()
}

impl IdGen {
    /// A fresh identifier: the time now in nanoseconds since the epoch, and a random part.
    /// Whatever the clock and the random source give, the result is the identifier
    /// for some clock reading and some random part.
    pub fn untyped(&self) -> (r: UntypedId)
        ensures
            exists|nanos: Option<u128>, random: u64|
                r == #[trigger] UntypedId::from_clock_spec(nanos, random),
    {
        let nanos = match since_epoch() {
            Some(d) => Some(total_nanos(&d)),
            None => None,
        };
        UntypedId::from_clock(nanos, random_u64())
    }
}

impl std::str::FromStr for UntypedId {
    type Err = IdParseError;

    /// Reads the text form of an identifier, as `UntypedId::parse` does.
    fn from_str(src: &str) -> (r: Result<UntypedId, IdParseError>)
        ensures
            r == untyped_result(src@),
            forall|id: UntypedId|
                src@ == #[trigger] untyped_text(id) && is_id_text(src@) ==> r == Ok::<
                    UntypedId,
                    IdParseError,
                >(id),
            src@.len() != 26 ==> r == Err::<UntypedId, IdParseError>(IdParseError::Unparseable),
            (exists|i: int| 0 <= i < src@.len() && !is_dnssec_input_char(#[trigger] src@[i])) ==> r
                is Err,
    {
        UntypedId::parse(src)
    }
}

/// The digest of a text under SipHash-2-4 with both keys zero.
pub uninterp spec fn sip24_zero_key_digest(s: Seq<char>) -> u64;

/// Relies on siphasher's `SipHasher24` keyed with zeros, fed a `str` through `Hash`:
/// the digest depends on the text alone.
#[verifier::external_body]
fn sip24_digest(s: &str) -> (r: u64)
    ensures
        r == sip24_zero_key_digest(s@),
{
    let mut h = siphasher::sip::SipHasher24::new_with_keys(0, 0);
    s.hash(&mut h);
    h.finish()
}

/// Hashing equal texts gives equal identifiers, at time zero.
pub proof fn lemma_hashed_deterministic(x: Seq<char>, y: Seq<char>)
    requires
        x == y,
    ensures
        UntypedId::hashed_spec(x) == UntypedId::hashed_spec(y),
        UntypedId::hashed_spec(x).stamp == 0,
{
}

/// The stamp for a clock reading in nanoseconds since the epoch: the reading
/// itself, held at the largest stamp beyond it. A clock before the epoch has no
/// reading and is held at the earliest stamp, zero, which it then shares with
/// hashed identifiers.
pub open spec fn clock_stamp(nanos: Option<u128>) -> u64 {
    match nanos {
        Some(n) => if n > u64::MAX as u128 {
            u64::MAX
        } else {
            n as u64
        },
        None => 0,
    }
}

/// An identifier made from a strictly later clock reading, within the range of
/// stamps, compares greater, whatever the random parts.
pub proof fn lemma_later_reading_orders_after(n1: u128, n2: u128, r1: u64, r2: u64)
    requires
        n1 < n2 <= u64::MAX as u128,
    ensures
        id_cmp(
            UntypedId::from_clock_spec(Some(n1), r1),
            UntypedId::from_clock_spec(Some(n2), r2),
        ) == Ordering::Less,
        id_cmp(UntypedId::from_clock_spec(None, r1), UntypedId::from_clock_spec(Some(n2), r2))
            == Ordering::Less,
{
}

/// A hashed identifier sorts before every identifier made from a clock reading
/// after the epoch.
pub proof fn lemma_hashed_before_generated(x: Seq<char>, nanos: u128, random: u64)
    requires
        nanos >= 1,
    ensures
        id_cmp(UntypedId::hashed_spec(x), UntypedId::from_clock_spec(Some(nanos), random))
            == Ordering::Less,
{
}

impl UntypedId {
    /// The identifier with the given stamp and random part.
    pub fn from_parts(stamp: u64, random: u64) -> (r: UntypedId)
        ensures
            r.stamp == stamp,
            r.random == random,
    {
        UntypedId { stamp, random }
    }

    /// The time stamp, in nanoseconds since the Unix epoch.
    pub fn stamp(&self) -> (r: u64)
        ensures
            r == self.stamp,
    {
        self.stamp
    }

    /// The random part.
    pub fn random(&self) -> (r: u64)
        ensures
            r == self.random,
    {
        self.random
    }

    /// The identifier for a clock reading and a random part.
    pub open spec fn from_clock_spec(nanos: Option<u128>, random: u64) -> UntypedId {
        UntypedId { stamp: clock_stamp(nanos), random }
    }

    /// The identifier for a clock reading and a random part.
    pub fn from_clock(nanos: Option<u128>, random: u64) -> (r: UntypedId)
        ensures
            r == UntypedId::from_clock_spec(nanos, random),
    {
        let stamp: u64 = match nanos {
            Some(n) => if n > u64::MAX as u128 {
                u64::MAX
            } else {
                n as u64
            },
            None => 0,
        };
        UntypedId { stamp, random }
    }

    /// The identifier that `hashed` derives from a text.
    pub open spec fn hashed_spec(entity: Seq<char>) -> UntypedId {
        UntypedId { stamp: 0, random: sip24_zero_key_digest(entity) }
    }

    /// An identifier nominally at time zero, whose random part is the SipHash-2-4
    /// digest, keys zero, of `entity`.
    pub fn hashed(entity: &str) -> (r: UntypedId)
        ensures
            r == UntypedId::hashed_spec(entity@),
    {
        let random = sip24_digest(entity);
        UntypedId { stamp: 0, random }
    }

    /// The text form: twenty-six symbols of DNSSEC base-32.
    pub fn to_string(&self) -> (r: String)
        ensures
            r@ == untyped_text(*self),
            r@.len() == 26,
            forall|i: int| 0 <= i < r@.len() ==> is_dnssec_symbol(#[trigger] r@[i]),
    {
        let bytes = self.to_bytes();
        proof {
            lemma_text_shape(*self);
        }
        dnssec_encode(bytes.as_slice())
    }

    /// Reads the text form of an identifier.
    pub fn parse(src: &str) -> (r: Result<UntypedId, IdParseError>)
        ensures
            r == untyped_result(src@),
            forall|id: UntypedId|
                src@ == #[trigger] untyped_text(id) && is_id_text(src@) ==> r == Ok::<
                    UntypedId,
                    IdParseError,
                >(id),
            src@.len() != 26 ==> r == Err::<UntypedId, IdParseError>(IdParseError::Unparseable),
            (exists|i: int| 0 <= i < src@.len() && !is_dnssec_input_char(#[trigger] src@[i])) ==> r
                is Err,
    {
        if !src.is_ascii() {
            return Err(IdParseError::Unparseable);
        }
        proof {
            lemma_ascii_str_bytes(src);
        }
        let r = decode_body(src.as_bytes());
        proof {
            if exists|i: int| 0 <= i < src@.len() && !is_dnssec_input_char(#[trigger] src@[i]) {
                let i = choose|i: int|
                    0 <= i < src@.len() && !is_dnssec_input_char(#[trigger] src@[i]);
                assert(!is_dnssec_input(src.spec_bytes()[i]));
            }
        }
        r
    }

    /// Reads an identifier from the first sixteen bytes of `bytes`.
    pub fn from_bytes(bytes: &[u8]) -> (r: UntypedId)
        requires
            bytes@.len() >= 16,
        ensures
            r == id_of_bytes(bytes@),
    {
        let stamp = read_be(bytes, 0);
        let random = read_be(bytes, 8);
        UntypedId { stamp, random }
    }

    /// The sixteen-byte binary form: the stamp, then the random part, big-endian.
    pub fn to_bytes(&self) -> (r: Vec<u8>)
        ensures
            r@ == id_bytes(*self),
            r@.len() == 16,
    {
        let mut bytes: Vec<u8> = Vec::with_capacity(16);
        push_be(&mut bytes, self.stamp);
        push_be(&mut bytes, self.random);
        assert(bytes@ =~= id_bytes(*self));
        bytes
    }
}

} // verus!
