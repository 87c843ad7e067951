//! Byte-string order and big-endian integers.
//!
//! The storage engine sorts its keys as byte strings, so every statement about
//! ranges and about "the newest version" ultimately rests on the lexicographic
//! order defined here, and on the fact that big-endian encoding turns numeric
//! order into byte order.

use vstd::prelude::*;

verus! {

/// Lexicographic order on byte strings: `a` is at or before `b`.
pub open spec fn lex_le(a: Seq<u8>, b: Seq<u8>) -> bool
    decreases a.len(),
{
    if a.len() == 0 {
        true
    } else if b.len() == 0 {
        false
    } else if a[0] < b[0] {
        true
    } else if a[0] > b[0] {
        false
    } else {
        lex_le(a.drop_first(), b.drop_first())
    }
}

/// The number a byte string denotes in base 256, most significant byte first.
pub open spec fn be_val(s: Seq<u8>) -> nat
    decreases s.len(),
{
    if s.len() == 0 {
        0
    } else {
        (256 * be_val(s.drop_last()) + s.last()) as nat
    }
}

/// The eight-byte big-endian encoding of a 64-bit number.
pub open spec fn be_bytes(x: u64) -> Seq<u8> {
    seq![
        (x >> 56) as u8,
        (x >> 48) as u8,
        (x >> 40) as u8,
        (x >> 32) as u8,
        (x >> 24) as u8,
        (x >> 16) as u8,
        (x >> 8) as u8,
        x as u8,
    ]
}

/// The 64-bit number assembled from eight bytes, most significant first.
pub open spec fn be_assemble(
    b0: u8, b1: u8, b2: u8, b3: u8, b4: u8, b5: u8, b6: u8, b7: u8,
) -> u64 {
    ((b0 as u64) << 56) | ((b1 as u64) << 48) | ((b2 as u64) << 40) | ((b3 as u64) << 32)
        | ((b4 as u64) << 24) | ((b5 as u64) << 16) | ((b6 as u64) << 8) | (b7 as u64)
}

proof fn lemma_be_val_unfold8(s: Seq<u8>)
    requires
        s.len() == 8,
    ensures
        be_val(s) == s[0] * 0x100000000000000 + s[1] * 0x1000000000000 + s[2] * 0x10000000000
            + s[3] * 0x100000000 + s[4] * 0x1000000 + s[5] * 0x10000 + s[6] * 0x100 + s[7],
{
    let s7 = s.drop_last();
    let s6 = s7.drop_last();
    let s5 = s6.drop_last();
    let s4 = s5.drop_last();
    let s3 = s4.drop_last();
    let s2 = s3.drop_last();
    let s1 = s2.drop_last();
    let s0 = s1.drop_last();
    assert(s0.len() == 0);
    assert(be_val(s0) == 0);
    let v1: int = s[0] * 256 + s[1];
    let v2: int = v1 * 256 + s[2];
    let v3: int = v2 * 256 + s[3];
    let v4: int = v3 * 256 + s[4];
    let v5: int = v4 * 256 + s[5];
    let v6: int = v5 * 256 + s[6];
    let v7: int = v6 * 256 + s[7];
    assert(be_val(s1) == s[0]);
    assert(be_val(s2) == v1);
    assert(be_val(s3) == v2);
    assert(be_val(s4) == v3);
    assert(be_val(s5) == v4);
    assert(be_val(s6) == v5);
    assert(be_val(s7) == v6);
    assert(be_val(s) == v7);
}

/// An eight-byte string denotes the number its bytes assemble to.
pub proof fn lemma_be_val8(s: Seq<u8>)
    requires
        s.len() == 8,
    ensures
        be_val(s) == be_assemble(s[0], s[1], s[2], s[3], s[4], s[5], s[6], s[7]),
{
    lemma_be_val_unfold8(s);
    let b0 = s[0];
    let b1 = s[1];
    let b2 = s[2];
    let b3 = s[3];
    let b4 = s[4];
    let b5 = s[5];
    let b6 = s[6];
    let b7 = s[7];
    assert((b0 as u64) << 56 | (b1 as u64) << 48 | (b2 as u64) << 40 | (b3 as u64) << 32
        | (b4 as u64) << 24 | (b5 as u64) << 16 | (b6 as u64) << 8 | (b7 as u64)
        == (b0 as u64) * 0x100000000000000 + (b1 as u64) * 0x1000000000000
            + (b2 as u64) * 0x10000000000 + (b3 as u64) * 0x100000000 + (b4 as u64) * 0x1000000
            + (b5 as u64) * 0x10000 + (b6 as u64) * 0x100 + (b7 as u64)) by (bit_vector);
}

/// Decoding the big-endian encoding of a number gives the number back.
pub proof fn lemma_be_bytes_val(x: u64)
    ensures
        be_val(be_bytes(x)) == x,
{
    lemma_be_val8(be_bytes(x));
    let b0 = (x >> 56) as u8;
    let b1 = (x >> 48) as u8;
    let b2 = (x >> 40) as u8;
    let b3 = (x >> 32) as u8;
    let b4 = (x >> 24) as u8;
    let b5 = (x >> 16) as u8;
    let b6 = (x >> 8) as u8;
    let b7 = x as u8;
    assert((b0 as u64) << 56 | (b1 as u64) << 48 | (b2 as u64) << 40 | (b3 as u64) << 32
        | (b4 as u64) << 24 | (b5 as u64) << 16 | (b6 as u64) << 8 | (b7 as u64) == x)
        by (bit_vector)
        requires
            b0 == (x >> 56) as u8,
            b1 == (x >> 48) as u8,
            b2 == (x >> 40) as u8,
            b3 == (x >> 32) as u8,
            b4 == (x >> 24) as u8,
            b5 == (x >> 16) as u8,
            b6 == (x >> 8) as u8,
            b7 == x as u8,
    ;
}

/// Zero encodes as eight zero bytes.
pub proof fn lemma_be_bytes_zero()
    ensures
        be_bytes(0) == seq![0u8, 0u8, 0u8, 0u8, 0u8, 0u8, 0u8, 0u8],
{
    assert(0u64 >> 56 == 0 && 0u64 >> 48 == 0 && 0u64 >> 40 == 0 && 0u64 >> 32 == 0
        && 0u64 >> 24 == 0 && 0u64 >> 16 == 0 && 0u64 >> 8 == 0) by (bit_vector);
    assert(be_bytes(0) =~= seq![0u8, 0u8, 0u8, 0u8, 0u8, 0u8, 0u8, 0u8]);
}

/// The largest 64-bit number encodes as eight all-ones bytes.
pub proof fn lemma_be_bytes_max()
    ensures
        be_bytes(u64::MAX) == seq![255u8, 255u8, 255u8, 255u8, 255u8, 255u8, 255u8, 255u8],
{
    let m = u64::MAX;
    assert((m >> 56) as u8 == 255 && (m >> 48) as u8 == 255 && (m >> 40) as u8 == 255
        && (m >> 32) as u8 == 255 && (m >> 24) as u8 == 255 && (m >> 16) as u8 == 255
        && (m >> 8) as u8 == 255 && m as u8 == 255) by (bit_vector)
        requires
            m == 0xffffffffffffffffu64,
    ;
    assert(be_bytes(m) =~= seq![255u8, 255u8, 255u8, 255u8, 255u8, 255u8, 255u8, 255u8]);
}

/// Big-endian encoding is injective.
pub proof fn lemma_be_bytes_injective(x: u64, y: u64)
    requires
        be_bytes(x) == be_bytes(y),
    ensures
        x == y,
{
    lemma_be_bytes_val(x);
    lemma_be_bytes_val(y);
}

/// The order is reflexive.
pub proof fn lemma_lex_refl(a: Seq<u8>)
    ensures
        lex_le(a, a),
    decreases a.len(),
{
    if a.len() > 0 {
        lemma_lex_refl(a.drop_first());
    }
}

/// The order is antisymmetric: two strings at or before each other are equal.
pub proof fn lemma_lex_antisymmetric(a: Seq<u8>, b: Seq<u8>)
    requires
        lex_le(a, b),
        lex_le(b, a),
    ensures
        a == b,
    decreases a.len(),
{
    if a.len() == 0 {
        assert(b.len() == 0);
        assert(a =~= b);
    } else {
        lemma_lex_antisymmetric(a.drop_first(), b.drop_first());
        assert(a =~= seq![a[0]] + a.drop_first());
        assert(b =~= seq![b[0]] + b.drop_first());
    }
}

/// A byte string denotes less than 256 to the power of its length.
proof fn lemma_be_val_bound(s: Seq<u8>)
    ensures
        be_val(s) < pow_of(256, s.len()),
    decreases s.len(),
{
    if s.len() == 0 {
        assert(be_val(s) == 0);
        assert(pow_of(256, 0) == 1);
    } else {
        lemma_be_val_bound(s.drop_last());
        let p = pow_of(256, s.drop_last().len());
        assert(pow_of(256, s.len()) == 256 * p);
        assert(256 * be_val(s.drop_last()) <= 256 * p - 256);
    }
}

/// `b` to the power `n`, used only to bound what byte strings denote.
pub open spec fn pow_of(b: nat, n: nat) -> nat
    decreases n,
{
    if n == 0 {
        1
    } else {
        b * pow_of(b, (n - 1) as nat)
    }
}

/// Splitting a nonempty byte string at the front: the leading byte weighs
/// 256 to the power of the rest's length.
proof fn lemma_be_val_front(s: Seq<u8>)
    requires
        s.len() > 0,
    ensures
        be_val(s) == s[0] * pow_of(256, (s.len() - 1) as nat) + be_val(s.drop_first()),
    decreases s.len(),
{
    if s.len() == 1 {
        assert(be_val(s.drop_last()) == 0);
        assert(be_val(s.drop_first()) == 0);
        assert(pow_of(256, 0) == 1);
        assert(be_val(s) == s[0]);
    } else {
        let dl = s.drop_last();
        lemma_be_val_front(dl);
        assert(s.drop_first().drop_last() =~= dl.drop_first());
        assert(s.drop_first().last() == s.last());
        assert(s.drop_first().len() > 0);
        let p = pow_of(256, (dl.len() - 1) as nat);
        assert(pow_of(256, (s.len() - 1) as nat) == 256 * p);
        assert(be_val(s) == 256 * be_val(dl) + s.last());
        assert(be_val(dl) == s[0] * p + be_val(dl.drop_first()));
        assert(256 * (s[0] * p + be_val(dl.drop_first()))
            == s[0] * (256 * p) + 256 * be_val(dl.drop_first())) by (nonlinear_arith);
        assert(be_val(s.drop_first()) == 256 * be_val(dl.drop_first()) + s.last());
    }
}

/// On byte strings of one length, lexicographic order is numeric order.
pub proof fn lemma_lex_is_numeric(s: Seq<u8>, t: Seq<u8>)
    requires
        s.len() == t.len(),
    ensures
        lex_le(s, t) <==> be_val(s) <= be_val(t),
    decreases s.len(),
{
    if s.len() == 0 {
    } else {
        let p = pow_of(256, (s.len() - 1) as nat);
        lemma_be_val_front(s);
        lemma_be_val_front(t);
        lemma_be_val_bound(s.drop_first());
        lemma_be_val_bound(t.drop_first());
        assert(be_val(s.drop_first()) < p);
        assert(be_val(t.drop_first()) < p);
        if s[0] < t[0] {
            assert((s[0] + 1) * p <= t[0] * p) by (nonlinear_arith)
                requires s[0] + 1 <= t[0], p >= 0;
            assert(s[0] * p + p == (s[0] + 1) * p) by (nonlinear_arith);
        } else if s[0] > t[0] {
            assert((t[0] + 1) * p <= s[0] * p) by (nonlinear_arith)
                requires t[0] + 1 <= s[0], p >= 0;
            assert(t[0] * p + p == (t[0] + 1) * p) by (nonlinear_arith);
        } else {
            lemma_lex_is_numeric(s.drop_first(), t.drop_first());
        }
    }
}

/// A shared prefix neither makes nor breaks the order.
pub proof fn lemma_lex_shared_prefix(p: Seq<u8>, s: Seq<u8>, t: Seq<u8>)
    requires
        s.len() == t.len(),
    ensures
        lex_le(p + s, p + t) <==> lex_le(s, t),
    decreases p.len(),
{
    if p.len() == 0 {
        assert(p + s =~= s);
        assert(p + t =~= t);
    } else {
        lemma_lex_shared_prefix(p.drop_first(), s, t);
        assert((p + s).drop_first() =~= p.drop_first() + s);
        assert((p + t).drop_first() =~= p.drop_first() + t);
        assert((p + s)[0] == (p + t)[0]);
    }
}

/// A string of the combined length caught between `p + s` and `p + t`
/// starts with `p`.
pub proof fn lemma_lex_between_keeps_prefix(p: Seq<u8>, s: Seq<u8>, t: Seq<u8>, k: Seq<u8>)
    requires
        s.len() == t.len(),
        k.len() == p.len() + s.len(),
        lex_le(p + s, k),
        lex_le(k, p + t),
    ensures
        k.subrange(0, p.len() as int) == p,
    decreases p.len(),
{
    if p.len() == 0 {
        assert(k.subrange(0, 0) =~= p);
    } else {
        assert((p + s).len() > 0);
        assert((p + s)[0] == p[0]);
        assert((p + t)[0] == p[0]);
        assert(k[0] == p[0]);
        assert((p + s).drop_first() =~= p.drop_first() + s);
        assert((p + t).drop_first() =~= p.drop_first() + t);
        lemma_lex_between_keeps_prefix(p.drop_first(), s, t, k.drop_first());
        assert(k.drop_first().subrange(0, p.len() - 1) =~= k.subrange(1, p.len() as int));
        assert(k.subrange(0, p.len() as int) =~= seq![k[0]] + k.subrange(1, p.len() as int));
        assert(p =~= seq![p[0]] + p.drop_first());
    }
}

} // verus!
