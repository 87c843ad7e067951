//! The mathematical model of the versioned store.
//!
//! The engine is modelled as a map from key bytes to value bytes. All the
//! protocol's claims — which keys count as versions of a logical key, which
//! one is newest, what a write leaves behind — are stated here as spec
//! functions over that map, and the laws of the protocol are proved over
//! them.

use vstd::prelude::*;
use crate::keys::{
    start_bound, end_bound, key_timestamp, logical_prefix, KEY_SIZE, PREFIX_SIZE,
};
use crate::lex::{
    be_bytes, be_val, lex_le, lemma_be_bytes_val, lemma_lex_antisymmetric, lemma_lex_is_numeric,
    lemma_lex_refl, lemma_lex_shared_prefix, lemma_lex_between_keeps_prefix,
};

verus! {

/// The store seen as the map it holds: key bytes to value bytes.
pub type StoreView = Map<Seq<u8>, Seq<u8>>;

/// `k` lies in the version range of the logical prefix `p`.
pub open spec fn in_version_range(k: Seq<u8>, p: Seq<u8>) -> bool {
    lex_le(start_bound(p), k) && lex_le(k, end_bound(p))
}

/// Some version of the logical prefix `p` is present in the store.
pub open spec fn has_version(m: StoreView, p: Seq<u8>) -> bool {
    exists|k: Seq<u8>| #[trigger] m.dom().contains(k) && in_version_range(k, p)
}

/// `k` is the newest version of `p`: present, in the range, and at or after
/// every key of the range.
pub open spec fn is_latest_version_key(m: StoreView, p: Seq<u8>, k: Seq<u8>) -> bool {
    &&& m.dom().contains(k)
    &&& in_version_range(k, p)
    &&& forall|k2: Seq<u8>|
        #[trigger] m.dom().contains(k2) && in_version_range(k2, p) ==> lex_le(k2, k)
}

/// The key under which the version of `p` written at `ts` is stored.
pub open spec fn versioned_key(p: Seq<u8>, ts: u64) -> Seq<u8> {
    p + be_bytes(ts)
}

/// Every key in the version range of `p` is exactly one key wide. This holds
/// of every store written through this library alone; a newest-version claim
/// needs it, since a foreign longer key could hide between two versions.
pub open spec fn range_well_formed(m: StoreView, p: Seq<u8>) -> bool {
    forall|k: Seq<u8>|
        #[trigger] m.dom().contains(k) && in_version_range(k, p) ==> k.len() == KEY_SIZE
}

/// A versioned key lies in the version range of its own prefix, carries its
/// own timestamp, and starts with its own prefix.
pub proof fn lemma_versioned_key_in_range(p: Seq<u8>, ts: u64)
    requires
        p.len() == PREFIX_SIZE,
    ensures
        in_version_range(versioned_key(p, ts), p),
        versioned_key(p, ts).len() == KEY_SIZE,
        logical_prefix(versioned_key(p, ts)) == p,
        key_timestamp(versioned_key(p, ts)) == ts,
{
    let vk = versioned_key(p, ts);
    lemma_lex_shared_prefix(p, be_bytes(0), be_bytes(ts));
    lemma_lex_shared_prefix(p, be_bytes(ts), be_bytes(u64::MAX));
    lemma_lex_is_numeric(be_bytes(0), be_bytes(ts));
    lemma_lex_is_numeric(be_bytes(ts), be_bytes(u64::MAX));
    lemma_be_bytes_val(0);
    lemma_be_bytes_val(ts);
    lemma_be_bytes_val(u64::MAX);
    assert(logical_prefix(vk) =~= p);
    assert(vk.subrange(PREFIX_SIZE as int, KEY_SIZE as int) =~= be_bytes(ts));
}

/// A key-wide string inside the version range of `p` starts with `p` and is
/// its prefix plus its timestamp bytes.
pub proof fn lemma_range_key_parts(p: Seq<u8>, k: Seq<u8>)
    requires
        p.len() == PREFIX_SIZE,
        k.len() == KEY_SIZE,
        in_version_range(k, p),
    ensures
        logical_prefix(k) == p,
        k == versioned_key(p, (key_timestamp(k) as u64)),
{
    lemma_lex_between_keeps_prefix(p, be_bytes(0), be_bytes(u64::MAX), k);
    assert(logical_prefix(k) =~= k.subrange(0, PREFIX_SIZE as int));
    let tail = k.subrange(PREFIX_SIZE as int, KEY_SIZE as int);
    crate::lex::lemma_be_val8(tail);
    assert(be_val(tail) < 0x10000000000000000) by {
        crate::lex::lemma_be_val8(tail);
        assert(be_val(tail) == crate::lex::be_assemble(
            tail[0], tail[1], tail[2], tail[3], tail[4], tail[5], tail[6], tail[7],
        ));
    }
    let ts = be_val(tail) as u64;
    assert(ts == be_val(tail));
    lemma_be_val_inverse(tail, ts);
    assert(k =~= p + tail);
}

/// An eight-byte string whose value is `x` is the encoding of `x`.
proof fn lemma_be_val_inverse(s: Seq<u8>, x: u64)
    requires
        s.len() == 8,
        be_val(s) == x,
    ensures
        s == be_bytes(x),
{
    crate::lex::lemma_be_val8(s);
    lemma_be_bytes_val(x);
    crate::lex::lemma_be_val8(be_bytes(x));
    let t = be_bytes(x);
    if s != t {
        assert(t.len() == 8);
        lemma_be_val_distinct(s, t);
    }
}

/// Distinct equal-length strings denote distinct numbers... stated for the
/// contrapositive step above.
proof fn lemma_be_val_distinct(s: Seq<u8>, t: Seq<u8>)
    requires
        s.len() == t.len(),
        s != t,
    ensures
        be_val(s) != be_val(t),
{
    if be_val(s) == be_val(t) {
        lemma_lex_is_numeric(s, t);
        lemma_lex_is_numeric(t, s);
        lemma_lex_antisymmetric(s, t);
    }
}

/// Writing the same prefix at two timestamps gives the same key only for the
/// same timestamp.
pub proof fn lemma_versioned_key_injective(p: Seq<u8>, a: u64, b: u64)
    requires
        versioned_key(p, a) == versioned_key(p, b),
    ensures
        a == b,
{
    let pa = versioned_key(p, a);
    assert(pa.subrange(p.len() as int, p.len() as int + 8) =~= be_bytes(a));
    assert(pa.subrange(p.len() as int, p.len() as int + 8) =~= be_bytes(b));
    crate::lex::lemma_be_bytes_injective(a, b);
}

/// A version written at a timestamp newer than everything in its range is
/// the newest version, and the only value a newest-version lookup can find
/// is the one just written. The old versions stay exactly as they were.
pub proof fn lemma_fresh_version_is_latest(m: StoreView, p: Seq<u8>, ts: u64, v: Seq<u8>)
    requires
        p.len() == PREFIX_SIZE,
        range_well_formed(m, p),
        forall|k: Seq<u8>|
            #[trigger] m.dom().contains(k) && in_version_range(k, p) ==> key_timestamp(k) < ts,
    ensures
        ({
            let vk = versioned_key(p, ts);
            let m2 = m.insert(vk, v);
            &&& !m.dom().contains(vk)
            &&& is_latest_version_key(m2, p, vk)
            &&& m2[vk] == v
            &&& forall|k: Seq<u8>| is_latest_version_key(m2, p, k) ==> m2[k] == v
            &&& range_well_formed(m2, p)
            &&& forall|k: Seq<u8>|
                #[trigger] m.dom().contains(k) ==> m2.dom().contains(k) && (k != vk ==> m2[k]
                    == m[k])
        }),
{
    let vk = versioned_key(p, ts);
    let m2 = m.insert(vk, v);
    lemma_versioned_key_in_range(p, ts);
    assert(!m.dom().contains(vk)) by {
        if m.dom().contains(vk) {
            assert(key_timestamp(vk) < ts);
        }
    }
    assert forall|k2: Seq<u8>|
        #[trigger] m2.dom().contains(k2) && in_version_range(k2, p) implies lex_le(k2, vk) by {
        if k2 == vk {
            lemma_lex_refl(vk);
        } else {
            assert(m.dom().contains(k2));
            assert(k2.len() == KEY_SIZE);
            lemma_range_key_parts(p, k2);
            let ts2 = key_timestamp(k2) as u64;
            lemma_lex_shared_prefix(p, be_bytes(ts2), be_bytes(ts));
            lemma_lex_is_numeric(be_bytes(ts2), be_bytes(ts));
            lemma_be_bytes_val(ts2);
            lemma_be_bytes_val(ts);
        }
    }
    assert(is_latest_version_key(m2, p, vk));
    assert forall|k: Seq<u8>| is_latest_version_key(m2, p, k) implies m2[k] == v by {
        assert(m2.dom().contains(vk) && in_version_range(vk, p));
        assert(lex_le(vk, k));
        assert(lex_le(k, vk));
        lemma_lex_antisymmetric(k, vk);
    }
}

/// Two newest versions of one logical prefix are one key: whatever value a
/// newest-version lookup returns is the value of that one key. So when a
/// rejected write leaves the store untouched, a lookup after it still finds
/// exactly what a lookup before it found.
pub proof fn lemma_latest_version_unique(m: StoreView, p: Seq<u8>, k1: Seq<u8>, k2: Seq<u8>)
    requires
        is_latest_version_key(m, p, k1),
        is_latest_version_key(m, p, k2),
    ensures
        k1 == k2,
{
    assert(lex_le(k1, k2));
    assert(lex_le(k2, k1));
    lemma_lex_antisymmetric(k1, k2);
}

/// The very first write to a logical key: whatever its timestamp, the new
/// version is the newest, and the only value a newest-version lookup can
/// then find is the one just written.
pub proof fn lemma_first_version_is_latest(m: StoreView, p: Seq<u8>, ts: u64, v: Seq<u8>)
    requires
        p.len() == PREFIX_SIZE,
        !has_version(m, p),
    ensures
        ({
            let vk = versioned_key(p, ts);
            let m2 = m.insert(vk, v);
            &&& is_latest_version_key(m2, p, vk)
            &&& m2[vk] == v
            &&& forall|k: Seq<u8>| is_latest_version_key(m2, p, k) ==> m2[k] == v
        }),
{
    assert forall|k: Seq<u8>| #[trigger] m.dom().contains(k) && in_version_range(k, p)
        implies k.len() == KEY_SIZE && key_timestamp(k) < ts by {
        assert(has_version(m, p));
    }
    lemma_fresh_version_is_latest(m, p, ts, v);
}

/// The store after a run of writes to one logical prefix, each at its given
/// timestamp with its given value, applied first to last.
pub open spec fn apply_puts(m: StoreView, p: Seq<u8>, puts: Seq<(u64, Seq<u8>)>) -> StoreView
    decreases puts.len(),
{
    if puts.len() == 0 {
        m
    } else {
        apply_puts(m.insert(versioned_key(p, puts[0].0), puts[0].1), p, puts.drop_first())
    }
}

/// A run of autoincrement writes at strictly increasing, all-fresh
/// timestamps leaves every one of its versions in the store under its own
/// distinct key, disturbs none of the versions already there, and leaves
/// the last write as the newest version — the one a newest-version lookup
/// then finds.
pub proof fn lemma_sequential_puts(m: StoreView, p: Seq<u8>, puts: Seq<(u64, Seq<u8>)>)
    requires
        p.len() == PREFIX_SIZE,
        range_well_formed(m, p),
        puts.len() > 0,
        forall|k: Seq<u8>|
            #[trigger] m.dom().contains(k) && in_version_range(k, p) ==> key_timestamp(k)
                < puts[0].0,
        forall|i: int, j: int| 0 <= i < j < puts.len() ==> puts[i].0 < puts[j].0,
    ensures
        ({
            let m2 = apply_puts(m, p, puts);
            &&& forall|i: int|
                0 <= i < puts.len() ==> #[trigger] m2.dom().contains(versioned_key(p, puts[i].0))
                    && m2[versioned_key(p, puts[i].0)] == puts[i].1
            &&& forall|i: int, j: int|
                0 <= i < j < puts.len() ==> versioned_key(p, puts[i].0) != versioned_key(
                    p,
                    puts[j].0,
                )
            &&& is_latest_version_key(m2, p, versioned_key(p, puts.last().0))
            &&& forall|k: Seq<u8>| is_latest_version_key(m2, p, k) ==> m2[k] == puts.last().1
            &&& range_well_formed(m2, p)
            &&& forall|k: Seq<u8>|
                #[trigger] m.dom().contains(k) && in_version_range(k, p) ==> m2.dom().contains(k)
                    && m2[k] == m[k]
        }),
    decreases puts.len(),
{
    let ts0 = puts[0].0;
    let v0 = puts[0].1;
    let vk0 = versioned_key(p, ts0);
    let m1 = m.insert(vk0, v0);
    let m2 = apply_puts(m, p, puts);
    lemma_fresh_version_is_latest(m, p, ts0, v0);
    lemma_versioned_key_in_range(p, ts0);
    assert forall|i: int, j: int| 0 <= i < j < puts.len() implies versioned_key(p, puts[i].0)
        != versioned_key(p, puts[j].0) by {
        if versioned_key(p, puts[i].0) == versioned_key(p, puts[j].0) {
            lemma_versioned_key_injective(p, puts[i].0, puts[j].0);
        }
    }
    if puts.len() == 1 {
        assert(apply_puts(m1, p, puts.drop_first()) == m1);
        assert(puts.last() == puts[0]);
    } else {
        let rest = puts.drop_first();
        assert(m2 == apply_puts(m1, p, rest));
        assert forall|k: Seq<u8>|
            #[trigger] m1.dom().contains(k) && in_version_range(k, p) implies key_timestamp(k)
            < rest[0].0 by {
            if k == vk0 {
                assert(puts[0].0 < puts[1].0);
            } else {
                assert(m.dom().contains(k));
                assert(key_timestamp(k) < puts[0].0);
                assert(puts[0].0 < puts[1].0);
            }
        }
        lemma_sequential_puts(m1, p, rest);
        assert(rest.last() == puts.last());
        assert forall|i: int|
            0 <= i < puts.len() implies #[trigger] m2.dom().contains(versioned_key(p, puts[i].0))
            && m2[versioned_key(p, puts[i].0)] == puts[i].1 by {
        if i == 0 {
                assert(m1.dom().contains(vk0) && in_version_range(vk0, p));
                assert(m2.dom().contains(vk0) && m2[vk0] == m1[vk0]);
            } else {
                assert(rest[i - 1] == puts[i]);
            }
        }
    }
}

} // verus!
