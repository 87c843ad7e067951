//! The composite-key codec.
//!
//! A key names one version of one attribute of one entity, in a fixed layout
//! of 26 bytes: an entity-type tag, the entity id, a sub-key-type tag, the
//! sub-key id and a timestamp, every number big-endian so that byte order is
//! numeric order. The first 18 bytes — everything but the timestamp — form
//! the logical prefix: all versions of one attribute share it, and a range
//! scan over that prefix enumerates exactly those versions in timestamp
//! order.

use vstd::prelude::*;
use crate::interface::StorageError;
use crate::lex::{be_assemble, be_bytes, be_val, lemma_be_bytes_val, lemma_be_val8};

verus! {

pub const KEY_SIZE: usize = 26;

/// The width of the logical prefix: everything but the timestamp.
pub const PREFIX_SIZE: usize = 18;

pub type KeyContainer = [u8; KEY_SIZE];

pub type Value = Vec<u8>;

pub type KvPair = (Key, Value);

/// A fully qualified versioned key; with the timestamp bytes zeroed it is
/// read as a logical key.
#[derive(Eq, PartialEq, Hash, Debug, Clone, Copy)]
pub struct Key(pub KeyContainer);

impl View for Key {
    type V = Seq<u8>;

    open spec fn view(&self) -> Seq<u8> {
        self.0@
    }
}

/// The byte layout of a key assembled from its five fields.
pub open spec fn encoded(
    entity_type: u8,
    entity_id: u64,
    subkey_type: u8,
    subkey_id: u64,
    timestamp: u64,
) -> Seq<u8> {
    seq![entity_type] + be_bytes(entity_id) + seq![subkey_type] + be_bytes(subkey_id)
        + be_bytes(timestamp)
}

/// The non-timestamp part of a key's bytes.
pub open spec fn logical_prefix(k: Seq<u8>) -> Seq<u8> {
    k.subrange(0, PREFIX_SIZE as int)
}

/// The number the timestamp bytes of a key denote.
pub open spec fn key_timestamp(k: Seq<u8>) -> nat {
    be_val(k.subrange(PREFIX_SIZE as int, KEY_SIZE as int))
}

/// The least key of the version range of a logical prefix.
pub open spec fn start_bound(p: Seq<u8>) -> Seq<u8> {
    p + be_bytes(0)
}

/// The greatest key of the version range of a logical prefix; safe as an
/// inclusive upper bound because the timestamp field is fixed width.
pub open spec fn end_bound(p: Seq<u8>) -> Seq<u8> {
    p + be_bytes(u64::MAX)
}

/// Packs the five fields into the fixed layout. Never fails: every field is
/// already of bounded width.
pub fn encode(
    entity_type: u8,
    entity_id: u64,
    subkey_type: u8,
    subkey_id: u64,
    timestamp: u64,
) -> (k: Key)
    ensures
        k@ == encoded(entity_type, entity_id, subkey_type, subkey_id, timestamp),
{
    let b: KeyContainer = [
        entity_type,
        (entity_id >> 56) as u8,
        (entity_id >> 48) as u8,
        (entity_id >> 40) as u8,
        (entity_id >> 32) as u8,
        (entity_id >> 24) as u8,
        (entity_id >> 16) as u8,
        (entity_id >> 8) as u8,
        entity_id as u8,
        subkey_type,
        (subkey_id >> 56) as u8,
        (subkey_id >> 48) as u8,
        (subkey_id >> 40) as u8,
        (subkey_id >> 32) as u8,
        (subkey_id >> 24) as u8,
        (subkey_id >> 16) as u8,
        (subkey_id >> 8) as u8,
        subkey_id as u8,
        (timestamp >> 56) as u8,
        (timestamp >> 48) as u8,
        (timestamp >> 40) as u8,
        (timestamp >> 32) as u8,
        (timestamp >> 24) as u8,
        (timestamp >> 16) as u8,
        (timestamp >> 8) as u8,
        timestamp as u8,
    ];
    proof {
        assert(b@ =~= encoded(entity_type, entity_id, subkey_type, subkey_id, timestamp));
    }
    Key(b)
}

/// Unpacks a key's bytes into its five fields; rejects input that is not
/// exactly one key wide.
pub fn decode(bytes: &Vec<u8>) -> (r: Result<(u8, u64, u8, u64, u64), StorageError>)
    ensures
        bytes@.len() == KEY_SIZE ==> (r matches Ok(t) && t.0 == bytes@[0] && t.1
            == be_val(bytes@.subrange(1, 9)) && t.2 == bytes@[9] && t.3 == be_val(
            bytes@.subrange(10, 18),
        ) && t.4 == key_timestamp(bytes@)),
        bytes@.len() != KEY_SIZE ==> (r matches Err(e) && e is MalformedKey),
{
    if bytes.len() != KEY_SIZE {
        return Err(StorageError::MalformedKey);
    }
    let entity_type = bytes[0];
    let entity_id = read_be_u64(bytes, 1);
    let subkey_type = bytes[9];
    let subkey_id = read_be_u64(bytes, 10);
    let timestamp = read_be_u64(bytes, 18);
    Ok((entity_type, entity_id, subkey_type, subkey_id, timestamp))
}

/// Reads the eight bytes at `at` as one big-endian number.
fn read_be_u64(bytes: &Vec<u8>, at: usize) -> (x: u64)
    requires
        at + 8 <= bytes@.len(),
    ensures
        x == be_val(bytes@.subrange(at as int, at + 8)),
{
    // a machine-width length, so that `at + 7` is known to fit in usize
    let _len = bytes.len();
    let x = (bytes[at] as u64) << 56 | (bytes[at + 1] as u64) << 48 | (bytes[at + 2] as u64) << 40
        | (bytes[at + 3] as u64) << 32 | (bytes[at + 4] as u64) << 24
        | (bytes[at + 5] as u64) << 16 | (bytes[at + 6] as u64) << 8 | (bytes[at + 7] as u64);
    proof {
        let s = bytes@.subrange(at as int, at + 8);
        lemma_be_val8(s);
        assert(x == be_assemble(s[0], s[1], s[2], s[3], s[4], s[5], s[6], s[7]));
    }
    x
}

/// Truncates a key to its logical prefix, the scan handle for "all versions
/// of this attribute".
pub fn prefix_without_timestamp(key: &Key) -> (p: [u8; PREFIX_SIZE])
    ensures
        p@ == logical_prefix(key@),
{
    let b = key.0;
    let p: [u8; PREFIX_SIZE] = [
        b[0], b[1], b[2], b[3], b[4], b[5], b[6], b[7], b[8], b[9], b[10], b[11], b[12], b[13],
        b[14], b[15], b[16], b[17],
    ];
    proof {
        assert(p@ =~= logical_prefix(key@));
    }
    p
}

/// The inclusive scan range holding every version of the logical prefix:
/// the prefix padded with the all-zero timestamp up to the prefix padded
/// with the all-ones timestamp.
pub fn range_bounds(prefix: &[u8; PREFIX_SIZE]) -> (r: (Key, Key))
    ensures
        r.0@ == start_bound(prefix@),
        r.1@ == end_bound(prefix@),
{
    let p = *prefix;
    let start: KeyContainer = [
        p[0], p[1], p[2], p[3], p[4], p[5], p[6], p[7], p[8], p[9], p[10], p[11], p[12], p[13],
        p[14], p[15], p[16], p[17], 0, 0, 0, 0, 0, 0, 0, 0,
    ];
    let end: KeyContainer = [
        p[0], p[1], p[2], p[3], p[4], p[5], p[6], p[7], p[8], p[9], p[10], p[11], p[12], p[13],
        p[14], p[15], p[16], p[17], 0xff, 0xff, 0xff, 0xff, 0xff, 0xff, 0xff, 0xff,
    ];
    proof {
        crate::lex::lemma_be_bytes_zero();
        crate::lex::lemma_be_bytes_max();
        assert(start@ =~= start_bound(prefix@));
        assert(end@ =~= end_bound(prefix@));
    }
    (Key(start), Key(end))
}

/// The versioned key for one version of the logical key: the same prefix,
/// with the timestamp written into the last eight bytes.
pub fn with_timestamp(key: &Key, timestamp: u64) -> (r: Key)
    ensures
        r@ == logical_prefix(key@) + be_bytes(timestamp),
{
    let b = key.0;
    let v: KeyContainer = [
        b[0], b[1], b[2], b[3], b[4], b[5], b[6], b[7], b[8], b[9], b[10], b[11], b[12], b[13],
        b[14], b[15], b[16], b[17],
        (timestamp >> 56) as u8,
        (timestamp >> 48) as u8,
        (timestamp >> 40) as u8,
        (timestamp >> 32) as u8,
        (timestamp >> 24) as u8,
        (timestamp >> 16) as u8,
        (timestamp >> 8) as u8,
        timestamp as u8,
    ];
    proof {
        assert(v@ =~= logical_prefix(key@) + be_bytes(timestamp));
    }
    Key(v)
}

/// Decoding an encoded key gives every field back: the layout loses
/// nothing.
pub proof fn lemma_codec_round_trip(
    entity_type: u8,
    entity_id: u64,
    subkey_type: u8,
    subkey_id: u64,
    timestamp: u64,
)
    ensures
        ({
            let k = encoded(entity_type, entity_id, subkey_type, subkey_id, timestamp);
            k.len() == KEY_SIZE && k[0] == entity_type && be_val(k.subrange(1, 9)) == entity_id
                && k[9] == subkey_type && be_val(k.subrange(10, 18)) == subkey_id && key_timestamp(
                k,
            ) == timestamp
        }),
{
    let k = encoded(entity_type, entity_id, subkey_type, subkey_id, timestamp);
    assert(k.subrange(1, 9) =~= be_bytes(entity_id));
    assert(k.subrange(10, 18) =~= be_bytes(subkey_id));
    assert(k.subrange(PREFIX_SIZE as int, KEY_SIZE as int) =~= be_bytes(timestamp));
    lemma_be_bytes_val(entity_id);
    lemma_be_bytes_val(subkey_id);
    lemma_be_bytes_val(timestamp);
}

} // verus!
