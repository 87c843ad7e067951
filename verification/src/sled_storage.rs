//! The versioned store over the ordered byte-range engine.
//!
//! The engine persists a flat space of byte keys; this layer speaks to it
//! only through the narrow trusted interface below — point lookup,
//! conditional insert, and a highest-key-in-range scan — and builds the
//! versioned put/get/get-latest protocol on top. Everything the engine
//! holds is modelled by `db_view`; each wrapper's contract says how one
//! engine call reads or changes that map, and the protocol methods are
//! verified against those contracts alone.

use vstd::prelude::*;
use crate::clock;
use crate::interface::{StorageError, StorageResult};
use crate::keys::{self, Key, Value, logical_prefix, start_bound, end_bound};
use crate::lex::lex_le;
use crate::model::{
    has_version, in_version_range, is_latest_version_key, versioned_key, StoreView,
    lemma_versioned_key_in_range,
};

verus! {

/// Declares sled::Db, the engine handle, as an opaque outside type.
#[verifier::external_type_specification]
#[verifier::external_body]
pub struct ExDb(sled::Db);

/// What the engine holds: the map from key bytes to value bytes. The
/// trusted wrappers below state every fact the library uses about it.
pub uninterp spec fn db_view(db: sled::Db) -> StoreView;

/// A handle on the versioned store: the engine plus the protocol. The
/// handle owns no state of its own; everything persisted lives in the
/// engine. The handle is deliberately not cloneable: the contracts below
/// track what the engine holds through this one handle, and a second handle
/// over the same tree would mutate it behind the first one's back.
#[derive(Debug)]
pub struct Storage {
    engine: sled::Db,
}

impl View for Storage {
    type V = StoreView;

    closed spec fn view(&self) -> StoreView {
        db_view(self.engine)
    }
}

impl Storage {
    /// Opens the store at `path`. Relies on sled::Config::open; panics if
    /// the engine cannot open its files, and nothing is assumed about what
    /// the opened tree already holds.
    #[verifier::external_body]
    pub fn new(path: &str) -> Storage {
        let config = sled::Config::default()
            .path(path)
            .cache_capacity(5 * 1024 * 1024 * 1024)
            .mode(sled::Mode::HighThroughput)
            .use_compression(false)
            .temporary(true)
            .flush_every_ms(Some(1000));
        let db = config.open().unwrap();
        Storage { engine: db }
    }

    /// Relies on sled::Tree::get (reached through sled::Db's Deref): the
    /// value stored at exactly this key, or None when the key is absent.
    #[verifier::external_body]
    fn engine_get(&self, key: &Key) -> (r: Result<Option<Vec<u8>>, sled::Error>)
        ensures
            r matches Ok(found) ==> (found matches Some(v) ==> db_view(self.engine).dom().contains(
                key@,
            ) && v@ == db_view(self.engine)[key@]),
            r matches Ok(found) && found is None ==> !db_view(self.engine).dom().contains(key@),
    {
        match self.engine.get(key.0) {
            Ok(Some(v)) => Ok(Some(v.to_vec())),
            Ok(None) => Ok(None),
            Err(e) => Err(e),
        }
    }

    /// Relies on sled::Tree::compare_and_swap with expected value None: the
    /// new value is written if and only if nothing is stored at the key
    /// yet, and a lost race leaves the engine unchanged.
    #[verifier::external_body]
    fn engine_insert_if_absent(&mut self, key: &Key, value: &Vec<u8>) -> (r: Result<
        bool,
        sled::Error,
    >)
        ensures
            r matches Ok(inserted) ==> (inserted <==> !db_view(old(self).engine).dom().contains(
                key@,
            )),
            r matches Ok(inserted) && inserted ==> db_view(final(self).engine) == db_view(
                old(self).engine,
            ).insert(key@, value@),
            r matches Ok(inserted) && !inserted ==> db_view(final(self).engine) == db_view(
                old(self).engine,
            ),
    {
        match self.engine.compare_and_swap(key.0, None as Option<&[u8]>, Some(value.as_slice())) {
            Ok(Ok(())) => Ok(true),
            Ok(Err(_)) => Ok(false),
            Err(e) => Err(e),
        }
    }

    /// Relies on sled::Tree::range with an inclusive range, and on its
    /// double-ended iterator: the engine orders keys as byte strings, so
    /// the last entry of `start..=end` is the one with the greatest key in
    /// the range, and an empty answer means no key of the range is present.
    #[verifier::external_body]
    fn engine_last_in_range(&self, start: &Key, end: &Key) -> (r: Result<
        Option<(Vec<u8>, Vec<u8>)>,
        sled::Error,
    >)
        ensures
            r matches Ok(found) ==> (found matches Some(kv) ==> db_view(self.engine).dom().contains(
                kv.0@,
            ) && kv.1@ == db_view(self.engine)[kv.0@] && lex_le(start@, kv.0@) && lex_le(kv.0@, end@)
                && forall|k2: Seq<u8>|
                    #[trigger] db_view(self.engine).dom().contains(k2) && lex_le(start@, k2)
                        && lex_le(k2, end@) ==> lex_le(k2, kv.0@)),
            r matches Ok(found) && found is None ==> forall|k2: Seq<u8>|
                #[trigger] db_view(self.engine).dom().contains(k2) ==> !(lex_le(start@, k2)
                    && lex_le(k2, end@)),
    {
        let mut iter = self.engine.range(start.0.as_slice()..=end.0.as_slice());
        match iter.next_back() {
            Some(Ok((k, v))) => Ok(Some((k.to_vec(), v.to_vec()))),
            Some(Err(e)) => Err(e),
            None => Ok(None),
        }
    }

    /// Fetches the value stored at exactly `key`, timestamp included. When
    /// nothing is stored there, the error carries the bounds of the key's
    /// logical range, so the caller can look for neighbouring versions.
    pub fn get(&self, key: Key) -> (r: StorageResult<Value>)
        ensures
            match r {
                Ok(v) => self@.dom().contains(key@) && v@ == self@[key@],
                Err(e) => match e {
                    StorageError::KeyNotFound { key: rk, start_key, end_key } => {
                        &&& !self@.dom().contains(key@)
                        &&& rk == key
                        &&& start_key@ == start_bound(logical_prefix(key@))
                        &&& end_key@ == end_bound(logical_prefix(key@))
                    },
                    StorageError::Other(_) => true,
                    _ => false,
                },
            },
    {
        let prefix = keys::prefix_without_timestamp(&key);
        let (start, end) = keys::range_bounds(&prefix);
        match self.engine_get(&key) {
            Ok(Some(v)) => Ok(v),
            Ok(None) => Err(
                StorageError::KeyNotFound { key, start_key: start, end_key: end },
            ),
            Err(e) => Err(StorageError::Other(e)),
        }
    }

    /// Fetches the value of the newest version of the logical key; the
    /// timestamp bytes of `key` are ignored. When the logical key has no
    /// version at all, the error carries the bounds of the scanned range.
    pub fn get_latest(&self, key: Key) -> (r: StorageResult<Value>)
        ensures
            match r {
                Ok(v) => exists|k: Seq<u8>|
                    #[trigger] is_latest_version_key(self@, logical_prefix(key@), k) && v@
                        == self@[k],
                Err(e) => match e {
                    StorageError::KeyNotFound { key: rk, start_key, end_key } => {
                        &&& !has_version(self@, logical_prefix(key@))
                        &&& rk == key
                        &&& start_key@ == start_bound(logical_prefix(key@))
                        &&& end_key@ == end_bound(logical_prefix(key@))
                    },
                    StorageError::Other(_) => true,
                    _ => false,
                },
            },
    {
        let prefix = keys::prefix_without_timestamp(&key);
        let (start, end) = keys::range_bounds(&prefix);
        match self.engine_last_in_range(&start, &end) {
            Ok(Some(kv)) => {
                proof {
                    assert(is_latest_version_key(self@, logical_prefix(key@), kv.0@));
                }
                Ok(kv.1)
            },
            Ok(None) => Err(
                StorageError::KeyNotFound { key, start_key: start, end_key: end },
            ),
            Err(e) => Err(StorageError::Other(e)),
        }
    }

    /// Writes `value` as the version of the logical key stamped `timestamp`.
    /// The first version of a logical key is always accepted; once one
    /// exists, the write is rejected unless `autoincrement` asks for a new
    /// version, and then the value of the version being superseded is
    /// returned. A write at a timestamp already taken fails with
    /// `TimestampCollision` and changes nothing, so a stalled clock can
    /// never silently clobber a version.
    pub fn put_at(
        &mut self,
        key: Key,
        value: Value,
        autoincrement: bool,
        timestamp: u64,
    ) -> (r: StorageResult<Option<Value>>)
        ensures
            !has_version(old(self)@, logical_prefix(key@)) ==> (match r {
                Ok(prev) => prev is None && final(self)@ == old(self)@.insert(
                    versioned_key(logical_prefix(key@), timestamp),
                    value@,
                ),
                Err(e) => e is Other,
            }),
            has_version(old(self)@, logical_prefix(key@)) && !autoincrement ==> final(self)@
                == old(self)@ && (match r {
                Ok(prev) => prev is None,
                Err(e) => e is Other,
            }),
            has_version(old(self)@, logical_prefix(key@)) && autoincrement && !old(
                self,
            )@.dom().contains(versioned_key(logical_prefix(key@), timestamp)) ==> (match r {
                Ok(prev) => (prev matches Some(pv) && exists|k: Seq<u8>|
                    #[trigger] is_latest_version_key(old(self)@, logical_prefix(key@), k) && pv@
                        == old(self)@[k]) && final(self)@ == old(self)@.insert(
                    versioned_key(logical_prefix(key@), timestamp),
                    value@,
                ),
                Err(e) => e is Other,
            }),
            has_version(old(self)@, logical_prefix(key@)) && autoincrement && old(
                self,
            )@.dom().contains(versioned_key(logical_prefix(key@), timestamp)) ==> (match r {
                Ok(prev) => false,
                Err(e) => e is TimestampCollision || e is Other,
            }),
            r matches Err(e) && e is TimestampCollision ==> final(self)@ == old(self)@,
            r matches Err(e) ==> (e is TimestampCollision || e is Other),
    {
        let prefix = keys::prefix_without_timestamp(&key);
        let (start, end) = keys::range_bounds(&prefix);
        let vkey = keys::with_timestamp(&key, timestamp);
        proof {
            lemma_versioned_key_in_range(logical_prefix(key@), timestamp);
        }
        match self.engine_last_in_range(&start, &end) {
            Ok(None) => {
                match self.engine_insert_if_absent(&vkey, &value) {
                    Ok(true) => Ok(None),
                    Ok(false) => Err(StorageError::TimestampCollision),
                    Err(e) => Err(StorageError::Other(e)),
                }
            },
            Ok(Some(kv)) => {
                proof {
                    assert(has_version(self@, logical_prefix(key@))) by {
                        assert(self@.dom().contains(kv.0@) && in_version_range(
                            kv.0@,
                            logical_prefix(key@),
                        ));
                    }
                    assert(is_latest_version_key(self@, logical_prefix(key@), kv.0@));
                }
                if !autoincrement {
                    Ok(None)
                } else {
                    match self.engine_insert_if_absent(&vkey, &value) {
                        Ok(true) => Ok(Some(kv.1)),
                        Ok(false) => Err(StorageError::TimestampCollision),
                        Err(e) => Err(StorageError::Other(e)),
                    }
                }
            },
            Err(e) => Err(StorageError::Other(e)),
        }
    }

    /// Writes `value` as a new version of the logical key, stamped by the
    /// clock. Whatever timestamp the clock hands out, the write either
    /// lands under a fresh versioned key or fails with
    /// `TimestampCollision`, leaving every existing version intact.
    pub fn put(&mut self, key: Key, value: Value, autoincrement: bool) -> (r: StorageResult<
        Option<Value>,
    >)
        ensures
            !has_version(old(self)@, logical_prefix(key@)) ==> (match r {
                Ok(prev) => prev is None && exists|ts: u64| final(self)@ == old(self)@.insert(
                    #[trigger] versioned_key(logical_prefix(key@), ts),
                    value@,
                ),
                Err(e) => e is Other,
            }),
            has_version(old(self)@, logical_prefix(key@)) && !autoincrement ==> final(self)@
                == old(self)@ && (match r {
                Ok(prev) => prev is None,
                Err(e) => e is Other,
            }),
            has_version(old(self)@, logical_prefix(key@)) && autoincrement ==> (match r {
                Ok(prev) => (prev matches Some(pv) && exists|k: Seq<u8>|
                    #[trigger] is_latest_version_key(old(self)@, logical_prefix(key@), k) && pv@
                        == old(self)@[k]) && exists|ts: u64|
                    !old(self)@.dom().contains(#[trigger] versioned_key(logical_prefix(key@), ts))
                        && final(self)@ == old(self)@.insert(
                        versioned_key(logical_prefix(key@), ts),
                        value@,
                    ),
                Err(e) => e is TimestampCollision || e is Other,
            }),
            r matches Err(e) && e is TimestampCollision ==> final(self)@ == old(self)@,
            r matches Err(e) ==> (e is TimestampCollision || e is Other),
    {
        let timestamp = clock::now_nanos();
        self.put_at(key, value, autoincrement, timestamp)
    }
}

} // verus!
