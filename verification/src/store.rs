use vstd::prelude::*;
use crate::ChainError;

verus! {

/// Handle on the persistent key-value namespace the chain lives in.
/// The stored entries are modelled by `kv_contents`.
#[verifier::external_body]
pub struct KvStore {
    db: sled::Db,
}

/// What the store holds: a map from keys to values, both plain byte
/// strings. Every wrapper around the storage engine speaks of it.
pub uninterp spec fn kv_contents(s: KvStore) -> Map<Seq<u8>, Seq<u8>>;

/// A store with no entries at all.
pub open spec fn kv_empty() -> Map<Seq<u8>, Seq<u8>> {
    Map::empty()
}

/// Relies on sled::open: opens or creates a database rooted at `path`.
/// What it holds depends on the disk, so nothing is assumed of the
/// contents.
#[verifier::external_body]
pub fn kv_open(path: &str) -> (r: Result<KvStore, ChainError>)
    ensures
        r is Err ==> r->Err_0 == ChainError::StorageUnavailable,
{
    match sled::open(path) {
        Ok(db) => Ok(KvStore { db }),
        Err(_) => Err(ChainError::StorageUnavailable),
    }
}

/// Relies on sled::Config::open with `temporary` set: a fresh database
/// in a scratch location, starting with no entries and removed when the
/// handle is dropped.
#[verifier::external_body]
pub fn kv_open_temporary() -> (r: Result<KvStore, ChainError>)
    ensures
        r is Ok ==> kv_contents(r->Ok_0) == kv_empty(),
        r is Err ==> r->Err_0 == ChainError::StorageUnavailable,
{
    match sled::Config::new().temporary(true).open() {
        Ok(db) => Ok(KvStore { db }),
        Err(_) => Err(ChainError::StorageUnavailable),
    }
}

/// Relies on sled::Tree::get: returns the value stored at `key`, if any.
#[verifier::external_body]
pub fn kv_get(s: &KvStore, key: &[u8]) -> (r: Result<Option<Vec<u8>>, ChainError>)
    ensures
        r matches Ok(Some(v)) ==> kv_contents(*s).contains_key(key@) && v@ == kv_contents(
            *s,
        )[key@],
        r matches Ok(None) ==> !kv_contents(*s).contains_key(key@),
        r is Err ==> r->Err_0 == ChainError::StorageOpFailed,
{
    match s.db.get(key) {
        Ok(Some(v)) => Ok(Some(v.to_vec())),
        Ok(None) => Ok(None),
        Err(_) => Err(ChainError::StorageOpFailed),
    }
}

/// Relies on sled::Tree::insert: on success the store holds exactly the
/// old entries plus `key` bound to `value`. On failure the entry was
/// either applied or not; no other key is touched either way.
#[verifier::external_body]
pub fn kv_insert(s: &mut KvStore, key: &[u8], value: &[u8]) -> (r: Result<(), ChainError>)
    ensures
        r is Ok ==> kv_contents(*final(s)) == kv_contents(*old(s)).insert(key@, value@),
        r is Err ==> r->Err_0 == ChainError::StorageOpFailed,
        r is Err ==> kv_contents(*final(s)) == kv_contents(*old(s)) || kv_contents(*final(s))
            == kv_contents(*old(s)).insert(key@, value@),
{
    match s.db.insert(key, value) {
        Ok(_) => Ok(()),
        Err(_) => Err(ChainError::StorageOpFailed),
    }
}

} // verus!
