//! The embedded sync catalog.
//!
//! Sync runs cache per-path metadata in an embedded ordered key-value
//! store.  The store is outside code; its contents are modelled as a map
//! from key bytes to value bytes, and every operation the sync logic uses
//! is a trusted wrapper whose contract says what it does to that map.
//! Within one process all access goes through one handle, so the model is
//! a function of the handle.

use vstd::prelude::*;

verus! {

#[verifier::external_type_specification]
#[verifier::external_body]
pub struct ExDb(sled::Db);

/// What the store holds, key bytes to value bytes.
pub uninterp spec fn db_contents(db: sled::Db) -> Map<Seq<u8>, Seq<u8>>;

/// Relies on `sled::open`: a handle on the directory's tree.  What it
/// holds depends on the disk, so nothing is claimed of the contents.
#[verifier::external_body]
pub fn catalog_open(path: &str) -> (r: Result<sled::Db, String>)
{
    match sled::open(path) {
        Ok(db) => Ok(db),
        Err(e) => Err(e.to_string()),
    }
}

/// Relies on `sled::Tree::get`: the value stored under the key, if any.
#[verifier::external_body]
pub fn catalog_get(db: &sled::Db, key: &[u8]) -> (r: Result<Option<Vec<u8>>, String>)
    ensures
        r matches Ok(Some(v)) ==> db_contents(*db).dom().contains(key@) && db_contents(*db)[key@]
            == v@,
        r matches Ok(None) ==> !db_contents(*db).dom().contains(key@),
{
    match db.get(key) {
        Ok(Some(v)) => Ok(Some(v.to_vec())),
        Ok(None) => Ok(None),
        Err(e) => Err(e.to_string()),
    }
}

/// Relies on `sled::Tree::insert`: on success the key maps to the value;
/// on an error nothing is assumed of the store.
#[verifier::external_body]
pub fn catalog_put(db: &mut sled::Db, key: &[u8], value: &[u8]) -> (r: Result<(), String>)
    ensures
        r is Ok ==> db_contents(*final(db)) == db_contents(*old(db)).insert(key@, value@),
{
    match db.insert(key, value) {
        Ok(_) => Ok(()),
        Err(e) => Err(e.to_string()),
    }
}

/// Relies on `sled::Tree::remove`: on success the key is gone.
#[verifier::external_body]
pub fn catalog_remove(db: &mut sled::Db, key: &[u8]) -> (r: Result<(), String>)
    ensures
        r is Ok ==> db_contents(*final(db)) == db_contents(*old(db)).remove(key@),
{
    match db.remove(key) {
        Ok(_) => Ok(()),
        Err(e) => Err(e.to_string()),
    }
}

/// Relies on `sled::Tree::clear`: on success the store is empty.
#[verifier::external_body]
pub fn catalog_clear(db: &mut sled::Db) -> (r: Result<(), String>)
    ensures
        r is Ok ==> forall|k: Seq<u8>| !db_contents(*final(db)).dom().contains(k),
{
    match db.clear() {
        Ok(_) => Ok(()),
        Err(e) => Err(e.to_string()),
    }
}

/// Relies on `sled::Tree::flush`: durability only; the contents stay as
/// they are.
#[verifier::external_body]
pub fn catalog_flush(db: &mut sled::Db) -> (r: Result<(), String>)
    ensures
        db_contents(*final(db)) == db_contents(*old(db)),
{
    match db.flush() {
        Ok(_) => Ok(()),
        Err(e) => Err(e.to_string()),
    }
}

/// Relies on `sled::Tree::iter`: on success, every listed pair is in the
/// store, keys come out in ascending byte order without repeats, and
/// there are as many pairs as stored keys — so the listing is exactly the
/// contents.
#[verifier::external_body]
pub fn catalog_list(db: &sled::Db) -> (r: Result<Vec<(Vec<u8>, Vec<u8>)>, String>)
    ensures
        r matches Ok(entries) ==> {
            &&& entries@.len() == db_contents(*db).dom().len()
            &&& forall|i: int|
                0 <= i < entries@.len() ==> db_contents(*db).dom().contains(
                    (#[trigger] entries@[i]).0@,
                ) && db_contents(*db)[entries@[i].0@] == entries@[i].1@
            &&& forall|p: int, q: int|
                0 <= p < q < entries@.len() ==> (#[trigger] entries@[p]).0@ != (
                #[trigger] entries@[q]).0@
        },
{
    let mut out = Vec::new();
    for item in db.iter() {
        match item {
            Ok((k, v)) => out.push((k.to_vec(), v.to_vec())),
            Err(e) => return Err(e.to_string()),
        }
    }
    Ok(out)
}

} // verus!
