//! Trusted boundary around the embedded sled key-value store: the declared
//! types, a name for a database's contents, and thin wrappers over the calls
//! the engine makes.

use vstd::prelude::*;

verus! {

#[verifier::external_type_specification]
#[verifier::external_body]
pub struct ExSledDb(sled::Db);

#[verifier::external_type_specification]
#[verifier::external_body]
pub struct ExSledError(sled::Error);

/// The entries a sled database holds. What an opened database holds depends
/// on the disk, so nothing pins this down for a fresh handle; the wrappers
/// below say how each call reads or changes it.
pub uninterp spec fn sled_contents(db: &sled::Db) -> Map<Seq<u8>, Seq<u8>>;

/// Open (or create) a sled database under `path`.
///
/// Relies on sled::open; the contents come from disk, so nothing is promised
/// of them.
#[verifier::external_body]
pub fn sled_open(path: &str) -> Result<sled::Db, sled::Error> {
    sled::open(path)
}

/// Look a key up.
///
/// Relies on sled::Tree::get: the value last set for the key, if any.
#[verifier::external_body]
pub fn sled_get(db: &sled::Db, key: &[u8]) -> (r: Result<Option<Vec<u8>>, sled::Error>)
    ensures
        r matches Ok(opt) ==> {
            &&& (opt matches Some(v) ==> sled_contents(db).contains_key(key@) && v@
                == sled_contents(db)[key@])
            &&& (opt is None ==> !sled_contents(db).contains_key(key@))
        },
{
    match db.get(key) {
        Ok(Some(iv)) => Ok(Some(iv.to_vec())),
        Ok(None) => Ok(None),
        Err(e) => Err(e),
    }
}

/// Store a key-value pair.
///
/// Relies on sled::Tree::insert: sets the key to the new value.
#[verifier::external_body]
pub fn sled_insert(db: &mut sled::Db, key: &[u8], value: Vec<u8>) -> (r: Result<(), sled::Error>)
    ensures
        r is Ok ==> sled_contents(final(db)) == sled_contents(old(db)).insert(key@, value@),
{
    match db.insert(key, value) {
        Ok(_) => Ok(()),
        Err(e) => Err(e),
    }
}

/// Whether a key is present.
///
/// Relies on sled::Tree::contains_key.
#[verifier::external_body]
pub fn sled_contains(db: &sled::Db, key: &[u8]) -> (r: Result<bool, sled::Error>)
    ensures
        r matches Ok(b) ==> b == sled_contents(db).contains_key(key@),
{
    db.contains_key(key)
}

/// Flush dirty buffers to disk; the logical contents stay as they are.
///
/// Relies on sled::Tree::flush.
#[verifier::external_body]
pub fn sled_flush(db: &mut sled::Db) -> (r: Result<(), sled::Error>)
    ensures
        sled_contents(final(db)) == sled_contents(old(db)),
{
    match db.flush() {
        Ok(_) => Ok(()),
        Err(e) => Err(e),
    }
}

/// The display text of a sled error.
///
/// Relies on sled::Error's Display implementation.
#[verifier::external_body]
pub fn sled_error_message(e: &sled::Error) -> String {
    format!("{}", e)
}

} // verus!
