//! The alternate backend: the engine contract over a `sled` database.

use vstd::prelude::*;
use crate::errors::KvStoreError;
use crate::kv::KvsEngine;

verus! {

/// `sled::Db`, a handle on a database; nothing is known of what is in it.
#[verifier::external_type_specification]
#[verifier::external_body]
pub struct ExDb(sled::Db);

/// `sled::Error`, the failure of an operation on a database; nothing is
/// known of what is in it.
#[verifier::external_type_specification]
#[verifier::external_body]
pub struct ExSledError(sled::Error);

/// `std::path::Path`, the path of a file or a directory; nothing is known of
/// what is in it.
#[verifier::external_type_specification]
#[verifier::external_body]
pub struct ExPath(std::path::Path);

/// `Db::clone` hands out another handle on the same database; nothing is
/// claimed of it.
pub assume_specification[ <sled::Db as Clone>::clone ](db: &sled::Db) -> sled::Db;

/// What `String::from_utf8_lossy` makes of `bytes`.
pub uninterp spec fn lossy_text(bytes: Seq<u8>) -> Seq<char>;

/// Calls `sled::open`, which opens the database kept in the directory and
/// creates it where there is none.
#[verifier::external_body]
fn db_open(dirpath: &std::path::Path) -> Result<sled::Db, sled::Error> {
    sled::open(dirpath)
}

/// Calls `Tree::get` on the database and copies the value found.
#[verifier::external_body]
fn db_get(db: &sled::Db, key: &[u8]) -> Result<Option<Vec<u8>>, sled::Error> {
    db.get(key).map(|found| found.map(|value| value.to_vec()))
}

/// Calls `Tree::insert` on the database and copies the value replaced.
#[verifier::external_body]
fn db_insert(db: &sled::Db, key: &[u8], value: &[u8]) -> Result<Option<Vec<u8>>, sled::Error> {
    db.insert(key, value).map(|found| found.map(|value| value.to_vec()))
}

/// Calls `Tree::remove` on the database and copies the value removed.
#[verifier::external_body]
fn db_remove(db: &sled::Db, key: &[u8]) -> Result<Option<Vec<u8>>, sled::Error> {
    db.remove(key).map(|found| found.map(|value| value.to_vec()))
}

/// Calls `Tree::flush` on the database.
#[verifier::external_body]
fn db_flush(db: &sled::Db) -> Result<usize, sled::Error> {
    db.flush()
}

/// The text of a `sled::Error`, as its `Display` gives it.
#[verifier::external_body]
fn sled_error_text(error: &sled::Error) -> String {
    error.to_string()
}

/// Calls `String::from_utf8_lossy`, which keeps valid UTF-8 as the text it
/// encodes and replaces what is invalid.
#[verifier::external_body]
fn utf8_lossy(bytes: &[u8]) -> (r: String)
    ensures
        r@ == lossy_text(bytes@),
        vstd::utf8::valid_utf8(bytes@) ==> r@ == vstd::utf8::decode_utf8(bytes@),
{
    String::from_utf8_lossy(bytes).into_owned()
}

/// A handle on a `sled` database that keeps the engine contract.
#[derive(Clone)]
pub struct SledKvsEngine {
    db: sled::Db,
}

impl SledKvsEngine {
    /// The handle on the database that the engine works on.
    pub closed spec fn handle(&self) -> sled::Db {
        self.db
    }

    /// Opens the database kept in a directory. Whether that succeeds is for
    /// the database to say; [`open_outcome`] says what is returned for what
    /// it says.
    ///
    /// Fails with `BackendError` where the database cannot be opened.
    pub fn open(dirpath: &std::path::Path) -> (r: Result<Self, KvStoreError>)
        ensures
            r is Err ==> r->Err_0 is BackendError,
    {
        open_outcome(db_open(dirpath))
    }
}

/// What `open` returns for what the database returned: an engine on the
/// handle that was opened, or `BackendError` where opening failed.
pub fn open_outcome(opened: Result<sled::Db, sled::Error>) -> (r: Result<
    SledKvsEngine,
    KvStoreError,
>)
    ensures
        match opened {
            Ok(db) => r matches Ok(engine) && engine.handle() == db,
            Err(_) => r matches Err(KvStoreError::BackendError(_)),
        },
{
    match opened {
        Ok(db) => Ok(SledKvsEngine { db }),
        Err(error) => Err(KvStoreError::BackendError(sled_error_text(&error))),
    }
}

/// What `get` returns for what the database returned: the value found, read
/// as text; nothing where the key has no value; `BackendError` where the
/// database failed.
pub fn get_outcome(found: Result<Option<Vec<u8>>, sled::Error>) -> (r: Result<
    Option<String>,
    KvStoreError,
>)
    ensures
        match found {
            Ok(Some(value)) => r matches Ok(Some(text)) && text@ == lossy_text(value@),
            Ok(None) => r matches Ok(None),
            Err(_) => r matches Err(KvStoreError::BackendError(_)),
        },
{
    match found {
        Ok(Some(value)) => Ok(Some(utf8_lossy(value.as_slice()))),
        Ok(None) => Ok(None),
        Err(error) => Err(KvStoreError::BackendError(sled_error_text(&error))),
    }
}

/// What `set` returns for what the database returned on the insertion and
/// on the flush that follows it: success where both succeeded, and
/// `BackendError` otherwise.
pub fn set_outcome(
    inserted: Result<Option<Vec<u8>>, sled::Error>,
    flushed: Result<usize, sled::Error>,
) -> (r: Result<(), KvStoreError>)
    ensures
        r is Ok <==> inserted is Ok && flushed is Ok,
        r is Err ==> r->Err_0 is BackendError,
{
    match inserted {
        Ok(_) => match flushed {
            Ok(_) => Ok(()),
            Err(error) => Err(KvStoreError::BackendError(sled_error_text(&error))),
        },
        Err(error) => Err(KvStoreError::BackendError(sled_error_text(&error))),
    }
}

/// What `remove` returns for what the database returned on the removal and
/// on the flush that follows it: `BackendError` where either failed,
/// `NonExistentKey` with the key where the key had no value, and success
/// otherwise.
pub fn remove_outcome(
    key: String,
    removed: Result<Option<Vec<u8>>, sled::Error>,
    flushed: Result<usize, sled::Error>,
) -> (r: Result<(), KvStoreError>)
    ensures
        match (flushed, removed) {
            (Err(_), _) => r matches Err(KvStoreError::BackendError(_)),
            (Ok(_), Err(_)) => r matches Err(KvStoreError::BackendError(_)),
            (Ok(_), Ok(None)) => r matches Err(KvStoreError::NonExistentKey(missing)) && missing@
                == key@,
            (Ok(_), Ok(Some(_))) => r is Ok,
        },
{
    match flushed {
        Ok(_) => match removed {
            Ok(Some(_)) => Ok(()),
            Ok(None) => Err(KvStoreError::NonExistentKey(key)),
            Err(error) => Err(KvStoreError::BackendError(sled_error_text(&error))),
        },
        Err(error) => Err(KvStoreError::BackendError(sled_error_text(&error))),
    }
}

impl KvsEngine for SledKvsEngine {
    /// Setting succeeds or fails with `BackendError`.
    open spec fn may_set(
        &self,
        key: Seq<char>,
        value: Seq<char>,
        outcome: Result<(), KvStoreError>,
    ) -> bool {
        outcome is Err ==> outcome->Err_0 is BackendError
    }

    /// Getting finds nothing, or finds a value and hands it out as the text
    /// that its bytes are read as, or fails with `BackendError`.
    open spec fn may_get(
        &self,
        key: Seq<char>,
        outcome: Result<Option<String>, KvStoreError>,
    ) -> bool {
        match outcome {
            Ok(Some(text)) => exists|value: Seq<u8>| text@ == #[trigger] lossy_text(value),
            Ok(None) => true,
            Err(error) => error is BackendError,
        }
    }

    /// Removing succeeds, or fails with `BackendError`, or with
    /// `NonExistentKey` and the key.
    open spec fn may_remove(&self, key: Seq<char>, outcome: Result<(), KvStoreError>) -> bool {
        match outcome {
            Ok(_) => true,
            Err(KvStoreError::BackendError(_)) => true,
            Err(KvStoreError::NonExistentKey(missing)) => missing@ == key,
            Err(_) => false,
        }
    }

    /// Sets a key to a value, and flushes the database.
    fn set(&self, key: String, value: String) -> (r: Result<(), KvStoreError>) {
        let inserted = db_insert(&self.db, key.as_str().as_bytes(), value.as_str().as_bytes());
        let flushed = db_flush(&self.db);
        set_outcome(inserted, flushed)
    }

    /// Gets the value of a key.
    fn get(&self, key: String) -> (r: Result<Option<String>, KvStoreError>) {
        let found = db_get(&self.db, key.as_str().as_bytes());
        let ghost returned = found;
        let outcome = get_outcome(found);
        proof {
            if let Ok(Some(value)) = returned {
                assert(outcome->Ok_0->0@ == lossy_text(value@));
            }
        }
        outcome
    }

    /// Removes a key, and flushes the database.
    fn remove(&self, key: String) -> (r: Result<(), KvStoreError>) {
        let removed = db_remove(&self.db, key.as_str().as_bytes());
        let flushed = db_flush(&self.db);
        remove_outcome(key, removed, flushed)
    }
}

} // verus!
