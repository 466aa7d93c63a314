//! The alternative engine: a thin adapter over an embedded B-tree
//! database.  The embedded library does its own durable storage, so
//! nothing is claimed of what these calls return; the adapter only
//! shapes values and errors into the engine contract.

use vstd::prelude::*;
use vstd::string::StringExecFns;

use crate::codec::bytes_to_string;
use crate::engines::KvsEngine;
use crate::error::KvsError;

verus! {

#[verifier::external_type_specification]
#[verifier::external_body]
pub struct ExSledDb(sled::Db);

/// The embedded-database engine.
pub struct SledKvsEngine(sled::Db);

/// Relies on `sled::Tree::insert` (via `Db`'s deref): stores the
/// key/value pair; the previous value, which the engine discards, is
/// returned on success.
#[verifier::external_body]
fn sled_insert(db: &sled::Db, key: &String, value: &String) -> (r: Result<(), KvsError>) {
    match db.insert(key.as_bytes(), value.as_bytes().to_vec()) {
        Ok(_) => Ok(()),
        Err(e) => Err(KvsError::SledError(format!("{}", e))),
    }
}

/// Relies on `sled::Tree::get`: the value most recently stored under
/// the key, as raw bytes, or `None`.
#[verifier::external_body]
fn sled_get(db: &sled::Db, key: &String) -> (r: Result<Option<Vec<u8>>, KvsError>) {
    match db.get(key.as_bytes()) {
        Ok(Some(v)) => Ok(Some(v.to_vec())),
        Ok(None) => Ok(None),
        Err(e) => Err(KvsError::SledError(format!("{}", e))),
    }
}

/// Relies on `sled::Tree::remove`: unbinds the key, returning the
/// value it had, if any, as raw bytes.
#[verifier::external_body]
fn sled_remove(db: &sled::Db, key: &String) -> (r: Result<Option<Vec<u8>>, KvsError>) {
    match db.remove(key.as_bytes()) {
        Ok(Some(v)) => Ok(Some(v.to_vec())),
        Ok(None) => Ok(None),
        Err(e) => Err(KvsError::SledError(format!("{}", e))),
    }
}

/// Relies on `sled::Db::flush`: makes earlier writes durable.
#[verifier::external_body]
fn sled_flush(db: &sled::Db) -> (r: Result<(), KvsError>) {
    match db.flush() {
        Ok(_) => Ok(()),
        Err(e) => Err(KvsError::SledError(format!("{}", e))),
    }
}

impl SledKvsEngine {
    /// Wraps an opened embedded database.
    pub fn new(db: sled::Db) -> (r: SledKvsEngine) {
        SledKvsEngine(db)
    }
}

impl KvsEngine for SledKvsEngine {
    open spec fn inv(&self) -> bool {
        true
    }

    fn set(&mut self, key: String, value: String) -> (r: Result<(), KvsError>) {
        sled_insert(&self.0, &key, &value)?;
        sled_flush(&self.0)?;
        Ok(())
    }

    fn get(&self, key: String) -> (r: Result<Option<String>, KvsError>) {
        match sled_get(&self.0, &key)? {
            Some(bytes) => match bytes_to_string(bytes) {
                Some(s) => Ok(Some(s)),
                None => Err(
                    KvsError::StringError(String::from_str("stored value is not valid UTF-8")),
                ),
            },
            None => Ok(None),
        }
    }

    fn remove(&mut self, key: String) -> (r: Result<(), KvsError>) {
        match sled_remove(&self.0, &key)? {
            Some(_) => {
                sled_flush(&self.0)?;
                Ok(())
            },
            None => Err(KvsError::KeyNotFound),
        }
    }
}

} // verus!
