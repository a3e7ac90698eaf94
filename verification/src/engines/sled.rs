//! The engine adapter over the `sled` embedded database.
//!
//! The database itself is outside code with its own on-disk state, so
//! this engine is not modeled: its contracts say what shape each answer
//! takes, not what the database holds.  What the adapter itself decides —
//! how raw lookup bytes become a value, when a removal is `KeyNotFound` —
//! is verified.

use crate::codec::bytes_to_string;
use crate::engines::KvsEngine;
use crate::error::KvsError;
use crate::error::KvsErrorType;
use vstd::prelude::*;
use vstd::string::StrSliceExecFns;
use vstd::string::StringExecFns;
use vstd::utf8::decode_utf8;
use vstd::utf8::valid_utf8;

verus! {

#[verifier::external_type_specification]
#[verifier::external_body]
/// The outside database handle.
pub struct ExDb(sled::Db);

/// Relies on `sled::Tree::insert` (through `Db`'s deref): it stores the
/// pair, or reports an engine fault.
#[verifier::external_body]
fn sled_insert(db: &sled::Db, key: &String, value: Vec<u8>) -> (r: Result<(), KvsError>)
    ensures
        r matches Err(e) ==> e.kind() == KvsErrorType::SledError,
{
    match db.insert(key.as_str(), value) {
        Ok(_) => Ok(()),
        Err(_) => Err(KvsError::from(KvsErrorType::SledError)),
    }
}

/// Relies on `sled::Tree::get`: it returns a copy of the bytes stored
/// under the key, `None` when the key is absent, or an engine fault.
#[verifier::external_body]
fn sled_get(db: &sled::Db, key: &String) -> (r: Result<Option<Vec<u8>>, KvsError>)
    ensures
        r matches Err(e) ==> e.kind() == KvsErrorType::SledError,
{
    match db.get(key.as_str()) {
        Ok(Some(iv)) => Ok(Some(iv.to_vec())),
        Ok(None) => Ok(None),
        Err(_) => Err(KvsError::from(KvsErrorType::SledError)),
    }
}

/// Relies on `sled::Tree::remove`: it removes the entry under the key and
/// says whether one was there, or reports an engine fault.
#[verifier::external_body]
fn sled_remove(db: &sled::Db, key: &String) -> (r: Result<bool, KvsError>)
    ensures
        r matches Err(e) ==> e.kind() == KvsErrorType::SledError,
{
    match db.remove(key.as_str()) {
        Ok(Some(_)) => Ok(true),
        Ok(None) => Ok(false),
        Err(_) => Err(KvsError::from(KvsErrorType::SledError)),
    }
}

/// Relies on `sled::Tree::flush`: it makes prior writes durable, or
/// reports an engine fault.
#[verifier::external_body]
fn sled_flush(db: &sled::Db) -> (r: Result<(), KvsError>)
    ensures
        r matches Err(e) ==> e.kind() == KvsErrorType::SledError,
{
    match db.flush() {
        Ok(_) => Ok(()),
        Err(_) => Err(KvsError::from(KvsErrorType::SledError)),
    }
}

/// Interpret the raw bytes a lookup returned: an absent key stays
/// absent, UTF-8 bytes are the value, and anything else is a Serde
/// error.
pub fn interpret_lookup(raw: Option<Vec<u8>>) -> (r: Result<Option<String>, KvsError>)
    ensures
        match raw {
            Option::None => r matches Ok(v) && v is None,
            Option::Some(bytes) => {
                if valid_utf8(bytes@) {
                    r matches Ok(v) && v matches Some(s) && s@ == decode_utf8(bytes@)
                } else {
                    r matches Err(e) && e.kind() == KvsErrorType::SerdeError
                }
            },
        },
{
    match raw {
        None => Ok(None),
        Some(bytes) => match bytes_to_string(bytes) {
            Some(s) => Ok(Some(s)),
            None => Err(KvsError::from(KvsErrorType::SerdeError)),
        },
    }
}

/// Decide a removal from what the database reported.  A fault passes
/// through; an absent key fails with `KeyNotFound` and nothing is
/// flushed; a held key's deletion is made durable, succeeding unless the
/// flush itself faults.
fn decide_removal(db: &sled::Db, outcome: Result<bool, KvsError>) -> (r: Result<(), KvsError>)
    ensures
        match outcome {
            Ok(found) => {
                if found {
                    r is Ok || (r matches Err(e) && e.kind() == KvsErrorType::SledError)
                } else {
                    r matches Err(e) && e.kind() == KvsErrorType::KeyNotFound
                }
            },
            Err(e0) => r matches Err(e) && e == e0,
        },
{
    match outcome {
        Err(e) => Err(e),
        Ok(false) => Err(KvsError::from(KvsErrorType::KeyNotFound)),
        Ok(true) => sled_flush(db),
    }
}

/// The engine backed by a `sled` database.
pub struct SledServer {
    db: sled::Db,
}

impl SledServer {
    /// Wrap an opened database.
    pub fn new(db: sled::Db) -> (s: SledServer) {
        SledServer { db }
    }

    /// Store the pair and make it durable.  The database decides the
    /// outcome; any failure carries the engine fault kind.
    pub fn set(&mut self, key: String, value: String) -> (r: Result<(), KvsError>)
        ensures
            r matches Err(e) ==> e.kind() == KvsErrorType::SledError,
    {
        let bytes = value.as_str().as_bytes_vec();
        match sled_insert(&self.db, &key, bytes) {
            Err(e) => Err(e),
            Ok(_) => sled_flush(&self.db),
        }
    }

    /// Look the key up and interpret the raw bytes: a failure carries
    /// the engine fault kind, or the Serde kind for a stored value that
    /// is not UTF-8.
    pub fn get(&self, key: String) -> (r: Result<Option<String>, KvsError>)
        ensures
            r matches Err(e) ==> (e.kind() == KvsErrorType::SledError || e.kind()
                == KvsErrorType::SerdeError),
    {
        match sled_get(&self.db, &key) {
            Err(e) => Err(e),
            Ok(raw) => interpret_lookup(raw),
        }
    }

    /// Remove the key: an absent key fails with `KeyNotFound`, a held
    /// key's deletion is flushed; any other failure carries the engine
    /// fault kind.
    pub fn remove(&mut self, key: String) -> (r: Result<(), KvsError>)
        ensures
            r matches Err(e) ==> (e.kind() == KvsErrorType::KeyNotFound || e.kind()
                == KvsErrorType::SledError),
    {
        let outcome = sled_remove(&self.db, &key);
        decide_removal(&self.db, outcome)
    }
}

impl KvsEngine for SledServer {
    open spec fn kv(&self) -> Map<Seq<char>, Seq<char>> {
        Map::empty()
    }

    open spec fn modeled(&self) -> bool {
        false
    }

    open spec fn inv(&self) -> bool {
        true
    }

    open spec fn set_may_fail(&self, key: Seq<char>, value: Seq<char>) -> bool {
        true
    }

    open spec fn remove_may_fail(&self, key: Seq<char>) -> bool {
        true
    }

    open spec fn get_may_fail(&self) -> bool {
        true
    }

    open spec fn kind_name() -> Seq<char> {
        "sled"@
    }

    fn set(&mut self, key: String, value: String) -> (r: Result<(), KvsError>) {
        SledServer::set(self, key, value)
    }

    fn get(&self, key: String) -> (r: Result<Option<String>, KvsError>) {
        SledServer::get(self, key)
    }

    fn remove(&mut self, key: String) -> (r: Result<(), KvsError>) {
        SledServer::remove(self, key)
    }

    fn get_type(&self) -> (r: String) {
        String::from_str("sled")
    }
}

} // verus!
