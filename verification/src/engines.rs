//! The storage engines: the capability interface a server works against,
//! the log-structured store, and the adapter over an outside embedded
//! database.

use crate::error::KvsError;
use crate::error::KvsErrorType;
use vstd::prelude::*;

pub mod kvs;
pub mod sled;

pub use self::kvs::KvStore;
pub use self::sled::SledServer;

verus! {

/// Decide whether the requested engine kind may serve a data directory:
/// a recorded prior choice, if there is one, must match the request.
/// This keeps a directory from being opened with the wrong engine.
pub fn check_engine(prior: &Option<String>, engine_type: &String) -> (r: Result<(), KvsError>)
    ensures
        r is Ok <==> match prior {
            Option::Some(p) => p@ == engine_type@,
            Option::None => true,
        },
        r matches Err(e) ==> e.kind() == KvsErrorType::Other,
{
    match prior {
        None => Ok(()),
        Some(p) => {
            if *p == *engine_type {
                Ok(())
            } else {
                Err(KvsError::from(KvsErrorType::Other))
            }
        },
    }
}

/// The capability interface of a storage engine.
///
/// An engine may be *modeled*: its abstract mapping [`KvsEngine::kv`] then
/// tracks its contents exactly, and the contracts below pin each call's
/// effect down.  An engine wrapping outside state it cannot see (such as
/// an embedded database on disk) is not modeled, and the contracts say
/// only what shape its answers take.
pub trait KvsEngine: Sized {
    /// The abstract key-value mapping this engine holds.
    spec fn kv(&self) -> Map<Seq<char>, Seq<char>>;

    /// Whether `kv` tracks the engine's contents exactly.
    spec fn modeled(&self) -> bool;

    /// The engine's well-formedness.
    spec fn inv(&self) -> bool;

    /// Whether a `set` of these texts may be refused: a full counter, or
    /// an outside fault.
    spec fn set_may_fail(&self, key: Seq<char>, value: Seq<char>) -> bool;

    /// Whether a `remove` of this key may be refused for a reason other
    /// than its absence.
    spec fn remove_may_fail(&self, key: Seq<char>) -> bool;

    /// Whether a `get` may be refused.
    spec fn get_may_fail(&self) -> bool;

    /// The engine's kind name.
    spec fn kind_name() -> Seq<char>;

    /// Bind `key` to `value`.  On success the mapping gains exactly this
    /// binding; on failure it is unchanged.
    fn set(&mut self, key: String, value: String) -> (r: Result<(), KvsError>)
        requires
            old(self).inv(),
        ensures
            final(self).inv(),
            final(self).modeled() == old(self).modeled(),
            final(self).get_may_fail() == old(self).get_may_fail(),
            old(self).modeled() ==> match r {
                Ok(_) => final(self).kv() == old(self).kv().insert(key@, value@),
                Err(e) => final(self).kv() == old(self).kv() && e.kind()
                    != KvsErrorType::KeyNotFound,
            },
            old(self).modeled() && !old(self).set_may_fail(key@, value@) ==> r is Ok,
    ;

    /// Return the value bound to `key`, or `None` when the key is absent.
    fn get(&self, key: String) -> (r: Result<Option<String>, KvsError>)
        requires
            self.inv(),
        ensures
            self.modeled() ==> match r {
                Ok(Some(v)) => self.kv().dom().contains(key@) && v@ == self.kv()[key@],
                Ok(None) => !self.kv().dom().contains(key@),
                Err(_) => self.get_may_fail(),
            },
    ;

    /// Unbind `key`.  Removing an absent key fails with `KeyNotFound`; on
    /// success the mapping loses exactly this key.
    fn remove(&mut self, key: String) -> (r: Result<(), KvsError>)
        requires
            old(self).inv(),
        ensures
            final(self).inv(),
            final(self).modeled() == old(self).modeled(),
            final(self).get_may_fail() == old(self).get_may_fail(),
            old(self).modeled() ==> match r {
                Ok(_) => old(self).kv().dom().contains(key@) && final(self).kv() == old(
                    self,
                ).kv().remove(key@),
                Err(e) => final(self).kv() == old(self).kv() && (e.kind()
                    == KvsErrorType::KeyNotFound <==> !old(self).kv().dom().contains(key@)),
            },
            old(self).modeled() && !old(self).remove_may_fail(key@) ==> (r is Ok <==> old(
                self,
            ).kv().dom().contains(key@)),
    ;

    /// The engine's kind name: `"kvs"` or `"sled"`.
    fn get_type(&self) -> (r: String)
        ensures
            r@ == Self::kind_name(),
    ;
}

} // verus!
