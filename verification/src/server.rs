//! The request server core: each decoded client operation becomes one
//! engine call and one wire response.  The accept loop and the sockets
//! live outside; what is decided per request is all here.

use crate::engines::KvsEngine;
use crate::error::kind_name;
use crate::error::KvsErrorType;
use crate::response::Response;
use crate::OpModel;
use crate::Operation;
use vstd::prelude::*;
use vstd::string::StringExecFns;

verus! {

/// The message a `get` miss answers with.
pub open spec fn miss_msg() -> Seq<char> {
    "Key not found"@
}

/// The server over an engine: it owns the engine and answers operations.
pub struct KvsServer<E: KvsEngine> {
    engine: E,
}

impl<E: KvsEngine> KvsServer<E> {
    /// The engine's mapping.
    pub closed spec fn kv(&self) -> Map<Seq<char>, Seq<char>> {
        self.engine.kv()
    }

    /// Whether the engine's mapping tracks its contents exactly.
    pub closed spec fn modeled(&self) -> bool {
        self.engine.modeled()
    }

    /// The engine's well-formedness.
    pub closed spec fn engine_inv(&self) -> bool {
        self.engine.inv()
    }

    /// Whether the engine may refuse this `set`.
    pub closed spec fn set_may_fail(&self, key: Seq<char>, value: Seq<char>) -> bool {
        self.engine.set_may_fail(key, value)
    }

    /// Whether the engine may refuse this `remove` for a reason other
    /// than an absent key.
    pub closed spec fn remove_may_fail(&self, key: Seq<char>) -> bool {
        self.engine.remove_may_fail(key)
    }

    /// Whether the engine may refuse a `get`.
    pub closed spec fn get_may_fail(&self) -> bool {
        self.engine.get_may_fail()
    }

    /// A server over `engine`.
    pub fn new(engine: E) -> (s: KvsServer<E>)
        ensures
            s.kv() == engine.kv(),
            s.modeled() == engine.modeled(),
            s.engine_inv() == engine.inv(),
            forall|k: Seq<char>, v: Seq<char>|
                #[trigger] s.set_may_fail(k, v) == engine.set_may_fail(k, v),
            forall|k: Seq<char>| #[trigger] s.remove_may_fail(k) == engine.remove_may_fail(k),
            s.get_may_fail() == engine.get_may_fail(),
    {
        KvsServer { engine }
    }

    /// Borrow the engine, for callers that persist or inspect its state
    /// between requests.
    pub fn engine_ref(&self) -> (e: &E)
        ensures
            e.kv() == self.kv(),
            e.modeled() == self.modeled(),
            e.inv() == self.engine_inv(),
            forall|k: Seq<char>, v: Seq<char>|
                #[trigger] e.set_may_fail(k, v) == self.set_may_fail(k, v),
            forall|k: Seq<char>| #[trigger] e.remove_may_fail(k) == self.remove_may_fail(k),
            e.get_may_fail() == self.get_may_fail(),
    {
        &self.engine
    }

    /// Serve one request: dispatch the operation to the engine and build
    /// the wire response.  A success answers status 0 — with the value
    /// for a `get` hit, without a message otherwise.  A `get` miss
    /// answers status -1 with `Key not found`; any engine failure
    /// answers status -1 with the failure's kind name.
    pub fn handle_op(&mut self, op: Operation) -> (resp: Response)
        requires
            old(self).engine_inv(),
        ensures
            final(self).engine_inv(),
            final(self).modeled() == old(self).modeled(),
            final(self).get_may_fail() == old(self).get_may_fail(),
            old(self).modeled() ==> match op@ {
                OpModel::Put { key, value } => {
                    ||| (resp@.status == 0 && resp@.msg is None && final(self).kv() == old(
                        self,
                    ).kv().insert(key, value))
                    ||| (resp@.status == -1 && resp@.msg is Some && final(self).kv() == old(
                        self,
                    ).kv() && old(self).set_may_fail(key, value))
                },
                OpModel::Get { key } => final(self).kv() == old(self).kv() && {
                    ||| (old(self).kv().dom().contains(key) && resp@.status == 0 && resp@.msg
                        == Some(old(self).kv()[key]))
                    ||| (!old(self).kv().dom().contains(key) && resp@.status == -1 && resp@.msg
                        == Some(miss_msg()))
                    ||| (old(self).get_may_fail() && resp@.status == -1 && resp@.msg is Some)
                },
                OpModel::Remove { key } => {
                    ||| (resp@.status == 0 && resp@.msg is None && old(self).kv().dom().contains(
                        key,
                    ) && final(self).kv() == old(self).kv().remove(key))
                    ||| (resp@.status == -1 && final(self).kv() == old(self).kv() && (!old(
                        self,
                    ).kv().dom().contains(key) ==> resp@.msg == Some(
                        kind_name(KvsErrorType::KeyNotFound),
                    )) && (old(self).kv().dom().contains(key) ==> old(self).remove_may_fail(key)))
                },
            },
    {
        match op {
            Operation::Put { key, value } => match self.engine.set(key, value) {
                Ok(_) => Response::ok_without_msg(),
                Err(e) => Response::err(e.message()),
            },
            Operation::Get { key } => match self.engine.get(key) {
                Ok(Some(v)) => Response::ok(v),
                Ok(None) => Response::err(String::from_str("Key not found")),
                Err(e) => Response::err(e.message()),
            },
            Operation::Remove { key } => match self.engine.remove(key) {
                Ok(_) => Response::ok_without_msg(),
                Err(e) => Response::err(e.message()),
            },
        }
    }

    /// Fire a `set` and drop its outcome.
    pub fn set(&mut self, key: String, value: String)
        requires
            old(self).engine_inv(),
        ensures
            final(self).engine_inv(),
            final(self).modeled() == old(self).modeled(),
            final(self).get_may_fail() == old(self).get_may_fail(),
            old(self).modeled() ==> (final(self).kv() == old(self).kv().insert(key@, value@)
                || (final(self).kv() == old(self).kv() && old(self).set_may_fail(key@, value@))),
    {
        let _ = self.engine.set(key, value);
    }

    /// Fire a `get` and drop its outcome.
    pub fn get(&self, key: String)
        requires
            self.engine_inv(),
    {
        let _ = self.engine.get(key);
    }
}

} // verus!
