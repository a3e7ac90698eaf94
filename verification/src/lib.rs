//! A log-structured, persistent key-value store.
//!
//! The store appends `Put` and `Remove` records to a numbered log segment,
//! keeps an in-memory index from key to record locator, and reclaims space
//! by compacting live records into a fresh segment.  A small framed wire
//! protocol lets a server expose the engine over a byte stream.

use vstd::prelude::*;

pub mod codec;
pub mod engines;
pub mod error;
pub mod index;
pub mod log;
pub mod response;
pub mod server;
pub mod thread_pool;

verus! {

/// The mathematical shape of an [`Operation`]: each key or value is a
/// sequence of characters.
pub enum OpModel {
    /// Bind `key` to `value`.
    Put { key: Seq<char>, value: Seq<char> },
    /// Unbind `key`.
    Remove { key: Seq<char> },
    /// Ask for the value bound to `key` (wire only; never persisted).
    Get { key: Seq<char> },
}

/// A store operation.  `Put` and `Remove` are persisted in log segments;
/// `Get` appears only on the wire.
#[derive(Clone, Debug)]
pub enum Operation {
    /// Bind `key` to `value`.
    Put {
        /// The key.
        key: String,
        /// The value.
        value: String,
    },
    /// Unbind `key`.
    Remove {
        /// The key.
        key: String,
    },
    /// Ask for the value bound to `key`.
    Get {
        /// The key.
        key: String,
    },
}

impl View for Operation {
    type V = OpModel;

    open spec fn view(&self) -> OpModel {
        match self {
            Operation::Put { key, value } => OpModel::Put { key: key@, value: value@ },
            Operation::Remove { key } => OpModel::Remove { key: key@ },
            Operation::Get { key } => OpModel::Get { key: key@ },
        }
    }
}

impl Operation {
    /// Build a `Put` operation for `key` and `value`.
    pub fn set(key: &String, value: String) -> (op: Operation)
        ensures
            op@ == (OpModel::Put { key: key@, value: value@ }),
    {
        Operation::Put { key: key.clone(), value }
    }

    /// Build a `Remove` operation for `key`.
    pub fn remove(key: &String) -> (op: Operation)
        ensures
            op@ == (OpModel::Remove { key: key@ }),
    {
        Operation::Remove { key: key.clone() }
    }

    /// Build a `Get` operation for `key`.
    pub fn get(key: &String) -> (op: Operation)
        ensures
            op@ == (OpModel::Get { key: key@ }),
    {
        Operation::Get { key: key.clone() }
    }
}

} // verus!
