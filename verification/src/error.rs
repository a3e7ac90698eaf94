//! The error taxonomy of the store: a thin kind enum and a wrapper struct.

use vstd::prelude::*;
use vstd::string::StringExecFns;

verus! {

/// The kinds of failure the store can report.
#[derive(Clone, Copy, Debug, PartialEq, Eq, Structural)]
pub enum KvsErrorType {
    /// Underlying file or socket failure.
    IOError,
    /// Frame encode or decode failure, including an unexpected variant for
    /// a given context.
    SerdeError,
    /// A frame decoded as an operation the peer should not have sent.
    UnknownOperation,
    /// `remove` of an absent key.
    KeyNotFound,
    /// Wrapped lower-level engine error.
    SledError,
    /// Anything else, including an engine-kind mismatch at server start.
    Other,
}

/// The textual name of an error kind, as shown to clients.
pub open spec fn kind_name(k: KvsErrorType) -> Seq<char> {
    match k {
        KvsErrorType::IOError => "IOError"@,
        KvsErrorType::SerdeError => "SerdeError"@,
        KvsErrorType::UnknownOperation => "UnknownOperation"@,
        KvsErrorType::KeyNotFound => "KeyNotFound"@,
        KvsErrorType::SledError => "SledError"@,
        KvsErrorType::Other => "Other"@,
    }
}

/// An error of the store: a kind, nothing deeper.
#[derive(Clone, Copy, Debug)]
pub struct KvsError {
    /// The kind this error carries.
    pub inner: KvsErrorType,
}

impl KvsError {
    /// The kind this error carries.
    pub open spec fn kind_spec(&self) -> KvsErrorType {
        self.inner
    }

    /// Return the kind of this error.
    #[verifier::when_used_as_spec(kind_spec)]
    pub fn kind(&self) -> (k: KvsErrorType)
        ensures
            k == self.kind_spec(),
    {
        self.inner
    }

    /// Return the textual name of this error's kind.
    pub fn message(&self) -> (s: String)
        ensures
            s@ == kind_name(self.kind_spec()),
    {
        match self.inner {
            KvsErrorType::IOError => String::from_str("IOError"),
            KvsErrorType::SerdeError => String::from_str("SerdeError"),
            KvsErrorType::UnknownOperation => String::from_str("UnknownOperation"),
            KvsErrorType::KeyNotFound => String::from_str("KeyNotFound"),
            KvsErrorType::SledError => String::from_str("SledError"),
            KvsErrorType::Other => String::from_str("Other"),
        }
    }
}

impl From<KvsErrorType> for KvsError {
    fn from(kind: KvsErrorType) -> (e: KvsError) {
        KvsError { inner: kind }
    }
}

impl vstd::std_specs::convert::FromSpecImpl<KvsErrorType> for KvsError {
    open spec fn obeys_from_spec() -> bool {
        true
    }

    open spec fn from_spec(kind: KvsErrorType) -> KvsError {
        KvsError { inner: kind }
    }
}

} // verus!
