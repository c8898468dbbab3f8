//! Errors produced by the storage core.

use vstd::prelude::*;

verus! {

/// An error raised when stored data does not satisfy the storage invariants.
#[derive(Clone, Debug)]
pub struct CorruptionError {
    pub message: String,
}

impl CorruptionError {
    pub fn new(message: String) -> (r: CorruptionError)
        ensures
            r.message@ == message@,
    {
        CorruptionError { message }
    }

    /// A human-readable description of the corruption.
    pub fn message(&self) -> (r: &str)
        ensures
            r@ == self.message@,
    {
        self.message.as_str()
    }
}

/// The sum of everything that can go wrong in the storage core:
/// engine faults, invariant violations found in stored data, and
/// contract violations reported before any mutation.
#[derive(Clone, Debug)]
pub enum StorageError {
    /// An engine or I/O fault; the operation may be retried if idempotent.
    Io(String),
    /// Stored data violates a storage invariant; fatal to the operation.
    Corruption(String),
    /// A contract violation or another error outside the two classes above.
    Other(String),
}

impl StorageError {
    pub fn corruption(message: String) -> (r: StorageError)
        ensures
            r matches StorageError::Corruption(m) && m@ == message@,
    {
        StorageError::Corruption(message)
    }

    pub fn is_corruption(&self) -> (r: bool)
        ensures
            r == (self matches StorageError::Corruption(_)),
    {
        match self {
            StorageError::Corruption(_) => true,
            _ => false,
        }
    }

    /// A human-readable description of the error.
    pub fn message(&self) -> (r: &str)
        ensures
            (self matches StorageError::Io(m) ==> r@ == m@)
                && (self matches StorageError::Corruption(m) ==> r@ == m@)
                && (self matches StorageError::Other(m) ==> r@ == m@),
    {
        match self {
            StorageError::Io(m) => m.as_str(),
            StorageError::Corruption(m) => m.as_str(),
            StorageError::Other(m) => m.as_str(),
        }
    }
}

/// An error raised while loading a quad stream, wrapping a storage fault
/// with the position in the input at which it was noticed.
#[derive(Clone, Debug)]
pub enum LoaderError {
    Storage(StorageError),
    Parsing { message: String, position: u64 },
}

impl LoaderError {
    pub fn from_storage(e: StorageError) -> (r: LoaderError)
        ensures
            r matches LoaderError::Storage(inner) && inner == e,
    {
        LoaderError::Storage(e)
    }
}

/// An error raised while serializing, wrapping a storage fault with the
/// position in the output at which it was noticed.
#[derive(Clone, Debug)]
pub enum SerializerError {
    Storage(StorageError),
    Io { message: String, position: u64 },
}

impl SerializerError {
    pub fn from_storage(e: StorageError) -> (r: SerializerError)
        ensures
            r matches SerializerError::Storage(inner) && inner == e,
    {
        SerializerError::Storage(e)
    }
}

} // verus!
