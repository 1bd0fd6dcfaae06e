//! The error type shared by the engine, the server and the client.

use vstd::prelude::*;

verus! {

/// What an operation of the store, the server or the client can fail with.
/// Every variant carries the text that describes the failure.
#[derive(Debug, Clone)]
pub enum KvStoreError {
    /// The operating system failed a read or a write.
    Io(String),
    /// A record could not be encoded.
    EncoderError(String),
    /// Stored bytes could not be decoded into a record.
    DecoderError(String),
    /// The alternate backend reported a failure.
    BackendError(String),
    /// A removal named a key that the store does not hold; carries the key.
    NonExistentKey(String),
    /// A limit of the storage format was exceeded.
    SerializationError(String),
    /// The lock around the engine was poisoned.
    LockError(String),
    /// The server answered a request with an error; carries its message.
    ClientError(String),
}

impl KvStoreError {
    /// The text carried by the error, whatever its kind.
    pub open spec fn text(self) -> Seq<char> {
        match self {
            KvStoreError::Io(t) => t@,
            KvStoreError::EncoderError(t) => t@,
            KvStoreError::DecoderError(t) => t@,
            KvStoreError::BackendError(t) => t@,
            KvStoreError::NonExistentKey(t) => t@,
            KvStoreError::SerializationError(t) => t@,
            KvStoreError::LockError(t) => t@,
            KvStoreError::ClientError(t) => t@,
        }
    }

    /// A human-readable description of the failure.
    pub fn description(&self) -> (r: String)
        ensures
            r@ == self.text(),
    {
        match self {
            KvStoreError::Io(t) => t.clone(),
            KvStoreError::EncoderError(t) => t.clone(),
            KvStoreError::DecoderError(t) => t.clone(),
            KvStoreError::BackendError(t) => t.clone(),
            KvStoreError::NonExistentKey(t) => t.clone(),
            KvStoreError::SerializationError(t) => t.clone(),
            KvStoreError::LockError(t) => t.clone(),
            KvStoreError::ClientError(t) => t.clone(),
        }
    }
}

} // verus!
