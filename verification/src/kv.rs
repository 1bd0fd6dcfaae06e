//! The contract of a storage backend.

use vstd::prelude::*;
use crate::errors::KvStoreError;

verus! {

/// What the server asks of a storage backend. A backend is a handle that can
/// be cloned and sent to another thread; all clones speak of one store.
///
/// What an operation returns depends on the store behind the handle. Each
/// backend says, with the three `may_` predicates, which outcomes its
/// operations can have; a backend that leaves them as they are promises
/// nothing.
pub trait KvsEngine: Clone + Send + 'static {
    /// `outcome` is something that setting `key` to `value` can return.
    open spec fn may_set(
        &self,
        key: Seq<char>,
        value: Seq<char>,
        outcome: Result<(), KvStoreError>,
    ) -> bool {
        true
    }

    /// `outcome` is something that getting `key` can return.
    open spec fn may_get(
        &self,
        key: Seq<char>,
        outcome: Result<Option<String>, KvStoreError>,
    ) -> bool {
        true
    }

    /// `outcome` is something that removing `key` can return.
    open spec fn may_remove(&self, key: Seq<char>, outcome: Result<(), KvStoreError>) -> bool {
        true
    }

    /// Sets a key to a value.
    fn set(&self, key: String, value: String) -> (r: Result<(), KvStoreError>)
        ensures
            self.may_set(key@, value@, r),
    ;

    /// Gets the value of a key: `None` where the key has none.
    fn get(&self, key: String) -> (r: Result<Option<String>, KvStoreError>)
        ensures
            self.may_get(key@, r),
    ;

    /// Removes a key; fails where the key has no value.
    fn remove(&self, key: String) -> (r: Result<(), KvStoreError>)
        ensures
            self.may_remove(key@, r),
    ;
}

} // verus!
