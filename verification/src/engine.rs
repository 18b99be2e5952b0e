//! The pluggable storage-engine interface: a map from string keys to string
//! values with `set`, `get` and `remove`.
use crate::error::KvsError;
use vstd::prelude::*;

verus! {

/// A storage engine: an abstract map from keys to values.
///
/// `st` is the abstract state, `inv` the engine's internal invariant, and
/// `can_set` whatever size limits the engine puts on a binding.  The
/// contracts pin each operation to the abstract map, so any implementation
/// behaves as the in-memory map it models.
pub trait KvsEngine: Sized {
    /// The engine's internal invariant.
    spec fn inv(&self) -> bool;

    /// The abstract key/value map.
    spec fn st(&self) -> Map<Seq<char>, Seq<char>>;

    /// Whether the engine accepts this binding (size limits and the like).
    spec fn can_set(&self, key: Seq<char>, value: Seq<char>) -> bool;

    /// Bind `key` to `value`.
    fn set(&mut self, key: String, value: String) -> (r: Result<(), KvsError>)
        requires
            old(self).inv(),
            old(self).can_set(key@, value@),
        ensures
            final(self).inv(),
            r is Ok,
            final(self).st() == old(self).st().insert(key@, value@),
    ;

    /// Look `key` up.
    fn get(&self, key: String) -> (r: Result<Option<String>, KvsError>)
        requires
            self.inv(),
        ensures
            r matches Ok(v) && match v {
                Some(s) => self.st().contains_key(key@) && s@ == self.st()[key@],
                None => !self.st().contains_key(key@),
            },
    ;

    /// Remove `key`; removing an absent key fails with `ErrKeyNotFound` and
    /// changes nothing.
    fn remove(&mut self, key: String) -> (r: Result<(), KvsError>)
        requires
            old(self).inv(),
        ensures
            final(self).inv(),
            old(self).st().contains_key(key@) ==> r is Ok && final(self).st() == old(
                self,
            ).st().remove(key@),
            !old(self).st().contains_key(key@) ==> r == Err::<(), KvsError>(
                KvsError::ErrKeyNotFound,
            ) && final(self).st() == old(self).st(),
    ;
}

impl KvsEngine for crate::kvstore::KvStore {
    closed spec fn inv(&self) -> bool {
        self.wf()
    }

    closed spec fn st(&self) -> Map<Seq<char>, Seq<char>> {
        self@
    }

    closed spec fn can_set(&self, key: Seq<char>, value: Seq<char>) -> bool {
        crate::kvstore::can_put(key, value)
    }

    fn set(&mut self, key: String, value: String) -> (r: Result<(), KvsError>) {
        self.set(key, value)
    }

    fn get(&self, key: String) -> (r: Result<Option<String>, KvsError>) {
        self.get(key)
    }

    fn remove(&mut self, key: String) -> (r: Result<(), KvsError>) {
        self.remove(key)
    }
}

} // verus!
