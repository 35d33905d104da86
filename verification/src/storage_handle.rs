//! A storage handle: a handle to borrowed storage which can be owned and
//! cloned, even if the storage it references is unsized.
//!
//! The handle forwards the storage's read-side operations. Mutating
//! operations take the store by exclusive borrow (that borrow serialises
//! read-modify-write sequences, standing in for a per-key mutex), so they
//! are reached through an exclusive borrow of the store itself rather than
//! through a shared handle.

use vstd::prelude::*;

use crate::storage::{MemoryStore, StoreKey};

verus! {

/// A cloneable handle to borrowed storage.
pub struct StorageHandle<'a, TStorage: ?Sized> {
    /// The borrowed storage.
    pub storage: &'a TStorage,
}

impl<'a, TStorage: ?Sized> StorageHandle<'a, TStorage> {
    /// Create a new storage handle.
    pub fn new(storage: &'a TStorage) -> (r: Self)
        ensures
            r.storage == storage,
    {
        StorageHandle { storage }
    }

    /// The storage the handle borrows.
    pub fn storage(&self) -> (r: &'a TStorage)
        ensures
            r == self.storage,
    {
        self.storage
    }
}

impl<'a> StorageHandle<'a, MemoryStore> {
    /// Whether the store holds a value for the key.
    pub fn contains(&self, key: &StoreKey) -> (r: bool)
        ensures
            r == self.storage.contents().contains_key(key@),
    {
        self.storage.contains(key)
    }

    /// The size in bytes of the value at the key, or `None` if absent.
    pub fn size_key(&self, key: &StoreKey) -> (r: Option<u64>)
        ensures
            r matches Some(n) ==> self.storage.contents().contains_key(key@) && n
                == self.storage.contents()[key@].len(),
            r is None <==> !self.storage.contents().contains_key(key@),
    {
        self.storage.size_key(key)
    }

    /// The keys the store currently holds, each once.
    pub fn list(&self) -> (r: Vec<StoreKey>)
        ensures
            forall|i: int, j: int| 0 <= i < j < r@.len() ==> #[trigger] r@[i]@ != #[trigger] r@[j]@,
            forall|q: Seq<u8>|
                #[trigger] self.storage.contents().contains_key(q) <==> exists|i: int|
                    0 <= i < r@.len() && r@[i]@ == q,
    {
        self.storage.list()
    }

    /// The keys the store currently holds under a byte prefix, each once.
    pub fn list_prefix(&self, prefix: &Vec<u8>) -> (r: Vec<StoreKey>)
        ensures
            forall|i: int, j: int| 0 <= i < j < r@.len() ==> #[trigger] r@[i]@ != #[trigger] r@[j]@,
            forall|q: Seq<u8>|
                (#[trigger] self.storage.contents().contains_key(q)
                    && crate::storage::is_prefixed(q, prefix@)) <==> exists|i: int|
                    0 <= i < r@.len() && r@[i]@ == q,
    {
        self.storage.list_prefix(prefix)
    }
}

impl<'a, TStorage: ?Sized> Clone for StorageHandle<'a, TStorage> {
    /// The clone borrows the same storage.
    fn clone(&self) -> (r: Self)
        ensures
            r.storage == self.storage,
    {
        StorageHandle { storage: self.storage }
    }
}

} // verus!
