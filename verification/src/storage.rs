//! The storage collaborator: a key/value store the caller implements, where
//! encrypted chunks are put under the hash of their ciphertext.

use vstd::prelude::*;

verus! {

/// Marker for the error type a storage collaborator may return.
pub trait StorageError {}

/// A key/value store for encrypted chunks.
///
/// An implementor's `contents` gives the mathematical view of the store: the
/// map from chunk names to chunk data that the operations below maintain.  An
/// operation may fail with `E` at any time, but when it succeeds it must act
/// on `contents` exactly as stated, and a failed mutation must leave the
/// store unchanged.
pub trait Storage<E: StorageError>: Sized {
    /// The map from names to data that this store currently holds.
    spec fn contents(&self) -> Map<Seq<u8>, Seq<u8>>;

    /// Fetch the data stored under `name`.
    fn get(&self, name: &[u8]) -> (r: Result<Vec<u8>, E>)
        ensures
            r matches Ok(data) ==> self.contents().contains_key(name@)
                && data@ == self.contents()[name@],
    ;

    /// Store `data` under `name`, replacing anything stored there before.
    fn put(&mut self, name: Vec<u8>, data: Vec<u8>) -> (r: Result<(), E>)
        ensures
            r is Ok ==> final(self).contents() == old(self).contents().insert(name@, data@),
            r is Err ==> final(self).contents() == old(self).contents(),
    ;

    /// Remove whatever is stored under `name`.
    fn delete(&mut self, name: &[u8]) -> (r: Result<(), E>)
        ensures
            r is Ok ==> final(self).contents() == old(self).contents().remove(name@),
            r is Err ==> final(self).contents() == old(self).contents(),
    ;
}

} // verus!
