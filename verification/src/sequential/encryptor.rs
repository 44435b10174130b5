//! The append-only encryptor facade: a monotone sequence of writes, the
//! position implied, flushed into chunks on close.

use vstd::prelude::*;
use crate::MAX_FILE_SIZE;
use crate::data_map::{DataMap, DataMapV, ChunkDetailsV};
use crate::error::SelfEncryptionError;
use crate::self_encryptor::{
    SelfEncryptor, datamap_of, map_describes, spec_store_after, spec_names_consistent,
    spec_write_result,
};
use crate::storage::{Storage, StorageError};

verus! {

/// An encryptor for append-only producers: each write lands where the last
/// one ended.
pub struct Encryptor<E: StorageError, S: Storage<E>> {
    inner: SelfEncryptor<E, S>,
    position: u64,
}

impl<E: StorageError, S: Storage<E>> Encryptor<E, S> {
    /// The bytes written so far, in order.
    pub closed spec fn written(&self) -> Seq<u8> {
        self.inner.plain()
    }

    /// The contents of the storage collaborator.
    pub closed spec fn store(&self) -> Map<Seq<u8>, Seq<u8>> {
        self.inner.store()
    }

    /// The session invariant.
    pub closed spec fn wf(&self) -> bool {
        &&& self.inner.wf()
        &&& self.inner.valid()
        &&& self.position == self.inner.plain().len()
        &&& self.inner.inherited_map() == DataMapV::Chunks(Seq::<ChunkDetailsV>::empty())
        &&& self.inner.inherited_count() == 0
    }

    /// Open an append-only session over empty content.
    pub fn new(storage: S) -> (r: Result<Self, SelfEncryptionError<E>>)
        ensures
            r is Ok,
            r matches Ok(se) ==> se.wf()
                && se.written() == Seq::<u8>::empty()
                && se.store() == storage.contents(),
    {
        match SelfEncryptor::new(storage, DataMap::Empty) {
            Ok(inner) => Ok(Encryptor { inner, position: 0 }),
            Err(err) => Err(err),
        }
    }

    /// Append `data` to the content.  Fails, changing nothing, when the
    /// total would cross the maximum file size.
    pub fn write(&mut self, data: &[u8]) -> (r: Result<(), SelfEncryptionError<E>>)
        requires
            old(self).wf(),
        ensures
            final(self).wf(),
            final(self).store() == old(self).store(),
            (r matches Err(e) && e is Argument)
                <==> old(self).written().len() + data@.len() > MAX_FILE_SIZE,
            old(self).written().len() + data@.len() <= crate::sequencer::MAX_IN_MEMORY_SIZE
                ==> r is Ok,
            r is Ok ==> final(self).written() == old(self).written() + data@,
            r is Err ==> final(self).written() == old(self).written(),
            r matches Err(e) ==> (e is Argument || e is Io
                || e matches SelfEncryptionError::Storage(_)),
    {
        let position = self.position;
        match self.inner.write(data, position) {
            Ok(()) => {
                proof {
                    assert(spec_write_result(old(self).written(), position as int, data@)
                        =~= old(self).written() + data@);
                }
                self.position = position + data.len() as u64;
                Ok(())
            },
            Err(err) => Err(err),
        }
    }

    /// The number of bytes written so far.
    pub fn len(&self) -> (r: u64)
        requires
            self.wf(),
        ensures
            r == self.written().len(),
    {
        self.position
    }

    /// Flush the content and return its data map together with the storage:
    /// the same map and chunks that the random-access encryptor produces for
    /// these bytes.  On failure the storage handle is handed back with the
    /// error.
    pub fn close(self) -> (r: Result<(DataMap, S), (S, SelfEncryptionError<E>)>)
        requires
            self.wf(),
        ensures
            r matches Ok(t) ==> crate::data_map::spec_map_wf(t.0@)
                && t.0@ == datamap_of(self.written()),
            spec_names_consistent(self.written()) ==> (r matches Ok(t)
                ==> map_describes(t.0@, t.1.contents(), self.written())
                    && spec_store_after(
                        self.store(),
                        Seq::empty(),
                        t.1.contents(),
                        self.written(),
                    )),
            self.written().len() < 3 * crate::MIN_CHUNK_SIZE ==> r is Ok,
            r matches Err(t) ==> t.1 matches SelfEncryptionError::Storage(_),
    {
        proof {
            assert(crate::self_encryptor::inherited_names(self.inner.inherited_map())
                =~= Seq::<Seq<u8>>::empty());
            self.inner.lemma_len();
        }
        self.inner.close()
    }
}

} // verus!
