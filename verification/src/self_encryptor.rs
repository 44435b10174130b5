//! The random-access encryptor: the public facade over sequencer, geometry,
//! pipeline and storage.
//!
//! The mathematical model is a single byte sequence, the session's logical
//! plaintext.  Every operation's contract says what it does to that
//! sequence; `close` says exactly which data map and which storage contents
//! a given plaintext produces, which is what makes the encryption
//! convergent.

use vstd::prelude::*;
use core::marker::PhantomData;
use crate::{MIN_CHUNK_SIZE, MAX_FILE_SIZE};
use crate::data_map::{ChunkDetails, ChunkDetailsV, DataMap, DataMapV, spec_sum_sizes};
use crate::encryption::hash_of;
use crate::geometry::{
    spec_num_chunks, spec_chunk_len, spec_chunk_start, spec_chunk_end,
    lemma_geometry, lemma_chunks_fit,
};
use crate::sequential::HASH_SIZE;
use crate::sequential::utils::{
    spec_pad_of, spec_key_of, spec_iv_of, spec_encoded_chunk, spec_codec_ok, pre_hashes_of,
};
use crate::sequencer::Sequencer;
use crate::storage::{Storage, StorageError};
use crate::error::SelfEncryptionError;

verus! {

/// The plaintext of chunk `i` of content `plain`.
pub open spec fn spec_chunk_slice(plain: Seq<u8>, i: int) -> Seq<u8> {
    plain.subrange(
        spec_chunk_start(plain.len() as u64, i),
        spec_chunk_end(plain.len() as u64, i),
    )
}

/// The pre-hashes of all chunks of content `plain`, in order.
pub open spec fn spec_pre_hashes(plain: Seq<u8>) -> Seq<Seq<u8>> {
    Seq::new(
        spec_num_chunks(plain.len() as u64) as nat,
        |i: int| hash_of(spec_chunk_slice(plain, i)),
    )
}

/// The ciphertext the engine stores for chunk `i` of content `plain`.
pub open spec fn spec_chunk_cipher(plain: Seq<u8>, i: int) -> Seq<u8> {
    let pre = spec_pre_hashes(plain);
    spec_encoded_chunk(
        spec_chunk_slice(plain, i),
        spec_pad_of(pre, i),
        spec_key_of(pre, i),
        spec_iv_of(pre, i),
    )
}

/// The data-map entry for chunk `i` of content `plain`.
pub open spec fn spec_chunk_record(plain: Seq<u8>, i: int) -> ChunkDetailsV {
    ChunkDetailsV {
        chunk_index: i as u32,
        pre_hash: hash_of(spec_chunk_slice(plain, i)),
        hash: hash_of(spec_chunk_cipher(plain, i)),
        source_size: spec_chunk_len(plain.len() as u64, i) as u64,
    }
}

/// The data-map entries for all chunks of content `plain`, in order.
pub open spec fn spec_chunk_records(plain: Seq<u8>) -> Seq<ChunkDetailsV> {
    Seq::new(
        spec_num_chunks(plain.len() as u64) as nat,
        |i: int| spec_chunk_record(plain, i),
    )
}

/// The data map that closing a session whose plaintext is `plain` returns:
/// the engine is deterministic, so this is a function of the content alone.
pub open spec fn datamap_of(plain: Seq<u8>) -> DataMapV {
    if plain.len() == 0 {
        DataMapV::Empty
    } else if plain.len() < 3 * MIN_CHUNK_SIZE {
        DataMapV::Content(plain)
    } else {
        DataMapV::Chunks(spec_chunk_records(plain))
    }
}

///`m` is the data map for content `plain` and `store` holds every chunk the
/// map names, with the ciphertext the engine would produce; the recorded
/// slices also survive the compressor.  This is what `close` establishes and
/// what opening the map relies on.
pub open spec fn map_describes(
    m: DataMapV,
    store: Map<Seq<u8>, Seq<u8>>,
    plain: Seq<u8>,
) -> bool {
    &&& plain.len() <= MAX_FILE_SIZE
    &&& m == datamap_of(plain)
    &&& forall|i: int| 0 <= i < spec_num_chunks(plain.len() as u64)
            ==> store.contains_key((#[trigger] spec_chunk_record(plain, i)).hash)
                && store[spec_chunk_record(plain, i).hash] == spec_chunk_cipher(plain, i)
    &&& forall|i: int| 0 <= i < spec_num_chunks(plain.len() as u64)
            ==> spec_codec_ok(#[trigger] spec_chunk_slice(plain, i))
}

/// The views of a list of chunk details.
pub open spec fn cd_views(chunks: Seq<ChunkDetails>) -> Seq<ChunkDetailsV> {
    chunks.map_values(|cd: ChunkDetails| cd@)
}

/// Where chunk `i` of an inherited chunk list starts: the sum of the sizes
/// before it.
pub open spec fn ih_start(chunks: Seq<ChunkDetails>, i: int) -> int {
    spec_sum_sizes(cd_views(chunks).take(i))
}

/// Where chunk `i` of an inherited chunk list ends.
pub open spec fn ih_end(chunks: Seq<ChunkDetails>, i: int) -> int {
    ih_start(chunks, i) + chunks[i].source_size
}

/// An encryptor/decryptor for random-access reads and writes over
/// self-encrypted content.  It holds the storage collaborator and the
/// working plaintext for one session, materialising inherited chunks only
/// when a request touches them, and produces the data map on `close`.
pub struct SelfEncryptor<E: StorageError, S: Storage<E>> {
    storage: S,
    sequencer: Sequencer,
    file_size: u64,
    sorted_map: Vec<ChunkDetails>,
    fetched: Vec<bool>,
    plain: Ghost<Seq<u8>>,
    orig_plain: Ghost<Seq<u8>>,
    valid: Ghost<bool>,
    complete: Ghost<bool>,
    marker: PhantomData<E>,
}

impl<E: StorageError, S: Storage<E>> SelfEncryptor<E, S> {
    /// The session's current logical plaintext.
    pub closed spec fn plain(&self) -> Seq<u8> {
        self.plain@
    }

    /// The session's logical plaintext when it was opened.
    pub closed spec fn orig_plain(&self) -> Seq<u8> {
        self.orig_plain@
    }

    /// Whether some plaintext fits the map and storage this session was
    /// opened over; false only when the map or the stored chunks have been
    /// tampered with.  `plain()` is such a plaintext whenever one exists.
    pub closed spec fn valid(&self) -> bool {
        self.valid@
    }

    /// Whether everything this session has taken on trust from its inherited
    /// chunks has passed through the authenticated decoder, so that at close
    /// every fitting plaintext is known to be the one this session read.
    pub closed spec fn complete(&self) -> bool {
        self.complete@
    }

    /// The data map this session was opened with, as a chunk list.
    pub closed spec fn inherited_map(&self) -> DataMapV {
        DataMapV::Chunks(cd_views(self.sorted_map@))
    }

    /// The chunk list this session was opened with.
    pub closed spec fn inherited_chunks(&self) -> Seq<ChunkDetails> {
        self.sorted_map@
    }

    /// How many chunks this session inherited.
    pub closed spec fn inherited_count(&self) -> int {
        self.sorted_map@.len() as int
    }

    /// Whether inherited chunk `i` has been fetched from storage and
    /// decoded into the working buffer (or dropped by a cut).
    pub closed spec fn chunk_materialised(&self, i: int) -> bool {
        self.fetched@[i]
    }

    /// The contents of the storage collaborator.
    pub closed spec fn store(&self) -> Map<Seq<u8>, Seq<u8>> {
        self.storage.contents()
    }

    /// Whether position `j` lies under an inherited chunk that has not been
    /// materialised yet.
    spec fn under_unfetched(&self, j: int) -> bool {
        exists|i: int| 0 <= i < self.sorted_map@.len()
            && !(#[trigger] self.fetched@[i])
            && ih_start(self.sorted_map@, i) <= j < ih_end(self.sorted_map@, i)
    }

    /// The stored ciphertext of inherited chunk `i` decodes, under the pads
    /// the inherited pre-hashes derive, to the plaintext slice the session
    /// models there.
    spec fn chunk_recoverable(&self, i: int) -> bool {
        let m0 = self.sorted_map@;
        let s = ih_start(m0, i);
        let e = ih_end(m0, i);
        let pre = pre_hashes_of(m0);
        &&& self.storage.contents().contains_key(m0[i].hash@)
        &&& self.storage.contents()[m0[i].hash@] == spec_encoded_chunk(
                self.plain@.subrange(s, e),
                spec_pad_of(pre, i),
                spec_key_of(pre, i),
                spec_iv_of(pre, i),
            )
        &&& spec_codec_ok(self.plain@.subrange(s, e))
    }

    /// All that has been learned of inherited chunk `i` agrees across every
    /// plaintext that fits the map this session was opened over.
    spec fn chunk_harvested(&self, i: int) -> bool {
        let m0 = self.sorted_map@;
        let s = ih_start(m0, i);
        let e = ih_end(m0, i);
        forall|p: Seq<u8>| map_describes(self.inherited_map(), self.storage.contents(), p)
            ==> (#[trigger] p.subrange(s, e)) == self.orig_plain@.subrange(s, e)
    }

    /// The session invariant.
    pub closed spec fn wf(&self) -> bool {
        let l = self.file_size as int;
        let m0 = self.sorted_map@;
        &&& self.plain@.len() == l
        &&& l <= MAX_FILE_SIZE
        &&& self.sequencer.wf()
        &&& (self.sequencer.is_vector() ==> self.sequencer@.len() == l)
        &&& (!self.sequencer.is_vector() ==> self.sequencer@.len() == MAX_FILE_SIZE)
        &&& self.fetched@.len() == m0.len()
        &&& (forall|i: int| 0 <= i < m0.len()
                ==> ((#[trigger] m0[i]).pre_hash@.len() == HASH_SIZE && m0[i].source_size > 0))
        &&& spec_sum_sizes(cd_views(m0)) <= MAX_FILE_SIZE
        &&& (m0.len() == 0 || m0.len() >= 3)
        &&& (m0.len() > 0 ==> spec_sum_sizes(cd_views(m0)) == self.orig_plain@.len())
        &&& (self.valid@ ==> forall|j: int| 0 <= j < l && !self.under_unfetched(j)
                ==> (#[trigger] self.sequencer@[j]) == self.plain@[j])
        &&& (forall|i: int| 0 <= i < m0.len() && !(#[trigger] self.fetched@[i])
                ==> ih_end(m0, i) <= l)
        &&& (self.valid@ ==> forall|i: int| 0 <= i < m0.len() && !(#[trigger] self.fetched@[i])
                ==> self.chunk_recoverable(i))
        &&& (self.valid@ ==> forall|i: int| 0 <= i < m0.len() && !(#[trigger] self.fetched@[i])
                ==> self.plain@.subrange(ih_start(m0, i), ih_end(m0, i))
                    == self.orig_plain@.subrange(ih_start(m0, i), ih_end(m0, i)))
        &&& (self.valid@ && self.complete@
                ==> forall|i: int| 0 <= i < m0.len() && (#[trigger] self.fetched@[i])
                    ==> self.chunk_harvested(i))
    }

    /// The session's logical length.
    pub closed spec fn len_spec(&self) -> u64 {
        self.file_size
    }

    /// Return the current logical length of the content.
    pub fn len(&self) -> (r: u64)
        requires
            self.wf(),
        ensures
            r == self.len_spec(),
            r == self.plain().len(),
    {
        self.file_size
    }

    /// In a well-formed session the logical length is the plaintext's.
    pub proof fn lemma_len(&self)
        requires
            self.wf(),
        ensures
            self.len_spec() == self.plain().len(),
    {
    }
}

/// The storage names a data map holds: the ciphertext hash of each chunk.
pub open spec fn inherited_names(m: DataMapV) -> Seq<Seq<u8>> {
    match m {
        DataMapV::Chunks(chunks) => chunks.map_values(|c: ChunkDetailsV| c.hash),
        _ => Seq::empty(),
    }
}

/// Whether `k` is the storage name of one of `plain`'s chunks.
pub open spec fn spec_is_new_name(plain: Seq<u8>, k: Seq<u8>) -> bool {
    exists|i: int| 0 <= i < spec_num_chunks(plain.len() as u64)
        && k == (#[trigger] spec_chunk_record(plain, i)).hash
}

/// No two distinct chunk ciphertexts of `plain` share a storage name.  The
/// names are cryptographic hashes, so this fails only on a hash collision.
pub open spec fn spec_names_consistent(plain: Seq<u8>) -> bool {
    forall|i: int, j: int|
        0 <= i < spec_num_chunks(plain.len() as u64)
            && 0 <= j < spec_num_chunks(plain.len() as u64)
            && (#[trigger] spec_chunk_record(plain, i)).hash
                == (#[trigger] spec_chunk_record(plain, j)).hash
        ==> spec_chunk_cipher(plain, i) == spec_chunk_cipher(plain, j)
}

/// How closing a session re-shapes storage: every name that was neither
/// inherited nor re-created keeps its data, nothing new appears beyond the
/// session's chunk names, and inherited names that were not re-created are
/// gone.
pub open spec fn spec_store_after(
    old_store: Map<Seq<u8>, Seq<u8>>,
    old_names: Seq<Seq<u8>>,
    new_store: Map<Seq<u8>, Seq<u8>>,
    plain: Seq<u8>,
) -> bool {
    &&& forall|k: Seq<u8>| old_store.contains_key(k) && !old_names.contains(k)
            && !spec_is_new_name(plain, k)
            ==> (#[trigger] new_store.contains_key(k)) && new_store[k] == old_store[k]
    &&& forall|k: Seq<u8>| (#[trigger] new_store.contains_key(k))
            ==> old_store.contains_key(k) || spec_is_new_name(plain, k)
    &&& forall|k: Seq<u8>| old_names.contains(k) && !spec_is_new_name(plain, k)
            ==> !(#[trigger] new_store.contains_key(k))
}

/// The plaintext after overwriting `data.len()` bytes at `position`: the
/// content is first extended with zero bytes up to the write's end where
/// needed, then the written range replaced.
pub open spec fn spec_write_result(plain: Seq<u8>, position: int, data: Seq<u8>) -> Seq<u8> {
    let grown = if position + data.len() > plain.len() {
        plain + Seq::new((position + data.len() - plain.len()) as nat, |k: int| 0u8)
    } else {
        plain
    };
    grown.take(position) + data + grown.skip(position + data.len())
}

/// Chunk views whose sizes follow the geometry sum, prefix by prefix, to
/// the chunk starts, and in total to the content length.
proof fn lemma_views_sum(fs: u64, views: Seq<ChunkDetailsV>, i: int)
    requires
        3 * MIN_CHUNK_SIZE <= fs <= MAX_FILE_SIZE,
        views.len() == spec_num_chunks(fs),
        forall|k: int| 0 <= k < views.len()
            ==> (#[trigger] views[k]).source_size == spec_chunk_len(fs, k),
        0 <= i <= views.len(),
    ensures
        spec_sum_sizes(views.take(i))
            == if i < views.len() { spec_chunk_start(fs, i) } else { fs as int },
    decreases i,
{
    lemma_geometry(fs);
    lemma_chunks_fit(fs);
    if i == 0 {
        assert(views.take(0) =~= Seq::<ChunkDetailsV>::empty());
    } else {
        lemma_views_sum(fs, views, i - 1);
        let taken = views.take(i);
        assert(taken.drop_last() =~= views.take(i - 1));
        assert(taken.last() == views[i - 1]);
        assert(spec_chunk_end(fs, i - 1)
            == spec_chunk_start(fs, i - 1) + spec_chunk_len(fs, i - 1));
    }
}

/// Two contents that agree chunk by chunk on every materialised chunk agree
/// over any range whose chunks have all been materialised.
proof fn lemma_witness_agrees(
    m0: Seq<ChunkDetails>,
    fetched: Seq<bool>,
    orig: Seq<u8>,
    p: Seq<u8>,
    position: int,
    length: int,
)
    requires
        fetched.len() == m0.len(),
        p.len() == orig.len(),
        orig.len() == spec_sum_sizes(cd_views(m0)),
        0 <= position,
        0 <= length,
        position + length <= orig.len(),
        forall|w: int| 0 <= w < m0.len()
            && ih_start(m0, w) < position + length
            && ih_end(m0, w) > position
            ==> (#[trigger] fetched[w]),
        forall|w: int| 0 <= w < m0.len() && (#[trigger] fetched[w])
            ==> p.subrange(ih_start(m0, w), ih_end(m0, w))
                == orig.subrange(ih_start(m0, w), ih_end(m0, w)),
    ensures
        p.subrange(position, position + length) == orig.subrange(position, position + length),
{
    assert forall|j: int| position <= j < position + length
        implies p[j] == orig[j] by {
        lemma_ih_tiling(m0, j);
        let w = choose|w: int| 0 <= w < m0.len()
            && #[trigger] ih_start(m0, w) <= j < ih_end(m0, w);
        assert(fetched[w]) by {
            if !fetched[w] {
                assert(ih_start(m0, w) < position + length);
                assert(ih_end(m0, w) > position);
            }
        }
        lemma_ih_end_bound(m0, w);
        let s = ih_start(m0, w);
        let e = ih_end(m0, w);
        assert(p.subrange(s, e) == orig.subrange(s, e));
        assert(p.subrange(s, e)[j - s] == orig.subrange(s, e)[j - s]);
        assert(p.subrange(s, e)[j - s] == p[s + (j - s)]);
        assert(orig.subrange(s, e)[j - s] == orig[s + (j - s)]);
    }
    assert(p.subrange(position, position + length)
        =~= orig.subrange(position, position + length));
}

/// Convergence: the data map, the chunk ciphertexts and the storage names
/// the engine produces are a function of the content alone, with no key
/// material from outside, so independent sessions over equal content produce
/// identical maps and identical chunks.
pub proof fn lemma_convergence(a: Seq<u8>, b: Seq<u8>)
    requires
        a == b,
    ensures
        datamap_of(a) == datamap_of(b),
        forall|i: int| 0 <= i < spec_num_chunks(a.len() as u64)
            ==> spec_chunk_cipher(a, i) == #[trigger] spec_chunk_cipher(b, i),
{
}

/// Self-validation: in a store that a chunk map describes, the bytes stored
/// under every chunk's name hash back to that name.
pub proof fn lemma_self_validation(m: DataMapV, store: Map<Seq<u8>, Seq<u8>>, plain: Seq<u8>)
    requires
        map_describes(m, store, plain),
    ensures
        m matches DataMapV::Chunks(chunks) ==> forall|i: int| 0 <= i < chunks.len()
            ==> store.contains_key((#[trigger] chunks[i]).hash)
                && hash_of(store[chunks[i].hash]) == chunks[i].hash,
{
    match m {
        DataMapV::Chunks(chunks) => {
            assert forall|i: int| 0 <= i < chunks.len()
                implies store.contains_key((#[trigger] chunks[i]).hash)
                    && hash_of(store[chunks[i].hash]) == chunks[i].hash by {
                assert(chunks[i] == spec_chunk_record(plain, i));
                assert(store[chunks[i].hash] == spec_chunk_cipher(plain, i));
            }
        },
        _ => {},
    }
}

/// Whether some entry of `keep` stores its ciphertext under `name`.
fn find_name(keep: &Vec<ChunkDetails>, name: &Vec<u8>) -> (r: bool)
    ensures
        r == exists|j: int| 0 <= j < keep@.len() && (#[trigger] keep@[j]).hash@ == name@,
{
    let mut j: usize = 0;
    while j < keep.len()
        invariant
            0 <= j <= keep@.len(),
            forall|t: int| 0 <= t < j ==> (#[trigger] keep@[t]).hash@ != name@,
        decreases keep@.len() - j,
    {
        if bytes_eq(keep[j].hash.as_slice(), name.as_slice()) {
            return true;
        }
        j = j + 1;
    }
    false
}

/// Whether two byte strings hold the same bytes.
fn bytes_eq(a: &[u8], b: &[u8]) -> (r: bool)
    ensures
        r == (a@ == b@),
{
    if a.len() != b.len() {
        return false;
    }
    let mut i: usize = 0;
    while i < a.len()
        invariant
            0 <= i <= a@.len(),
            a@.len() == b@.len(),
            forall|j: int| 0 <= j < i ==> a@[j] == b@[j],
        decreases a@.len() - i,
    {
        if a[i] != b[i] {
            return false;
        }
        i = i + 1;
    }
    proof {
        assert(a@ =~= b@);
    }
    true
}

/// Delete from storage every name of `old_names` under which no entry of
/// `keep` stores its ciphertext.
fn delete_stale<E: StorageError, S: Storage<E>>(
    storage: &mut S,
    old_names: &Vec<Vec<u8>>,
    keep: &Vec<ChunkDetails>,
) -> (r: Result<(), SelfEncryptionError<E>>)
    ensures
        r is Ok ==> forall|k: Seq<u8>|
            (#[trigger] final(storage).contents().contains_key(k))
            <==> (old(storage).contents().contains_key(k)
                && (!old_names@.map_values(|v: Vec<u8>| v@).contains(k)
                    || exists|j: int| 0 <= j < keep@.len()
                        && (#[trigger] keep@[j]).hash@ == k)),
        r is Ok ==> forall|k: Seq<u8>|
            (#[trigger] final(storage).contents().contains_key(k))
            ==> final(storage).contents()[k] == old(storage).contents()[k],
        old_names@.len() == 0 ==> r is Ok,
        r matches Err(e) ==> e matches SelfEncryptionError::Storage(_),
{
    let ghost names = old_names@.map_values(|v: Vec<u8>| v@);
    let mut i: usize = 0;
    while i < old_names.len()
        invariant
            0 <= i <= old_names@.len(),
            names == old_names@.map_values(|v: Vec<u8>| v@),
            forall|k: Seq<u8>| (#[trigger] storage.contents().contains_key(k))
                <==> (old(storage).contents().contains_key(k)
                    && !(exists|t: int| 0 <= t < i && (#[trigger] names[t]) == k
                        && !(exists|j: int| 0 <= j < keep@.len()
                            && (#[trigger] keep@[j]).hash@ == k))),
            forall|k: Seq<u8>| (#[trigger] storage.contents().contains_key(k))
                ==> storage.contents()[k] == old(storage).contents()[k],
        decreases old_names@.len() - i,
    {
        let ghost pre_contents = storage.contents();
        let stale = !find_name(keep, &old_names[i]);
        if stale {
            match storage.delete(old_names[i].as_slice()) {
                Ok(()) => {},
                Err(err) => {
                    return Err(SelfEncryptionError::Storage(err));
                },
            }
        }
        proof {
            assert(names[i as int] == old_names@[i as int]@);
            assert forall|k: Seq<u8>| (#[trigger] storage.contents().contains_key(k))
                <==> (old(storage).contents().contains_key(k)
                    && !(exists|t: int| 0 <= t < i + 1 && (#[trigger] names[t]) == k
                        && !(exists|j: int| 0 <= j < keep@.len()
                            && (#[trigger] keep@[j]).hash@ == k))) by {
                if k == names[i as int] {
                    if stale {
                        assert(!storage.contents().contains_key(k));
                        assert(names[i as int] == k);
                    }
                } else {
                    assert(storage.contents().contains_key(k)
                        == pre_contents.contains_key(k));
                    assert forall|t: int| 0 <= t < i + 1 && (#[trigger] names[t]) == k
                        implies t < i by {}
                }
            }
        }
        i = i + 1;
    }
    proof {
        assert forall|k: Seq<u8>| names.contains(k)
            implies exists|t: int| 0 <= t < old_names@.len()
                && (#[trigger] names[t]) == k by {}
    }
    Ok(())
}

/// Every position below the total of an inherited chunk list's sizes lies
/// in some chunk of the list.
proof fn lemma_ih_tiling(m0: Seq<ChunkDetails>, j: int)
    requires
        0 <= j < spec_sum_sizes(cd_views(m0)),
    ensures
        exists|i: int| 0 <= i < m0.len()
            && #[trigger] ih_start(m0, i) <= j < ih_end(m0, i),
    decreases m0.len(),
{
    let views = cd_views(m0);
    assert(views.len() == m0.len());
    if m0.len() > 0 {
        let prefix = m0.drop_last();
        assert(cd_views(prefix) =~= views.drop_last());
        assert(views.take(m0.len() - 1) =~= views.drop_last());
        if j < spec_sum_sizes(views.drop_last()) {
            lemma_ih_tiling(prefix, j);
            let i = choose|i: int| 0 <= i < prefix.len()
                && #[trigger] ih_start(prefix, i) <= j < ih_end(prefix, i);
            assert(cd_views(prefix).take(i) =~= views.take(i));
            assert(prefix[i] == m0[i]);
            assert(ih_start(m0, i) <= j < ih_end(m0, i));
        } else {
            let i = m0.len() - 1;
            assert(views.take(i) =~= views.drop_last());
            assert(views.last().source_size == m0[i].source_size);
            assert(ih_start(m0, i) <= j < ih_end(m0, i));
        }
    }
}

/// The sizes of an inherited chunk list bound each chunk's end by the
/// total.
proof fn lemma_ih_end_bound(m0: Seq<ChunkDetails>, i: int)
    requires
        0 <= i < m0.len(),
    ensures
        0 <= ih_start(m0, i),
        ih_end(m0, i) <= spec_sum_sizes(cd_views(m0)),
        ih_start(m0, i) == spec_sum_sizes(cd_views(m0).take(i)),
    decreases m0.len(),
{
    let views = cd_views(m0);
    crate::data_map::lemma_sum_sizes_bounds(views, i);
    assert(views.take(i + 1).drop_last() =~= views.take(i));
    assert(views.take(i + 1).last() == views[i]);
    crate::data_map::lemma_sum_sizes_bounds(views, i + 1);
    assert(views[i].source_size == m0[i].source_size);
}

/// When a plaintext fits a chunk list and a store, the list's entries are
/// exactly the records of that plaintext, so every chunk of the list is
/// recoverable from the store at its cumulative position.
proof fn lemma_describes_inherited(m0: Seq<ChunkDetails>, store: Map<Seq<u8>, Seq<u8>>, p: Seq<u8>)
    requires
        map_describes(DataMapV::Chunks(cd_views(m0)), store, p),
    ensures
        3 * MIN_CHUNK_SIZE <= p.len() <= MAX_FILE_SIZE,
        m0.len() == spec_num_chunks(p.len() as u64),
        spec_sum_sizes(cd_views(m0)) == p.len(),
        pre_hashes_of(m0) == spec_pre_hashes(p),
        forall|i: int| 0 <= i < m0.len()
            ==> ih_start(m0, i) == spec_chunk_start(p.len() as u64, i)
                && ih_end(m0, i) == spec_chunk_end(p.len() as u64, i),
        forall|i: int| 0 <= i < m0.len()
            ==> ((#[trigger] m0[i])@ == spec_chunk_record(p, i)),
{
    let views = cd_views(m0);
    let fs = p.len() as u64;
    let n = spec_num_chunks(fs);
    assert(datamap_of(p) == DataMapV::Chunks(views));
    assert(p.len() >= 3 * MIN_CHUNK_SIZE) by {
        if p.len() == 0 {
            assert(datamap_of(p) is Empty);
        } else if p.len() < 3 * MIN_CHUNK_SIZE {
            assert(datamap_of(p) is Content);
        }
    }
    assert(views == spec_chunk_records(p));
    assert(views.len() == n);
    assert forall|i: int| 0 <= i < m0.len()
        implies ((#[trigger] m0[i])@ == spec_chunk_record(p, i)) by {
        assert(views[i] == m0[i]@);
        assert(views[i] == spec_chunk_records(p)[i]);
    }
    assert forall|i: int| 0 <= i < m0.len()
        implies ih_start(m0, i) == spec_chunk_start(fs, i)
            && ih_end(m0, i) == spec_chunk_end(fs, i) by {
        assert(views.take(i) =~= spec_chunk_records(p).take(i));
        lemma_records_sum(p, i);
        lemma_geometry(fs);
        lemma_chunks_fit(fs);
        if i + 1 < m0.len() {
            lemma_records_sum(p, i + 1);
            assert(ih_end(m0, i) == spec_sum_sizes(views.take(i)) + views[i].source_size);
            assert(views.take(i + 1).drop_last() =~= views.take(i));
            assert(views.take(i + 1).last() == views[i]);
        } else {
            lemma_records_sum(p, m0.len() as int);
            assert(views.take(m0.len() as int).drop_last() =~= views.take(i));
            assert(views.take(m0.len() as int).last() == views[i]);
            assert(spec_chunk_end(fs, n - 1) == p.len());
        }
    }
    assert(spec_sum_sizes(views) == p.len()) by {
        lemma_records_sum(p, n);
        assert(spec_chunk_records(p).take(n) =~= spec_chunk_records(p));
    }
    assert(pre_hashes_of(m0) =~= spec_pre_hashes(p)) by {
        assert forall|i: int| 0 <= i < m0.len()
            implies pre_hashes_of(m0)[i] == spec_pre_hashes(p)[i] by {
            assert(m0[i]@ == spec_chunk_record(p, i));
        }
    }
}

impl<E: StorageError, S: Storage<E>> SelfEncryptor<E, S> {
    /// Open a session: an empty one for `DataMap::Empty`, one holding the
    /// inline bytes for `DataMap::Content`, and one over the listed chunks,
    /// fetched only as requests touch them, for `DataMap::Chunks`.
    pub fn new(storage: S, data_map: DataMap) -> (r: Result<Self, SelfEncryptionError<E>>)
        requires
            crate::data_map::spec_map_wf(data_map@),
        ensures
            r matches Ok(se) ==> se.wf()
                && se.store() == storage.contents()
                && se.complete()
                && se.len_spec() == crate::data_map::spec_map_len(data_map@)
                && se.orig_plain() == se.plain()
                && ((data_map@ is Empty || data_map@ is Content)
                    ==> se.inherited_map() == DataMapV::Chunks(Seq::<ChunkDetailsV>::empty())
                        && se.inherited_count() == 0)
                && (data_map@ is Empty ==> se.plain() == Seq::<u8>::empty() && se.valid())
                && (data_map@ matches DataMapV::Content(c) ==> se.plain() == c && se.valid())
                && (data_map@ is Chunks ==> se.inherited_map() == data_map@
                    && se.valid() == (exists|p: Seq<u8>|
                        #[trigger] map_describes(data_map@, storage.contents(), p))
                    && (se.valid() ==> map_describes(data_map@, storage.contents(), se.plain()))),
            (data_map@ is Empty || data_map@ is Content) ==> r is Ok,
            crate::data_map::spec_map_len(data_map@) <= crate::sequencer::MAX_IN_MEMORY_SIZE
                ==> r is Ok,
            r matches Err(e) ==> e is Io,
    {
        match data_map {
            DataMap::Empty => {
                Ok(SelfEncryptor {
                    storage,
                    sequencer: Sequencer::new_as_vector(),
                    file_size: 0,
                    sorted_map: Vec::new(),
                    fetched: Vec::new(),
                    plain: Ghost(Seq::empty()),
                    orig_plain: Ghost(Seq::empty()),
                    valid: Ghost(true),
                    complete: Ghost(true),
                    marker: PhantomData,
                })
            },
            DataMap::Content(content) => {
                let mut sequencer = Sequencer::new_as_vector();
                sequencer.init(content.as_slice());
                Ok(SelfEncryptor {
                    storage,
                    sequencer,
                    file_size: content.len() as u64,
                    sorted_map: Vec::new(),
                    fetched: Vec::new(),
                    plain: Ghost(content@),
                    orig_plain: Ghost(content@),
                    valid: Ghost(true),
                    complete: Ghost(true),
                    marker: PhantomData,
                })
            },
            DataMap::Chunks(chunks) => {
                let ghost views = cd_views(chunks@);
                let mut total: u64 = 0;
                let mut i: usize = 0;
                proof {
                    assert(views.take(0) =~= Seq::<ChunkDetailsV>::empty());
                }
                while i < chunks.len()
                    invariant
                        0 <= i <= chunks@.len(),
                        views == cd_views(chunks@),
                        crate::data_map::spec_map_wf(DataMapV::Chunks(views)),
                        total == spec_sum_sizes(views.take(i as int)),
                    decreases chunks@.len() - i,
                {
                    proof {
                        crate::data_map::lemma_sum_sizes_bounds(views, i + 1);
                        assert(views.take(i + 1).drop_last() =~= views.take(i as int));
                        assert(views.take(i + 1).last() == views[i as int]);
                    }
                    total = total + chunks[i].source_size;
                    i = i + 1;
                }
                proof {
                    assert(views.take(chunks@.len() as int) =~= views);
                }
                let file_size = total;

                let mut fetched: Vec<bool> = Vec::new();
                let mut i: usize = 0;
                while i < chunks.len()
                    invariant
                        0 <= i <= chunks@.len(),
                        fetched@.len() == i,
                        forall|j: int| 0 <= j < i ==> !(#[trigger] fetched@[j]),
                    decreases chunks@.len() - i,
                {
                    fetched.push(false);
                    i = i + 1;
                }

                let sequencer = if file_size > crate::sequencer::MAX_IN_MEMORY_SIZE as u64 {
                    match Sequencer::new_as_mmap() {
                        Some(s) => s,
                        None => {
                            return Err(SelfEncryptionError::Io);
                        },
                    }
                } else {
                    let mut s = Sequencer::new_as_vector();
                    let mut i: u64 = 0;
                    while i < file_size
                        invariant
                            0 <= i <= file_size <= MAX_FILE_SIZE,
                            s.wf(),
                            s.is_vector(),
                            s@.len() == i,
                        decreases file_size - i,
                    {
                        s.push(0);
                        i = i + 1;
                    }
                    s
                };

                let ghost store = storage.contents();
                let ghost dm = DataMapV::Chunks(views);
                let ghost is_valid = exists|p: Seq<u8>| map_describes(dm, store, p);
                let ghost plain = if is_valid {
                    choose|p: Seq<u8>| map_describes(dm, store, p)
                } else {
                    Seq::new(file_size as nat, |k: int| 0u8)
                };

                let se = SelfEncryptor {
                    storage,
                    sequencer,
                    file_size,
                    sorted_map: chunks,
                    fetched,
                    plain: Ghost(plain),
                    orig_plain: Ghost(plain),
                    valid: Ghost(is_valid),
                    complete: Ghost(true),
                    marker: PhantomData,
                };
                proof {
                    assert forall|k: int| 0 <= k < se.sorted_map@.len()
                        implies ((#[trigger] se.sorted_map@[k]).pre_hash@.len() == HASH_SIZE
                            && se.sorted_map@[k].source_size > 0) by {
                        assert(views[k] == se.sorted_map@[k]@);
                    }
                    if is_valid {
                        lemma_describes_inherited(se.sorted_map@, store, plain);
                    }
                    assert forall|j: int| 0 <= j < se.file_size && !se.under_unfetched(j)
                        implies (#[trigger] se.sequencer@[j]) == se.plain@[j] by {
                        lemma_ih_tiling(se.sorted_map@, j);
                        let i = choose|i: int| 0 <= i < se.sorted_map@.len()
                            && #[trigger] ih_start(se.sorted_map@, i) <= j < ih_end(se.sorted_map@, i);
                        assert(!se.fetched@[i]);
                        assert(se.under_unfetched(j));
                    }
                    assert forall|i: int| 0 <= i < se.sorted_map@.len()
                        && !(#[trigger] se.fetched@[i])
                        implies ih_end(se.sorted_map@, i) <= se.file_size as int by {
                        lemma_ih_end_bound(se.sorted_map@, i);
                    }
                    if is_valid {
                        assert forall|i: int| 0 <= i < se.sorted_map@.len()
                            && !(#[trigger] se.fetched@[i])
                            implies se.chunk_recoverable(i) by {
                            assert(se.plain@ == plain);
                            assert(map_describes(dm, store, plain));
                            assert(spec_chunk_record(plain, i).hash
                                == hash_of(spec_chunk_cipher(plain, i)));
                            assert(se.sorted_map@[i]@ == spec_chunk_record(plain, i));
                            assert(se.sorted_map@[i].hash@ == spec_chunk_record(plain, i).hash);
                            assert(plain.subrange(ih_start(se.sorted_map@, i), ih_end(se.sorted_map@, i))
                                == spec_chunk_slice(plain, i));
                        }
                    }
                }
                Ok(se)
            },
        }
    }

    /// The plaintext offset at which inherited chunk `i` starts.
    fn inherited_start(&self, i: usize) -> (r: u64)
        requires
            spec_sum_sizes(cd_views(self.sorted_map@)) <= MAX_FILE_SIZE,
            i <= self.sorted_map@.len(),
        ensures
            r == ih_start(self.sorted_map@, i as int),
            r <= MAX_FILE_SIZE,
    {
        let ghost views = cd_views(self.sorted_map@);
        let mut total: u64 = 0;
        let mut k: usize = 0;
        proof {
            assert(views.take(0) =~= Seq::<ChunkDetailsV>::empty());
            crate::data_map::lemma_sum_sizes_bounds(views, i as int);
        }
        while k < i
            invariant
                0 <= k <= i <= self.sorted_map@.len(),
                spec_sum_sizes(cd_views(self.sorted_map@)) <= MAX_FILE_SIZE,
                views == cd_views(self.sorted_map@),
                total == spec_sum_sizes(views.take(k as int)),
                total <= MAX_FILE_SIZE,
            decreases i - k,
        {
            proof {
                crate::data_map::lemma_sum_sizes_bounds(views, k + 1);
                assert(views.take(k + 1).drop_last() =~= views.take(k as int));
                assert(views.take(k + 1).last() == views[k as int]);
                assert(views[k as int] == self.sorted_map@[k as int]@);
            }
            total = total + self.sorted_map[k].source_size;
            k = k + 1;
        }
        total
    }

    /// Fetch inherited chunk `i` from storage, decode it, and deposit its
    /// plaintext in the sequencer at the chunk's offset.
    #[verifier::rlimit(60)]
    fn fetch_chunk(&mut self, i: usize) -> (r: Result<(), SelfEncryptionError<E>>)
        requires
            old(self).wf(),
            i < old(self).sorted_map@.len(),
            !old(self).fetched@[i as int],
        ensures
            final(self).wf(),
            final(self).plain@ == old(self).plain@,
            final(self).orig_plain@ == old(self).orig_plain@,
            final(self).valid@ == old(self).valid@,
            final(self).complete@ == old(self).complete@,
            final(self).file_size == old(self).file_size,
            final(self).sorted_map@ == old(self).sorted_map@,
            final(self).storage.contents() == old(self).storage.contents(),
            final(self).sequencer.is_vector() == old(self).sequencer.is_vector(),
            r is Ok ==> final(self).fetched@ == old(self).fetched@.update(i as int, true),
            r is Err ==> final(self).fetched@ == old(self).fetched@
                && final(self).sequencer@ == old(self).sequencer@,
            r matches Err(e) ==> (e matches SelfEncryptionError::Storage(_)
                || e is Decryption || e is Compression),
            old(self).valid@ ==> (r matches Err(e) ==> e matches SelfEncryptionError::Storage(_)),
    {
        let ghost m0 = self.sorted_map@;
        let ghost pre = pre_hashes_of(m0);
        let ghost s = ih_start(m0, i as int);
        let ghost e = ih_end(m0, i as int);
        let ghost plain = self.plain@;
        proof {
            lemma_ih_end_bound(m0, i as int);
            assert(e <= self.file_size as int);
            if self.valid@ {
                assert(self.chunk_recoverable(i as int));
            }
        }
        let start = self.inherited_start(i);
        let size = self.sorted_map[i].source_size;
        let cipher = match self.storage.get(self.sorted_map[i].hash.as_slice()) {
            Ok(c) => c,
            Err(err) => {
                return Err(SelfEncryptionError::Storage(err));
            },
        };
        let pad_key_iv = crate::sequential::utils::get_pad_key_and_iv(i, self.sorted_map.as_slice());
        let decoded = match crate::sequential::utils::decrypt_chunk::<E>(
            cipher.as_slice(),
            pad_key_iv,
        ) {
            Ok(d) => d,
            Err(err) => {
                proof {
                    if self.valid@ {
                        assert(cipher@ == spec_encoded_chunk(
                            plain.subrange(s, e),
                            spec_pad_of(pre, i as int),
                            spec_key_of(pre, i as int),
                            spec_iv_of(pre, i as int),
                        ));
                        assert(spec_codec_ok(plain.subrange(s, e)));
                        assert(false);
                    }
                }
                return Err(err);
            },
        };
        proof {
            if self.valid@ {
                assert(cipher@ == spec_encoded_chunk(
                    plain.subrange(s, e),
                    spec_pad_of(pre, i as int),
                    spec_key_of(pre, i as int),
                    spec_iv_of(pre, i as int),
                ));
                assert(spec_codec_ok(plain.subrange(s, e)));
                assert(decoded@ == plain.subrange(s, e));
                assert(decoded@.len() == size);
            }
        }
        if decoded.len() as u64 != size {
            return Err(SelfEncryptionError::Decryption);
        }
        let ghost seq0 = self.sequencer@;
        proof {
            assert(start <= MAX_FILE_SIZE as u64);
        }
        let ustart = start as usize;
        let mut k: usize = 0;
        while k < decoded.len()
            invariant
                0 <= k <= decoded@.len(),
                decoded@.len() == size,
                s + size <= seq0.len() <= MAX_FILE_SIZE,
                s == ustart,
                self.sequencer.wf(),
                self.sequencer.is_vector() == old(self).sequencer.is_vector(),
                self.sequencer@.len() == seq0.len(),
                self.fetched@ == old(self).fetched@,
                self.sorted_map@ == old(self).sorted_map@,
                self.storage == old(self).storage,
                self.plain@ == old(self).plain@,
                self.orig_plain@ == old(self).orig_plain@,
                self.valid@ == old(self).valid@,
                self.complete@ == old(self).complete@,
                self.file_size == old(self).file_size,
                forall|j: int| 0 <= j < seq0.len() && !(s <= j < s + k)
                    ==> (#[trigger] self.sequencer@[j]) == seq0[j],
                forall|j: int| 0 <= j < k ==> (#[trigger] self.sequencer@[s + j]) == decoded@[j],
            decreases decoded@.len() - k,
        {
            self.sequencer.set(ustart + k, decoded[k]);
            k = k + 1;
        }
        self.fetched.set(i, true);
        proof {
            let new_self = *self;
            assert(new_self.fetched@ == old(self).fetched@.update(i as int, true));
            assert forall|j: int| 0 <= j < m0.len() && !(#[trigger] new_self.fetched@[j])
                implies !old(self).fetched@[j] && j != i by {}
            if self.valid@ {
                assert forall|j: int| 0 <= j < new_self.file_size as int
                    && !new_self.under_unfetched(j)
                    implies (#[trigger] new_self.sequencer@[j]) == new_self.plain@[j] by {
                    if s <= j < e {
                        assert(new_self.sequencer@[s + (j - s)] == decoded@[j - s]);
                        assert(new_self.sequencer@[j] == decoded@[j - s]);
                        assert(decoded@[j - s] == plain.subrange(s, e)[j - s]);
                    } else {
                        if old(self).under_unfetched(j) {
                            let w = choose|w: int| 0 <= w < m0.len()
                                && !(#[trigger] old(self).fetched@[w])
                                && ih_start(m0, w) <= j < ih_end(m0, w);
                            assert(w != i);
                            assert(!new_self.fetched@[w]);
                            assert(new_self.under_unfetched(j));
                        }
                        assert(new_self.sequencer@[j] == seq0[j]);
                    }
                }
                assert forall|w: int| 0 <= w < m0.len() && !(#[trigger] new_self.fetched@[w])
                    implies new_self.chunk_recoverable(w) by {
                    assert(!old(self).fetched@[w]);
                    assert(old(self).chunk_recoverable(w));
                }
                if self.complete@ {
                    assert forall|w: int| 0 <= w < m0.len() && (#[trigger] new_self.fetched@[w])
                        implies new_self.chunk_harvested(w) by {
                        if w != i {
                            assert(old(self).fetched@[w]);
                            assert(old(self).chunk_harvested(w));
                            assert(new_self.inherited_map() == old(self).inherited_map());
                        } else {
                            assert forall|p: Seq<u8>|
                                map_describes(new_self.inherited_map(), new_self.storage.contents(), p)
                                implies (#[trigger] p.subrange(s, e))
                                    == new_self.orig_plain@.subrange(s, e) by {
                                lemma_describes_inherited(m0, new_self.storage.contents(), p);
                                assert(p.subrange(ih_start(m0, i as int), ih_end(m0, i as int))
                                    == spec_chunk_slice(p, i as int));
                                assert(m0[i as int]@ == spec_chunk_record(p, i as int));
                                assert(cipher@ == spec_chunk_cipher(p, i as int));
                                assert(pre_hashes_of(m0) == spec_pre_hashes(p));
                                assert(spec_codec_ok(spec_chunk_slice(p, i as int)));
                                assert(decoded@ == spec_chunk_slice(p, i as int));
                                assert(decoded@ == plain.subrange(s, e));
                                assert(plain.subrange(s, e) == old(self).orig_plain@.subrange(s, e));
                            }
                        }
                    }
                }
            }
        }
        Ok(())
    }
}

impl<E: StorageError, S: Storage<E>> SelfEncryptor<E, S> {
    /// Materialise every inherited chunk whose plaintext range overlaps
    /// `[start, end)`.
    #[verifier::rlimit(100)]
    fn ensure_range(&mut self, start: u64, end: u64) -> (r: Result<(), SelfEncryptionError<E>>)
        requires
            old(self).wf(),
        ensures
            final(self).wf(),
            final(self).plain@ == old(self).plain@,
            final(self).orig_plain@ == old(self).orig_plain@,
            final(self).valid@ == old(self).valid@,
            final(self).complete@ == old(self).complete@,
            final(self).file_size == old(self).file_size,
            final(self).sorted_map@ == old(self).sorted_map@,
            final(self).storage.contents() == old(self).storage.contents(),
            final(self).sequencer.is_vector() == old(self).sequencer.is_vector(),
            forall|i: int| 0 <= i < old(self).fetched@.len()
                && (#[trigger] old(self).fetched@[i]) ==> final(self).fetched@[i],
            final(self).fetched@.len() == old(self).fetched@.len(),
            old(self).sorted_map@.len() == 0 ==> r is Ok,
            r is Ok ==> forall|i: int| 0 <= i < final(self).sorted_map@.len()
                && ih_start(final(self).sorted_map@, i) < end
                && ih_end(final(self).sorted_map@, i) > start
                ==> (#[trigger] final(self).fetched@[i]),
            forall|i: int| 0 <= i < final(self).sorted_map@.len()
                && (#[trigger] final(self).fetched@[i])
                ==> old(self).fetched@[i]
                    || (ih_start(final(self).sorted_map@, i) < end
                        && ih_end(final(self).sorted_map@, i) > start),
            r matches Err(e) ==> (e matches SelfEncryptionError::Storage(_)
                || e is Decryption || e is Compression),
            old(self).valid@ ==> (r matches Err(e) ==> e matches SelfEncryptionError::Storage(_)),
    {
        let ghost m0 = self.sorted_map@;
        let n = self.sorted_map.len();
        let mut i: usize = 0;
        while i < n
            invariant
                0 <= i <= n,
                n == m0.len(),
                m0 == old(self).sorted_map@,
                old(self).fetched@.len() == m0.len(),
                self.wf(),
                self.sorted_map@ == m0,
                self.plain@ == old(self).plain@,
                self.orig_plain@ == old(self).orig_plain@,
                self.valid@ == old(self).valid@,
                self.complete@ == old(self).complete@,
                self.file_size == old(self).file_size,
                self.storage.contents() == old(self).storage.contents(),
                self.sequencer.is_vector() == old(self).sequencer.is_vector(),
                self.fetched@.len() == m0.len(),
                forall|k: int| 0 <= k < m0.len()
                    && (#[trigger] old(self).fetched@[k]) ==> self.fetched@[k],
                forall|k: int| 0 <= k < i
                    && ih_start(m0, k) < end && ih_end(m0, k) > start
                    ==> (#[trigger] self.fetched@[k]),
                forall|k: int| 0 <= k < m0.len() && (#[trigger] self.fetched@[k])
                    ==> old(self).fetched@[k]
                        || (ih_start(m0, k) < end && ih_end(m0, k) > start),
            decreases n - i,
        {
            let s = self.inherited_start(i);
            let e = self.inherited_start(i + 1);
            proof {
                let views = cd_views(m0);
                assert(views.take(i + 1).drop_last() =~= views.take(i as int));
                assert(views.take(i + 1).last() == views[i as int]);
                assert(views[i as int] == m0[i as int]@);
                assert(e == ih_end(m0, i as int));
            }
            if s < end && e > start {
                if !self.fetched[i] {
                    match self.fetch_chunk(i) {
                        Ok(()) => {},
                        Err(err) => {
                            return Err(err);
                        },
                    }
                }
            }
            i = i + 1;
        }
        Ok(())
    }

    /// In an untouched session every plaintext that fits the inherited map
    /// agrees, over any range whose chunks have all been materialised, with
    /// the plaintext this session has read.
    #[verifier::rlimit(100)]
    #[verifier::spinoff_prover]
    proof fn lemma_read_agrees(&self, position: int, length: int, data: Seq<u8>)
        requires
            self.wf(),
            self.valid@,
            self.complete@,
            self.plain@ == self.orig_plain@,
            0 <= position,
            0 <= length,
            position + length <= self.plain@.len(),
            data == self.plain@.subrange(position, position + length),
            forall|i: int| 0 <= i < self.sorted_map@.len()
                && ih_start(self.sorted_map@, i) < position + length
                && ih_end(self.sorted_map@, i) > position
                ==> (#[trigger] self.fetched@[i]),
        ensures
            forall|p: Seq<u8>|
                map_describes(self.inherited_map(), self.storage.contents(), p)
                ==> data == #[trigger] p.subrange(position, position + length),
    {
        let m0 = self.sorted_map@;
        assert forall|p: Seq<u8>|
            map_describes(self.inherited_map(), self.storage.contents(), p)
            implies data == #[trigger] p.subrange(position, position + length) by {
            lemma_describes_inherited(m0, self.storage.contents(), p);
            assert(p.len() == self.orig_plain@.len());
            assert forall|w: int| 0 <= w < m0.len() && #[trigger] self.fetched@[w]
                implies p.subrange(ih_start(m0, w), ih_end(m0, w))
                    == self.orig_plain@.subrange(ih_start(m0, w), ih_end(m0, w)) by {
                assert(self.chunk_harvested(w));
            }
            lemma_witness_agrees(m0, self.fetched@, self.orig_plain@, p, position, length);
            assert(data == p.subrange(position, position + length));
        }
    }

    /// Extend the logical content to `new_len` bytes with zeroes, promoting
    /// the sequencer to a memory map when the length outgrows the heap cap.
    fn grow_to(&mut self, new_len: u64) -> (r: Result<(), SelfEncryptionError<E>>)
        requires
            old(self).wf(),
            old(self).file_size <= new_len <= MAX_FILE_SIZE,
        ensures
            final(self).wf(),
            final(self).orig_plain@ == old(self).orig_plain@,
            final(self).valid@ == old(self).valid@,
            final(self).complete@ == old(self).complete@,
            final(self).sorted_map@ == old(self).sorted_map@,
            final(self).fetched@ == old(self).fetched@,
            final(self).storage.contents() == old(self).storage.contents(),
            new_len <= crate::sequencer::MAX_IN_MEMORY_SIZE ==> r is Ok,
            !old(self).sequencer.is_vector() ==> r is Ok,
            r is Ok ==> final(self).file_size == new_len
                && final(self).plain@ == old(self).plain@
                    + Seq::new((new_len - old(self).file_size) as nat, |k: int| 0u8),
            r is Err ==> final(self).file_size == old(self).file_size
                && final(self).plain@ == old(self).plain@,
            r matches Err(e) ==> e is Io,
    {
        let ghost plain0 = self.plain@;
        let l0 = self.file_size;
        if self.sequencer.is_vector_rep() && new_len > crate::sequencer::MAX_IN_MEMORY_SIZE as u64 {
            match self.sequencer.create_mapping() {
                Ok(()) => {},
                Err(()) => {
                    return Err(SelfEncryptionError::Io);
                },
            }
        }
        let ghost grown = plain0 + Seq::new((new_len - l0) as nat, |k: int| 0u8);
        let ghost seq1 = self.sequencer@;
        proof {
            if old(self).valid@ {
                assert forall|j: int| 0 <= j < l0 && !old(self).under_unfetched(j)
                    implies (#[trigger] seq1[j]) == plain0[j] by {
                    if seq1 != old(self).sequencer@ {
                        assert(seq1.take(l0 as int) == old(self).sequencer@.take(l0 as int));
                        assert(seq1.take(l0 as int)[j] == old(self).sequencer@.take(l0 as int)[j]);
                    }
                }
            }
        }
        let mut i: u64 = l0;
        while i < new_len
            invariant
                l0 <= i <= new_len <= MAX_FILE_SIZE,
                self.sequencer.wf(),
                self.sequencer.is_vector() ==> self.sequencer@.len() == i,
                !self.sequencer.is_vector() ==> self.sequencer@.len() == MAX_FILE_SIZE,
                self.sequencer.is_vector() ==> seq1.len() == l0,
                !self.sequencer.is_vector() ==> seq1.len() == MAX_FILE_SIZE,
                forall|j: int| 0 <= j < l0 ==> (#[trigger] self.sequencer@[j]) == seq1[j],
                forall|j: int| l0 <= j < i ==> (#[trigger] self.sequencer@[j]) == 0u8,
                self.fetched@ == old(self).fetched@,
                self.sorted_map@ == old(self).sorted_map@,
                self.storage == old(self).storage,
                self.plain@ == old(self).plain@,
                self.orig_plain@ == old(self).orig_plain@,
                self.valid@ == old(self).valid@,
                self.complete@ == old(self).complete@,
                self.file_size == old(self).file_size,
                old(self).valid@ ==> forall|j: int| 0 <= j < l0 && !old(self).under_unfetched(j)
                    ==> (#[trigger] seq1[j]) == plain0[j],
            decreases new_len - i,
        {
            if self.sequencer.is_vector_rep() {
                self.sequencer.push(0);
            } else {
                self.sequencer.set(i as usize, 0);
            }
            i = i + 1;
        }
        self.file_size = new_len;
        self.plain = Ghost(grown);
        proof {
            let new_self = *self;
            assert(new_self.plain@.len() == new_len);
            if new_self.valid@ {
                assert forall|j: int| 0 <= j < new_len && !new_self.under_unfetched(j)
                    implies (#[trigger] new_self.sequencer@[j]) == new_self.plain@[j] by {
                    if j < l0 {
                        if old(self).under_unfetched(j) {
                            let w = choose|w: int| 0 <= w < old(self).sorted_map@.len()
                                && !(#[trigger] old(self).fetched@[w])
                                && ih_start(old(self).sorted_map@, w) <= j
                                    < ih_end(old(self).sorted_map@, w);
                            assert(!new_self.fetched@[w]);
                            assert(new_self.under_unfetched(j));
                        } else {
                            assert(new_self.sequencer@[j] == seq1[j]);
                        }
                    } else {
                        assert(new_self.sequencer@[j] == 0u8);
                        assert(new_self.plain@[j] == 0u8);
                    }
                }
                assert forall|i: int| 0 <= i < new_self.sorted_map@.len()
                    && !(#[trigger] new_self.fetched@[i])
                    implies new_self.plain@.subrange(
                        ih_start(new_self.sorted_map@, i),
                        ih_end(new_self.sorted_map@, i),
                    ) == new_self.orig_plain@.subrange(
                        ih_start(new_self.sorted_map@, i),
                        ih_end(new_self.sorted_map@, i),
                    ) && new_self.chunk_recoverable(i) by {
                    let m0 = new_self.sorted_map@;
                    let s = ih_start(m0, i);
                    let e = ih_end(m0, i);
                    lemma_ih_end_bound(m0, i);
                    assert(e <= l0);
                    assert(new_self.plain@.subrange(s, e) =~= plain0.subrange(s, e));
                    assert(old(self).chunk_recoverable(i));
                }
            }
        }
        Ok(())
    }

    /// Overwrite the bytes at `[position, position + data.len())` with
    /// `data`, extending the content with zero bytes where the write lies
    /// past its end.  Chunks whose range the write touches are materialised
    /// first.  A write whose tail would cross the maximum file size is
    /// rejected and changes nothing.
    #[verifier::rlimit(100)]
    pub fn write(&mut self, data: &[u8], position: u64) -> (r: Result<
        (),
        SelfEncryptionError<E>,
    >)
        requires
            old(self).wf(),
        ensures
            final(self).wf(),
            final(self).orig_plain() == old(self).orig_plain(),
            final(self).valid() == old(self).valid(),
            final(self).complete() == old(self).complete(),
            final(self).inherited_map() == old(self).inherited_map(),
            final(self).inherited_count() == old(self).inherited_count(),
            final(self).store() == old(self).store(),
            (r matches Err(e) && e is Argument) <==> position + data@.len() > MAX_FILE_SIZE,
            old(self).inherited_count() == 0
                && position + data@.len() <= crate::sequencer::MAX_IN_MEMORY_SIZE
                ==> r is Ok,
            r is Err ==> final(self).plain() == old(self).plain()
                && final(self).len_spec() == old(self).len_spec(),
            r is Ok ==> final(self).plain()
                == spec_write_result(old(self).plain(), position as int, data@)
                && final(self).len_spec() == if position + data@.len() > old(self).plain().len() {
                    (position + data@.len()) as u64
                } else {
                    old(self).len_spec()
                },
            r matches Err(e) ==> (e is Argument || e is Io
                || e matches SelfEncryptionError::Storage(_)
                || e is Decryption || e is Compression),
            old(self).valid() ==> (r matches Err(e) ==> (e is Argument || e is Io
                || e matches SelfEncryptionError::Storage(_))),
    {
        if position > MAX_FILE_SIZE as u64
            || data.len() as u64 > MAX_FILE_SIZE as u64 - position {
            return Err(SelfEncryptionError::Argument);
        }
        let end = position + data.len() as u64;
        match self.ensure_range(position, end) {
            Ok(()) => {},
            Err(err) => {
                return Err(err);
            },
        }
        if end > self.file_size {
            match self.grow_to(end) {
                Ok(()) => {},
                Err(err) => {
                    return Err(err);
                },
            }
        }
        let ghost mid = *self;
        let ghost plain1 = self.plain@;
        let ghost target = spec_write_result(old(self).plain@, position as int, data@);
        proof {
            assert(target =~= plain1.take(position as int) + data@
                + plain1.skip(position as int + data@.len() as int));
        }
        let upos = position as usize;
        let mut k: usize = 0;
        while k < data.len()
            invariant
                0 <= k <= data@.len(),
                upos == position,
                position + data@.len() <= mid.file_size,
                mid.wf(),
                self.file_size == mid.file_size,
                self.sorted_map@ == mid.sorted_map@,
                self.fetched@ == mid.fetched@,
                self.storage == mid.storage,
                self.plain@ == mid.plain@,
                self.orig_plain@ == mid.orig_plain@,
                self.valid@ == mid.valid@,
                self.complete@ == mid.complete@,
                self.sequencer.wf(),
                self.sequencer.is_vector() == mid.sequencer.is_vector(),
                self.sequencer@.len() == mid.sequencer@.len(),
                forall|j: int| 0 <= j < mid.sequencer@.len() && !(position <= j < position + k)
                    ==> (#[trigger] self.sequencer@[j]) == mid.sequencer@[j],
                forall|j: int| 0 <= j < k
                    ==> (#[trigger] self.sequencer@[position + j]) == data@[j],
            decreases data@.len() - k,
        {
            self.sequencer.set(upos + k, data[k]);
            k = k + 1;
        }
        self.plain = Ghost(target);
        proof {
            let new_self = *self;
            assert(new_self.plain@.len() == new_self.file_size);
            if new_self.valid@ {
                assert forall|j: int| 0 <= j < new_self.file_size
                    && !new_self.under_unfetched(j)
                    implies (#[trigger] new_self.sequencer@[j]) == new_self.plain@[j] by {
                    if position <= j < position + data@.len() {
                        assert(new_self.sequencer@[position + (j - position)]
                            == data@[j - position]);
                    } else {
                        if mid.under_unfetched(j) {
                            let w = choose|w: int| 0 <= w < mid.sorted_map@.len()
                                && !(#[trigger] mid.fetched@[w])
                                && ih_start(mid.sorted_map@, w) <= j < ih_end(mid.sorted_map@, w);
                            assert(!new_self.fetched@[w]);
                            assert(new_self.under_unfetched(j));
                        }
                        assert(new_self.sequencer@[j] == mid.sequencer@[j]);
                        assert(mid.sequencer@[j] == plain1[j]);
                        assert(new_self.plain@[j] == plain1[j]);
                    }
                }
                assert forall|i: int| 0 <= i < new_self.sorted_map@.len()
                    && !(#[trigger] new_self.fetched@[i])
                    implies new_self.plain@.subrange(
                        ih_start(new_self.sorted_map@, i),
                        ih_end(new_self.sorted_map@, i),
                    ) == new_self.orig_plain@.subrange(
                        ih_start(new_self.sorted_map@, i),
                        ih_end(new_self.sorted_map@, i),
                    ) && new_self.chunk_recoverable(i) by {
                    let m0 = new_self.sorted_map@;
                    let s = ih_start(m0, i);
                    let e = ih_end(m0, i);
                    lemma_ih_end_bound(m0, i);
                    assert(e <= mid.file_size);
                    assert(!(s < end && e > position));
                    assert forall|j: int| s <= j < e
                        implies new_self.plain@[j] == plain1[j] by {}
                    assert(new_self.plain@.subrange(s, e) =~= plain1.subrange(s, e));
                    assert(mid.chunk_recoverable(i));
                }
            }
        }
        Ok(())
    }

    /// Once every inherited chunk has passed through the authenticated
    /// decoder, the plaintext fitting the inherited map is unique: it is the
    /// one this session has been reading.
    #[verifier::rlimit(100)]
    #[verifier::spinoff_prover]
    proof fn lemma_close_uniqueness(&self)
        requires
            self.wf(),
            self.valid@,
            self.complete@,
            forall|i: int| 0 <= i < self.sorted_map@.len() ==> (#[trigger] self.fetched@[i]),
        ensures
            forall|q: Seq<u8>|
                map_describes(self.inherited_map(), self.storage.contents(), q)
                ==> q == self.orig_plain@,
    {
        let m0 = self.sorted_map@;
        assert forall|q: Seq<u8>|
            map_describes(self.inherited_map(), self.storage.contents(), q)
            implies q == self.orig_plain@ by {
            lemma_describes_inherited(m0, self.storage.contents(), q);
            assert(m0.len() > 0);
            assert(q.len() == self.orig_plain@.len());
            assert forall|w: int| 0 <= w < m0.len() && (#[trigger] self.fetched@[w])
                implies q.subrange(ih_start(m0, w), ih_end(m0, w))
                    == self.orig_plain@.subrange(ih_start(m0, w), ih_end(m0, w)) by {
                assert(self.chunk_harvested(w));
            }
            lemma_witness_agrees(
                m0,
                self.fetched@,
                self.orig_plain@,
                q,
                0,
                self.orig_plain@.len() as int,
            );
            assert(q.subrange(0, q.len() as int) =~= q);
            assert(self.orig_plain@.subrange(0, q.len() as int) =~= self.orig_plain@);
        }
    }

    /// Flush the session and return the data map that, with the chunks now
    /// in storage, reconstructs the content: nothing for empty content, the
    /// bytes themselves below the chunking threshold, and otherwise the
    /// freshly encoded chunk list.  Inherited storage names that were not
    /// re-created are deleted first.  On failure the storage handle is
    /// handed back with the error, so the caller can try again from the
    /// content.
    #[verifier::rlimit(100)]
    pub fn close(self) -> (r: Result<(DataMap, S), (S, SelfEncryptionError<E>)>)
        requires
            self.wf(),
        ensures
            r matches Ok(t) ==> crate::data_map::spec_map_wf(t.0@),
            self.valid() ==> (r matches Ok(t) ==> t.0@ == datamap_of(self.plain())),
            self.valid() && spec_names_consistent(self.plain()) ==> (r matches Ok(t)
                ==> map_describes(t.0@, t.1.contents(), self.plain())
                    && spec_store_after(
                        self.store(),
                        inherited_names(self.inherited_map()),
                        t.1.contents(),
                        self.plain(),
                    )),
            self.valid() && self.complete() ==> (r is Ok ==> forall|q: Seq<u8>|
                map_describes(self.inherited_map(), self.store(), q)
                ==> q == self.orig_plain()),
            self.inherited_count() == 0 && self.len_spec() < 3 * MIN_CHUNK_SIZE ==> r is Ok,
            self.valid() ==> (r matches Err(t)
                ==> t.1 matches SelfEncryptionError::Storage(_)),
            r matches Err(t) ==> (t.1 matches SelfEncryptionError::Storage(_)
                || t.1 is Decryption || t.1 is Compression),
    {
        let mut this = self;
        let ghost plain = this.plain@;
        match this.ensure_range(0, this.file_size) {
            Ok(()) => {},
            Err(err) => {
                return Err((this.storage, err));
            },
        }
        proof {
            assert forall|i: int| 0 <= i < this.sorted_map@.len()
                implies (#[trigger] this.fetched@[i]) by {
                if !this.fetched@[i] {
                    lemma_ih_end_bound(this.sorted_map@, i);
                    assert(ih_end(this.sorted_map@, i) <= this.file_size);
                    assert(this.sorted_map@[i].source_size > 0);
                }
            }
            if this.valid@ && this.complete@ {
                this.lemma_close_uniqueness();
            }
            if this.valid@ {
                assert forall|j: int| 0 <= j < this.file_size
                    implies (#[trigger] this.sequencer@[j]) == plain[j] by {
                    assert(!this.under_unfetched(j));
                }
            }
        }
        let mut old_names: Vec<Vec<u8>> = Vec::new();
        let mut i: usize = 0;
        while i < this.sorted_map.len()
            invariant
                0 <= i <= this.sorted_map@.len(),
                old_names@.len() == i,
                forall|t: int| 0 <= t < i
                    ==> (#[trigger] old_names@[t])@ == this.sorted_map@[t].hash@,
            decreases this.sorted_map@.len() - i,
        {
            old_names.push(this.sorted_map[i].hash.clone());
            i = i + 1;
        }
        proof {
            assert(old_names@.map_values(|v: Vec<u8>| v@)
                =~= inherited_names(this.inherited_map()));
        }

        if this.file_size == 0 {
            let keep: Vec<ChunkDetails> = Vec::new();
            let ghost store_b = this.storage.contents();
            match delete_stale(&mut this.storage, &old_names, &keep) {
                Ok(()) => {},
                Err(err) => {
                    return Err((this.storage, err));
                },
            }
            proof {
                assert(plain.len() == 0);
                assert(datamap_of(plain) is Empty);
            }

            proof {
                assert(store_b == self.store());
                assert(old_names@.map_values(|v: Vec<u8>| v@)
                    == inherited_names(self.inherited_map()));
                if this.valid@ {
                    assert(spec_num_chunks(plain.len() as u64) == 0);
                    assert(map_describes(datamap_of(plain), this.storage.contents(), plain));
                    assert forall|k: Seq<u8>| self.store().contains_key(k)
                        && !inherited_names(self.inherited_map()).contains(k)
                        && !spec_is_new_name(plain, k)
                        implies (#[trigger] this.storage.contents().contains_key(k))
                            && this.storage.contents()[k] == self.store()[k] by {}
                    assert forall|k: Seq<u8>|
                        (#[trigger] this.storage.contents().contains_key(k))
                        implies self.store().contains_key(k) || spec_is_new_name(plain, k) by {}
                    assert forall|k: Seq<u8>|
                        inherited_names(self.inherited_map()).contains(k)
                        && !spec_is_new_name(plain, k)
                        implies !(#[trigger] this.storage.contents().contains_key(k)) by {
                        assert(!(exists|j: int| 0 <= j < keep@.len()
                            && (#[trigger] keep@[j]).hash@ == k));
                    }
                    assert(spec_store_after(
                        self.store(),
                        inherited_names(self.inherited_map()),
                        this.storage.contents(),
                        plain,
                    ));
                }
            }
            return Ok((DataMap::Empty, this.storage));
        }
        if this.file_size < 3 * MIN_CHUNK_SIZE as u64 {
            let content = crate::sequencer::read_range(
                &this.sequencer,
                0,
                this.file_size as usize,
            );
            let keep: Vec<ChunkDetails> = Vec::new();
            let ghost store_b = this.storage.contents();
            match delete_stale(&mut this.storage, &old_names, &keep) {
                Ok(()) => {},
                Err(err) => {
                    return Err((this.storage, err));
                },
            }
            proof {
                if this.valid@ {
                    assert(content@ =~= plain.subrange(0, plain.len() as int));
                    assert(content@ =~= plain);
                    assert(datamap_of(plain) == DataMapV::Content(plain));
                }
            }

            proof {
                assert(store_b == self.store());
                assert(old_names@.map_values(|v: Vec<u8>| v@)
                    == inherited_names(self.inherited_map()));
                if this.valid@ {
                    assert(spec_num_chunks(plain.len() as u64) == 0);
                    assert(map_describes(datamap_of(plain), this.storage.contents(), plain));
                    assert forall|k: Seq<u8>| self.store().contains_key(k)
                        && !inherited_names(self.inherited_map()).contains(k)
                        && !spec_is_new_name(plain, k)
                        implies (#[trigger] this.storage.contents().contains_key(k))
                            && this.storage.contents()[k] == self.store()[k] by {}
                    assert forall|k: Seq<u8>|
                        (#[trigger] this.storage.contents().contains_key(k))
                        implies self.store().contains_key(k) || spec_is_new_name(plain, k) by {}
                    assert forall|k: Seq<u8>|
                        inherited_names(self.inherited_map()).contains(k)
                        && !spec_is_new_name(plain, k)
                        implies !(#[trigger] this.storage.contents().contains_key(k)) by {
                        assert(!(exists|j: int| 0 <= j < keep@.len()
                            && (#[trigger] keep@[j]).hash@ == k));
                    }
                    assert(spec_store_after(
                        self.store(),
                        inherited_names(self.inherited_map()),
                        this.storage.contents(),
                        plain,
                    ));
                }
            }
            return Ok((DataMap::Content(content), this.storage));
        }

        let fs = this.file_size;
        proof {
            lemma_geometry(fs);
            lemma_chunks_fit(fs);
        }
        let n = crate::geometry::get_num_chunks(fs);
        let ghost seqv = this.sequencer@;

        let mut details: Vec<ChunkDetails> = Vec::new();
        let mut i: u32 = 0;
        while i < n
            invariant
                0 <= i <= n,
                n == spec_num_chunks(fs),
                3 * MIN_CHUNK_SIZE <= fs <= MAX_FILE_SIZE,
                this.sequencer@ == seqv,
                this.sequencer.wf(),
                fs <= seqv.len(),
                details@.len() == i,
                forall|k: int| 0 <= k < i ==> (#[trigger] details@[k]).chunk_index == k,
                forall|k: int| 0 <= k < i
                    ==> (#[trigger] details@[k]).pre_hash@
                        == hash_of(seqv.subrange(spec_chunk_start(fs, k), spec_chunk_end(fs, k))),
                forall|k: int| 0 <= k < i
                    ==> (#[trigger] details@[k]).pre_hash@.len() == HASH_SIZE,
                forall|k: int| 0 <= k < i
                    ==> (#[trigger] details@[k]).source_size == spec_chunk_len(fs, k),
            decreases n - i,
        {
            proof {
                lemma_geometry(fs);
                lemma_chunks_fit(fs);
            }
            let (start, end) = crate::geometry::get_start_end_positions(fs, i);
            proof {
                assert(0 <= start <= end <= fs);
            }
            let content = crate::sequencer::read_range(
                &this.sequencer,
                start as usize,
                end as usize,
            );
            let pre = crate::encryption::hash(content.as_slice());
            details.push(ChunkDetails {
                chunk_index: i,
                pre_hash: pre,
                hash: Vec::new(),
                source_size: end - start,
            });
            proof {
                assert(details@[i as int].pre_hash@
                    == hash_of(seqv.subrange(spec_chunk_start(fs, i as int), spec_chunk_end(fs, i as int))));
            }
            i = i + 1;
        }
        proof {
            if this.valid@ {
                assert(plain.len() == fs);
                assert forall|k: int| 0 <= k < n
                    implies seqv.subrange(spec_chunk_start(fs, k), spec_chunk_end(fs, k))
                        == spec_chunk_slice(plain, k) by {
                    assert(spec_chunk_end(fs, k) <= fs);
                    assert forall|j: int| spec_chunk_start(fs, k) <= j < spec_chunk_end(fs, k)
                        implies seqv[j] == plain[j] by {}
                    assert(seqv.subrange(spec_chunk_start(fs, k), spec_chunk_end(fs, k))
                        =~= plain.subrange(spec_chunk_start(fs, k), spec_chunk_end(fs, k)));
                }
                assert(pre_hashes_of(details@) =~= spec_pre_hashes(plain));
            }
        }

        let ghost store1 = this.storage.contents();
        let ghost valid0 = this.valid@;
        let ghost this0 = this;
        let mut new_details: Vec<ChunkDetails> = Vec::new();
        let mut i: u32 = 0;
        while i < n
            invariant
                0 <= i <= n,
                n == spec_num_chunks(fs),
                fs == self.file_size,
                3 * MIN_CHUNK_SIZE <= fs <= MAX_FILE_SIZE,
                this.sequencer@ == seqv,
                this.sequencer.wf(),
                fs <= seqv.len(),
                this.valid@ == valid0,
                this.plain@ == this0.plain@,
                this.orig_plain@ == this0.orig_plain@,
                this.complete@ == this0.complete@,
                this.sorted_map@ == this0.sorted_map@,
                this.fetched@ == this0.fetched@,
                this.file_size == this0.file_size,
                this.plain@ == plain,
                this.valid@ ==> plain.len() == fs,
                this.valid@ ==> pre_hashes_of(details@) == spec_pre_hashes(plain),
                this.valid@ ==> forall|j: int| 0 <= j < fs
                    ==> (#[trigger] seqv[j]) == plain[j],
                details@.len() == n,
                forall|k: int| 0 <= k < n
                    ==> (#[trigger] details@[k]).pre_hash@.len() == HASH_SIZE,
                forall|k: int| 0 <= k < n
                    ==> (#[trigger] details@[k]).source_size == spec_chunk_len(fs, k),
                forall|k: int| 0 <= k < n ==> (#[trigger] details@[k]).chunk_index == k,
                new_details@.len() == i,
                forall|k: int| 0 <= k < i ==> (#[trigger] new_details@[k]).chunk_index == k,
                forall|k: int| 0 <= k < i
                    ==> (#[trigger] new_details@[k]).pre_hash@ == details@[k].pre_hash@,
                forall|k: int| 0 <= k < i
                    ==> (#[trigger] new_details@[k]).hash@.len() == HASH_SIZE,
                forall|k: int| 0 <= k < i
                    ==> (#[trigger] new_details@[k]).source_size == spec_chunk_len(fs, k),
                this.valid@ ==> forall|k: int| 0 <= k < i
                    ==> (#[trigger] new_details@[k]).hash@
                        == hash_of(spec_chunk_cipher(plain, k)),
                this.valid@ ==> forall|k: int| 0 <= k < i
                    ==> spec_codec_ok(#[trigger] spec_chunk_slice(plain, k)),
                forall|k: Seq<u8>| (#[trigger] this.storage.contents().contains_key(k))
                    ==> store1.contains_key(k)
                        || exists|j: int| 0 <= j < i
                            && (#[trigger] new_details@[j]).hash@ == k,
                forall|k: Seq<u8>| store1.contains_key(k)
                    ==> (#[trigger] this.storage.contents().contains_key(k)),
                forall|k: Seq<u8>| (#[trigger] this.storage.contents().contains_key(k))
                    && !(exists|j: int| 0 <= j < i
                        && (#[trigger] new_details@[j]).hash@ == k)
                    ==> this.storage.contents()[k] == store1[k],
                this.valid@ && spec_names_consistent(plain) ==> forall|j: int| 0 <= j < i
                    ==> this.storage.contents().contains_key(
                            hash_of(#[trigger] spec_chunk_cipher(plain, j)))
                        && this.storage.contents()[hash_of(spec_chunk_cipher(plain, j))]
                            == spec_chunk_cipher(plain, j),
            decreases n - i,
        {
            proof {
                lemma_geometry(fs);
                lemma_chunks_fit(fs);
            }
            let (start, end) = crate::geometry::get_start_end_positions(fs, i);
            proof {
                assert(0 <= start <= end <= fs);
            }
            let content = crate::sequencer::read_range(
                &this.sequencer,
                start as usize,
                end as usize,
            );
            let pad_key_iv = crate::sequential::utils::get_pad_key_and_iv(
                i as usize,
                details.as_slice(),
            );
            let cipher = match crate::sequential::utils::encrypt_chunk::<E>(
                content.as_slice(),
                pad_key_iv,
            ) {
                Ok(c) => c,
                Err(err) => {
                    return Err((this.storage, err));
                },
            };
            let name = crate::encryption::hash(cipher.as_slice());
            proof {
                if this.valid@ {
                    assert(content@ =~= spec_chunk_slice(plain, i as int));
                    assert(cipher@ == spec_chunk_cipher(plain, i as int));
                    assert(name@ == hash_of(spec_chunk_cipher(plain, i as int)));
                }
            }
            let ghost store_pre = this.storage.contents();
            let name_copy = name.clone();
            proof {
                assert(name_copy@ =~= name@);
            }
            let stored = cipher;
            match this.storage.put(name_copy, stored) {
                Ok(()) => {},
                Err(err) => {
                    return Err((this.storage, SelfEncryptionError::Storage(err)));
                },
            }
            proof {
                assert(this.storage.contents() == store_pre.insert(name@, cipher@));
            }
            let ghost nd_pre = new_details@;
            new_details.push(ChunkDetails {
                chunk_index: i,
                pre_hash: details[i as usize].pre_hash.clone(),
                hash: name,
                source_size: end - start,
            });
            proof {
                assert(new_details@.drop_last() == nd_pre);
                assert(new_details@[i as int].hash@ == name@);
                assert(forall|j: int| 0 <= j < i
                    ==> (#[trigger] new_details@[j]) == nd_pre[j]);
                assert forall|k: Seq<u8>|
                    (#[trigger] this.storage.contents().contains_key(k))
                    implies store1.contains_key(k)
                        || exists|j: int| 0 <= j < i + 1
                            && (#[trigger] new_details@[j]).hash@ == k by {
                    if k == name@ {
                        assert(new_details@[i as int].hash@ == k);
                    } else {
                        assert(store_pre.contains_key(k));
                        if !store1.contains_key(k) {
                            let j = choose|j: int| 0 <= j < i
                                && (#[trigger] nd_pre[j]).hash@ == k;
                            assert(new_details@[j].hash@ == k);
                        }
                    }
                }
                assert forall|k: Seq<u8>|
                    (#[trigger] this.storage.contents().contains_key(k))
                    && !(exists|j: int| 0 <= j < i + 1
                        && (#[trigger] new_details@[j]).hash@ == k)
                    implies this.storage.contents()[k] == store1[k] by {
                    assert(k != name@) by {
                        if k == name@ {
                            assert(new_details@[i as int].hash@ == k);
                        }
                    }
                    assert(store_pre.contains_key(k));
                    assert(!(exists|j: int| 0 <= j < i
                        && (#[trigger] nd_pre[j]).hash@ == k)) by {
                        if exists|j: int| 0 <= j < i
                            && (#[trigger] nd_pre[j]).hash@ == k {
                            let j = choose|j: int| 0 <= j < i
                                && (#[trigger] nd_pre[j]).hash@ == k;
                            assert(new_details@[j].hash@ == k);
                        }
                    }
                    assert(this.storage.contents()[k] == store_pre[k]);
                }
                if this.valid@ && spec_names_consistent(plain) {
                    assert forall|j: int| 0 <= j < i + 1
                        implies this.storage.contents().contains_key(
                            hash_of(#[trigger] spec_chunk_cipher(plain, j)))
                            && this.storage.contents()[hash_of(spec_chunk_cipher(plain, j))]
                                == spec_chunk_cipher(plain, j) by {
                        let nj = hash_of(spec_chunk_cipher(plain, j));
                        assert((#[trigger] spec_chunk_record(plain, j)).hash == nj);
                        if j == i as int {
                        } else if nj == name@ {
                            assert(spec_chunk_record(plain, i as int).hash == name@);
                            assert(spec_chunk_cipher(plain, j)
                                == spec_chunk_cipher(plain, i as int));
                        } else {
                            assert(store_pre.contains_key(nj));
                            assert(this.storage.contents()[nj] == store_pre[nj]);
                        }
                    }
                }
            }
            i = i + 1;
        }

        let ghost store2 = this.storage.contents();
        proof {
            assert(store1 == self.store());
            assert(old_names@.map_values(|v: Vec<u8>| v@)
                == inherited_names(self.inherited_map()));
            assert(forall|k: Seq<u8>| store1.contains_key(k)
                ==> (#[trigger] store2.contains_key(k)));
            assert(forall|k: Seq<u8>| (#[trigger] store2.contains_key(k))
                ==> store1.contains_key(k)
                    || exists|j: int| 0 <= j < new_details@.len()
                        && (#[trigger] new_details@[j]).hash@ == k);
            assert(forall|k: Seq<u8>| (#[trigger] store2.contains_key(k))
                && !(exists|j: int| 0 <= j < new_details@.len()
                    && (#[trigger] new_details@[j]).hash@ == k)
                ==> store2[k] == store1[k]);
            if this.valid@ && spec_names_consistent(plain) {
                assert(forall|j: int| 0 <= j < spec_num_chunks(fs)
                    ==> store2.contains_key(hash_of(#[trigger] spec_chunk_cipher(plain, j)))
                        && store2[hash_of(spec_chunk_cipher(plain, j))]
                            == spec_chunk_cipher(plain, j));
            }
        }
        match delete_stale(&mut this.storage, &old_names, &new_details) {
            Ok(()) => {},
            Err(err) => {
                return Err((this.storage, err));
            },
        }

        let result = DataMap::Chunks(new_details);
        proof {
            let views = cd_views(new_details@);
            assert(views.len() == spec_num_chunks(fs));
            assert forall|k: int| 0 <= k < views.len()
                implies (#[trigger] views[k]) == new_details@[k]@ by {}
            lemma_views_sum(fs, views, views.len() as int);
            assert(views.take(views.len() as int) =~= views);
            assert forall|k: int| 0 <= k < views.len()
                implies (#[trigger] views[k]).source_size > 0 by {
                lemma_geometry(fs);
            }
            assert(crate::data_map::spec_map_wf(result@));
            if this.valid@ {
                assert(views =~= spec_chunk_records(plain)) by {
                    assert forall|k: int| 0 <= k < views.len()
                        implies (#[trigger] views[k]) == spec_chunk_record(plain, k) by {
                        assert(new_details@[k].pre_hash@ == details@[k].pre_hash@);
                        assert(details@[k].pre_hash@ == spec_pre_hashes(plain)[k]);
                    }
                }
                assert(result@ matches DataMapV::Chunks(cs) && cs =~= spec_chunk_records(plain));
                assert(result@ =~= datamap_of(plain));
                if spec_names_consistent(plain) {
                    assert forall|k: int| 0 <= k < spec_num_chunks(plain.len() as u64)
                        implies this.storage.contents().contains_key(
                            (#[trigger] spec_chunk_record(plain, k)).hash)
                            && this.storage.contents()[spec_chunk_record(plain, k).hash]
                                == spec_chunk_cipher(plain, k) by {
                        let name = hash_of(spec_chunk_cipher(plain, k));
                        assert(new_details@[k].hash@ == name);
                        assert(exists|j: int| 0 <= j < new_details@.len()
                            && (#[trigger] new_details@[j]).hash@ == name) by {
                            assert(new_details@[k].hash@ == name);
                        }
                        assert(store2.contains_key(name));
                        assert(store2[name] == spec_chunk_cipher(plain, k));
                        assert(this.storage.contents().contains_key(name));
                        assert(this.storage.contents()[name] == store2[name]);
                    }
                    assert(map_describes(result@, this.storage.contents(), plain));
                    assert forall|k: Seq<u8>| self.store().contains_key(k)
                        && !inherited_names(self.inherited_map()).contains(k)
                        && !spec_is_new_name(plain, k)
                        implies (#[trigger] this.storage.contents().contains_key(k))
                            && this.storage.contents()[k] == self.store()[k] by {
                        assert(!(exists|j: int| 0 <= j < new_details@.len()
                            && (#[trigger] new_details@[j]).hash@ == k)) by {
                            if exists|j: int| 0 <= j < new_details@.len()
                                && (#[trigger] new_details@[j]).hash@ == k {
                                let j = choose|j: int| 0 <= j < new_details@.len()
                                    && (#[trigger] new_details@[j]).hash@ == k;
                                assert(k == spec_chunk_record(plain, j).hash);
                            }
                        }
                        assert(store2.contains_key(k));
                        assert(store2[k] == store1[k]);
                        assert(this.storage.contents().contains_key(k));
                        assert(this.storage.contents()[k] == store2[k]);
                    }
                    assert forall|k: Seq<u8>|
                        (#[trigger] this.storage.contents().contains_key(k))
                        implies self.store().contains_key(k) || spec_is_new_name(plain, k) by {
                        if !self.store().contains_key(k) {
                            let j = choose|j: int| 0 <= j < new_details@.len()
                                && (#[trigger] new_details@[j]).hash@ == k;
                            assert(k == spec_chunk_record(plain, j).hash);
                        }
                    }
                    assert forall|k: Seq<u8>|
                        inherited_names(self.inherited_map()).contains(k)
                        && !spec_is_new_name(plain, k)
                        implies !(#[trigger] this.storage.contents().contains_key(k)) by {
                        assert(old_names@.map_values(|v: Vec<u8>| v@).contains(k));
                        assert(!(exists|j: int| 0 <= j < new_details@.len()
                            && (#[trigger] new_details@[j]).hash@ == k)) by {
                            if exists|j: int| 0 <= j < new_details@.len()
                                && (#[trigger] new_details@[j]).hash@ == k {
                                let j = choose|j: int| 0 <= j < new_details@.len()
                                    && (#[trigger] new_details@[j]).hash@ == k;
                                assert(k == spec_chunk_record(plain, j).hash);
                            }
                        }
                    }
                    assert(spec_store_after(
                        self.store(),
                        inherited_names(self.inherited_map()),
                        this.storage.contents(),
                        plain,
                    ));
                }
            }
        }
        Ok((result, this.storage))
    }

    /// Set the content's length to `new_len`: an extension appends zero
    /// bytes, a cut drops everything past the new end.  Inherited chunks
    /// lying wholly beyond the cut are dropped from the map (their storage
    /// names are deleted at close); the chunk holding the cut point is
    /// materialised first.
    #[verifier::rlimit(100)]
    pub fn truncate(&mut self, new_len: u64) -> (r: Result<(), SelfEncryptionError<E>>)
        requires
            old(self).wf(),
        ensures
            final(self).wf(),
            final(self).orig_plain() == old(self).orig_plain(),
            final(self).valid() == old(self).valid(),
            final(self).inherited_map() == old(self).inherited_map(),
            final(self).store() == old(self).store(),
            (r matches Err(e) && e is Argument) <==> new_len > MAX_FILE_SIZE,
            old(self).inherited_count() == 0
                && new_len <= crate::sequencer::MAX_IN_MEMORY_SIZE
                ==> r is Ok,
            r is Err ==> final(self).plain() == old(self).plain()
                && final(self).len_spec() == old(self).len_spec()
                && final(self).complete() == old(self).complete(),
            r is Ok ==> final(self).len_spec() == new_len,
            r is Ok && new_len >= old(self).len_spec()
                ==> final(self).plain() == old(self).plain()
                    + Seq::new((new_len - old(self).len_spec()) as nat, |k: int| 0u8)
                && final(self).complete() == old(self).complete(),
            r is Ok && new_len < old(self).len_spec()
                ==> final(self).plain() == old(self).plain().take(new_len as int),
            r matches Err(e) ==> (e is Argument || e is Io
                || e matches SelfEncryptionError::Storage(_)
                || e is Decryption || e is Compression),
            old(self).valid() ==> (r matches Err(e) ==> (e is Argument || e is Io
                || e matches SelfEncryptionError::Storage(_))),
    {
        if new_len > MAX_FILE_SIZE as u64 {
            return Err(SelfEncryptionError::Argument);
        }
        if new_len >= self.file_size {
            return self.grow_to(new_len);
        }
        match self.ensure_range(new_len, new_len + 1) {
            Ok(()) => {},
            Err(err) => {
                return Err(err);
            },
        }
        let ghost mid = *self;
        let ghost plain1 = self.plain@;
        let n = self.sorted_map.len();
        let mut i: usize = 0;
        while i < n
            invariant
                0 <= i <= n,
                n == mid.sorted_map@.len(),
                mid.wf(),
                new_len < mid.file_size,
                self.file_size == mid.file_size,
                self.sorted_map@ == mid.sorted_map@,
                self.sequencer == mid.sequencer,
                self.storage == mid.storage,
                self.plain@ == mid.plain@,
                self.orig_plain@ == mid.orig_plain@,
                self.valid@ == mid.valid@,
                self.fetched@.len() == n,
                forall|k: int| 0 <= k < n && (#[trigger] mid.fetched@[k]) ==> self.fetched@[k],
                forall|k: int| 0 <= k < n && (#[trigger] self.fetched@[k])
                    ==> mid.fetched@[k] || ih_end(mid.sorted_map@, k) > new_len,
                forall|k: int| 0 <= k < i && ih_end(mid.sorted_map@, k) > new_len
                    ==> (#[trigger] self.fetched@[k]),
                self.complete@ ==> mid.complete@,
                self.valid@ && self.complete@ ==> forall|k: int| 0 <= k < n
                    && (#[trigger] self.fetched@[k]) ==> mid.chunk_harvested(k),
            decreases n - i,
        {
            let s = self.inherited_start(i);
            let e = self.inherited_start(i + 1);
            proof {
                let views = cd_views(mid.sorted_map@);
                assert(views.take(i + 1).drop_last() =~= views.take(i as int));
                assert(views.take(i + 1).last() == views[i as int]);
                assert(views[i as int] == mid.sorted_map@[i as int]@);
                assert(e == ih_end(mid.sorted_map@, i as int));
            }
            if e > new_len {
                if !self.fetched[i] {
                    self.fetched.set(i, true);
                    self.complete = Ghost(false);
                }
            }
            i = i + 1;
        }
        self.sequencer.truncate(new_len as usize);
        self.file_size = new_len;
        self.plain = Ghost(plain1.take(new_len as int));
        proof {
            let new_self = *self;
            assert(new_self.plain@.len() == new_len);
            if new_self.valid@ {
                assert forall|j: int| 0 <= j < new_len && !new_self.under_unfetched(j)
                    implies (#[trigger] new_self.sequencer@[j]) == new_self.plain@[j] by {
                    if mid.under_unfetched(j) {
                        let w = choose|w: int| 0 <= w < mid.sorted_map@.len()
                            && !(#[trigger] mid.fetched@[w])
                            && ih_start(mid.sorted_map@, w) <= j < ih_end(mid.sorted_map@, w);
                        assert(!new_self.fetched@[w]) by {
                            if new_self.fetched@[w] {
                                assert(ih_end(mid.sorted_map@, w) > new_len);
                            }
                        }
                        assert(new_self.under_unfetched(j));
                    }
                    if mid.sequencer.is_vector() {
                        assert(new_self.sequencer@[j] == mid.sequencer@[j]);
                    }
                    assert(mid.sequencer@[j] == plain1[j]);
                }
                assert forall|w: int| 0 <= w < n && !(#[trigger] new_self.fetched@[w])
                    implies ih_end(new_self.sorted_map@, w) <= new_len
                        && new_self.plain@.subrange(
                            ih_start(new_self.sorted_map@, w),
                            ih_end(new_self.sorted_map@, w),
                        ) == new_self.orig_plain@.subrange(
                            ih_start(new_self.sorted_map@, w),
                            ih_end(new_self.sorted_map@, w),
                        ) && new_self.chunk_recoverable(w) by {
                    let m0 = new_self.sorted_map@;
                    let s = ih_start(m0, w);
                    let e = ih_end(m0, w);
                    assert(!mid.fetched@[w]);
                    assert(e <= new_len);
                    lemma_ih_end_bound(m0, w);
                    assert(new_self.plain@.subrange(s, e) =~= plain1.subrange(s, e));
                    assert(mid.chunk_recoverable(w));
                }
                if new_self.complete@ {
                    assert forall|w: int| 0 <= w < n && (#[trigger] new_self.fetched@[w])
                        implies new_self.chunk_harvested(w) by {
                        assert(mid.chunk_harvested(w));
                    }
                }
            }
        }
        Ok(())
    }

    /// Return exactly `length` bytes of the content starting at `position`.
    /// Chunks whose range the request touches are fetched and decoded first;
    /// a request past the end of the content is rejected.
    #[verifier::rlimit(100)]
    pub fn read(&mut self, position: u64, length: u64) -> (r: Result<
        Vec<u8>,
        SelfEncryptionError<E>,
    >)
        requires
            old(self).wf(),
        ensures
            final(self).wf(),
            final(self).plain() == old(self).plain(),
            final(self).orig_plain() == old(self).orig_plain(),
            final(self).valid() == old(self).valid(),
            final(self).complete() == old(self).complete(),
            final(self).len_spec() == old(self).len_spec(),
            final(self).inherited_map() == old(self).inherited_map(),
            final(self).store() == old(self).store(),
            forall|i: int| 0 <= i < old(self).inherited_count()
                && (#[trigger] final(self).chunk_materialised(i))
                ==> old(self).chunk_materialised(i)
                    || (ih_start(final(self).inherited_chunks(), i) < position + length
                        && ih_end(final(self).inherited_chunks(), i) > position),
            position + length > old(self).plain().len()
                ==> (r matches Err(e) && e is Argument),
            r matches Ok(v) ==> position + length <= old(self).plain().len()
                && v@.len() == length,
            old(self).valid() ==> (r matches Ok(v)
                ==> v@ == old(self).plain().subrange(
                    position as int,
                    position as int + length as int,
                )),
            old(self).valid() && position + length <= old(self).plain().len()
                ==> (r is Ok || (r matches Err(e) && e matches SelfEncryptionError::Storage(_))),
            old(self).valid() && old(self).complete()
                && old(self).plain() == old(self).orig_plain()
                ==> (r matches Ok(v) ==> forall|p: Seq<u8>|
                    map_describes(old(self).inherited_map(), old(self).store(), p)
                    ==> v@ == #[trigger] p.subrange(
                        position as int,
                        position as int + length as int,
                    )),
    {
        if position > self.file_size || length > self.file_size - position {
            return Err(SelfEncryptionError::Argument);
        }
        match self.ensure_range(position, position + length) {
            Ok(()) => {},
            Err(err) => {
                return Err(err);
            },
        }
        let ghost m0 = self.sorted_map@;
        let data = crate::sequencer::read_range(
            &self.sequencer,
            position as usize,
            (position + length) as usize,
        );
        proof {
            if self.valid@ {
                assert forall|j: int| position <= j < position + length
                    implies self.sequencer@[j] == self.plain@[j] by {
                    if self.under_unfetched(j) {
                        let w = choose|w: int| 0 <= w < m0.len()
                            && !(#[trigger] self.fetched@[w])
                            && ih_start(m0, w) <= j < ih_end(m0, w);
                        assert(ih_start(m0, w) < position + length);
                        assert(ih_end(m0, w) > position);
                        assert(self.fetched@[w]);
                    }
                }
                assert(data@ =~= self.plain@.subrange(
                    position as int,
                    position as int + length as int,
                ));
                if self.complete@ && self.plain@ == self.orig_plain@ {
                    self.lemma_read_agrees(position as int, length as int, data@);
                }
            }
        }
        Ok(data)
    }
}

/// The records of `plain`'s chunks sum, prefix by prefix, to the chunk
/// starts, and in total to the content length.
pub proof fn lemma_records_sum(plain: Seq<u8>, i: int)
    requires
        3 * MIN_CHUNK_SIZE <= plain.len() <= MAX_FILE_SIZE,
        0 <= i <= spec_num_chunks(plain.len() as u64),
    ensures
        spec_sum_sizes(spec_chunk_records(plain).take(i))
            == if i < spec_num_chunks(plain.len() as u64) {
                spec_chunk_start(plain.len() as u64, i)
            } else {
                plain.len() as int
            },
    decreases i,
{
    let fs = plain.len() as u64;
    let n = spec_num_chunks(fs);
    lemma_geometry(fs);
    lemma_chunks_fit(fs);
    if i == 0 {
        assert(spec_chunk_records(plain).take(0) =~= Seq::<ChunkDetailsV>::empty());
    } else {
        lemma_records_sum(plain, i - 1);
        let taken = spec_chunk_records(plain).take(i);
        assert(taken.drop_last() =~= spec_chunk_records(plain).take(i - 1));
        assert(taken.last() == spec_chunk_record(plain, i - 1));
        assert(spec_chunk_end(fs, i - 1)
            == spec_chunk_start(fs, i - 1) + spec_chunk_len(fs, i - 1));
    }
}

} // verus!
