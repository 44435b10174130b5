//! The data map: the small value returned by `close` that records what is
//! needed to reconstruct, verify and randomly access the original content.

use vstd::prelude::*;
use crate::MAX_FILE_SIZE;
use crate::sequential::HASH_SIZE;

verus! {

/// Holds the information about a chunk that is required to recover it.
pub struct ChunkDetails {
    /// The index of this chunk within the content.
    pub chunk_index: u32,
    /// The hash of the chunk's plaintext.
    pub pre_hash: Vec<u8>,
    /// The hash of the chunk's ciphertext: its storage name.
    pub hash: Vec<u8>,
    /// The length of the chunk's plaintext in bytes.
    pub source_size: u64,
}

/// The mathematical view of a `ChunkDetails`.
#[verifier::ext_equal]
pub struct ChunkDetailsV {
    /// The index of this chunk within the content.
    pub chunk_index: u32,
    /// The hash of the chunk's plaintext.
    pub pre_hash: Seq<u8>,
    /// The hash of the chunk's ciphertext: its storage name.
    pub hash: Seq<u8>,
    /// The length of the chunk's plaintext in bytes.
    pub source_size: u64,
}

impl View for ChunkDetails {
    type V = ChunkDetailsV;

    open spec fn view(&self) -> ChunkDetailsV {
        ChunkDetailsV {
            chunk_index: self.chunk_index,
            pre_hash: self.pre_hash@,
            hash: self.hash@,
            source_size: self.source_size,
        }
    }
}

impl Clone for ChunkDetails {
    fn clone(&self) -> (r: Self)
        ensures
            r@ == self@,
    {
        ChunkDetails {
            chunk_index: self.chunk_index,
            pre_hash: self.pre_hash.clone(),
            hash: self.hash.clone(),
            source_size: self.source_size,
        }
    }
}

/// The record identifying the chunks (or holding small inline content)
/// needed to reconstruct a piece of self-encrypted content.
pub enum DataMap {
    /// Empty content, length 0.
    Empty,
    /// The entire content inline: used when it is too short to chunk.
    Content(Vec<u8>),
    /// The list of the content's chunks, ordered by `chunk_index`.
    Chunks(Vec<ChunkDetails>),
}

/// The mathematical view of a `DataMap`.
#[verifier::ext_equal]
pub enum DataMapV {
    /// Empty content, length 0.
    Empty,
    /// The entire content inline.
    Content(Seq<u8>),
    /// The views of the content's chunks, in order.
    Chunks(Seq<ChunkDetailsV>),
}

impl View for DataMap {
    type V = DataMapV;

    open spec fn view(&self) -> DataMapV {
        match self {
            DataMap::Empty => DataMapV::Empty,
            DataMap::Content(content) => DataMapV::Content(content@),
            DataMap::Chunks(chunks) => DataMapV::Chunks(
                chunks@.map_values(|cd: ChunkDetails| cd@),
            ),
        }
    }
}

/// The total plaintext length that a sequence of chunk views records.
pub open spec fn spec_sum_sizes(chunks: Seq<ChunkDetailsV>) -> int
    decreases chunks.len(),
{
    if chunks.len() == 0 {
        0
    } else {
        spec_sum_sizes(chunks.drop_last()) + chunks.last().source_size
    }
}

/// The plaintext length a data map view records.
pub open spec fn spec_map_len(m: DataMapV) -> int {
    match m {
        DataMapV::Empty => 0,
        DataMapV::Content(content) => content.len() as int,
        DataMapV::Chunks(chunks) => spec_sum_sizes(chunks),
    }
}

/// A well-formed data map: indices dense and in order, hashes of the hash
/// length, and a total length a file may have.
pub open spec fn spec_map_wf(m: DataMapV) -> bool {
    match m {
        DataMapV::Empty => true,
        DataMapV::Content(content) => 0 < content.len() < 3 * crate::MIN_CHUNK_SIZE,
        DataMapV::Chunks(chunks) => {
            &&& chunks.len() >= 3
            &&& spec_sum_sizes(chunks) <= MAX_FILE_SIZE
            &&& forall|i: int| 0 <= i < chunks.len() ==> (#[trigger] chunks[i]).chunk_index == i
            &&& forall|i: int| 0 <= i < chunks.len() ==> (#[trigger] chunks[i]).pre_hash.len() == HASH_SIZE
            &&& forall|i: int| 0 <= i < chunks.len() ==> (#[trigger] chunks[i]).hash.len() == HASH_SIZE
            &&& forall|i: int| 0 <= i < chunks.len() ==> (#[trigger] chunks[i]).source_size > 0
        },
    }
}

/// Every prefix sum of chunk sizes lies between 0 and the total.
pub proof fn lemma_sum_sizes_bounds(chunks: Seq<ChunkDetailsV>, i: int)
    requires
        0 <= i <= chunks.len(),
    ensures
        0 <= spec_sum_sizes(chunks.take(i)) <= spec_sum_sizes(chunks),
    decreases chunks.len(),
{
    if chunks.len() > 0 {
        if i == chunks.len() {
            assert(chunks.take(i) == chunks);
            lemma_sum_sizes_bounds(chunks.drop_last(), chunks.len() - 1);
        } else {
            lemma_sum_sizes_bounds(chunks.drop_last(), i);
            assert(chunks.take(i) == chunks.drop_last().take(i));
        }
    }
}

impl Clone for DataMap {
    fn clone(&self) -> (r: Self)
        ensures
            r@ == self@,
    {
        match self {
            DataMap::Empty => DataMap::Empty,
            DataMap::Content(content) => DataMap::Content(content.clone()),
            DataMap::Chunks(chunks) => {
                let mut copies: Vec<ChunkDetails> = Vec::new();
                let mut i: usize = 0;
                while i < chunks.len()
                    invariant
                        0 <= i <= chunks@.len(),
                        copies@.len() == i,
                        forall|j: int| 0 <= j < i
                            ==> (#[trigger] copies@[j])@ == chunks@[j]@,
                    decreases chunks@.len() - i,
                {
                    copies.push(chunks[i].clone());
                    i = i + 1;
                }
                proof {
                    assert(copies@.map_values(|cd: ChunkDetails| cd@)
                        =~= chunks@.map_values(|cd: ChunkDetails| cd@));
                }
                DataMap::Chunks(copies)
            },
        }
    }
}

impl DataMap {
    /// The length of the content this map records.
    pub fn len(&self) -> (r: u64)
        requires
            spec_map_wf(self@),
        ensures
            r == spec_map_len(self@),
    {
        match self {
            DataMap::Empty => 0,
            DataMap::Content(content) => content.len() as u64,
            DataMap::Chunks(chunks) => {
                let mut total: u64 = 0;
                let ghost views = chunks@.map_values(|cd: ChunkDetails| cd@);
                let mut i: usize = 0;
                proof {
                    assert(views.take(0) =~= Seq::<ChunkDetailsV>::empty());
                }
                while i < chunks.len()
                    invariant
                        0 <= i <= chunks.len(),
                        views == chunks@.map_values(|cd: ChunkDetails| cd@),
                        spec_map_wf(DataMapV::Chunks(views)),
                        total == spec_sum_sizes(views.take(i as int)),
                    decreases chunks.len() - i,
                {
                    proof {
                        lemma_sum_sizes_bounds(views, i + 1);
                        assert(views.take(i + 1).drop_last() =~= views.take(i as int));
                        assert(views.take(i + 1).last() == views[i as int]);
                    }
                    total = total + chunks[i].source_size;
                    i = i + 1;
                }
                proof {
                    assert(views.take(chunks@.len() as int) =~= views);
                }
                total
            },
        }
    }

    /// Whether this map holds a chunk list.
    pub fn has_chunks(&self) -> (r: bool)
        ensures
            r == (self@ is Chunks),
    {
        match self {
            DataMap::Chunks(_) => true,
            _ => false,
        }
    }

    /// Whether this map is well formed: the shape every map this library
    /// returns has.  A caller that obtains a map from elsewhere (a file, the
    /// network) checks it with this before opening a session over it.
    pub fn is_valid(&self) -> (r: bool)
        ensures
            r == spec_map_wf(self@),
    {
        match self {
            DataMap::Empty => true,
            DataMap::Content(content) => {
                0 < content.len() && content.len() < 3 * crate::MIN_CHUNK_SIZE as usize
            },
            DataMap::Chunks(chunks) => {
                let ghost views = chunks@.map_values(|cd: ChunkDetails| cd@);
                proof {
                    assert(self@ =~= DataMapV::Chunks(views));
                }
                if chunks.len() < 3 {
                    return false;
                }
                let mut total: u64 = 0;
                let mut i: usize = 0;
                proof {
                    assert(views.take(0) =~= Seq::<ChunkDetailsV>::empty());
                }
                while i < chunks.len()
                    invariant
                        0 <= i <= chunks@.len(),
                        views == chunks@.map_values(|cd: ChunkDetails| cd@),
                        self@ == DataMapV::Chunks(views),
                        views.len() >= 3,
                        total == spec_sum_sizes(views.take(i as int)),
                        total <= MAX_FILE_SIZE,
                        forall|k: int| 0 <= k < i ==> (#[trigger] views[k]).chunk_index == k,
                        forall|k: int| 0 <= k < i
                            ==> (#[trigger] views[k]).pre_hash.len() == HASH_SIZE,
                        forall|k: int| 0 <= k < i
                            ==> (#[trigger] views[k]).hash.len() == HASH_SIZE,
                        forall|k: int| 0 <= k < i ==> (#[trigger] views[k]).source_size > 0,
                    decreases chunks@.len() - i,
                {
                    proof {
                        assert(views[i as int] == chunks@[i as int]@);
                    }
                    let chunk = &chunks[i];
                    if chunk.chunk_index as usize != i
                        || chunk.pre_hash.len() != HASH_SIZE
                        || chunk.hash.len() != HASH_SIZE
                        || chunk.source_size == 0
                    {
                        proof {
                            if spec_map_wf(self@) {
                                assert(views[i as int].chunk_index == i as int);
                                assert(views[i as int].pre_hash.len() == HASH_SIZE);
                                assert(views[i as int].hash.len() == HASH_SIZE);
                                assert(views[i as int].source_size > 0);
                            }
                        }
                        return false;
                    }
                    if chunk.source_size > MAX_FILE_SIZE as u64 - total {
                        proof {
                            lemma_sum_sizes_bounds(views, i + 1);
                            assert(views.take(i + 1).drop_last() =~= views.take(i as int));
                            assert(views.take(i + 1).last() == views[i as int]);
                            if spec_map_wf(self@) {
                                assert(spec_sum_sizes(views) <= MAX_FILE_SIZE);
                            }
                        }
                        return false;
                    }
                    proof {
                        assert(views.take(i + 1).drop_last() =~= views.take(i as int));
                        assert(views.take(i + 1).last() == views[i as int]);
                    }
                    total = total + chunk.source_size;
                    i = i + 1;
                }
                proof {
                    assert(views.take(chunks@.len() as int) =~= views);
                }
                true
            },
        }
    }
}

} // verus!
