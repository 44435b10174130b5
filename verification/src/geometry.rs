//! Chunk geometry: the deterministic partition of a plaintext length into
//! chunks.  This is the single source of truth for both the write and the
//! read paths.
//!
//! For a length below `3 * MIN_CHUNK_SIZE` there are no chunks.  Up to
//! `3 * MAX_CHUNK_SIZE` the content is split into exactly three chunks of a
//! third each, the last absorbing the remainder.  Above that, every chunk has
//! `MAX_CHUNK_SIZE` bytes and the last absorbs the remainder, so its length
//! lies in `[MAX_CHUNK_SIZE, 2 * MAX_CHUNK_SIZE)`.

use vstd::prelude::*;
use vstd::arithmetic::div_mod::{lemma_fundamental_div_mod, lemma_div_is_ordered};
use vstd::arithmetic::mul::{lemma_mul_inequality, lemma_mul_is_distributive_add_other_way};
use crate::{MAX_CHUNK_SIZE, MIN_CHUNK_SIZE, MAX_FILE_SIZE};

verus! {

/// The number of chunks a plaintext of `file_size` bytes is split into.
pub open spec fn spec_num_chunks(file_size: u64) -> int {
    if file_size < 3 * MIN_CHUNK_SIZE {
        0
    } else if file_size <= 3 * MAX_CHUNK_SIZE {
        3
    } else {
        file_size as int / MAX_CHUNK_SIZE as int
    }
}

/// The length shared by every chunk except possibly the last.
pub open spec fn spec_standard_len(file_size: u64) -> int {
    if file_size <= 3 * MAX_CHUNK_SIZE {
        file_size as int / 3
    } else {
        MAX_CHUNK_SIZE as int
    }
}

/// The length of chunk `index`: the standard length for every chunk but the
/// last, which absorbs the remainder.
pub open spec fn spec_chunk_len(file_size: u64, index: int) -> int {
    if index + 1 == spec_num_chunks(file_size) {
        file_size - (spec_num_chunks(file_size) - 1) * spec_standard_len(file_size)
    } else {
        spec_standard_len(file_size)
    }
}

/// The plaintext offset at which chunk `index` starts.
pub open spec fn spec_chunk_start(file_size: u64, index: int) -> int {
    index * spec_standard_len(file_size)
}

/// The plaintext offset just past the end of chunk `index`.
pub open spec fn spec_chunk_end(file_size: u64, index: int) -> int {
    spec_chunk_start(file_size, index) + spec_chunk_len(file_size, index)
}

/// Return the number of chunks for a plaintext of `file_size` bytes.
pub fn get_num_chunks(file_size: u64) -> (n: u32)
    requires
        file_size <= MAX_FILE_SIZE,
    ensures
        n == spec_num_chunks(file_size),
{
    if file_size < 3 * MIN_CHUNK_SIZE as u64 {
        0
    } else if file_size <= 3 * MAX_CHUNK_SIZE as u64 {
        3
    } else {
        proof {
            lemma_div_is_ordered(file_size as int, MAX_FILE_SIZE as int, MAX_CHUNK_SIZE as int);
            lemma_fundamental_div_mod(file_size as int, MAX_CHUNK_SIZE as int);
        }
        (file_size / MAX_CHUNK_SIZE as u64) as u32
    }
}

/// Return the length of chunk `chunk_index` for a plaintext of `file_size` bytes.
pub fn get_chunk_size(file_size: u64, chunk_index: u32) -> (size: u32)
    requires
        file_size <= MAX_FILE_SIZE,
        0 <= chunk_index < spec_num_chunks(file_size),
    ensures
        size == spec_chunk_len(file_size, chunk_index as int),
{
    proof {
        lemma_geometry(file_size);
    }
    let n = get_num_chunks(file_size);
    let standard: u64 = if file_size <= 3 * MAX_CHUNK_SIZE as u64 {
        file_size / 3
    } else {
        MAX_CHUNK_SIZE as u64
    };
    if chunk_index + 1 == n {
        proof {
            lemma_chunks_fit(file_size);
        }
        (file_size - (n as u64 - 1) * standard) as u32
    } else {
        standard as u32
    }
}

/// Return the start (inclusive) and end (exclusive) plaintext offsets of
/// chunk `chunk_index` for a plaintext of `file_size` bytes.
pub fn get_start_end_positions(file_size: u64, chunk_index: u32) -> (r: (u64, u64))
    requires
        file_size <= MAX_FILE_SIZE,
        0 <= chunk_index < spec_num_chunks(file_size),
    ensures
        r.0 == spec_chunk_start(file_size, chunk_index as int),
        r.1 == spec_chunk_end(file_size, chunk_index as int),
{
    proof {
        lemma_geometry(file_size);
        lemma_chunks_fit(file_size);
    }
    let standard: u64 = if file_size <= 3 * MAX_CHUNK_SIZE as u64 {
        file_size / 3
    } else {
        MAX_CHUNK_SIZE as u64
    };
    proof {
        lemma_mul_inequality(
            chunk_index as int,
            spec_num_chunks(file_size) - 1,
            spec_standard_len(file_size),
        );
    }
    let start = chunk_index as u64 * standard;
    let size = get_chunk_size(file_size, chunk_index);
    (start, start + size as u64)
}

/// Return the index of the chunk whose range contains plaintext offset
/// `position`; the last chunk covers everything from its start on.
pub fn get_chunk_number(file_size: u64, position: u64) -> (index: u32)
    requires
        file_size <= MAX_FILE_SIZE,
        spec_num_chunks(file_size) > 0,
        position < file_size,
    ensures
        0 <= index < spec_num_chunks(file_size),
        spec_chunk_start(file_size, index as int) <= position
            < spec_chunk_end(file_size, index as int),
{
    proof {
        lemma_geometry(file_size);
        lemma_chunks_fit(file_size);
    }
    let n = get_num_chunks(file_size);
    let standard: u64 = if file_size <= 3 * MAX_CHUNK_SIZE as u64 {
        file_size / 3
    } else {
        MAX_CHUNK_SIZE as u64
    };
    let quotient = position / standard;
    proof {
        lemma_fundamental_div_mod(position as int, standard as int);
    }
    if quotient >= n as u64 - 1 {
        proof {
            lemma_mul_inequality(
                n as int - 1,
                quotient as int,
                spec_standard_len(file_size),
            );
        }
        n - 1
    } else {
        proof {
            lemma_mul_is_distributive_add_other_way(
                spec_standard_len(file_size),
                quotient as int,
                1,
            );
        }
        quotient as u32
    }
}

/// The facts that make the partition a partition: at least three chunks, all
/// but the last of the standard length, and the last absorbing the remainder
/// so that the lengths are adjacent and sum to the whole.
pub proof fn lemma_geometry(file_size: u64)
    requires
        3 * MIN_CHUNK_SIZE <= file_size <= MAX_FILE_SIZE,
    ensures
        spec_num_chunks(file_size) >= 3,
        spec_standard_len(file_size) >= MIN_CHUNK_SIZE,
        spec_standard_len(file_size) <= MAX_CHUNK_SIZE,
        forall|i: int| 0 <= i && i + 1 < spec_num_chunks(file_size)
            ==> spec_chunk_len(file_size, i) == spec_standard_len(file_size),
        spec_standard_len(file_size)
            <= spec_chunk_len(file_size, spec_num_chunks(file_size) - 1)
            < 2 * spec_standard_len(file_size),
        spec_chunk_end(file_size, spec_num_chunks(file_size) - 1) == file_size,
{
    let n = spec_num_chunks(file_size);
    let std_len = spec_standard_len(file_size);
    let fs = file_size as int;
    if file_size <= 3 * MAX_CHUNK_SIZE {
        lemma_fundamental_div_mod(fs, 3);
        assert(std_len >= MIN_CHUNK_SIZE) by {
            lemma_div_is_ordered(3 * MIN_CHUNK_SIZE as int, fs, 3);
            assert((3 * MIN_CHUNK_SIZE as int) / 3 == MIN_CHUNK_SIZE as int);
        }
        assert(spec_chunk_end(file_size, 2) == 2 * std_len + (fs - 2 * std_len));
    } else {
        lemma_fundamental_div_mod(fs, MAX_CHUNK_SIZE as int);
        assert(n >= 3) by {
            lemma_div_is_ordered(3 * MAX_CHUNK_SIZE as int, fs, MAX_CHUNK_SIZE as int);
            assert((3 * MAX_CHUNK_SIZE as int) / MAX_CHUNK_SIZE as int == 3);
        }
        assert(fs - (n - 1) * std_len == fs % MAX_CHUNK_SIZE as int + std_len) by {
            lemma_mul_is_distributive_add_other_way(std_len, n, -1);
        }
        assert(spec_chunk_end(file_size, n - 1) == (n - 1) * std_len + (fs - (n - 1) * std_len));
    }
}

/// Every chunk lies within the plaintext: starts grow with the index and the
/// end of each chunk stays at or below `file_size`.
pub proof fn lemma_chunks_fit(file_size: u64)
    requires
        3 * MIN_CHUNK_SIZE <= file_size <= MAX_FILE_SIZE,
    ensures
        forall|i: int| 0 <= i < spec_num_chunks(file_size)
            ==> spec_chunk_start(file_size, i) + spec_chunk_len(file_size, i) <= file_size,
        forall|i: int| 0 <= i < spec_num_chunks(file_size)
            ==> spec_chunk_end(file_size, i)
                == spec_chunk_start(file_size, i + 1)
                || i + 1 == spec_num_chunks(file_size),
{
    let n = spec_num_chunks(file_size);
    let std_len = spec_standard_len(file_size);
    let fs = file_size as int;
    lemma_geometry(file_size);
    assert forall|i: int| 0 <= i < n
        implies spec_chunk_start(file_size, i) + spec_chunk_len(file_size, i) <= file_size by {
        if i + 1 == n {
            assert(spec_chunk_end(file_size, n - 1) == fs);
        } else {
            assert(spec_chunk_start(file_size, i) + spec_chunk_len(file_size, i)
                == (i + 1) * std_len) by {
                lemma_mul_is_distributive_add_other_way(std_len, i, 1);
            }
            lemma_mul_inequality(i + 1, n - 1, std_len);
            assert((n - 1) * std_len <= fs);
        }
    }
    assert forall|i: int| 0 <= i < n && i + 1 < n
        implies spec_chunk_end(file_size, i) == spec_chunk_start(file_size, i + 1) by {
        lemma_mul_is_distributive_add_other_way(std_len, i, 1);
    }
}

} // verus!
