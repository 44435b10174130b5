//! A file content self-encryptor.
//!
//! Convergent encryption of byte content: the content is split into chunks,
//! each chunk is compressed, encrypted and obfuscated with material derived
//! from the hashes of its neighbour chunks, and stored under the hash of its
//! own ciphertext.  A small `DataMap` records what is needed to reconstruct,
//! verify and randomly access the original bytes.

use vstd::prelude::*;

pub mod data_map;
pub mod encryption;
pub mod error;
pub mod geometry;
pub mod self_encryptor;
pub mod sequencer;
pub mod sequential;
pub mod storage;
pub mod test_helpers;

pub use crate::data_map::{ChunkDetails, DataMap};
pub use crate::error::SelfEncryptionError;
pub use crate::self_encryptor::SelfEncryptor;
pub use crate::sequential::encryptor::Encryptor as SequentialEncryptor;
pub use crate::storage::{Storage, StorageError};

verus! {

/// The maximum size of file which can be self-encrypted, defined as 1GB.
pub const MAX_FILE_SIZE: usize = 1024 * 1024 * 1024;
/// The maximum size (before compression) of an individual chunk of the file, defined as 1MB.
pub const MAX_CHUNK_SIZE: u32 = 1024 * 1024;
/// The minimum size (before compression) of an individual chunk of the file, defined as 1kB.
pub const MIN_CHUNK_SIZE: u32 = 1024;
/// Controls the compression-speed vs compression-density tradeoffs.  The higher the quality, the
/// slower the compression.  Range is 0 to 11.
pub const COMPRESSION_QUALITY: i32 = 6;

} // verus!
