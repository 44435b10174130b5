//! Unit tests of the geometry, the pipeline, the data map and the simple
//! store.

use self_encryption::data_map::{ChunkDetails, DataMap};
use self_encryption::encryption::hash;
use self_encryption::geometry::{
    get_chunk_number, get_chunk_size, get_num_chunks, get_start_end_positions,
};
use self_encryption::sequential::utils::{
    decrypt_chunk, encrypt_chunk, get_pad_key_and_iv, make_random_pieces, xor,
};
use self_encryption::sequential::{Iv, Key, Pad, HASH_SIZE, IV_SIZE, KEY_SIZE, PAD_SIZE};
use self_encryption::test_helpers::{SimpleStorage, SimpleStorageError};
use self_encryption::{SelfEncryptionError, Storage};

const MIB: u64 = 1024 * 1024;

#[test]
fn num_chunks_by_length() {
    assert_eq!(get_num_chunks(0), 0);
    assert_eq!(get_num_chunks(3071), 0);
    assert_eq!(get_num_chunks(3072), 3);
    assert_eq!(get_num_chunks(3 * MIB), 3);
    assert_eq!(get_num_chunks(3 * MIB + 1), 3);
    assert_eq!(get_num_chunks(4 * MIB), 4);
    assert_eq!(get_num_chunks(4 * MIB + 1), 4);
    assert_eq!(get_num_chunks(5 * MIB - 1), 4);
    assert_eq!(get_num_chunks(1024 * MIB), 1024);
}

#[test]
fn chunk_sizes_by_length() {
    assert_eq!(get_chunk_size(3072, 0), 1024);
    assert_eq!(get_chunk_size(3072, 2), 1024);
    assert_eq!(get_chunk_size(3100, 0), 1033);
    assert_eq!(get_chunk_size(3100, 2), 1034);
    assert_eq!(get_chunk_size(4 * MIB as u64 + 7, 0), MIB as u32);
    assert_eq!(get_chunk_size(4 * MIB as u64 + 7, 3), MIB as u32 + 7);
}

#[test]
fn chunk_positions_partition_the_content() {
    for len in [3072u64, 3100, 3 * MIB, 4 * MIB + 7] {
        let n = get_num_chunks(len);
        let mut expected_start = 0u64;
        for i in 0..n {
            let (start, end) = get_start_end_positions(len, i);
            assert_eq!(start, expected_start);
            assert_eq!(end - start, get_chunk_size(len, i) as u64);
            expected_start = end;
        }
        assert_eq!(expected_start, len);
    }
}

#[test]
fn chunk_number_finds_covering_chunk() {
    let len = 4 * MIB + 7;
    for position in [0u64, 1, MIB - 1, MIB, 3 * MIB, 4 * MIB + 6] {
        let i = get_chunk_number(len, position);
        let (start, end) = get_start_end_positions(len, i);
        assert!(start <= position && position < end);
    }
    assert_eq!(get_chunk_number(3072, 0), 0);
    assert_eq!(get_chunk_number(3072, 1024), 1);
    assert_eq!(get_chunk_number(3072, 3071), 2);
}

#[test]
fn xor_is_an_involution() {
    let data: Vec<u8> = (0u32..300).map(|i| (i % 251) as u8).collect();
    let pad = Pad((0u8..PAD_SIZE as u8).collect());
    let once = xor(&data, &pad);
    assert_ne!(once, data);
    let twice = xor(&once, &pad);
    assert_eq!(twice, data);
}

fn details_with_pre_hashes(pre_hashes: &[Vec<u8>]) -> Vec<ChunkDetails> {
    pre_hashes
        .iter()
        .enumerate()
        .map(|(i, pre)| ChunkDetails {
            chunk_index: i as u32,
            pre_hash: pre.clone(),
            hash: pre.clone(),
            source_size: 1024,
        })
        .collect()
}

#[test]
fn pad_key_iv_derivation_is_exact() {
    let pre0 = hash(b"zero");
    let pre1 = hash(b"one");
    let pre2 = hash(b"two");
    let chunks = details_with_pre_hashes(&[pre0.clone(), pre1.clone(), pre2.clone()]);

    let (pad, key, iv) = get_pad_key_and_iv(0, &chunks);
    assert_eq!(pad.0.len(), PAD_SIZE);
    assert_eq!(key.0.len(), KEY_SIZE);
    assert_eq!(iv.0.len(), IV_SIZE);
    // Chunk 0 borrows from its cyclic predecessors: key from chunk 2, pad
    // tail and nonce from chunk 1.
    assert_eq!(&pad.0[..HASH_SIZE], &pre0[..]);
    assert_eq!(&pad.0[HASH_SIZE..], &pre1[..PAD_SIZE - HASH_SIZE]);
    assert_eq!(&key.0[..], &pre2[..]);
    assert_eq!(&iv.0[..], &pre1[PAD_SIZE - HASH_SIZE..PAD_SIZE - HASH_SIZE + IV_SIZE]);

    let (_, key1, _) = get_pad_key_and_iv(1, &chunks);
    assert_eq!(&key1.0[..], &pre0[..]);
    let (_, key2, iv2) = get_pad_key_and_iv(2, &chunks);
    assert_eq!(&key2.0[..], &pre1[..]);
    assert_eq!(&iv2.0[..], &pre0[PAD_SIZE - HASH_SIZE..PAD_SIZE - HASH_SIZE + IV_SIZE]);
}

fn sample_pad_key_iv(tag: u8) -> (Pad, Key, Iv) {
    let pre: Vec<Vec<u8>> = (0..3).map(|i| hash(&[tag, i])).collect();
    let chunks = details_with_pre_hashes(&pre);
    get_pad_key_and_iv(0, &chunks)
}

#[test]
fn chunk_pipeline_round_trips() {
    let content: Vec<u8> = (0u32..2048).map(|i| (i * 7 % 256) as u8).collect();
    let cipher =
        encrypt_chunk::<SimpleStorageError>(&content, sample_pad_key_iv(1)).unwrap();
    assert_ne!(&cipher[..], &content[..]);
    let plain = decrypt_chunk::<SimpleStorageError>(&cipher, sample_pad_key_iv(1)).unwrap();
    assert_eq!(plain, content);
}

#[test]
fn chunk_pipeline_rejects_wrong_key() {
    let content = vec![42u8; 512];
    let cipher =
        encrypt_chunk::<SimpleStorageError>(&content, sample_pad_key_iv(1)).unwrap();
    let result = decrypt_chunk::<SimpleStorageError>(&cipher, sample_pad_key_iv(2));
    assert!(matches!(
        result,
        Err(SelfEncryptionError::Decryption) | Err(SelfEncryptionError::Compression)
    ));
}

#[test]
fn hash_is_sha3_256() {
    let digest = hash(b"");
    assert_eq!(digest.len(), 32);
    assert_eq!(
        &digest[..8],
        &[0xa7, 0xff, 0xc6, 0xf8, 0xbf, 0x1e, 0xd7, 0x66]
    );
    assert_ne!(hash(b"a"), hash(b"b"));
}

#[test]
fn data_map_lengths() {
    assert_eq!(DataMap::Empty.len(), 0);
    assert_eq!(DataMap::Content(vec![1, 2, 3]).len(), 3);
    let chunks = DataMap::Chunks(details_with_pre_hashes(&[
        hash(b"x"),
        hash(b"y"),
        hash(b"z"),
    ]));
    assert_eq!(chunks.len(), 3 * 1024);
    assert!(chunks.has_chunks());
    assert!(!DataMap::Empty.has_chunks());
}

#[test]
fn simple_storage_behaves_like_a_map() {
    let mut storage = SimpleStorage::new();
    assert_eq!(storage.num_entries(), 0);
    storage.put(vec![1], vec![10, 11]).unwrap();
    storage.put(vec![2], vec![20]).unwrap();
    assert_eq!(storage.num_entries(), 2);
    assert!(storage.has_chunk(&[1]));
    assert!(!storage.has_chunk(&[3]));
    assert_eq!(storage.get(&[1]).unwrap(), vec![10, 11]);
    assert!(storage.get(&[3]).is_err());
    storage.put(vec![1], vec![12]).unwrap();
    assert_eq!(storage.num_entries(), 2);
    assert_eq!(storage.get(&[1]).unwrap(), vec![12]);
    storage.delete(&[1]).unwrap();
    assert_eq!(storage.num_entries(), 1);
    assert!(!storage.has_chunk(&[1]));
}

#[test]
fn error_descriptions() {
    let compression: SelfEncryptionError<SimpleStorageError> = SelfEncryptionError::Compression;
    assert_eq!(compression.description(), "Compression error");
    assert_eq!(
        compression.display_string(),
        "Error while compressing or decompressing"
    );
    let decryption: SelfEncryptionError<SimpleStorageError> = SelfEncryptionError::Decryption;
    assert_eq!(decryption.description(), "Symmetric decryption error");
    let io: SelfEncryptionError<SimpleStorageError> = SelfEncryptionError::Io;
    assert_eq!(io.description(), "I/O error");
    assert_eq!(io.display_string(), "Internal I/O error");
    let storage: SelfEncryptionError<SimpleStorageError> =
        SelfEncryptionError::Storage(SimpleStorageError {});
    assert_eq!(storage.description(), "Storage error");
    let argument: SelfEncryptionError<SimpleStorageError> = SelfEncryptionError::Argument;
    assert_eq!(argument.description(), "Invalid argument");
    assert_eq!(
        SimpleStorageError {}.description(),
        "Failed to get data from SimpleStorage"
    );
}

#[test]
fn data_map_validity() {
    assert!(DataMap::Empty.is_valid());
    assert!(DataMap::Content(vec![1]).is_valid());
    assert!(!DataMap::Content(Vec::new()).is_valid());
    assert!(!DataMap::Content(vec![0; 3072]).is_valid());
    let good = DataMap::Chunks(details_with_pre_hashes(&[hash(b"x"), hash(b"y"), hash(b"z")]));
    assert!(good.is_valid());
    let two = DataMap::Chunks(details_with_pre_hashes(&[hash(b"x"), hash(b"y")]));
    assert!(!two.is_valid());
    let mut bad_index = details_with_pre_hashes(&[hash(b"x"), hash(b"y"), hash(b"z")]);
    bad_index[1].chunk_index = 7;
    assert!(!DataMap::Chunks(bad_index).is_valid());
    let mut bad_hash = details_with_pre_hashes(&[hash(b"x"), hash(b"y"), hash(b"z")]);
    bad_hash[2].hash = vec![1, 2, 3];
    assert!(!DataMap::Chunks(bad_hash).is_valid());
    let mut bad_size = details_with_pre_hashes(&[hash(b"x"), hash(b"y"), hash(b"z")]);
    bad_size[0].source_size = 0;
    assert!(!DataMap::Chunks(bad_size).is_valid());
}

#[test]
fn random_pieces_concatenate_to_the_data() {
    let data: Vec<u8> = (0u32..1000).map(|i| (i % 256) as u8).collect();
    let pieces = make_random_pieces(&data, 100);
    assert!(pieces[0].len() >= 100);
    let joined: Vec<u8> = pieces.concat();
    assert_eq!(joined, data);
}

#[test]
fn random_pieces_with_oversized_minimum() {
    let data = vec![1u8, 2, 3];
    let pieces = make_random_pieces(&data, 10);
    assert_eq!(pieces.len(), 1);
    assert_eq!(pieces[0], &data[..]);
}
