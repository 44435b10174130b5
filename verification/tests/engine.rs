//! End-to-end tests of the random-access and sequential encryptors over the
//! in-memory store.

use self_encryption::encryption::hash;
use self_encryption::test_helpers::SimpleStorage;
use self_encryption::{DataMap, SelfEncryptor, SequentialEncryptor, Storage, MAX_FILE_SIZE};

fn pattern(n: usize) -> Vec<u8> {
    (0..n).map(|i| (i % 256) as u8).collect()
}

fn encrypt(data: &[u8]) -> (DataMap, SimpleStorage) {
    let storage = SimpleStorage::new();
    let mut encryptor = SelfEncryptor::new(storage, DataMap::Empty).unwrap();
    encryptor.write(data, 0).unwrap();
    encryptor.close().unwrap()
}

#[test]
fn empty_content_yields_no_map() {
    let (map, storage) = encrypt(&[]);
    assert!(matches!(map, DataMap::Empty));
    assert_eq!(storage.num_entries(), 0);
}

#[test]
fn three_bytes_stay_inline() {
    let (map, storage) = encrypt(&[0, 1, 2]);
    match map {
        DataMap::Content(content) => assert_eq!(content, vec![0, 1, 2]),
        _ => panic!("expected inline content"),
    }
    assert_eq!(storage.num_entries(), 0);
}

#[test]
fn threshold_content_splits_into_three_chunks() {
    let data = pattern(3072);
    let (map, storage) = encrypt(&data);
    match &map {
        DataMap::Chunks(chunks) => {
            assert_eq!(chunks.len(), 3);
            for (i, chunk) in chunks.iter().enumerate() {
                assert_eq!(chunk.chunk_index as usize, i);
                assert_eq!(chunk.source_size, 1024);
                assert_eq!(chunk.pre_hash.len(), 32);
                assert_eq!(chunk.hash.len(), 32);
            }
        }
        _ => panic!("expected chunks"),
    }
    assert_eq!(map.len(), 3072);
    assert!(storage.num_entries() > 0);
}

#[test]
fn three_mib_splits_into_three_max_chunks() {
    let data = pattern(3 * 1024 * 1024);
    let (map, _storage) = encrypt(&data);
    match &map {
        DataMap::Chunks(chunks) => {
            assert_eq!(chunks.len(), 3);
            for chunk in chunks.iter() {
                assert_eq!(chunk.source_size, 1_048_576);
            }
        }
        _ => panic!("expected chunks"),
    }
}

#[test]
fn four_mib_splits_into_four_chunks() {
    let data = pattern(4 * 1024 * 1024);
    let (map, _storage) = encrypt(&data);
    match &map {
        DataMap::Chunks(chunks) => {
            assert_eq!(chunks.len(), 4);
            for chunk in chunks.iter() {
                assert_eq!(chunk.source_size, 1_048_576);
            }
        }
        _ => panic!("expected chunks"),
    }
}

#[test]
fn read_across_chunk_boundary() {
    let data = pattern(3 * 1024 * 1024);
    let (map, storage) = encrypt(&data);
    let mut encryptor = SelfEncryptor::new(storage, map).unwrap();
    let got = encryptor.read(1_048_570, 12).unwrap();
    assert_eq!(&got[..], &data[1_048_570..1_048_582]);
}

#[test]
fn overwrite_spanning_chunks() {
    let data = pattern(3 * 1024 * 1024);
    let (map, storage) = encrypt(&data);
    let old_hashes: Vec<Vec<u8>> = match &map {
        DataMap::Chunks(chunks) => chunks.iter().map(|c| c.hash.clone()).collect(),
        _ => panic!("expected chunks"),
    };

    let mut encryptor = SelfEncryptor::new(storage, map).unwrap();
    encryptor.write(&[0xFF; 10], 2_097_150).unwrap();
    let (map2, storage2) = encryptor.close().unwrap();

    let mut expected = data.clone();
    for byte in expected[2_097_150..2_097_160].iter_mut() {
        *byte = 0xFF;
    }

    let mut encryptor = SelfEncryptor::new(storage2, map2.clone()).unwrap();
    let got = encryptor.read(0, expected.len() as u64).unwrap();
    assert_eq!(got, expected);

    // A change in one byte alters the touched chunks and, through the
    // neighbour-derived pads, every chunk of a three-chunk map.
    match &map2 {
        DataMap::Chunks(chunks) => {
            assert_eq!(chunks.len(), 3);
            for (i, chunk) in chunks.iter().enumerate() {
                assert_ne!(chunk.hash, old_hashes[i]);
            }
        }
        _ => panic!("expected chunks"),
    }
}

#[test]
fn round_trip_inline_sizes() {
    for size in [1usize, 2, 100, 3071] {
        let data = pattern(size);
        let (map, storage) = encrypt(&data);
        let mut encryptor = SelfEncryptor::new(storage, map).unwrap();
        let got = encryptor.read(0, size as u64).unwrap();
        assert_eq!(got, data);
    }
}

#[test]
fn round_trip_chunked_sizes() {
    for size in [3072usize, 3073, 10_000, 100_000] {
        let data = pattern(size);
        let (map, storage) = encrypt(&data);
        let mut encryptor = SelfEncryptor::new(storage, map).unwrap();
        let got = encryptor.read(0, size as u64).unwrap();
        assert_eq!(got, data);
    }
}

#[test]
fn partial_reads_match_slices() {
    let data = pattern(10_000);
    let (map, storage) = encrypt(&data);
    let mut encryptor = SelfEncryptor::new(storage, map).unwrap();
    for (offset, length) in [(0u64, 1u64), (3333, 10), (5000, 5000), (9999, 1), (0, 10_000)] {
        let got = encryptor.read(offset, length).unwrap();
        assert_eq!(&got[..], &data[offset as usize..(offset + length) as usize]);
    }
    assert!(encryptor.read(9999, 2).is_err());
}

#[test]
fn truncate_shrinks_and_drops_chunks() {
    let data = pattern(10_000);
    let storage = SimpleStorage::new();
    let mut encryptor = SelfEncryptor::new(storage, DataMap::Empty).unwrap();
    encryptor.write(&data, 0).unwrap();
    encryptor.truncate(2000).unwrap();
    assert_eq!(encryptor.len(), 2000);
    let (map, storage) = encryptor.close().unwrap();
    match &map {
        DataMap::Content(content) => assert_eq!(&content[..], &data[..2000]),
        _ => panic!("expected inline content after shrinking below the threshold"),
    }
    assert_eq!(storage.num_entries(), 0);
}

#[test]
fn truncate_extends_with_zeroes() {
    let storage = SimpleStorage::new();
    let mut encryptor = SelfEncryptor::new(storage, DataMap::Empty).unwrap();
    encryptor.write(&[7, 7, 7], 0).unwrap();
    encryptor.truncate(10).unwrap();
    let got = encryptor.read(0, 10).unwrap();
    assert_eq!(got, vec![7, 7, 7, 0, 0, 0, 0, 0, 0, 0]);
}

#[test]
fn oversize_write_rejected() {
    let storage = SimpleStorage::new();
    let mut encryptor = SelfEncryptor::new(storage, DataMap::Empty).unwrap();
    encryptor.write(&[1, 2, 3], 0).unwrap();
    let result = encryptor.write(&[0u8; 16], MAX_FILE_SIZE as u64 - 8);
    assert!(matches!(
        result,
        Err(self_encryption::SelfEncryptionError::Argument)
    ));
    assert_eq!(encryptor.len(), 3);
    let got = encryptor.read(0, 3).unwrap();
    assert_eq!(got, vec![1, 2, 3]);
}

#[test]
fn tampered_chunk_fails_decryption() {
    let data = pattern(3072);
    let (map, mut storage) = encrypt(&data);
    let name = match &map {
        DataMap::Chunks(chunks) => chunks[1].hash.clone(),
        _ => panic!("expected chunks"),
    };
    let mut bytes = storage.get(&name).unwrap();
    bytes[0] ^= 0x01;
    storage.put(name, bytes).unwrap();
    let mut encryptor = SelfEncryptor::new(storage, map).unwrap();
    let result = encryptor.read(0, 3072);
    assert!(matches!(
        result,
        Err(self_encryption::SelfEncryptionError::Decryption)
    ));
}

#[test]
fn convergence_identical_maps() {
    let data = pattern(5000);
    let (map_a, _) = encrypt(&data);
    let (map_b, _) = encrypt(&data);
    match (&map_a, &map_b) {
        (DataMap::Chunks(a), DataMap::Chunks(b)) => {
            assert_eq!(a.len(), b.len());
            for (x, y) in a.iter().zip(b.iter()) {
                assert_eq!(x.chunk_index, y.chunk_index);
                assert_eq!(x.pre_hash, y.pre_hash);
                assert_eq!(x.hash, y.hash);
                assert_eq!(x.source_size, y.source_size);
            }
        }
        _ => panic!("expected chunks"),
    }
}

#[test]
fn chunks_self_validate() {
    let data = pattern(5000);
    let (map, storage) = encrypt(&data);
    match &map {
        DataMap::Chunks(chunks) => {
            for chunk in chunks.iter() {
                let stored = storage.get(&chunk.hash).unwrap();
                assert_eq!(hash(&stored), chunk.hash);
            }
        }
        _ => panic!("expected chunks"),
    }
}

#[test]
fn sequential_round_trip() {
    let data = pattern(5000);
    let storage = SimpleStorage::new();
    let mut encryptor = SequentialEncryptor::new(storage).unwrap();
    encryptor.write(&data[..1000]).unwrap();
    encryptor.write(&data[1000..4000]).unwrap();
    encryptor.write(&data[4000..]).unwrap();
    assert_eq!(encryptor.len(), 5000);
    let (map, storage) = encryptor.close().unwrap();
    let mut reader = SelfEncryptor::new(storage, map).unwrap();
    let got = reader.read(0, 5000).unwrap();
    assert_eq!(got, data);
}

#[test]
fn sequential_matches_random_access() {
    let data = pattern(4000);
    let (map_a, _) = encrypt(&data);
    let storage = SimpleStorage::new();
    let mut encryptor = SequentialEncryptor::new(storage).unwrap();
    encryptor.write(&data).unwrap();
    let (map_b, _) = encryptor.close().unwrap();
    match (&map_a, &map_b) {
        (DataMap::Chunks(a), DataMap::Chunks(b)) => {
            assert_eq!(a.len(), b.len());
            for (x, y) in a.iter().zip(b.iter()) {
                assert_eq!(x.hash, y.hash);
            }
        }
        _ => panic!("expected chunks"),
    }
}

#[test]
fn reopened_map_supports_overwrite_inline() {
    let (map, storage) = encrypt(&[9, 8, 7, 6, 5]);
    let mut encryptor = SelfEncryptor::new(storage, map).unwrap();
    encryptor.write(&[1, 1], 1).unwrap();
    let (map, storage) = encryptor.close().unwrap();
    let mut reader = SelfEncryptor::new(storage, map).unwrap();
    let got = reader.read(0, 5).unwrap();
    assert_eq!(got, vec![9, 1, 1, 6, 5]);
}
