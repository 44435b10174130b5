//! Tests of the sequencer, the engine's hybrid working buffer.

use self_encryption::sequencer::{read_range, Sequencer, MAX_IN_MEMORY_SIZE};
use self_encryption::MAX_FILE_SIZE;

#[test]
fn vector_init_and_indexing() {
    let mut sequencer = Sequencer::new_as_vector();
    assert_eq!(sequencer.len(), 0);
    sequencer.init(&[10, 20, 30]);
    assert_eq!(sequencer.len(), 3);
    assert_eq!(sequencer.get(1), 20);
    sequencer.set(1, 21);
    assert_eq!(sequencer.get(1), 21);
    assert_eq!(read_range(&sequencer, 0, 3), vec![10, 21, 30]);
}

#[test]
fn vector_truncate_shrinks() {
    let mut sequencer = Sequencer::new_as_vector();
    sequencer.init(&[1, 2, 3, 4, 5]);
    sequencer.truncate(2);
    assert_eq!(sequencer.len(), 2);
    assert_eq!(read_range(&sequencer, 0, 2), vec![1, 2]);
    sequencer.truncate(9);
    assert_eq!(sequencer.len(), 2);
}

#[test]
fn mapping_preserves_content_and_fixes_length() {
    let mut sequencer = Sequencer::new_as_vector();
    sequencer.init(&[7, 8, 9]);
    sequencer.create_mapping().unwrap();
    assert_eq!(sequencer.len(), MAX_FILE_SIZE);
    assert_eq!(read_range(&sequencer, 0, 3), vec![7, 8, 9]);
    // Idempotent, and the mapping cannot be truncated.
    sequencer.create_mapping().unwrap();
    sequencer.truncate(1);
    assert_eq!(sequencer.len(), MAX_FILE_SIZE);
    sequencer.set(1000, 42);
    assert_eq!(sequencer.get(1000), 42);
}

#[test]
fn fresh_mapping_is_writable_everywhere() {
    let mut sequencer = Sequencer::new_as_mmap().unwrap();
    assert_eq!(sequencer.len(), MAX_FILE_SIZE);
    sequencer.init(&[5, 6]);
    assert_eq!(sequencer.get(0), 5);
    assert_eq!(sequencer.get(1), 6);
    sequencer.set(MAX_FILE_SIZE - 1, 9);
    assert_eq!(sequencer.get(MAX_FILE_SIZE - 1), 9);
    assert!(MAX_IN_MEMORY_SIZE < MAX_FILE_SIZE);
}
