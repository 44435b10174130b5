//! Errors which can arise during self-encryption or -decryption.

use vstd::prelude::*;
use crate::storage::StorageError;

verus! {

/// Errors which can arise during self-encryption or -decryption.
#[derive(Debug)]
pub enum SelfEncryptionError<E: StorageError> {
    /// An error during compression or decompression.
    Compression,
    /// An error within the symmetric encryption or decryption process.
    Decryption,
    /// A generic I/O error, likely arising from use of the memory map.
    Io,
    /// An error in putting or retrieving chunks from the storage object.
    Storage(E),
    /// A request outside the allowed bounds: an oversize write or an
    /// out-of-range read.
    Argument,
}

impl<E: StorageError> SelfEncryptionError<E> {
    /// What `description` returns for each kind of error.
    pub open spec fn spec_description(&self) -> Seq<char> {
        match self {
            SelfEncryptionError::Compression => "Compression error"@,
            SelfEncryptionError::Decryption => "Symmetric decryption error"@,
            SelfEncryptionError::Io => "I/O error"@,
            SelfEncryptionError::Storage(_) => "Storage error"@,
            SelfEncryptionError::Argument => "Invalid argument"@,
        }
    }

    /// A short description of the error.  For `Storage` the inner error is
    /// not consulted: the marker trait gives it no text of its own.
    pub fn description(&self) -> (r: &'static str)
        ensures
            r@ == self.spec_description(),
    {
        match self {
            SelfEncryptionError::Compression => "Compression error",
            SelfEncryptionError::Decryption => "Symmetric decryption error",
            SelfEncryptionError::Io => "I/O error",
            SelfEncryptionError::Storage(_) => "Storage error",
            SelfEncryptionError::Argument => "Invalid argument",
        }
    }

    /// What `display_string` returns for each kind of error.
    pub open spec fn spec_display_string(&self) -> Seq<char> {
        match self {
            SelfEncryptionError::Compression => "Error while compressing or decompressing"@,
            SelfEncryptionError::Decryption => "Symmetric decryption error"@,
            SelfEncryptionError::Io => "Internal I/O error"@,
            SelfEncryptionError::Storage(_) => "Storage error"@,
            SelfEncryptionError::Argument => "Invalid argument"@,
        }
    }

    /// The error's sentence for user-facing output, in place of a `Display`
    /// rendering.
    pub fn display_string(&self) -> (r: &'static str)
        ensures
            r@ == self.spec_display_string(),
    {
        match self {
            SelfEncryptionError::Compression => "Error while compressing or decompressing",
            SelfEncryptionError::Decryption => "Symmetric decryption error",
            SelfEncryptionError::Io => "Internal I/O error",
            SelfEncryptionError::Storage(_) => "Storage error",
            SelfEncryptionError::Argument => "Invalid argument",
        }
    }
}

} // verus!
