//! The per-chunk encoding machinery and the append-only encryptor facade.

use vstd::prelude::*;

pub mod utils;
pub mod encryptor;

verus! {

/// The length of a chunk hash in bytes.
pub const HASH_SIZE: usize = 32;
/// The length of a symmetric key in bytes.
pub const KEY_SIZE: usize = 32;
/// The length of a cipher nonce in bytes.
pub const IV_SIZE: usize = 24;
/// The length of the obfuscation pad in bytes: what is left of three chunk
/// hashes once key and nonce have been taken.
pub const PAD_SIZE: usize = 3 * HASH_SIZE - KEY_SIZE - IV_SIZE;

/// The per-chunk obfuscation pad, `PAD_SIZE` bytes.
pub struct Pad(pub Vec<u8>);

/// A symmetric key, `KEY_SIZE` bytes.
pub struct Key(pub Vec<u8>);

/// A cipher nonce, `IV_SIZE` bytes.
pub struct Iv(pub Vec<u8>);

impl Pad {
    /// The pad has exactly `PAD_SIZE` bytes.
    pub open spec fn wf(&self) -> bool {
        self.0@.len() == PAD_SIZE
    }
}

impl Key {
    /// The key has exactly `KEY_SIZE` bytes.
    pub open spec fn wf(&self) -> bool {
        self.0@.len() == KEY_SIZE
    }
}

impl Iv {
    /// The nonce has exactly `IV_SIZE` bytes.
    pub open spec fn wf(&self) -> bool {
        self.0@.len() == IV_SIZE
    }
}

} // verus!
