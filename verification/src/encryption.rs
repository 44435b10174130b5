//! The cryptographic primitives: hashing, compression and the symmetric
//! cipher, each behind a trusted wrapper whose result is a named function of
//! its arguments.

use vstd::prelude::*;
use tiny_keccak::Hasher as KeccakHasher;
use crypto_secretbox::aead::{Aead, KeyInit};
use crate::COMPRESSION_QUALITY;

verus! {

/// The SHA3-256 digest of a byte string.
pub uninterp spec fn hash_of(data: Seq<u8>) -> Seq<u8>;

/// The brotli encoding of a byte string at the fixed quality.
pub uninterp spec fn compressed(data: Seq<u8>) -> Seq<u8>;

/// What brotli decoding yields on a byte string: the decoded bytes, or
/// nothing where the input is not a well-formed stream.
pub uninterp spec fn decompressed(data: Seq<u8>) -> Option<Seq<u8>>;

/// The XSalsa20-Poly1305 sealing of a message under a 32-byte key and a
/// 24-byte nonce.
pub uninterp spec fn enciphered(key: Seq<u8>, iv: Seq<u8>, msg: Seq<u8>) -> Seq<u8>;

/// Relies on tiny_keccak's SHA3-256: the digest depends on the input bytes
/// alone, and the output buffer handed to it here has 32 bytes.
#[verifier::external_body]
pub fn hash(data: &[u8]) -> (r: Vec<u8>)
    ensures
        r@ == hash_of(data@),
        r@.len() == 32,
{
    let mut sha3 = tiny_keccak::Sha3::v256();
    sha3.update(data);
    let mut out = [0u8; 32];
    sha3.finalize(&mut out);
    out.to_vec()
}

/// Relies on brotli's BrotliCompress at the fixed quality: the encoding
/// depends on the input bytes alone, and BrotliDecompress restores the input
/// from it (the codec is lossless).  Encoding is total here: the slice
/// reader and the vector writer it is given cannot fail.
#[verifier::external_body]
pub(crate) fn compress(data: &[u8]) -> (r: Option<Vec<u8>>)
    ensures
        r is Some,
        r matches Some(v) ==> v@ == compressed(data@)
            && decompressed(compressed(data@)) == Some(data@),
{
    let mut out: Vec<u8> = Vec::new();
    let mut params = brotli::enc::BrotliEncoderParams::default();
    params.quality = COMPRESSION_QUALITY;
    match brotli::BrotliCompress(&mut &data[..], &mut out, &params) {
        Ok(_) => Some(out),
        Err(_) => None,
    }
}

/// Relies on brotli's BrotliDecompress: what it yields depends on the input
/// bytes alone, failure included.
#[verifier::external_body]
pub(crate) fn decompress(data: &[u8]) -> (r: Option<Vec<u8>>)
    ensures
        r matches Some(v) ==> decompressed(data@) == Some(v@),
        r is None ==> decompressed(data@) is None,
{
    let mut out: Vec<u8> = Vec::new();
    match brotli::BrotliDecompress(&mut &data[..], &mut out) {
        Ok(()) => Some(out),
        Err(_) => None,
    }
}

/// Relies on crypto_secretbox's XSalsa20-Poly1305 `encrypt`: the ciphertext
/// depends on key, nonce and message alone.  Sealing is total here: with no
/// associated data and a vector buffer, the keystream and tag computation
/// cannot fail.
#[verifier::external_body]
pub(crate) fn encipher(key: &[u8], iv: &[u8], msg: &[u8]) -> (r: Option<Vec<u8>>)
    requires
        key@.len() == 32,
        iv@.len() == 24,
    ensures
        r is Some,
        r matches Some(v) ==> v@ == enciphered(key@, iv@, msg@),
{
    let cipher = crypto_secretbox::XSalsa20Poly1305::new(
        crypto_secretbox::Key::from_slice(key),
    );
    match cipher.encrypt(crypto_secretbox::Nonce::from_slice(iv), msg) {
        Ok(v) => Some(v),
        Err(_) => None,
    }
}

/// Relies on crypto_secretbox's XSalsa20-Poly1305 `decrypt`: it returns the
/// message whose sealing under the key and nonce the input is, and rejects
/// any input that is no such sealing (the Poly1305 authentication).
#[verifier::external_body]
pub(crate) fn decipher(key: &[u8], iv: &[u8], data: &[u8]) -> (r: Option<Vec<u8>>)
    requires
        key@.len() == 32,
        iv@.len() == 24,
    ensures
        r matches Some(v) ==> data@ == enciphered(key@, iv@, v@),
        r matches Some(v) ==> forall|m: Seq<u8>| data@ == enciphered(key@, iv@, m) ==> v@ == m,
        r is None ==> forall|m: Seq<u8>| data@ != enciphered(key@, iv@, m),
{
    let cipher = crypto_secretbox::XSalsa20Poly1305::new(
        crypto_secretbox::Key::from_slice(key),
    );
    match cipher.decrypt(crypto_secretbox::Nonce::from_slice(iv), data) {
        Ok(v) => Some(v),
        Err(_) => None,
    }
}

} // verus!
