//! The single-chunk pipeline (compress, encrypt, obfuscate, and its inverse)
//! and the derivation of each chunk's pad, key and nonce from the pre-hashes
//! of its neighbours.

use vstd::prelude::*;
use vstd::slice::slice_subrange;
use crate::data_map::ChunkDetails;
use crate::encryption::{compressed, decompressed, enciphered};
use crate::encryption::{compress, decompress, encipher, decipher};
use crate::error::SelfEncryptionError;
use crate::storage::StorageError;
use crate::sequential::{Pad, Key, Iv, HASH_SIZE, KEY_SIZE, IV_SIZE, PAD_SIZE};

verus! {

/// `data` XORed with `pad` repeated cyclically over its length.
pub open spec fn xor_seq(data: Seq<u8>, pad: Seq<u8>) -> Seq<u8>
    recommends
        pad.len() > 0,
{
    Seq::new(data.len(), |i: int| data[i] ^ pad[i % pad.len() as int])
}

/// XOR a data with a pad (the pad is rotated to fill the length).
pub fn xor(data: &[u8], pad: &Pad) -> (r: Vec<u8>)
    requires
        pad.wf(),
    ensures
        r@ == xor_seq(data@, pad.0@),
{
    let mut r: Vec<u8> = Vec::new();
    let mut i: usize = 0;
    while i < data.len()
        invariant
            pad.wf(),
            0 <= i <= data@.len(),
            r@.len() == i,
            forall|j: int| 0 <= j < i ==> r@[j] == #[trigger] xor_seq(data@, pad.0@)[j],
        decreases data@.len() - i,
    {
        r.push(data[i] ^ pad.0[i % pad.0.len()]);
        i = i + 1;
    }
    proof {
        assert(r@ =~= xor_seq(data@, pad.0@));
    }
    r
}

/// Applying the same pad twice gives the data back.
pub proof fn lemma_xor_involution(data: Seq<u8>, pad: Seq<u8>)
    requires
        pad.len() > 0,
    ensures
        xor_seq(xor_seq(data, pad), pad) == data,
{
    let once = xor_seq(data, pad);
    assert forall|i: int| 0 <= i < data.len() implies xor_seq(once, pad)[i] == data[i] by {
        let a = data[i];
        let b = pad[i % pad.len() as int];
        assert((a ^ b) ^ b == a) by (bit_vector);
    }
    assert(xor_seq(xor_seq(data, pad), pad) =~= data);
}

/// The index of the chunk whose pre-hash supplies the key for chunk `i` of
/// `n`: its cyclic predecessor.
pub open spec fn spec_n1(i: int, n: int) -> int {
    if i == 0 {
        n - 1
    } else if i == 1 {
        0
    } else {
        i - 1
    }
}

/// The index of the chunk whose pre-hash supplies the tail of the pad and
/// the nonce for chunk `i` of `n`: its cyclic second predecessor.
pub open spec fn spec_n2(i: int, n: int) -> int {
    if i == 0 {
        n - 2
    } else if i == 1 {
        n - 1
    } else {
        i - 2
    }
}

/// The pre-hashes a chunk list records, in order.
pub open spec fn pre_hashes_of(chunks: Seq<ChunkDetails>) -> Seq<Seq<u8>> {
    chunks.map_values(|cd: ChunkDetails| cd.pre_hash@)
}

/// The pad for chunk `i`: its own pre-hash followed by the head of its
/// second predecessor's.
pub open spec fn spec_pad_of(pre: Seq<Seq<u8>>, i: int) -> Seq<u8> {
    pre[i] + pre[spec_n2(i, pre.len() as int)].take(PAD_SIZE - HASH_SIZE)
}

/// The key for chunk `i`: its predecessor's pre-hash.
pub open spec fn spec_key_of(pre: Seq<Seq<u8>>, i: int) -> Seq<u8> {
    pre[spec_n1(i, pre.len() as int)]
}

/// The nonce for chunk `i`: what the pad leaves of its second predecessor's
/// pre-hash.
pub open spec fn spec_iv_of(pre: Seq<Seq<u8>>, i: int) -> Seq<u8> {
    pre[spec_n2(i, pre.len() as int)].subrange(
        PAD_SIZE - HASH_SIZE,
        PAD_SIZE - HASH_SIZE + IV_SIZE,
    )
}

/// Derive the pad, key and nonce for chunk `chunk_index` from the pre-hashes
/// the chunk list records.
pub fn get_pad_key_and_iv(chunk_index: usize, chunks: &[ChunkDetails]) -> (r: (Pad, Key, Iv))
    requires
        chunks@.len() >= 2,
        chunk_index < chunks@.len(),
        forall|j: int| 0 <= j < chunks@.len()
            ==> (#[trigger] chunks@[j]).pre_hash@.len() == HASH_SIZE,
    ensures
        r.0.wf(),
        r.1.wf(),
        r.2.wf(),
        r.0.0@ == spec_pad_of(pre_hashes_of(chunks@), chunk_index as int),
        r.1.0@ == spec_key_of(pre_hashes_of(chunks@), chunk_index as int),
        r.2.0@ == spec_iv_of(pre_hashes_of(chunks@), chunk_index as int),
{
    let n = chunks.len();
    let (n_1, n_2) = if chunk_index == 0 {
        (n - 1, n - 2)
    } else if chunk_index == 1 {
        (0, n - 1)
    } else {
        (chunk_index - 1, chunk_index - 2)
    };
    let ghost pre = pre_hashes_of(chunks@);
    proof {
        assert(pre[chunk_index as int] == chunks@[chunk_index as int].pre_hash@);
        assert(pre[n_1 as int] == chunks@[n_1 as int].pre_hash@);
        assert(pre[n_2 as int] == chunks@[n_2 as int].pre_hash@);
    }
    let this_pre: &Vec<u8> = &chunks[chunk_index].pre_hash;
    let n1_pre: &Vec<u8> = &chunks[n_1].pre_hash;
    let n2_pre: &Vec<u8> = &chunks[n_2].pre_hash;

    let mut pad: Vec<u8> = Vec::new();
    let mut j: usize = 0;
    while j < HASH_SIZE
        invariant
            0 <= j <= HASH_SIZE,
            this_pre@.len() == HASH_SIZE,
            pad@ == this_pre@.take(j as int),
        decreases HASH_SIZE - j,
    {
        pad.push(this_pre[j]);
        proof {
            assert(pad@ =~= this_pre@.take(j + 1));
        }
        j = j + 1;
    }
    proof {
        assert(pad@ =~= this_pre@);
    }
    let mut j: usize = 0;
    while j < PAD_SIZE - HASH_SIZE
        invariant
            0 <= j <= PAD_SIZE - HASH_SIZE,
            this_pre@.len() == HASH_SIZE,
            n2_pre@.len() == HASH_SIZE,
            pad@ == this_pre@ + n2_pre@.take(j as int),
        decreases PAD_SIZE - HASH_SIZE - j,
    {
        pad.push(n2_pre[j]);
        proof {
            assert(pad@ =~= this_pre@ + n2_pre@.take(j + 1));
        }
        j = j + 1;
    }

    let mut key: Vec<u8> = Vec::new();
    let mut j: usize = 0;
    while j < KEY_SIZE
        invariant
            0 <= j <= KEY_SIZE,
            n1_pre@.len() == HASH_SIZE,
            key@ == n1_pre@.take(j as int),
        decreases KEY_SIZE - j,
    {
        key.push(n1_pre[j]);
        proof {
            assert(key@ =~= n1_pre@.take(j + 1));
        }
        j = j + 1;
    }
    proof {
        assert(key@ =~= n1_pre@);
    }

    let mut iv: Vec<u8> = Vec::new();
    let mut j: usize = 0;
    while j < IV_SIZE
        invariant
            0 <= j <= IV_SIZE,
            n2_pre@.len() == HASH_SIZE,
            iv@ == n2_pre@.subrange(
                PAD_SIZE - HASH_SIZE,
                PAD_SIZE - HASH_SIZE + j as int,
            ),
        decreases IV_SIZE - j,
    {
        iv.push(n2_pre[PAD_SIZE - HASH_SIZE + j]);
        proof {
            assert(iv@ =~= n2_pre@.subrange(
                PAD_SIZE - HASH_SIZE,
                PAD_SIZE - HASH_SIZE + j + 1,
            ));
        }
        j = j + 1;
    }
    (Pad(pad), Key(key), Iv(iv))
}

/// The bytes the pipeline stores for a chunk with plaintext `plain`:
/// compressed, enciphered, then obfuscated with the pad.
pub open spec fn spec_encoded_chunk(plain: Seq<u8>, pad: Seq<u8>, key: Seq<u8>, iv: Seq<u8>) -> Seq<u8> {
    xor_seq(enciphered(key, iv, compressed(plain)), pad)
}

/// The compressor round-trips on `plain`: decoding its encoding gives
/// `plain` back.
pub open spec fn spec_codec_ok(plain: Seq<u8>) -> bool {
    decompressed(compressed(plain)) == Some(plain)
}

/// Compress, encrypt and obfuscate one chunk.  Encoding never fails: both
/// the compressor and the cipher are total on these inputs.
pub fn encrypt_chunk<E: StorageError>(
    content: &[u8],
    pad_key_iv: (Pad, Key, Iv),
) -> (r: Result<Vec<u8>, SelfEncryptionError<E>>)
    requires
        pad_key_iv.0.wf(),
        pad_key_iv.1.wf(),
        pad_key_iv.2.wf(),
    ensures
        r is Ok,
        r matches Ok(v) ==> v@ == spec_encoded_chunk(
            content@,
            pad_key_iv.0.0@,
            pad_key_iv.1.0@,
            pad_key_iv.2.0@,
        ) && spec_codec_ok(content@),
{
    let (pad, key, iv) = pad_key_iv;
    let compressed_bytes = match compress(content) {
        Some(v) => v,
        None => {
            return Err(SelfEncryptionError::Compression);
        },
    };
    let encrypted = match encipher(key.0.as_slice(), iv.0.as_slice(), compressed_bytes.as_slice()) {
        Some(v) => v,
        None => {
            return Err(SelfEncryptionError::Decryption);
        },
    };
    Ok(xor(encrypted.as_slice(), &pad))
}

/// Undo the obfuscation, decrypt and decompress one chunk.  On any chunk the
/// pipeline produced with the same pad, key and nonce this returns the
/// original plaintext; whatever is returned comes from an authentic sealing
/// under the key and nonce, decryption fails exactly when the input is no
/// such sealing, and decompression fails exactly when the sealed bytes are
/// no codec stream.
pub fn decrypt_chunk<E: StorageError>(
    content: &[u8],
    pad_key_iv: (Pad, Key, Iv),
) -> (r: Result<Vec<u8>, SelfEncryptionError<E>>)
    requires
        pad_key_iv.0.wf(),
        pad_key_iv.1.wf(),
        pad_key_iv.2.wf(),
    ensures
        forall|p: Seq<u8>|
            content@ == spec_encoded_chunk(p, pad_key_iv.0.0@, pad_key_iv.1.0@, pad_key_iv.2.0@)
                && spec_codec_ok(p)
            ==> (r matches Ok(v) && v@ == p),
        r matches Ok(v) ==> (exists|c: Seq<u8>|
            xor_seq(content@, pad_key_iv.0.0@)
                == #[trigger] enciphered(pad_key_iv.1.0@, pad_key_iv.2.0@, c)
            && decompressed(c) == Some(v@)),
        (r matches Err(e) && e is Decryption) <==> (forall|c: Seq<u8>|
            xor_seq(content@, pad_key_iv.0.0@)
                != #[trigger] enciphered(pad_key_iv.1.0@, pad_key_iv.2.0@, c)),
        (r matches Err(e) && e is Compression) <==> (exists|c: Seq<u8>|
            xor_seq(content@, pad_key_iv.0.0@)
                == #[trigger] enciphered(pad_key_iv.1.0@, pad_key_iv.2.0@, c)
            && decompressed(c) is None),
        r matches Err(e) ==> (e is Decryption || e is Compression),
{
    let (pad, key, iv) = pad_key_iv;
    let ghost padv = pad.0@;
    let ghost keyv = key.0@;
    let ghost ivv = iv.0@;
    let xored = xor(content, &pad);
    proof {
        assert forall|p: Seq<u8>|
            content@ == spec_encoded_chunk(p, padv, keyv, ivv)
            implies xored@ == enciphered(keyv, ivv, compressed(p)) by {
            lemma_xor_involution(enciphered(keyv, ivv, compressed(p)), padv);
        }
    }
    let decrypted = match decipher(key.0.as_slice(), iv.0.as_slice(), xored.as_slice()) {
        Some(v) => v,
        None => {
            return Err(SelfEncryptionError::Decryption);
        },
    };
    let decompressed_bytes = match decompress(decrypted.as_slice()) {
        Some(v) => v,
        None => {
            proof {
                assert(xored@ == enciphered(keyv, ivv, decrypted@));
                assert(decompressed(decrypted@) is None);
            }
            return Err(SelfEncryptionError::Compression);
        },
    };
    proof {
        assert(xored@ == enciphered(keyv, ivv, decrypted@));
        assert(decompressed(decrypted@) == Some(decompressed_bytes@));
        assert forall|c: Seq<u8>|
            xored@ == #[trigger] enciphered(keyv, ivv, c)
            implies !(decompressed(c) is None) by {
            assert(c == decrypted@);
        }
    }
    Ok(decompressed_bytes)
}

/// The concatenation of a sequence of byte strings.
pub open spec fn spec_concat(pieces: Seq<Seq<u8>>) -> Seq<u8>
    decreases pieces.len(),
{
    if pieces.len() == 0 {
        Seq::empty()
    } else {
        spec_concat(pieces.drop_last()) + pieces.last()
    }
}

/// Relies on rand's random_range over a half-open range: the result lies in
/// the range; nothing else holds of it.
#[verifier::external_body]
fn random_in_range(low: usize, high: usize) -> (r: usize)
    requires
        low < high,
    ensures
        low <= r < high,
{
    rand::random_range(low..high)
}

/// Split `data` into randomly sized consecutive pieces; the first has at
/// least `min_len_of_first_piece` bytes when there are that many.
pub fn make_random_pieces<'a>(
    data: &'a [u8],
    min_len_of_first_piece: usize,
) -> (r: Vec<&'a [u8]>)
    requires
        1 <= min_len_of_first_piece < usize::MAX,
    ensures
        spec_concat(r@.map_values(|p: &[u8]| p@)) == data@,
        r@.len() >= 1,
        min_len_of_first_piece <= data@.len() ==> r@[0]@.len() >= min_len_of_first_piece,
        data@.len() < min_len_of_first_piece ==> r@.len() == 1 && r@[0]@ == data@,
{
    let mut pieces: Vec<&'a [u8]> = Vec::new();
    let mut split_index: usize = 0;
    loop
        invariant
            1 <= min_len_of_first_piece < usize::MAX,
            split_index <= data@.len(),
            spec_concat(pieces@.map_values(|p: &[u8]| p@)) == data@.take(split_index as int),
            pieces@.len() == 0 <==> split_index == 0,
            data@.len() < min_len_of_first_piece ==> split_index == 0,
            min_len_of_first_piece <= data@.len() && pieces@.len() >= 1
                ==> pieces@[0]@.len() >= min_len_of_first_piece,
        decreases data@.len() - split_index,
    {
        let min_len: usize = if split_index == 0 {
            min_len_of_first_piece
        } else {
            1
        };
        let max_len: usize = if data.len() / 3 > min_len {
            data.len() / 3
        } else {
            min_len + 1
        };
        let drawn = random_in_range(min_len, max_len);
        if drawn >= data.len() - split_index {
            let rest = slice_subrange(data, split_index, data.len());
            let ghost before = pieces@;
            pieces.push(rest);
            proof {
                let mapped = pieces@.map_values(|p: &[u8]| p@);
                assert(pieces@.drop_last() =~= before);
                assert(mapped.drop_last() =~= before.map_values(|p: &[u8]| p@));
                assert(mapped.last() == rest@);
                assert(data@.take(split_index as int) + rest@ =~= data@);
                assert(spec_concat(mapped) == data@);
                if data@.len() < min_len_of_first_piece {
                    assert(pieces@.len() == 1);
                    assert(pieces@[0]@ == rest@);
                    assert(rest@ =~= data@);
                }
            }
            return pieces;
        }
        let new_split_index = split_index + drawn;
        let piece = slice_subrange(data, split_index, new_split_index);
        let ghost before = pieces@;
        pieces.push(piece);
        proof {
            let mapped = pieces@.map_values(|p: &[u8]| p@);
            assert(pieces@.drop_last() =~= before);
            assert(mapped.drop_last() =~= before.map_values(|p: &[u8]| p@));
            assert(mapped.last() == piece@);
            assert(data@.take(split_index as int) + piece@
                =~= data@.take(new_split_index as int));
            assert(pieces@[0] == if before.len() == 0 { piece } else { before[0] });
        }
        split_index = new_split_index;
    }
}

} // verus!
