//! The structural mode detector: ECB encrypts identical plaintext blocks to
//! identical ciphertext blocks, so a ciphertext holding two byte-identical
//! blocks is the structural signature of ECB usage.

use vstd::prelude::*;

use crate::bytes::bytes_equal;
use crate::cipher::BLOCK_SIZE;
use crate::errors::CryptoError;
use crate::modes::{
    block_at, ecb_enc, lemma_ecb_enc_len, lemma_ecb_repeats_identical_blocks, split_blocks,
};

verus! {

/// Two of the `block_size`-byte blocks of `data` are byte-identical.
pub open spec fn has_repeated_block(data: Seq<u8>, block_size: int) -> bool
    recommends
        block_size >= 1,
{
    exists|i: int, j: int|
        0 <= i < j < data.len() as int / block_size && block_at(data, block_size, i) == block_at(
            data,
            block_size,
            j,
        )
}

/// Check if a list of byte strings has unique elements.
pub fn has_unique_elements(items: &Vec<Vec<u8>>) -> (r: bool)
    ensures
        r <==> (forall|i: int, j: int|
            0 <= i < j < items@.len() ==> items@[i]@ != items@[j]@),
{
    let mut i: usize = 0;
    while i < items.len()
        invariant
            i <= items@.len(),
            forall|p: int, q: int| 0 <= p < q < items@.len() && p < i ==> items@[p]@ != items@[q]@,
        decreases items@.len() - i,
    {
        let mut j: usize = i + 1;
        while j < items.len()
            invariant
                i < j || j == i + 1,
                i < items@.len(),
                i + 1 <= j <= items@.len(),
                forall|q: int| i < q < j ==> items@[i as int]@ != items@[q]@,
            decreases items@.len() - j,
        {
            if bytes_equal(&items[i], &items[j]) {
                return false;
            }
            j = j + 1;
        }
        i = i + 1;
    }
    true
}

/// Check whether a given buffer has repeated blocks of size `blocksize`,
/// failing with `MisalignedInput` when its length is not a multiple of the
/// block size.
pub fn repeated_blocks(ciphertext: &Vec<u8>, blocksize: usize) -> (r: Result<bool, CryptoError>)
    requires
        blocksize >= 1,
    ensures
        r is Ok <==> ciphertext@.len() % (blocksize as nat) == 0,
        r matches Ok(b) ==> (b <==> has_repeated_block(ciphertext@, blocksize as int)),
        r matches Err(e) ==> e == CryptoError::MisalignedInput,
{
    if ciphertext.len() % blocksize != 0 {
        return Err(CryptoError::MisalignedInput);
    }
    let blocks = split_blocks(ciphertext, blocksize);
    let unique = has_unique_elements(&blocks);
    proof {
        let n = ciphertext@.len() as int / blocksize as int;
        if !unique {
            let (p, q) = choose|p: int, q: int|
                0 <= p < q < blocks@.len() && blocks@[p]@ == blocks@[q]@;
            assert(block_at(ciphertext@, blocksize as int, p) == block_at(
                ciphertext@,
                blocksize as int,
                q,
            ));
        }
        if has_repeated_block(ciphertext@, blocksize as int) {
            let (p, q) = choose|p: int, q: int|
                0 <= p < q < n && block_at(ciphertext@, blocksize as int, p) == block_at(
                    ciphertext@,
                    blocksize as int,
                    q,
                );
            assert(blocks@[p]@ == blocks@[q]@);
        }
    }
    Ok(!unique)
}


/// Collision-detection soundness: a plaintext holding two identical blocks
/// always shows the detector's signature after ECB encryption, under any
/// key.
pub proof fn lemma_detector_flags_repeated_plaintext(key: Seq<u8>, m: Seq<u8>, i: int, j: int)
    requires
        m.len() % (BLOCK_SIZE as nat) == 0,
        0 <= i < j,
        (j + 1) * BLOCK_SIZE <= m.len(),
        block_at(m, BLOCK_SIZE as int, i) == block_at(m, BLOCK_SIZE as int, j),
    ensures
        has_repeated_block(ecb_enc(key, m), BLOCK_SIZE as int),
{
    lemma_ecb_repeats_identical_blocks(key, m, i, j);
    lemma_ecb_enc_len(key, m);
    vstd::arithmetic::div_mod::lemma_div_is_ordered(
        (j + 1) * (BLOCK_SIZE as int),
        m.len() as int,
        BLOCK_SIZE as int,
    );
    vstd::arithmetic::div_mod::lemma_div_by_multiple(j + 1, BLOCK_SIZE as int);
    assert(0 <= i < j < ecb_enc(key, m).len() as int / (BLOCK_SIZE as int) && block_at(
        ecb_enc(key, m),
        BLOCK_SIZE as int,
        i,
    ) == block_at(ecb_enc(key, m), BLOCK_SIZE as int, j));
}

} // verus!
