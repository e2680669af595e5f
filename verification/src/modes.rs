//! The mode engine: ECB maps the single-block primitive independently over
//! each block; CBC chains it, XORing every plaintext block with the previous
//! ciphertext block (or the IV) before encryption.  Both directions carry
//! their round-trip fact in their contracts: what `encrypt` returns,
//! `decrypt` maps back to the plaintext, block for block.

use vstd::prelude::*;

use crate::bytes::{lemma_xor_seq_involutes, subvec, xor, xor_seq};
use crate::cipher::{
    aes128_dec, aes128_decrypt_block, aes128_enc, aes128_encrypt_block, BLOCK_SIZE, KEY_SIZE,
};
use crate::errors::CryptoError;

verus! {

/// Block `j` of `data` when cut into `block_size`-byte blocks.
pub open spec fn block_at(data: Seq<u8>, block_size: int, j: int) -> Seq<u8>
    recommends
        block_size >= 1,
        0 <= j,
        (j + 1) * block_size <= data.len(),
{
    data.subrange(j * block_size, j * block_size + block_size)
}

/// ECB encryption of a block-aligned message: the primitive applied to each
/// block independently, in order.
pub open spec fn ecb_enc(key: Seq<u8>, m: Seq<u8>) -> Seq<u8>
    decreases m.len(),
{
    if m.len() < BLOCK_SIZE {
        Seq::<u8>::empty()
    } else {
        aes128_enc(key, m.take(BLOCK_SIZE as int)) + ecb_enc(key, m.skip(BLOCK_SIZE as int))
    }
}

/// ECB decryption: the inverse direction of the primitive applied to each
/// block independently, in order.
pub open spec fn ecb_dec(key: Seq<u8>, c: Seq<u8>) -> Seq<u8>
    decreases c.len(),
{
    if c.len() < BLOCK_SIZE {
        Seq::<u8>::empty()
    } else {
        aes128_dec(key, c.take(BLOCK_SIZE as int)) + ecb_dec(key, c.skip(BLOCK_SIZE as int))
    }
}

/// CBC encryption of a block-aligned message, with `prev` as the running
/// previous-ciphertext-block state (the IV at the start).
pub open spec fn cbc_enc(key: Seq<u8>, prev: Seq<u8>, m: Seq<u8>) -> Seq<u8>
    decreases m.len(),
{
    if m.len() < BLOCK_SIZE {
        Seq::<u8>::empty()
    } else {
        let c0 = aes128_enc(key, xor_seq(m.take(BLOCK_SIZE as int), prev));
        c0 + cbc_enc(key, c0, m.skip(BLOCK_SIZE as int))
    }
}

/// The previous-ciphertext-block state after CBC-encrypting all of `m`.
pub open spec fn cbc_chain(key: Seq<u8>, prev: Seq<u8>, m: Seq<u8>) -> Seq<u8>
    decreases m.len(),
{
    if m.len() < BLOCK_SIZE {
        prev
    } else {
        cbc_chain(
            key,
            aes128_enc(key, xor_seq(m.take(BLOCK_SIZE as int), prev)),
            m.skip(BLOCK_SIZE as int),
        )
    }
}

/// CBC decryption: each ciphertext block is sent through the inverse
/// primitive and XORed with the previous ciphertext block (the IV for the
/// first); the state advances to the ciphertext block just consumed.
pub open spec fn cbc_dec(key: Seq<u8>, prev: Seq<u8>, c: Seq<u8>) -> Seq<u8>
    decreases c.len(),
{
    if c.len() < BLOCK_SIZE {
        Seq::<u8>::empty()
    } else {
        xor_seq(aes128_dec(key, c.take(BLOCK_SIZE as int)), prev) + cbc_dec(
            key,
            c.take(BLOCK_SIZE as int),
            c.skip(BLOCK_SIZE as int),
        )
    }
}

/// A block-aligned nonempty sequence holds at least one whole block.
proof fn lemma_aligned_nonempty(len: nat)
    requires
        len % (BLOCK_SIZE as nat) == 0,
        len > 0,
    ensures
        len >= BLOCK_SIZE,
{
    if len < BLOCK_SIZE {
        vstd::arithmetic::div_mod::lemma_small_mod(len, BLOCK_SIZE as nat);
    }
}

/// ECB encryption grows one block at a time.
pub proof fn lemma_ecb_enc_snoc(key: Seq<u8>, m: Seq<u8>, b: Seq<u8>)
    requires
        m.len() % (BLOCK_SIZE as nat) == 0,
        b.len() == BLOCK_SIZE,
    ensures
        ecb_enc(key, m + b) == ecb_enc(key, m) + aes128_enc(key, b),
    decreases m.len(),
{
    if m.len() == 0 {
        reveal_with_fuel(ecb_enc, 2);
        assert((m + b) =~= b);
        assert(b.take(BLOCK_SIZE as int) =~= b);
        assert(b.skip(BLOCK_SIZE as int).len() == 0);
        assert(ecb_enc(key, m) + aes128_enc(key, b) =~= aes128_enc(key, b));
        assert(ecb_enc(key, b) =~= aes128_enc(key, b));
    } else {
        lemma_aligned_nonempty(m.len());
        assert((m + b).take(BLOCK_SIZE as int) =~= m.take(BLOCK_SIZE as int));
        assert((m + b).skip(BLOCK_SIZE as int) =~= m.skip(BLOCK_SIZE as int) + b);
        assert(m.skip(BLOCK_SIZE as int).len() % (BLOCK_SIZE as nat) == 0) by {
            vstd::arithmetic::div_mod::lemma_mod_sub_multiples_vanish(
                m.len() as int,
                BLOCK_SIZE as int,
            );
        }
        lemma_ecb_enc_snoc(key, m.skip(BLOCK_SIZE as int), b);
        assert(ecb_enc(key, m + b) =~= ecb_enc(key, m) + aes128_enc(key, b));
    }
}

/// ECB decryption grows one block at a time.
pub proof fn lemma_ecb_dec_snoc(key: Seq<u8>, c: Seq<u8>, b: Seq<u8>)
    requires
        c.len() % (BLOCK_SIZE as nat) == 0,
        b.len() == BLOCK_SIZE,
    ensures
        ecb_dec(key, c + b) == ecb_dec(key, c) + aes128_dec(key, b),
    decreases c.len(),
{
    if c.len() == 0 {
        reveal_with_fuel(ecb_dec, 2);
        assert((c + b) =~= b);
        assert(b.take(BLOCK_SIZE as int) =~= b);
        assert(b.skip(BLOCK_SIZE as int).len() == 0);
        assert(ecb_dec(key, c) + aes128_dec(key, b) =~= aes128_dec(key, b));
        assert(ecb_dec(key, b) =~= aes128_dec(key, b));
    } else {
        lemma_aligned_nonempty(c.len());
        assert((c + b).take(BLOCK_SIZE as int) =~= c.take(BLOCK_SIZE as int));
        assert((c + b).skip(BLOCK_SIZE as int) =~= c.skip(BLOCK_SIZE as int) + b);
        assert(c.skip(BLOCK_SIZE as int).len() % (BLOCK_SIZE as nat) == 0) by {
            vstd::arithmetic::div_mod::lemma_mod_sub_multiples_vanish(
                c.len() as int,
                BLOCK_SIZE as int,
            );
        }
        lemma_ecb_dec_snoc(key, c.skip(BLOCK_SIZE as int), b);
        assert(ecb_dec(key, c + b) =~= ecb_dec(key, c) + aes128_dec(key, b));
    }
}

/// ECB encryption keeps the length of a block-aligned message.
pub proof fn lemma_ecb_enc_len(key: Seq<u8>, m: Seq<u8>)
    requires
        m.len() % (BLOCK_SIZE as nat) == 0,
    ensures
        ecb_enc(key, m).len() == m.len(),
    decreases m.len(),
{
    if m.len() > 0 {
        lemma_aligned_nonempty(m.len());
        assert(m.skip(BLOCK_SIZE as int).len() % (BLOCK_SIZE as nat) == 0) by {
            vstd::arithmetic::div_mod::lemma_mod_sub_multiples_vanish(
                m.len() as int,
                BLOCK_SIZE as int,
            );
        }
        lemma_ecb_enc_len(key, m.skip(BLOCK_SIZE as int));
    }
}

/// ECB encryption acts blockwise: block `j` of the ciphertext is the
/// primitive applied to block `j` of the message.
pub proof fn lemma_ecb_enc_block(key: Seq<u8>, m: Seq<u8>, j: int)
    requires
        m.len() % (BLOCK_SIZE as nat) == 0,
        0 <= j,
        (j + 1) * BLOCK_SIZE <= m.len(),
    ensures
        block_at(ecb_enc(key, m), BLOCK_SIZE as int, j) == aes128_enc(
            key,
            block_at(m, BLOCK_SIZE as int, j),
        ),
    decreases j,
{
    lemma_aligned_nonempty(m.len());
    lemma_ecb_enc_len(key, m);
    let rest = m.skip(BLOCK_SIZE as int);
    assert(rest.len() % (BLOCK_SIZE as nat) == 0) by {
        vstd::arithmetic::div_mod::lemma_mod_sub_multiples_vanish(m.len() as int, BLOCK_SIZE as int);
    }
    lemma_ecb_enc_len(key, rest);
    if j == 0 {
        assert(block_at(ecb_enc(key, m), BLOCK_SIZE as int, 0) =~= aes128_enc(
            key,
            m.take(BLOCK_SIZE as int),
        ));
        assert(block_at(m, BLOCK_SIZE as int, 0) =~= m.take(BLOCK_SIZE as int));
    } else {
        lemma_ecb_enc_block(key, rest, j - 1);
        assert(block_at(m, BLOCK_SIZE as int, j) =~= block_at(rest, BLOCK_SIZE as int, j - 1));
        assert(block_at(ecb_enc(key, m), BLOCK_SIZE as int, j) =~= block_at(
            ecb_enc(key, rest),
            BLOCK_SIZE as int,
            j - 1,
        ));
    }
}

/// ECB decryption keeps the length of a block-aligned ciphertext.
pub proof fn lemma_ecb_dec_len(key: Seq<u8>, c: Seq<u8>)
    requires
        c.len() % (BLOCK_SIZE as nat) == 0,
    ensures
        ecb_dec(key, c).len() == c.len(),
    decreases c.len(),
{
    if c.len() > 0 {
        lemma_aligned_nonempty(c.len());
        assert(c.skip(BLOCK_SIZE as int).len() % (BLOCK_SIZE as nat) == 0) by {
            vstd::arithmetic::div_mod::lemma_mod_sub_multiples_vanish(
                c.len() as int,
                BLOCK_SIZE as int,
            );
        }
        lemma_ecb_dec_len(key, c.skip(BLOCK_SIZE as int));
    }
}

/// ECB decryption acts blockwise: block `j` of the plaintext is the inverse
/// primitive applied to block `j` of the ciphertext.
pub proof fn lemma_ecb_dec_block(key: Seq<u8>, c: Seq<u8>, j: int)
    requires
        c.len() % (BLOCK_SIZE as nat) == 0,
        0 <= j,
        (j + 1) * BLOCK_SIZE <= c.len(),
    ensures
        block_at(ecb_dec(key, c), BLOCK_SIZE as int, j) == aes128_dec(
            key,
            block_at(c, BLOCK_SIZE as int, j),
        ),
    decreases j,
{
    lemma_aligned_nonempty(c.len());
    lemma_ecb_dec_len(key, c);
    let rest = c.skip(BLOCK_SIZE as int);
    assert(rest.len() % (BLOCK_SIZE as nat) == 0) by {
        vstd::arithmetic::div_mod::lemma_mod_sub_multiples_vanish(c.len() as int, BLOCK_SIZE as int);
    }
    lemma_ecb_dec_len(key, rest);
    if j == 0 {
        assert(block_at(ecb_dec(key, c), BLOCK_SIZE as int, 0) =~= aes128_dec(
            key,
            c.take(BLOCK_SIZE as int),
        ));
        assert(block_at(c, BLOCK_SIZE as int, 0) =~= c.take(BLOCK_SIZE as int));
    } else {
        lemma_ecb_dec_block(key, rest, j - 1);
        assert(block_at(c, BLOCK_SIZE as int, j) =~= block_at(rest, BLOCK_SIZE as int, j - 1));
        assert(block_at(ecb_dec(key, c), BLOCK_SIZE as int, j) =~= block_at(
            ecb_dec(key, rest),
            BLOCK_SIZE as int,
            j - 1,
        ));
    }
}

/// Identical plaintext blocks encrypt to identical ciphertext blocks under
/// ECB with any fixed key: the structural weakness the detector exploits.
pub proof fn lemma_ecb_repeats_identical_blocks(key: Seq<u8>, m: Seq<u8>, i: int, j: int)
    requires
        m.len() % (BLOCK_SIZE as nat) == 0,
        0 <= i,
        0 <= j,
        (i + 1) * BLOCK_SIZE <= m.len(),
        (j + 1) * BLOCK_SIZE <= m.len(),
        block_at(m, BLOCK_SIZE as int, i) == block_at(m, BLOCK_SIZE as int, j),
    ensures
        block_at(ecb_enc(key, m), BLOCK_SIZE as int, i) == block_at(
            ecb_enc(key, m),
            BLOCK_SIZE as int,
            j,
        ),
{
    lemma_ecb_enc_block(key, m, i);
    lemma_ecb_enc_block(key, m, j);
}

/// CBC encryption grows one block at a time, and the chaining state after a
/// step is the ciphertext block that the step produced.
pub proof fn lemma_cbc_enc_snoc(key: Seq<u8>, prev: Seq<u8>, m: Seq<u8>, b: Seq<u8>)
    requires
        m.len() % (BLOCK_SIZE as nat) == 0,
        b.len() == BLOCK_SIZE,
    ensures
        cbc_enc(key, prev, m + b) == cbc_enc(key, prev, m) + aes128_enc(
            key,
            xor_seq(b, cbc_chain(key, prev, m)),
        ),
        cbc_chain(key, prev, m + b) == aes128_enc(key, xor_seq(b, cbc_chain(key, prev, m))),
    decreases m.len(),
{
    if m.len() == 0 {
        reveal_with_fuel(cbc_enc, 2);
        reveal_with_fuel(cbc_chain, 2);
        assert((m + b) =~= b);
        assert(b.take(BLOCK_SIZE as int) =~= b);
        assert(b.skip(BLOCK_SIZE as int).len() == 0);
        let c0 = aes128_enc(key, xor_seq(b, prev));
        assert(cbc_enc(key, prev, b) =~= c0);
        assert(cbc_enc(key, prev, m) + c0 =~= c0);
    } else {
        lemma_aligned_nonempty(m.len());
        assert((m + b).take(BLOCK_SIZE as int) =~= m.take(BLOCK_SIZE as int));
        assert((m + b).skip(BLOCK_SIZE as int) =~= m.skip(BLOCK_SIZE as int) + b);
        assert(m.skip(BLOCK_SIZE as int).len() % (BLOCK_SIZE as nat) == 0) by {
            vstd::arithmetic::div_mod::lemma_mod_sub_multiples_vanish(
                m.len() as int,
                BLOCK_SIZE as int,
            );
        }
        let c0 = aes128_enc(key, xor_seq(m.take(BLOCK_SIZE as int), prev));
        lemma_cbc_enc_snoc(key, c0, m.skip(BLOCK_SIZE as int), b);
        assert(cbc_enc(key, prev, m + b) =~= cbc_enc(key, prev, m) + aes128_enc(
            key,
            xor_seq(b, cbc_chain(key, prev, m)),
        ));
    }
}

/// CBC decryption grows one block at a time; the state for the appended
/// block is the last ciphertext block before it (or the IV).
pub proof fn lemma_cbc_dec_snoc(key: Seq<u8>, prev: Seq<u8>, c: Seq<u8>, b: Seq<u8>)
    requires
        c.len() % (BLOCK_SIZE as nat) == 0,
        b.len() == BLOCK_SIZE,
    ensures
        cbc_dec(key, prev, c + b) == cbc_dec(key, prev, c) + xor_seq(
            aes128_dec(key, b),
            if c.len() == 0 {
                prev
            } else {
                c.subrange(c.len() - BLOCK_SIZE, c.len() as int)
            },
        ),
    decreases c.len(),
{
    if c.len() == 0 {
        reveal_with_fuel(cbc_dec, 2);
        assert((c + b) =~= b);
        assert(b.take(BLOCK_SIZE as int) =~= b);
        assert(b.skip(BLOCK_SIZE as int).len() == 0);
        let p0 = xor_seq(aes128_dec(key, b), prev);
        assert(cbc_dec(key, prev, b) =~= p0);
        assert(cbc_dec(key, prev, c) + p0 =~= p0);
    } else {
        lemma_aligned_nonempty(c.len());
        assert((c + b).take(BLOCK_SIZE as int) =~= c.take(BLOCK_SIZE as int));
        assert((c + b).skip(BLOCK_SIZE as int) =~= c.skip(BLOCK_SIZE as int) + b);
        assert(c.skip(BLOCK_SIZE as int).len() % (BLOCK_SIZE as nat) == 0) by {
            vstd::arithmetic::div_mod::lemma_mod_sub_multiples_vanish(
                c.len() as int,
                BLOCK_SIZE as int,
            );
        }
        lemma_cbc_dec_snoc(key, c.take(BLOCK_SIZE as int), c.skip(BLOCK_SIZE as int), b);
        if c.len() == BLOCK_SIZE {
            assert(c.skip(BLOCK_SIZE as int).len() == 0);
            assert(c.take(BLOCK_SIZE as int) =~= c.subrange(
                c.len() - BLOCK_SIZE,
                c.len() as int,
            ));
        } else {
            lemma_aligned_nonempty((c.len() - BLOCK_SIZE) as nat);
            assert(c.skip(BLOCK_SIZE as int).subrange(
                c.skip(BLOCK_SIZE as int).len() - BLOCK_SIZE,
                c.skip(BLOCK_SIZE as int).len() as int,
            ) =~= c.subrange(c.len() - BLOCK_SIZE, c.len() as int));
        }
        assert(cbc_dec(key, prev, c + b) =~= cbc_dec(key, prev, c) + xor_seq(
            aes128_dec(key, b),
            c.subrange(c.len() - BLOCK_SIZE, c.len() as int),
        ));
    }
}


/// The byte range of block `i` lies inside a buffer of `len / bs` blocks.
proof fn lemma_block_index_bound(len: int, bs: int, i: int)
    requires
        bs >= 1,
        len >= 0,
        0 <= i,
        i + 1 <= len / bs,
    ensures
        0 <= i * bs,
        i * bs + bs <= len,
        (i + 1) * bs == i * bs + bs,
{
    vstd::arithmetic::div_mod::lemma_fundamental_div_mod(len, bs);
    vstd::arithmetic::div_mod::lemma_mod_bound(len, bs);
    vstd::arithmetic::mul::lemma_mul_inequality(i + 1, len / bs, bs);
    vstd::arithmetic::mul::lemma_mul_is_commutative(bs, len / bs);
    vstd::arithmetic::mul::lemma_mul_nonnegative(i, bs);
    assert((i + 1) * bs == i * bs + bs) by (nonlinear_arith);
}

/// Cut a buffer into its consecutive `blocksize`-byte blocks, dropping any
/// unaligned tail.
pub fn split_blocks(data: &Vec<u8>, blocksize: usize) -> (r: Vec<Vec<u8>>)
    requires
        blocksize >= 1,
    ensures
        r@.len() == data@.len() as int / blocksize as int,
        forall|j: int| 0 <= j < r@.len() ==> r@[j]@ == block_at(data@, blocksize as int, j),
{
    let num_blocks = data.len() / blocksize;
    let mut r: Vec<Vec<u8>> = Vec::with_capacity(num_blocks);
    let mut i: usize = 0;
    while i < num_blocks
        invariant
            i <= num_blocks,
            blocksize >= 1,
            data@.len() <= usize::MAX,
            num_blocks == data@.len() as int / blocksize as int,
            r@.len() == i,
            forall|j: int| 0 <= j < i ==> r@[j]@ == block_at(data@, blocksize as int, j),
        decreases num_blocks - i,
    {
        proof {
            lemma_block_index_bound(data@.len() as int, blocksize as int, i as int);
        }
        let start = i * blocksize;
        r.push(subvec(data, start, start + blocksize));
        i = i + 1;
    }
    r
}

/// Encrypt a block-aligned buffer with AES-128 in ECB mode: the primitive
/// applied to each block independently.  Fails with `InvalidLength` unless
/// the plaintext is a positive multiple of the block size and the key has
/// the cipher's key size.  The ciphertext decrypts back to the plaintext.
pub fn encrypt_aes_128_ecb(plaintext: &Vec<u8>, key: &Vec<u8>) -> (r: Result<Vec<u8>, CryptoError>)
    ensures
        r is Ok <==> (plaintext@.len() > 0 && plaintext@.len() % (BLOCK_SIZE as nat) == 0
            && key@.len() == KEY_SIZE),
        r matches Ok(c) ==> {
            &&& c@ == ecb_enc(key@, plaintext@)
            &&& c@.len() == plaintext@.len()
            &&& ecb_dec(key@, c@) == plaintext@
        },
        r matches Err(e) ==> e == CryptoError::InvalidLength,
{
    if key.len() != KEY_SIZE || plaintext.len() == 0 || plaintext.len() % BLOCK_SIZE != 0 {
        return Err(CryptoError::InvalidLength);
    }
    proof {
        vstd::arithmetic::div_mod::lemma_fundamental_div_mod(
            plaintext@.len() as int,
            BLOCK_SIZE as int,
        );
    }
    let num_blocks = plaintext.len() / BLOCK_SIZE;
    let mut out: Vec<u8> = Vec::with_capacity(plaintext.len());
    let mut i: usize = 0;
    while i < num_blocks
        invariant
            i <= num_blocks,
            key@.len() == KEY_SIZE,
            plaintext@.len() % (BLOCK_SIZE as nat) == 0,
            plaintext@.len() <= usize::MAX,
            num_blocks == plaintext@.len() as int / (BLOCK_SIZE as int),
            num_blocks * BLOCK_SIZE == plaintext@.len(),
            out@.len() == i * BLOCK_SIZE,
            out@ == ecb_enc(key@, plaintext@.take((i * BLOCK_SIZE) as int)),
            ecb_dec(key@, out@) == plaintext@.take((i * BLOCK_SIZE) as int),
        decreases num_blocks - i,
    {
        proof {
            lemma_block_index_bound(plaintext@.len() as int, BLOCK_SIZE as int, i as int);
        }
        let start = i * BLOCK_SIZE;
        let block = subvec(plaintext, start, start + BLOCK_SIZE);
        let mut cblock = aes128_encrypt_block(key, &block);
        proof {
            assert((i * BLOCK_SIZE) % (BLOCK_SIZE as int) == 0) by {
                vstd::arithmetic::div_mod::lemma_mod_multiples_basic(i as int, BLOCK_SIZE as int);
            }
            lemma_ecb_enc_snoc(key@, plaintext@.take(start as int), block@);
            lemma_ecb_dec_snoc(key@, out@, cblock@);
            assert(plaintext@.take((start + BLOCK_SIZE) as int) =~= plaintext@.take(start as int)
                + block@);
        }
        out.append(&mut cblock);
        i = i + 1;
    }
    assert(plaintext@.take((num_blocks * BLOCK_SIZE) as int) =~= plaintext@);
    Ok(out)
}

/// Decrypt a block-aligned buffer with AES-128 in ECB mode.  Fails with
/// `InvalidLength` unless the ciphertext is a positive multiple of the block
/// size and the key has the cipher's key size.  The plaintext encrypts back
/// to the ciphertext.
pub fn decrypt_aes_128_ecb(ciphertext: &Vec<u8>, key: &Vec<u8>) -> (r: Result<
    Vec<u8>,
    CryptoError,
>)
    ensures
        r is Ok <==> (ciphertext@.len() > 0 && ciphertext@.len() % (BLOCK_SIZE as nat) == 0
            && key@.len() == KEY_SIZE),
        r matches Ok(p) ==> {
            &&& p@ == ecb_dec(key@, ciphertext@)
            &&& p@.len() == ciphertext@.len()
            &&& ecb_enc(key@, p@) == ciphertext@
        },
        r matches Err(e) ==> e == CryptoError::InvalidLength,
{
    if key.len() != KEY_SIZE || ciphertext.len() == 0 || ciphertext.len() % BLOCK_SIZE != 0 {
        return Err(CryptoError::InvalidLength);
    }
    proof {
        vstd::arithmetic::div_mod::lemma_fundamental_div_mod(
            ciphertext@.len() as int,
            BLOCK_SIZE as int,
        );
    }
    let num_blocks = ciphertext.len() / BLOCK_SIZE;
    let mut out: Vec<u8> = Vec::with_capacity(ciphertext.len());
    let mut i: usize = 0;
    while i < num_blocks
        invariant
            i <= num_blocks,
            key@.len() == KEY_SIZE,
            ciphertext@.len() % (BLOCK_SIZE as nat) == 0,
            ciphertext@.len() <= usize::MAX,
            num_blocks == ciphertext@.len() as int / (BLOCK_SIZE as int),
            num_blocks * BLOCK_SIZE == ciphertext@.len(),
            out@.len() == i * BLOCK_SIZE,
            out@ == ecb_dec(key@, ciphertext@.take((i * BLOCK_SIZE) as int)),
            ecb_enc(key@, out@) == ciphertext@.take((i * BLOCK_SIZE) as int),
        decreases num_blocks - i,
    {
        proof {
            lemma_block_index_bound(ciphertext@.len() as int, BLOCK_SIZE as int, i as int);
        }
        let start = i * BLOCK_SIZE;
        let block = subvec(ciphertext, start, start + BLOCK_SIZE);
        let mut pblock = aes128_decrypt_block(key, &block);
        proof {
            assert((i * BLOCK_SIZE) % (BLOCK_SIZE as int) == 0) by {
                vstd::arithmetic::div_mod::lemma_mod_multiples_basic(i as int, BLOCK_SIZE as int);
            }
            lemma_ecb_dec_snoc(key@, ciphertext@.take(start as int), block@);
            lemma_ecb_enc_snoc(key@, out@, pblock@);
            assert(ciphertext@.take((start + BLOCK_SIZE) as int) =~= ciphertext@.take(start as int)
                + block@);
        }
        out.append(&mut pblock);
        i = i + 1;
    }
    assert(ciphertext@.take((num_blocks * BLOCK_SIZE) as int) =~= ciphertext@);
    Ok(out)
}

/// Encrypt a block-aligned buffer with AES-128 in CBC mode: every plaintext
/// block is XORed with the previous ciphertext block (the IV for the first)
/// before encryption.  Fails with `InvalidLength` unless the plaintext is a
/// positive multiple of the block size, the IV is one block long and the key
/// has the cipher's key size.  The ciphertext decrypts back to the
/// plaintext under the same IV and key.
pub fn encrypt_aes_128_cbc(plaintext: &Vec<u8>, iv: &Vec<u8>, key: &Vec<u8>) -> (r: Result<
    Vec<u8>,
    CryptoError,
>)
    ensures
        r is Ok <==> (plaintext@.len() > 0 && plaintext@.len() % (BLOCK_SIZE as nat) == 0
            && iv@.len() == BLOCK_SIZE && key@.len() == KEY_SIZE),
        r matches Ok(c) ==> {
            &&& c@ == cbc_enc(key@, iv@, plaintext@)
            &&& c@.len() == plaintext@.len()
            &&& cbc_dec(key@, iv@, c@) == plaintext@
        },
        r matches Err(e) ==> e == CryptoError::InvalidLength,
{
    if key.len() != KEY_SIZE || iv.len() != BLOCK_SIZE || plaintext.len() == 0
        || plaintext.len() % BLOCK_SIZE != 0 {
        return Err(CryptoError::InvalidLength);
    }
    proof {
        vstd::arithmetic::div_mod::lemma_fundamental_div_mod(
            plaintext@.len() as int,
            BLOCK_SIZE as int,
        );
    }
    let num_blocks = plaintext.len() / BLOCK_SIZE;
    let mut out: Vec<u8> = Vec::with_capacity(plaintext.len());
    let mut prev = subvec(iv, 0, iv.len());
    let mut i: usize = 0;
    while i < num_blocks
        invariant
            i <= num_blocks,
            key@.len() == KEY_SIZE,
            iv@.len() == BLOCK_SIZE,
            plaintext@.len() % (BLOCK_SIZE as nat) == 0,
            plaintext@.len() <= usize::MAX,
            num_blocks == plaintext@.len() as int / (BLOCK_SIZE as int),
            num_blocks * BLOCK_SIZE == plaintext@.len(),
            out@.len() == i * BLOCK_SIZE,
            prev@.len() == BLOCK_SIZE,
            prev@ == cbc_chain(key@, iv@, plaintext@.take((i * BLOCK_SIZE) as int)),
            out@ == cbc_enc(key@, iv@, plaintext@.take((i * BLOCK_SIZE) as int)),
            cbc_dec(key@, iv@, out@) == plaintext@.take((i * BLOCK_SIZE) as int),
            i > 0 ==> out@.subrange(out@.len() - BLOCK_SIZE, out@.len() as int) == prev@,
        decreases num_blocks - i,
    {
        proof {
            lemma_block_index_bound(plaintext@.len() as int, BLOCK_SIZE as int, i as int);
        }
        let start = i * BLOCK_SIZE;
        let block = subvec(plaintext, start, start + BLOCK_SIZE);
        let input = xor(&block, &prev);
        let mut cblock = aes128_encrypt_block(key, &input);
        proof {
            assert((i * BLOCK_SIZE) % (BLOCK_SIZE as int) == 0) by {
                vstd::arithmetic::div_mod::lemma_mod_multiples_basic(i as int, BLOCK_SIZE as int);
            }
            lemma_cbc_enc_snoc(key@, iv@, plaintext@.take(start as int), block@);
            lemma_cbc_dec_snoc(key@, iv@, out@, cblock@);
            lemma_xor_seq_involutes(block@, prev@);
            assert(plaintext@.take((start + BLOCK_SIZE) as int) =~= plaintext@.take(start as int)
                + block@);
        }
        prev = subvec(&cblock, 0, cblock.len());
        out.append(&mut cblock);
        i = i + 1;
    }
    assert(plaintext@.take((num_blocks * BLOCK_SIZE) as int) =~= plaintext@);
    Ok(out)
}

/// Decrypt a block-aligned buffer with AES-128 in CBC mode: every
/// ciphertext block is sent through the inverse primitive and XORed with
/// the previous ciphertext block (the IV for the first).  Fails with
/// `InvalidLength` unless the ciphertext is a positive multiple of the
/// block size, the IV is one block long and the key has the cipher's key
/// size.  The plaintext encrypts back to the ciphertext under the same IV
/// and key.
pub fn decrypt_aes_128_cbc(ciphertext: &Vec<u8>, iv: &Vec<u8>, key: &Vec<u8>) -> (r: Result<
    Vec<u8>,
    CryptoError,
>)
    ensures
        r is Ok <==> (ciphertext@.len() > 0 && ciphertext@.len() % (BLOCK_SIZE as nat) == 0
            && iv@.len() == BLOCK_SIZE && key@.len() == KEY_SIZE),
        r matches Ok(p) ==> {
            &&& p@ == cbc_dec(key@, iv@, ciphertext@)
            &&& p@.len() == ciphertext@.len()
            &&& cbc_enc(key@, iv@, p@) == ciphertext@
        },
        r matches Err(e) ==> e == CryptoError::InvalidLength,
{
    if key.len() != KEY_SIZE || iv.len() != BLOCK_SIZE || ciphertext.len() == 0
        || ciphertext.len() % BLOCK_SIZE != 0 {
        return Err(CryptoError::InvalidLength);
    }
    proof {
        vstd::arithmetic::div_mod::lemma_fundamental_div_mod(
            ciphertext@.len() as int,
            BLOCK_SIZE as int,
        );
    }
    let num_blocks = ciphertext.len() / BLOCK_SIZE;
    let mut out: Vec<u8> = Vec::with_capacity(ciphertext.len());
    let mut prev = subvec(iv, 0, iv.len());
    let mut i: usize = 0;
    while i < num_blocks
        invariant
            i <= num_blocks,
            key@.len() == KEY_SIZE,
            iv@.len() == BLOCK_SIZE,
            ciphertext@.len() % (BLOCK_SIZE as nat) == 0,
            ciphertext@.len() <= usize::MAX,
            num_blocks == ciphertext@.len() as int / (BLOCK_SIZE as int),
            num_blocks * BLOCK_SIZE == ciphertext@.len(),
            out@.len() == i * BLOCK_SIZE,
            prev@.len() == BLOCK_SIZE,
            prev@ == (if i == 0 { iv@ } else {
                ciphertext@.subrange((i * BLOCK_SIZE - BLOCK_SIZE) as int, (i * BLOCK_SIZE) as int)
            }),
            out@ == cbc_dec(key@, iv@, ciphertext@.take((i * BLOCK_SIZE) as int)),
            cbc_enc(key@, iv@, out@) == ciphertext@.take((i * BLOCK_SIZE) as int),
            cbc_chain(key@, iv@, out@) == prev@,
        decreases num_blocks - i,
    {
        proof {
            lemma_block_index_bound(ciphertext@.len() as int, BLOCK_SIZE as int, i as int);
        }
        let start = i * BLOCK_SIZE;
        let block = subvec(ciphertext, start, start + BLOCK_SIZE);
        let dec = aes128_decrypt_block(key, &block);
        let mut pblock = xor(&dec, &prev);
        proof {
            assert((i * BLOCK_SIZE) % (BLOCK_SIZE as int) == 0) by {
                vstd::arithmetic::div_mod::lemma_mod_multiples_basic(i as int, BLOCK_SIZE as int);
            }
            lemma_cbc_dec_snoc(key@, iv@, ciphertext@.take(start as int), block@);
            lemma_cbc_enc_snoc(key@, iv@, out@, pblock@);
            lemma_xor_seq_involutes(dec@, prev@);
            assert(ciphertext@.take((start + BLOCK_SIZE) as int) =~= ciphertext@.take(start as int)
                + block@);
            if i > 0 {
                assert(ciphertext@.take(start as int).subrange(
                    start - BLOCK_SIZE,
                    start as int,
                ) =~= ciphertext@.subrange(start - BLOCK_SIZE, start as int));
            }
        }
        prev = subvec(ciphertext, start, start + BLOCK_SIZE);
        out.append(&mut pblock);
        i = i + 1;
    }
    assert(ciphertext@.take((num_blocks * BLOCK_SIZE) as int) =~= ciphertext@);
    Ok(out)
}

} // verus!
