//! The single-block cipher primitive: AES-128 in ECB mode on exactly one
//! block, supplied by the `openssl` crate and taken on trust.
//!
//! What the two calls return is a pure function of key and block alone, but
//! far too large to write down, so the result bytes are only named:
//! `aes128_enc_byte` and `aes128_dec_byte`, wrapped into the block-valued
//! spec functions `aes128_enc` and `aes128_dec`.  The one further fact
//! stated is that the two directions are mutual inverses for any fixed key,
//! which is the defining property of a block cipher and what every mode of
//! operation rests on.

use vstd::prelude::*;

verus! {

/// The cipher's block size in bytes.
pub const BLOCK_SIZE: usize = 16;

/// The cipher's key size in bytes.
pub const KEY_SIZE: usize = 16;

pub uninterp spec fn aes128_enc_byte(key: Seq<u8>, block: Seq<u8>, i: int) -> u8;

pub uninterp spec fn aes128_dec_byte(key: Seq<u8>, block: Seq<u8>, i: int) -> u8;

/// The block AES-128 encryption maps `block` to under `key`.
pub open spec fn aes128_enc(key: Seq<u8>, block: Seq<u8>) -> Seq<u8> {
    Seq::new(BLOCK_SIZE as nat, |i: int| aes128_enc_byte(key, block, i))
}

/// The block AES-128 decryption maps `block` to under `key`.
pub open spec fn aes128_dec(key: Seq<u8>, block: Seq<u8>) -> Seq<u8> {
    Seq::new(BLOCK_SIZE as nat, |i: int| aes128_dec_byte(key, block, i))
}

/// Relies on openssl's `Crypter` with `Cipher::aes_128_ecb` and padding
/// disabled: encrypting one 16-byte block under a 16-byte key yields the
/// 16-byte AES block, a deterministic function of key and block alone,
/// which openssl's decryption direction maps back to the input block.
#[verifier::external_body]
pub fn aes128_encrypt_block(key: &Vec<u8>, block: &Vec<u8>) -> (r: Vec<u8>)
    requires
        key@.len() == KEY_SIZE,
        block@.len() == BLOCK_SIZE,
    ensures
        forall|i: int| 0 <= i < BLOCK_SIZE ==> r@[i] == aes128_enc_byte(key@, block@, i),
        r@ == aes128_enc(key@, block@),
        aes128_dec(key@, r@) == block@,
{
    let mut c = openssl::symm::Crypter::new(
        openssl::symm::Cipher::aes_128_ecb(),
        openssl::symm::Mode::Encrypt,
        key.as_slice(),
        None,
    )
    .unwrap();
    c.pad(false);
    let mut out = vec![0u8; 32];
    let mut n = c.update(block.as_slice(), &mut out).unwrap();
    n += c.finalize(&mut out[n..]).unwrap();
    out.truncate(n);
    out
}

/// Relies on openssl's `Crypter` with `Cipher::aes_128_ecb` and padding
/// disabled: decrypting one 16-byte block under a 16-byte key yields the
/// 16-byte AES preimage, a deterministic function of key and block alone,
/// which openssl's encryption direction maps back to the input block.
#[verifier::external_body]
pub fn aes128_decrypt_block(key: &Vec<u8>, block: &Vec<u8>) -> (r: Vec<u8>)
    requires
        key@.len() == KEY_SIZE,
        block@.len() == BLOCK_SIZE,
    ensures
        forall|i: int| 0 <= i < BLOCK_SIZE ==> r@[i] == aes128_dec_byte(key@, block@, i),
        r@ == aes128_dec(key@, block@),
        aes128_enc(key@, r@) == block@,
{
    let mut c = openssl::symm::Crypter::new(
        openssl::symm::Cipher::aes_128_ecb(),
        openssl::symm::Mode::Decrypt,
        key.as_slice(),
        None,
    )
    .unwrap();
    c.pad(false);
    let mut out = vec![0u8; 32];
    let mut n = c.update(block.as_slice(), &mut out).unwrap();
    n += c.finalize(&mut out[n..]).unwrap();
    out.truncate(n);
    out
}

} // verus!
