//! The chosen-plaintext oracle: a black box holding a fixed hidden key and
//! a fixed hidden suffix.  Each query appends the suffix to the attacker's
//! bytes, pads, and encrypts with AES-128 in ECB mode.  The key is owned by
//! the oracle alone and is never handed out; the attack sees only
//! ciphertexts.

use vstd::prelude::*;

use crate::bytes::subvec;
use crate::cipher::{aes128_dec, aes128_enc, BLOCK_SIZE, KEY_SIZE};
use crate::errors::CryptoError;
use crate::modes::{
    block_at, ecb_enc, encrypt_aes_128_ecb, lemma_ecb_dec_block, lemma_ecb_enc_block,
};
use crate::padding::{lemma_pad_round_trip, pad_spec, pkcs7};

verus! {

/// What one oracle query answers: the ECB encryption, under the oracle's
/// key, of the attacker bytes with the hidden suffix appended and padded.
pub open spec fn oracle_ct(key: Seq<u8>, suffix: Seq<u8>, attacker: Seq<u8>) -> Seq<u8> {
    ecb_enc(key, pad_spec(attacker + suffix, BLOCK_SIZE as nat))
}

/// An encryption oracle with a fixed hidden key and a fixed hidden suffix.
pub struct EcbOracle {
    key: Vec<u8>,
    suffix: Vec<u8>,
}

impl EcbOracle {
    /// The oracle's hidden key (never read by the attack, only by proofs).
    pub closed spec fn key(&self) -> Seq<u8> {
        self.key@
    }

    /// The oracle's hidden suffix: what the attack recovers.
    pub closed spec fn suffix(&self) -> Seq<u8> {
        self.suffix@
    }

    /// The key has the cipher's key size.
    pub open spec fn wf(&self) -> bool {
        self.key().len() == KEY_SIZE
    }

    /// Construct an oracle that will answer every query under `key` with
    /// `suffix` appended behind the attacker-controlled bytes.
    pub fn new(key: Vec<u8>, suffix: Vec<u8>) -> (r: Self)
        requires
            key@.len() == KEY_SIZE,
        ensures
            r.wf(),
            r.key() == key@,
            r.suffix() == suffix@,
    {
        EcbOracle { key, suffix }
    }

    /// Answer one query: pad `attacker_bytes ++ suffix` and ECB-encrypt it
    /// under the hidden key.  Deterministic: the answer is a function of
    /// the query, the key and the suffix alone.  Every ciphertext block is
    /// the primitive applied to the matching padded-input block, and
    /// decrypts back to it.
    pub fn encrypt(&self, attacker_bytes: &Vec<u8>) -> (r: Vec<u8>)
        requires
            self.wf(),
        ensures
            r@ == oracle_ct(self.key(), self.suffix(), attacker_bytes@),
            r@.len() == pad_spec(attacker_bytes@ + self.suffix(), BLOCK_SIZE as nat).len(),
            r@.len() % (BLOCK_SIZE as nat) == 0,
            attacker_bytes@.len() + self.suffix().len() < r@.len() <= attacker_bytes@.len()
                + self.suffix().len() + BLOCK_SIZE,
            forall|j: int|
                0 <= j < r@.len() as int / (BLOCK_SIZE as int) ==> #[trigger] block_at(
                    r@,
                    BLOCK_SIZE as int,
                    j,
                ) == aes128_enc(
                    self.key(),
                    block_at(
                        pad_spec(attacker_bytes@ + self.suffix(), BLOCK_SIZE as nat),
                        BLOCK_SIZE as int,
                        j,
                    ),
                ),
            forall|j: int|
                0 <= j < r@.len() as int / (BLOCK_SIZE as int) ==> aes128_dec(
                    self.key(),
                    #[trigger] block_at(r@, BLOCK_SIZE as int, j),
                ) == block_at(
                    pad_spec(attacker_bytes@ + self.suffix(), BLOCK_SIZE as nat),
                    BLOCK_SIZE as int,
                    j,
                ),
    {
        let mut mes = subvec(attacker_bytes, 0, attacker_bytes.len());
        let mut sfx = subvec(&self.suffix, 0, self.suffix.len());
        mes.append(&mut sfx);
        proof {
            lemma_pad_round_trip(mes@, BLOCK_SIZE as nat);
        }
        let padded = pkcs7(&mes, BLOCK_SIZE);
        let r = encrypt_aes_128_ecb(&padded, &self.key).unwrap();
        proof {
            let p = pad_spec(attacker_bytes@ + self.suffix(), BLOCK_SIZE as nat);
            assert(mes@ =~= attacker_bytes@ + self.suffix());
            assert forall|j: int| 0 <= j < r@.len() as int / (BLOCK_SIZE as int) implies {
                &&& #[trigger] block_at(r@, BLOCK_SIZE as int, j) == aes128_enc(
                    self.key(),
                    block_at(p, BLOCK_SIZE as int, j),
                )
                &&& aes128_dec(self.key(), block_at(r@, BLOCK_SIZE as int, j)) == block_at(
                    p,
                    BLOCK_SIZE as int,
                    j,
                )
            } by {
                vstd::arithmetic::div_mod::lemma_fundamental_div_mod(
                    r@.len() as int,
                    BLOCK_SIZE as int,
                );
                vstd::arithmetic::mul::lemma_mul_inequality(
                    j + 1,
                    r@.len() as int / (BLOCK_SIZE as int),
                    BLOCK_SIZE as int,
                );
                vstd::arithmetic::mul::lemma_mul_is_commutative(
                    BLOCK_SIZE as int,
                    r@.len() as int / (BLOCK_SIZE as int),
                );
                lemma_ecb_enc_block(self.key(), p, j);
                lemma_ecb_dec_block(self.key(), r@, j);
            }
        }
        r
    }
}

} // verus!
