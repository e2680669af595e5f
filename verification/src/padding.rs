//! The reversible byte-padding codec: `pkcs7` aligns a message to the block
//! size by appending `n` bytes of value `n`, and `unpad` removes them again
//! by reading the trailing length byte back.

use vstd::prelude::*;

use crate::errors::CryptoError;
use crate::bytes::subvec;

verus! {

/// How many padding bytes `pkcs7` appends to a message of length `len`:
/// always between 1 and `block_size`, never 0, so that the padding is
/// self-describing even when the message is already aligned.
pub open spec fn pad_len_of(len: nat, block_size: nat) -> nat
    recommends
        block_size >= 1,
{
    (block_size - (len % block_size)) as nat
}

/// The padded form of `m`: `m` followed by `pad_len_of` bytes, each holding
/// that same count.
pub open spec fn pad_spec(m: Seq<u8>, block_size: nat) -> Seq<u8>
    recommends
        1 <= block_size <= 255,
{
    m + Seq::new(pad_len_of(m.len(), block_size), |i: int| pad_len_of(m.len(), block_size) as u8)
}

/// A sequence ends in well-formed padding: its last byte holds a count `n`
/// with `1 <= n <= len`, and the last `n` bytes all hold `n`.
pub open spec fn valid_padding(p: Seq<u8>) -> bool {
    &&& p.len() >= 1
    &&& 1 <= p.last()
    &&& p.last() <= p.len()
    &&& forall|i: int| p.len() - p.last() <= i < p.len() ==> p[i] == p.last()
}

/// The message a padded sequence stands for: everything before the padding.
pub open spec fn unpad_spec(p: Seq<u8>) -> Seq<u8>
    recommends
        valid_padding(p),
{
    p.take(p.len() - p.last())
}

/// Pad a message, given a blocksize.
pub fn pkcs7(message: &Vec<u8>, block_size: usize) -> (padded: Vec<u8>)
    requires
        1 <= block_size <= 255,
    ensures
        padded@ == pad_spec(message@, block_size as nat),
        padded@.len() == message@.len() + pad_len_of(message@.len(), block_size as nat),
{
    let padding_len = block_size - message.len() % block_size;
    let mut padded = subvec(message, 0, message.len());
    assert(padded@ =~= message@);
    let mut i: usize = 0;
    while i < padding_len
        invariant
            i <= padding_len,
            padding_len == pad_len_of(message@.len(), block_size as nat),
            padding_len <= 255,
            padded@ == message@ + Seq::new(i as nat, |j: int| padding_len as u8),
        decreases padding_len - i,
    {
        padded.push(padding_len as u8);
        i = i + 1;
        assert(padded@ =~= message@ + Seq::new(i as nat, |j: int| padding_len as u8));
    }
    assert(padded@ =~= pad_spec(message@, block_size as nat));
    padded
}

/// Read the trailing length byte back and strip that much padding, failing
/// with `MalformedPadding` unless exactly that many trailing bytes all hold
/// that value.
pub fn unpad(padded: &Vec<u8>) -> (r: Result<Vec<u8>, CryptoError>)
    ensures
        r is Ok <==> valid_padding(padded@),
        r matches Ok(m) ==> m@ == unpad_spec(padded@),
        r matches Err(e) ==> e == CryptoError::MalformedPadding,
{
    if padded.len() == 0 {
        return Err(CryptoError::MalformedPadding);
    }
    let count = padded[padded.len() - 1];
    if count == 0 || (count as usize) > padded.len() {
        return Err(CryptoError::MalformedPadding);
    }
    let start = padded.len() - count as usize;
    let mut i: usize = start;
    while i < padded.len()
        invariant
            start <= i <= padded@.len(),
            start == padded@.len() - count,
            count == padded@.last(),
            padded@.len() >= 1,
            forall|j: int| start <= j < i ==> padded@[j] == count,
        decreases padded@.len() - i,
    {
        if padded[i] != count {
            return Err(CryptoError::MalformedPadding);
        }
        i = i + 1;
    }
    Ok(subvec(padded, 0, start))
}

/// The codec round-trips: padding any message and unpadding it gives the
/// message back, the padded length is a multiple of the block size, and the
/// padding is never empty.
pub proof fn lemma_pad_round_trip(m: Seq<u8>, block_size: nat)
    requires
        1 <= block_size <= 255,
    ensures
        valid_padding(pad_spec(m, block_size)),
        unpad_spec(pad_spec(m, block_size)) == m,
        pad_spec(m, block_size).len() % block_size == 0,
        m.len() < pad_spec(m, block_size).len() <= m.len() + block_size,
{
    let n = pad_len_of(m.len(), block_size);
    let p = pad_spec(m, block_size);
    assert(0 < n <= block_size);
    assert(p.len() == m.len() + n);
    assert(p.last() == n as u8);
    assert(unpad_spec(p) =~= m);
    assert((m.len() + n) % block_size == 0) by {
        let len = m.len() as int;
        let bs = block_size as int;
        let q = len / bs;
        vstd::arithmetic::div_mod::lemma_fundamental_div_mod(len, bs);
        assert(len + n == (q + 1) * bs) by (nonlinear_arith)
            requires
                len == q * bs + (len % bs),
                n == bs - (len % bs),
        ;
        vstd::arithmetic::div_mod::lemma_mod_multiples_basic(q + 1, bs);
    }
}

/// A message whose length is already a multiple of the block size still gets
/// a full extra block of padding: exactly `block_size` bytes, each holding
/// the value `block_size`.
pub proof fn lemma_pad_full_block(m: Seq<u8>, block_size: nat)
    requires
        1 <= block_size <= 255,
        m.len() % block_size == 0,
    ensures
        pad_spec(m, block_size).len() == m.len() + block_size,
        pad_spec(m, block_size).take(m.len() as int) == m,
        forall|i: int|
            m.len() <= i < m.len() + block_size ==> pad_spec(m, block_size)[i] == block_size as u8,
{
    assert(pad_len_of(m.len(), block_size) == block_size);
    assert(pad_spec(m, block_size).take(m.len() as int) =~= m);
}

} // verus!
