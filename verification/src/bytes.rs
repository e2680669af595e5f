//! Byte-sequence helpers: pointwise XOR, copying a range out of a vector,
//! and a constant-filled vector.

use vstd::prelude::*;

verus! {

/// Pointwise XOR of two equal-length byte sequences.
pub open spec fn xor_seq(x: Seq<u8>, y: Seq<u8>) -> Seq<u8>
    recommends
        x.len() == y.len(),
{
    Seq::new(x.len(), |i: int| x[i] ^ y[i])
}

/// XOR with the same sequence twice gives the original back.
pub proof fn lemma_xor_seq_involutes(x: Seq<u8>, y: Seq<u8>)
    requires
        x.len() == y.len(),
    ensures
        xor_seq(xor_seq(x, y), y) == x,
{
    assert forall|i: int| 0 <= i < x.len() implies xor_seq(xor_seq(x, y), y)[i] == x[i] by {
        let a = x[i];
        let b = y[i];
        assert((a ^ b) ^ b == a) by (bit_vector);
    }
    assert(xor_seq(xor_seq(x, y), y) =~= x);
}

/// Pointwise XOR of two byte vectors of the same length.
pub fn xor(x: &Vec<u8>, y: &Vec<u8>) -> (r: Vec<u8>)
    requires
        x@.len() == y@.len(),
    ensures
        r@ == xor_seq(x@, y@),
{
    let mut r: Vec<u8> = Vec::with_capacity(x.len());
    let mut i: usize = 0;
    while i < x.len()
        invariant
            i <= x@.len(),
            x@.len() == y@.len(),
            r@ == xor_seq(x@, y@).take(i as int),
        decreases x@.len() - i,
    {
        r.push(x[i] ^ y[i]);
        i = i + 1;
        assert(r@ =~= xor_seq(x@, y@).take(i as int));
    }
    assert(r@ =~= xor_seq(x@, y@));
    r
}

/// A copy of `v[start..end]` as a fresh vector.
pub fn subvec(v: &Vec<u8>, start: usize, end: usize) -> (r: Vec<u8>)
    requires
        start <= end <= v@.len(),
    ensures
        r@ == v@.subrange(start as int, end as int),
{
    let mut r: Vec<u8> = Vec::with_capacity(end - start);
    let mut i: usize = start;
    while i < end
        invariant
            start <= i <= end <= v@.len(),
            r@ == v@.subrange(start as int, i as int),
        decreases end - i,
    {
        r.push(v[i]);
        i = i + 1;
        assert(r@ =~= v@.subrange(start as int, i as int));
    }
    r
}

/// Compare two byte vectors for equality, byte by byte.
pub fn bytes_equal(a: &Vec<u8>, b: &Vec<u8>) -> (r: bool)
    ensures
        r <==> a@ == b@,
{
    if a.len() != b.len() {
        return false;
    }
    let mut i: usize = 0;
    while i < a.len()
        invariant
            i <= a@.len(),
            a@.len() == b@.len(),
            forall|j: int| 0 <= j < i ==> a@[j] == b@[j],
        decreases a@.len() - i,
    {
        if a[i] != b[i] {
            return false;
        }
        i = i + 1;
    }
    proof {
        assert(a@ =~= b@);
    }
    true
}

/// A vector holding `n` copies of the byte `b`.
pub fn repeat_byte(b: u8, n: usize) -> (r: Vec<u8>)
    ensures
        r@ == Seq::new(n as nat, |i: int| b),
{
    let mut r: Vec<u8> = Vec::with_capacity(n);
    let mut i: usize = 0;
    while i < n
        invariant
            i <= n,
            r@ == Seq::new(i as nat, |j: int| b),
        decreases n - i,
    {
        r.push(b);
        i = i + 1;
        assert(r@ =~= Seq::new(i as nat, |j: int| b));
    }
    r
}


/// How many of the eight bits of `x` are set.
pub open spec fn popcount(x: u8) -> int {
    ((x & 1) + ((x >> 1) & 1) + ((x >> 2) & 1) + ((x >> 3) & 1) + ((x >> 4) & 1) + ((x >> 5) & 1)
        + ((x >> 6) & 1) + ((x >> 7) & 1)) as int
}

/// The Hamming distance between two equal-length byte sequences: the number
/// of bit positions at which they differ.
pub open spec fn hamming_spec(x: Seq<u8>, y: Seq<u8>) -> int
    recommends
        x.len() == y.len(),
    decreases x.len(),
{
    if x.len() == 0 {
        0
    } else {
        hamming_spec(x.drop_last(), y.drop_last()) + popcount(x.last() ^ y.last())
    }
}

/// Count the set bits of one byte.
fn popcount_byte(x: u8) -> (r: u8)
    ensures
        r as int == popcount(x),
{
    proof {
        assert((x & 1) + ((x >> 1) & 1) + ((x >> 2) & 1) + ((x >> 3) & 1) + ((x >> 4) & 1) + ((x
            >> 5) & 1) + ((x >> 6) & 1) + ((x >> 7) & 1) <= 8) by (bit_vector);
    }
    (x & 1) + ((x >> 1) & 1) + ((x >> 2) & 1) + ((x >> 3) & 1) + ((x >> 4) & 1) + ((x >> 5) & 1)
        + ((x >> 6) & 1) + ((x >> 7) & 1)
}

/// The Hamming distance between two byte strings, failing with
/// `InvalidLength` when they are not the same length.
pub fn hamming(x: &Vec<u8>, y: &Vec<u8>) -> (r: Result<u64, crate::errors::CryptoError>)
    requires
        x@.len() <= 0x1fff_ffff_ffff_ffff,
    ensures
        r is Ok <==> x@.len() == y@.len(),
        r matches Ok(d) ==> d as int == hamming_spec(x@, y@),
        r matches Err(e) ==> e == crate::errors::CryptoError::InvalidLength,
{
    if x.len() != y.len() {
        return Err(crate::errors::CryptoError::InvalidLength);
    }
    let mut d: u64 = 0;
    let mut i: usize = 0;
    while i < x.len()
        invariant
            i <= x@.len(),
            x@.len() == y@.len(),
            x@.len() <= 0x1fff_ffff_ffff_ffff,
            d as int == hamming_spec(x@.take(i as int), y@.take(i as int)),
            d as int <= 8 * i,
        decreases x@.len() - i,
    {
        proof {
            assert(x@.take(i as int + 1).drop_last() =~= x@.take(i as int));
            assert(y@.take(i as int + 1).drop_last() =~= y@.take(i as int));
            let b = x@[i as int] ^ y@[i as int];
            assert((b & 1) + ((b >> 1) & 1) + ((b >> 2) & 1) + ((b >> 3) & 1) + ((b >> 4) & 1) + ((b
                >> 5) & 1) + ((b >> 6) & 1) + ((b >> 7) & 1) <= 8) by (bit_vector);
        }
        d = d + popcount_byte(x[i] ^ y[i]) as u64;
        i = i + 1;
    }
    proof {
        assert(x@.take(x@.len() as int) =~= x@);
        assert(y@.take(y@.len() as int) =~= y@);
    }
    Ok(d)
}

} // verus!
