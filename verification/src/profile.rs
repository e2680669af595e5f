//! The profile exercise: serialise a user profile for an email address as
//! a query string, encrypt it under AES-128 ECB, and parse it back into
//! key/value pairs after decryption.

use vstd::prelude::*;

use crate::bytes::subvec;
use crate::cipher::{BLOCK_SIZE, KEY_SIZE};
use crate::errors::CryptoError;
use crate::modes::{decrypt_aes_128_ecb, ecb_dec, ecb_enc, encrypt_aes_128_ecb};
use crate::padding::{lemma_pad_round_trip, pad_spec, pkcs7, unpad, unpad_spec, valid_padding};

verus! {

/// The email address with every `&` and `=` removed, so that it cannot
/// smuggle extra fields into the profile string.
pub open spec fn sanitize(email: Seq<u8>) -> Seq<u8>
    decreases email.len(),
{
    if email.len() == 0 {
        Seq::<u8>::empty()
    } else {
        let rest = sanitize(email.drop_last());
        if email.last() == 38 || email.last() == 61 {
            rest
        } else {
            rest.push(email.last())
        }
    }
}

/// The bytes of `email=`.
pub open spec fn profile_prefix() -> Seq<u8> {
    seq![101u8, 109u8, 97u8, 105u8, 108u8, 61u8]
}

/// The bytes of `&uid=10&role=user`.
pub open spec fn profile_suffix() -> Seq<u8> {
    seq![
        38u8, 117u8, 105u8, 100u8, 61u8, 49u8, 48u8, 38u8, 114u8, 111u8, 108u8, 101u8, 61u8,
        117u8, 115u8, 101u8, 114u8,
    ]
}

/// The profile string for an email address: `email=<sanitized>` followed
/// by the fixed uid and role fields.
pub open spec fn profile_spec(email: Seq<u8>) -> Seq<u8> {
    profile_prefix() + sanitize(email) + profile_suffix()
}

/// Create the profile string for a given email address, with `&` and `=`
/// stripped from the address first.
pub fn profile_for(email_address: &Vec<u8>) -> (r: Vec<u8>)
    ensures
        r@ == profile_spec(email_address@),
{
    let mut r: Vec<u8> = Vec::new();
    let mut prefix = vec![101u8, 109u8, 97u8, 105u8, 108u8, 61u8];
    proof {
        assert(prefix@ =~= profile_prefix());
    }
    r.append(&mut prefix);
    let mut i: usize = 0;
    while i < email_address.len()
        invariant
            i <= email_address@.len(),
            r@ == profile_prefix() + sanitize(email_address@.take(i as int)),
        decreases email_address@.len() - i,
    {
        let c = email_address[i];
        let amp: u8 = 38;
        let eq: u8 = 61;
        proof {
            assert(email_address@.take(i as int + 1).drop_last() =~= email_address@.take(i as int));
        }
        if c != amp && c != eq {
            r.push(c);
        }
        i = i + 1;
    }
    proof {
        assert(email_address@.take(email_address@.len() as int) =~= email_address@);
    }
    let mut suffix = vec![
        38u8, 117u8, 105u8, 100u8, 61u8, 49u8, 48u8, 38u8, 114u8, 111u8, 108u8, 101u8, 61u8,
        117u8, 115u8, 101u8, 114u8,
    ];
    proof {
        assert(suffix@ =~= profile_suffix());
    }
    r.append(&mut suffix);
    proof {
        assert(r@ =~= profile_spec(email_address@));
    }
    r
}

/// One parsed query pair.
#[derive(Debug)]
pub struct QueryPair {
    pub key: Vec<u8>,
    pub value: Vec<u8>,
}

/// The first position of `b` in `s` at or after `k`, or the length of `s`
/// if `b` does not occur there.
pub open spec fn index_of_from(s: Seq<u8>, b: u8, k: int) -> int
    decreases s.len() - k,
{
    if !(0 <= k < s.len()) {
        s.len() as int
    } else if s[k] == b {
        k
    } else {
        index_of_from(s, b, k + 1)
    }
}

/// `index_of_from` stays within bounds and finds no earlier occurrence.
proof fn lemma_index_of_from(s: Seq<u8>, b: u8, k: int)
    requires
        0 <= k <= s.len(),
    ensures
        k <= index_of_from(s, b, k) <= s.len(),
        index_of_from(s, b, k) < s.len() ==> s[index_of_from(s, b, k)] == b,
        forall|x: int| k <= x < index_of_from(s, b, k) ==> s[x] != b,
    decreases s.len() - k,
{
    if k < s.len() && s[k] != b {
        lemma_index_of_from(s, b, k + 1);
    }
}

/// The pair one `&`-free segment stands for: what is before the first `=`,
/// and what is after it (everything, with an empty value, if there is no
/// `=` at all).
pub open spec fn pair_of(segment: Seq<u8>) -> (Seq<u8>, Seq<u8>) {
    let e = index_of_from(segment, 61, 0);
    if e == segment.len() {
        (segment, Seq::<u8>::empty())
    } else {
        (segment.take(e), segment.skip(e + 1))
    }
}

/// The key/value pairs of a query string: segments split on `&`, empty
/// segments skipped, each remaining segment split at its first `=`.
pub open spec fn parse_pairs(s: Seq<u8>) -> Seq<(Seq<u8>, Seq<u8>)>
    decreases s.len(),
    via parse_pairs_decreases
{
    if s.len() == 0 {
        Seq::<(Seq<u8>, Seq<u8>)>::empty()
    } else {
        let a = index_of_from(s, 38, 0);
        let head = if a > 0 {
            seq![pair_of(s.take(a))]
        } else {
            Seq::<(Seq<u8>, Seq<u8>)>::empty()
        };
        if a == s.len() {
            head
        } else {
            head + parse_pairs(s.skip(a + 1))
        }
    }
}

#[via_fn]
proof fn parse_pairs_decreases(s: Seq<u8>) {
    if s.len() > 0 {
        lemma_index_of_from(s, 38, 0);
    }
}

/// Find the first position of `b` in `v` at or after `from`, or `v.len()`.
fn find_byte(v: &Vec<u8>, b: u8, from: usize) -> (r: usize)
    requires
        from <= v@.len(),
    ensures
        r == index_of_from(v@, b, from as int),
{
    let mut k: usize = from;
    while k < v.len()
        invariant
            from <= k <= v@.len(),
            index_of_from(v@, b, from as int) == index_of_from(v@, b, k as int),
        decreases v@.len() - k,
    {
        if v[k] == b {
            return k;
        }
        k = k + 1;
    }
    k
}

/// Split one `&`-free segment at its first `=`.
fn split_pair(segment: &Vec<u8>) -> (r: QueryPair)
    ensures
        (r.key@, r.value@) == pair_of(segment@),
{
    let e = find_byte(segment, 61, 0);
    proof {
        lemma_index_of_from(segment@, 61, 0);
    }
    if e == segment.len() {
        QueryPair { key: subvec(segment, 0, segment.len()), value: Vec::new() }
    } else {
        QueryPair {
            key: subvec(segment, 0, e),
            value: subvec(segment, e + 1, segment.len()),
        }
    }
}

/// Parse parameters from a query string into key/value pairs, splitting on
/// `&` and at the first `=` of each field.
pub fn parse(parameters: &Vec<u8>) -> (r: Vec<QueryPair>)
    ensures
        r@.len() == parse_pairs(parameters@).len(),
        forall|k: int|
            0 <= k < r@.len() ==> (#[trigger] r@[k].key@, r@[k].value@) == parse_pairs(
                parameters@,
            )[k],
    decreases parameters@.len(),
{
    let mut r: Vec<QueryPair> = Vec::new();
    if parameters.len() == 0 {
        return r;
    }
    let a = find_byte(parameters, 38, 0);
    proof {
        lemma_index_of_from(parameters@, 38, 0);
    }
    if a > 0 {
        let segment = subvec(parameters, 0, a);
        r.push(split_pair(&segment));
    }
    if a < parameters.len() {
        let rest = subvec(parameters, a + 1, parameters.len());
        let mut tail = parse(&rest);
        r.append(&mut tail);
    }
    r
}

/// Create the profile string for an email address and encrypt it, padded,
/// with AES-128 in ECB mode.  Fails with `InvalidLength` only when the key
/// does not have the cipher's key size.
pub fn encrypt_profile(email_address: &Vec<u8>, key: &Vec<u8>) -> (r: Result<Vec<u8>, CryptoError>)
    ensures
        r is Ok <==> key@.len() == KEY_SIZE,
        r matches Ok(c) ==> {
            &&& c@ == ecb_enc(key@, pad_spec(profile_spec(email_address@), BLOCK_SIZE as nat))
            &&& ecb_dec(key@, c@) == pad_spec(profile_spec(email_address@), BLOCK_SIZE as nat)
        },
        r matches Err(e) ==> e == CryptoError::InvalidLength,
{
    let profile = profile_for(email_address);
    proof {
        lemma_pad_round_trip(profile@, BLOCK_SIZE as nat);
    }
    let padded = pkcs7(&profile, BLOCK_SIZE);
    encrypt_aes_128_ecb(&padded, key)
}

/// Decrypt an encrypted profile and parse it back into key/value pairs:
/// ECB decryption, padding removal, then query-string parsing.  Fails with
/// `InvalidLength` when the ciphertext is not a positive multiple of the
/// block size or the key has the wrong size, and with `MalformedPadding`
/// when the decryption does not end in well-formed padding.
pub fn decrypt_and_parse_profile(ciphertext: &Vec<u8>, key: &Vec<u8>) -> (r: Result<
    Vec<QueryPair>,
    CryptoError,
>)
    ensures
        r is Ok <==> (ciphertext@.len() > 0 && ciphertext@.len() % (BLOCK_SIZE as nat) == 0
            && key@.len() == KEY_SIZE && valid_padding(ecb_dec(key@, ciphertext@))),
        r matches Ok(pairs) ==> {
            let message = unpad_spec(ecb_dec(key@, ciphertext@));
            &&& pairs@.len() == parse_pairs(message).len()
            &&& forall|k: int|
                0 <= k < pairs@.len() ==> (#[trigger] pairs@[k].key@, pairs@[k].value@)
                    == parse_pairs(message)[k]
        },
        r matches Err(e) ==> e == CryptoError::InvalidLength || e == CryptoError::MalformedPadding,
        r matches Err(e) ==> ((e == CryptoError::MalformedPadding) <==> (ciphertext@.len() > 0
            && ciphertext@.len() % (BLOCK_SIZE as nat) == 0 && key@.len() == KEY_SIZE
            && !valid_padding(ecb_dec(key@, ciphertext@)))),
{
    let plaintext = match decrypt_aes_128_ecb(ciphertext, key) {
        Ok(p) => p,
        Err(e) => {
            return Err(e);
        },
    };
    let message = match unpad(&plaintext) {
        Ok(m) => m,
        Err(e) => {
            return Err(e);
        },
    };
    Ok(parse(&message))
}

} // verus!
