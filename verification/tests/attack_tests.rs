use cryptopals::attack::{break_ecb, build_dict, detect_blocksize, dict_lookup, get_plaintext};
use cryptopals::oracle::EcbOracle;

const KEY: &[u8] = &[0, 0, 0, 0, 0, 0, 0, 0, 0, 0, 0, 0, 0, 0, 0, 0];
const PAD_STRING: &str = "Um9sbGluJyBpbiBteSA1LjAKV2l0aCBteSByYWctdG9wIGRvd24gc28gbXkgaGFpciBjYW4gYmxvdwpUaGUgZ2lybGllcyBvbiBzdGFuZGJ5IHdhdmluZyBqdXN0IHRvIHNheSBoaQpEaWQgeW91IHN0b3A/IE5vLCBJIGp1c3QgZHJvdmUgYnkK";

fn lyrics_oracle() -> EcbOracle {
    let suffix = base64::decode(PAD_STRING).unwrap();
    EcbOracle::new(KEY.to_vec(), suffix)
}

#[test]
fn test_detect_blocksize() {
    let oracle = lyrics_oracle();
    let bs = detect_blocksize(&oracle);
    assert_eq!(bs, 16);
}

#[test]
fn main_test_detect_blocksize() {
    let oracle = lyrics_oracle();
    let bs = detect_blocksize(&oracle);
    assert_eq!(bs, 16);
}

#[test]
fn break_ecb_recovers_lyrics_suffix() {
    let oracle = lyrics_oracle();
    let recovered = break_ecb(&oracle).unwrap();
    assert_eq!(recovered, base64::decode(PAD_STRING).unwrap());
}

#[test]
fn attack_recovers_short_ascii_suffix() {
    let key = b"0123456789abcdef".to_vec();
    let suffix = b"ROLLIN' IN MY 5.0".to_vec();
    let oracle = EcbOracle::new(key, suffix.clone());
    let bs = detect_blocksize(&oracle);
    assert_eq!(bs, 16);
    let recovered = get_plaintext(&oracle, 16);
    assert_eq!(recovered, suffix);
}

#[test]
fn attack_recovers_block_aligned_suffix() {
    // A hidden suffix whose length is an exact multiple of the block size.
    let key = b"YELLOW SUBMARINE".to_vec();
    let suffix = b"exactly 32 bytes of hidden data!".to_vec();
    assert_eq!(suffix.len(), 32);
    let oracle = EcbOracle::new(key, suffix.clone());
    let recovered = get_plaintext(&oracle, 16);
    assert_eq!(recovered, suffix);
}

#[test]
fn attack_recovers_empty_suffix() {
    let oracle = EcbOracle::new(KEY.to_vec(), Vec::new());
    let recovered = get_plaintext(&oracle, 16);
    assert_eq!(recovered, Vec::<u8>::new());
}

#[test]
fn dictionary_maps_watched_block_to_its_byte() {
    let oracle = EcbOracle::new(KEY.to_vec(), b"secret".to_vec());
    let known: Vec<u8> = Vec::new();
    let dict = build_dict(&oracle, &known, 16);
    assert_eq!(dict.len(), 256);
    // The target block for the first round must map back to the first
    // secret byte.
    let filler = vec![42u8; 15];
    let ct = oracle.encrypt(&filler);
    let target = ct[0..16].to_vec();
    assert_eq!(dict_lookup(&dict, &target), Some(b's'));
    assert_eq!(dict_lookup(&dict, &vec![0u8; 16]), None);
}
