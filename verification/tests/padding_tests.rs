use cryptopals::errors::CryptoError;
use cryptopals::padding::{pkcs7, unpad};

#[test]
fn test_padkcs7() {
    let message = b"YELLOW SUBMARINE";
    let padded_message = pkcs7(&message.to_vec(), 20);
    assert_eq!(padded_message.as_slice(), b"YELLOW SUBMARINE\x04\x04\x04\x04");
}

#[test]
fn pad_unpad_round_trip() {
    let messages: Vec<Vec<u8>> = vec![
        Vec::new(),
        b"a".to_vec(),
        b"YELLOW SUBMARINE".to_vec(),
        b"hello world, this is a longer message".to_vec(),
        vec![0u8; 31],
    ];
    for block_size in [1usize, 2, 7, 16, 20, 255] {
        for m in &messages {
            let padded = pkcs7(m, block_size);
            assert_eq!(padded.len() % block_size, 0);
            assert!(padded.len() > m.len());
            assert_eq!(unpad(&padded).unwrap(), m.clone());
        }
    }
}

#[test]
fn pad_full_block_when_aligned() {
    let message = b"YELLOW SUBMARINE".to_vec();
    let padded = pkcs7(&message, 16);
    assert_eq!(padded.len(), 32);
    for i in 16..32 {
        assert_eq!(padded[i], 16);
    }
    let empty: Vec<u8> = Vec::new();
    let padded_empty = pkcs7(&empty, 4);
    assert_eq!(padded_empty, vec![4u8, 4, 4, 4]);
}

#[test]
fn unpad_rejects_malformed_padding() {
    assert_eq!(unpad(&Vec::new()), Err(CryptoError::MalformedPadding));
    assert_eq!(unpad(&vec![0u8]), Err(CryptoError::MalformedPadding));
    assert_eq!(unpad(&vec![1u8, 5]), Err(CryptoError::MalformedPadding));
    assert_eq!(unpad(&vec![3u8, 3, 2]), Err(CryptoError::MalformedPadding));
    assert_eq!(unpad(&vec![2u8, 3, 3, 3]), Ok(vec![2u8]));
    assert_eq!(unpad(&vec![9u8, 1]), Ok(vec![9u8]));
}
