use cryptopals::detect::repeated_blocks;
use cryptopals::errors::CryptoError;
use cryptopals::modes::{
    decrypt_aes_128_cbc, decrypt_aes_128_ecb, encrypt_aes_128_cbc, encrypt_aes_128_ecb,
    split_blocks,
};

const BLOCK_SIZE: usize = 16;

#[test]
fn test_cbc_encrypt_decrypt() {
    let msg = b"YELLOW SUBMARINEYELLOW SUBMARINE";
    let key = b"YELLOW SUBMARINE";
    let iv = vec![0; BLOCK_SIZE];
    assert_eq!(
        msg,
        decrypt_aes_128_cbc(
            &encrypt_aes_128_cbc(&msg.to_vec(), &iv, &key.to_vec()).unwrap(),
            &iv,
            &key.to_vec(),
        )
        .unwrap()
        .as_slice()
    );
    assert!(true);
}

#[test]
fn ecb_encrypt_decrypt_round_trip() {
    let msg = b"0123456789abcdefFEDCBA9876543210".to_vec();
    let key = b"YELLOW SUBMARINE".to_vec();
    let ciphertext = encrypt_aes_128_ecb(&msg, &key).unwrap();
    assert_eq!(ciphertext.len(), msg.len());
    assert_ne!(ciphertext, msg);
    assert_eq!(decrypt_aes_128_ecb(&ciphertext, &key).unwrap(), msg);
}

#[test]
fn ecb_single_block_matches_aes() {
    // The AES-128 test vector for the all-zero key and all-zero block.
    let key = vec![0u8; 16];
    let block = vec![0u8; 16];
    let ciphertext = encrypt_aes_128_ecb(&block, &key).unwrap();
    assert_eq!(ciphertext, hex::decode("66e94bd4ef8a2c3b884cfa59ca342b2e").unwrap());
    assert_eq!(decrypt_aes_128_ecb(&ciphertext, &key).unwrap(), block);
}

#[test]
fn modes_reject_misaligned_input() {
    let key = b"YELLOW SUBMARINE".to_vec();
    let iv = vec![0u8; BLOCK_SIZE];
    let msg = b"seventeen bytes!!".to_vec();
    assert_eq!(encrypt_aes_128_ecb(&msg, &key), Err(CryptoError::InvalidLength));
    assert_eq!(decrypt_aes_128_ecb(&msg, &key), Err(CryptoError::InvalidLength));
    assert_eq!(encrypt_aes_128_cbc(&msg, &iv, &key), Err(CryptoError::InvalidLength));
    assert_eq!(decrypt_aes_128_cbc(&msg, &iv, &key), Err(CryptoError::InvalidLength));
    let empty: Vec<u8> = Vec::new();
    assert_eq!(encrypt_aes_128_ecb(&empty, &key), Err(CryptoError::InvalidLength));
    let aligned = vec![7u8; 32];
    assert_eq!(encrypt_aes_128_cbc(&aligned, &vec![0u8; 8], &key), Err(CryptoError::InvalidLength));
    assert_eq!(encrypt_aes_128_ecb(&aligned, &vec![1u8; 24]), Err(CryptoError::InvalidLength));
}

#[test]
fn ecb_repeats_identical_blocks_and_cbc_does_not() {
    let msg = b"YELLOW SUBMARINEYELLOW SUBMARINE".to_vec();
    let key = b"0123456789abcdef".to_vec();
    let iv = b"fedcba9876543210".to_vec();
    let ecb_ct = encrypt_aes_128_ecb(&msg, &key).unwrap();
    assert_eq!(repeated_blocks(&ecb_ct, BLOCK_SIZE), Ok(true));
    let ecb_blocks = split_blocks(&ecb_ct, BLOCK_SIZE);
    assert_eq!(ecb_blocks[0], ecb_blocks[1]);
    let cbc_ct = encrypt_aes_128_cbc(&msg, &iv, &key).unwrap();
    assert_eq!(repeated_blocks(&cbc_ct, BLOCK_SIZE), Ok(false));
    let cbc_blocks = split_blocks(&cbc_ct, BLOCK_SIZE);
    assert_ne!(cbc_blocks[0], cbc_blocks[1]);
}

#[test]
fn detector_rejects_misaligned_ciphertext() {
    let ciphertext = vec![1u8; 33];
    assert_eq!(repeated_blocks(&ciphertext, BLOCK_SIZE), Err(CryptoError::MisalignedInput));
    assert_eq!(repeated_blocks(&vec![5u8; 32], BLOCK_SIZE), Ok(true));
}

#[test]
fn hamming_distance_counts_differing_bits() {
    let x = b"this is a test".to_vec();
    let y = b"wokka wokka!!!".to_vec();
    assert_eq!(cryptopals::bytes::hamming(&x, &y), Ok(37));
    assert_eq!(
        cryptopals::bytes::hamming(&x, &b"short".to_vec()),
        Err(CryptoError::InvalidLength)
    );
}

#[test]
fn cbc_matches_openssl_one_shot() {
    // openssl's one-shot CBC encrypt applies the same padding internally,
    // so padding ourselves and chaining block by block must agree with it.
    let msg = b"The quick brown fox jumps over the lazy dog".to_vec();
    let key = b"YELLOW SUBMARINE".to_vec();
    let iv = vec![7u8; BLOCK_SIZE];
    let padded = cryptopals::padding::pkcs7(&msg, BLOCK_SIZE);
    let ours = encrypt_aes_128_cbc(&padded, &iv, &key).unwrap();
    let theirs = openssl::symm::encrypt(
        openssl::symm::Cipher::aes_128_cbc(),
        &key,
        Some(&iv),
        &msg,
    )
    .unwrap();
    assert_eq!(ours, theirs);
}
