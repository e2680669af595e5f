use cryptopals::errors::CryptoError;

#[test]
fn error_messages_name_each_failure() {
    assert_eq!(
        CryptoError::InvalidLength.message(),
        "input length is not a positive multiple of the block size"
    );
    assert_eq!(
        CryptoError::MisalignedInput.message(),
        "the length of the ciphertext must be a multiple of the blocksize"
    );
    assert_eq!(
        CryptoError::MalformedPadding.message(),
        "trailing bytes are not well-formed padding"
    );
    assert_eq!(CryptoError::ModeNotEcb.message(), "ECB or blocksize could not be detected");
}
