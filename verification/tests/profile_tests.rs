use cryptopals::errors::CryptoError;
use cryptopals::profile::{decrypt_and_parse_profile, encrypt_profile, parse, profile_for, QueryPair};

const KEY: &[u8] = &[0, 0, 0, 0, 0, 0, 0, 0, 0, 0, 0, 0, 0, 0, 0, 0];

fn get<'a>(pairs: &'a [QueryPair], key: &[u8]) -> Option<&'a [u8]> {
    for pair in pairs {
        if pair.key.as_slice() == key {
            return Some(pair.value.as_slice());
        }
    }
    None
}

#[test]
fn test_url_parsing() {
    let test_object = parse(&b"foo=bar&baz=qux&zap=zazzle".to_vec());
    assert_eq!(get(&test_object, b"foo").unwrap(), b"bar");
    assert_eq!(get(&test_object, b"baz").unwrap(), b"qux");
    assert_eq!(get(&test_object, b"zap").unwrap(), b"zazzle");
}

#[test]
fn test_profile_for() {
    let test_object = profile_for(&b"foo@bar.com".to_vec());
    assert_eq!(test_object, b"email=foo@bar.com&uid=10&role=user".to_vec());
    let test_object = profile_for(&b"foo@bar.com&role=admin".to_vec());
    assert_eq!(test_object, b"email=foo@bar.comroleadmin&uid=10&role=user".to_vec());
}

#[test]
fn test_encrypt_decrypt_profile() {
    let encrypted = encrypt_profile(&b"foo@bar.com".to_vec(), &KEY.to_vec()).unwrap();
    let test_object = decrypt_and_parse_profile(&encrypted, &KEY.to_vec()).unwrap();
    assert_eq!(get(&test_object, b"email").unwrap(), b"foo@bar.com");
    assert_eq!(get(&test_object, b"uid").unwrap(), b"10");
    assert_eq!(get(&test_object, b"role").unwrap(), b"user");
}

#[test]
fn parse_handles_fieldless_and_empty_segments() {
    let pairs = parse(&b"plain&&a=1".to_vec());
    assert_eq!(pairs.len(), 2);
    assert_eq!(pairs[0].key, b"plain".to_vec());
    assert_eq!(pairs[0].value, Vec::<u8>::new());
    assert_eq!(pairs[1].key, b"a".to_vec());
    assert_eq!(pairs[1].value, b"1".to_vec());
    assert_eq!(parse(&Vec::new()).len(), 0);
}

#[test]
fn profile_errors_surface() {
    assert_eq!(
        encrypt_profile(&b"a@b.c".to_vec(), &b"short".to_vec()),
        Err(CryptoError::InvalidLength)
    );
    assert_eq!(
        decrypt_and_parse_profile(&vec![1u8; 17], &KEY.to_vec()).unwrap_err(),
        CryptoError::InvalidLength
    );
    // A random-looking aligned buffer decrypts to garbage without valid
    // trailing padding.
    assert_eq!(
        decrypt_and_parse_profile(&vec![1u8; 16], &KEY.to_vec()).unwrap_err(),
        CryptoError::MalformedPadding
    );
}
