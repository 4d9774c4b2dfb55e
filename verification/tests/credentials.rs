use nebula::credentials_authenticator::{
    check_decrypted, check_encrypted, get_private_key, key_check_parameters, KeyCheckError,
};

#[test]
fn encryption_check_cases() {
    let sample = b"hello world";
    assert_eq!(check_encrypted(sample, None), Err(KeyCheckError::Encryption));
    assert_eq!(check_encrypted(sample, Some(sample.to_vec())), Err(KeyCheckError::Unchanged));
    assert_eq!(check_encrypted(sample, Some(vec![1, 2, 3])), Ok(vec![1, 2, 3]));
    assert_eq!(check_encrypted(sample, Some(b"hello worle".to_vec())), Ok(b"hello worle".to_vec()));
}

#[test]
fn decryption_check_cases() {
    let sample = b"hello world";
    assert_eq!(check_decrypted(sample, None), Err(KeyCheckError::Decryption));
    assert_eq!(check_decrypted(sample, Some(sample.to_vec())), Ok(()));
    assert_eq!(check_decrypted(sample, Some(b"hello".to_vec())), Err(KeyCheckError::Mismatch));
    assert_eq!(check_decrypted(sample, Some(Vec::new())), Err(KeyCheckError::Mismatch));
}

#[test]
fn error_messages() {
    assert_eq!(KeyCheckError::KeyGeneration.message(), "failed to generate a key");
    assert_eq!(KeyCheckError::Encryption.message(), "failed to encrypt");
    assert_eq!(KeyCheckError::Decryption.message(), "failed to decrypt");
}

#[test]
fn generated_key_passes_its_check() {
    let key = get_private_key("user".to_owned(), "password".to_owned());
    assert!(key.is_ok());
}

#[test]
fn key_check_inputs_are_fixed() {
    assert_eq!(key_check_parameters(), (0, 2048, b"hello world".to_vec()));
}
