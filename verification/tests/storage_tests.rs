use ironvault::storage::{EncryptedStorage, PlaintextStorage, StorageError};
use ring::rand::SystemRandom;

fn test_key() -> Vec<u8> {
    b"7b6300f7dc21c9fddeaa71f439d53b55".to_vec()
}

#[test]
fn write_then_read_returns_the_plaintext() {
    let random = SystemRandom::new();
    let storage = EncryptedStorage::new("test_dir/database".to_string(), test_key());
    let message = b"Short message";
    let file = storage.write(message, &random).expect("The write should be successful");
    let plaintext = storage.read(&file).expect("The read should be successful");
    assert_eq!(plaintext, message.to_vec());
}

#[test]
fn the_envelope_is_twenty_eight_bytes_longer_than_the_payload() {
    let random = SystemRandom::new();
    let storage = EncryptedStorage::new("test_dir/database".to_string(), test_key());
    for len in [0usize, 1, 13, 100] {
        let message = vec![0x41u8; len];
        let file = storage.write(&message, &random).unwrap();
        assert_eq!(file.len(), len + 28);
    }
}

#[test]
fn the_ciphertext_does_not_contain_the_plaintext() {
    let random = SystemRandom::new();
    let storage = EncryptedStorage::new("test_dir/database".to_string(), test_key());
    let message = b"Short message";
    let file = storage.write(message, &random).unwrap();
    assert!(file.windows(message.len()).all(|w| w != *message));
}

#[test]
fn two_writes_of_the_same_plaintext_differ() {
    let random = SystemRandom::new();
    let storage = EncryptedStorage::new("test_dir/database".to_string(), test_key());
    let message = b"Short message";
    let file_a = storage.write(message, &random).unwrap();
    let file_b = storage.write(message, &random).unwrap();
    assert!(file_a != file_b);
}

#[test]
fn a_wrong_key_length_is_rejected() {
    let random = SystemRandom::new();
    let key = b"7b6300f7dc21c9fddeaa71f439d53b551".to_vec();
    let storage = EncryptedStorage::new("test_dir/database".to_string(), key);
    let result = storage.write(b"Short message", &random);
    assert_eq!(result.unwrap_err(), StorageError::KeyLengthError);
    let result = storage.read(&[0u8; 64]);
    assert_eq!(result.unwrap_err(), StorageError::KeyLengthError);
}

#[test]
fn a_key_differing_in_one_byte_fails_to_decrypt() {
    let random = SystemRandom::new();
    let storage = EncryptedStorage::new("test_dir/database".to_string(), test_key());
    let file = storage.write(b"Short message", &random).unwrap();
    for i in 0..32 {
        let mut key = test_key();
        key[i] ^= 0x01;
        let other = EncryptedStorage::new("test_dir/database".to_string(), key);
        assert_eq!(other.read(&file).unwrap_err(), StorageError::DecryptionError);
    }
}

#[test]
fn a_file_shorter_than_the_envelope_fails_to_decrypt() {
    let storage = EncryptedStorage::new("test_dir/database".to_string(), test_key());
    for len in 0..28usize {
        let file = vec![0u8; len];
        assert_eq!(storage.read(&file).unwrap_err(), StorageError::DecryptionError);
    }
}

#[test]
fn a_tampered_file_fails_to_decrypt() {
    let random = SystemRandom::new();
    let storage = EncryptedStorage::new("test_dir/database".to_string(), test_key());
    let file = storage.write(b"Short message", &random).unwrap();
    for i in 0..file.len() {
        let mut tampered = file.clone();
        tampered[i] ^= 0x01;
        assert_eq!(storage.read(&tampered).unwrap_err(), StorageError::DecryptionError);
    }
}

#[test]
fn plaintext_storage_passes_bytes_through() {
    let storage = PlaintextStorage::new("test_dir/plaintext".to_string());
    let message = b"Short message";
    let file = storage.write(message).unwrap();
    assert_eq!(file, message.to_vec());
    let back = storage.read(&file).unwrap();
    assert_eq!(back, message.to_vec());
}

#[test]
fn storage_paths_are_kept() {
    let storage = EncryptedStorage::new("test_dir/database".to_string(), test_key());
    assert_eq!(storage.path().as_str(), "test_dir/database");
    let plaintext = PlaintextStorage::new("test_dir/plaintext".to_string());
    assert_eq!(plaintext.path().as_str(), "test_dir/plaintext");
}

#[test]
fn storage_error_descriptions() {
    assert_eq!(
        StorageError::DecryptionError.description(),
        "The encrypted data could not be decrypted."
    );
    assert_eq!(
        StorageError::KeyLengthError.description(),
        "The key was not the right length for the encryption algorithm"
    );
}
