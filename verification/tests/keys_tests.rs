use ironvault::keys::{derive_key, generate_key, generate_salt, iterations, AeadAlgorithm, KeyError};
use ring::rand::SystemRandom;

#[test]
fn generate_key_has_the_algorithms_key_length() {
    let random = SystemRandom::new();
    let alg = AeadAlgorithm::ChaCha20Poly1305;
    assert_eq!(generate_key(alg, &random).unwrap().len(), alg.key_len());
    let alg = AeadAlgorithm::Aes128Gcm;
    assert_eq!(generate_key(alg, &random).unwrap().len(), alg.key_len());
    let alg = AeadAlgorithm::Aes256Gcm;
    assert_eq!(generate_key(alg, &random).unwrap().len(), alg.key_len());
}

#[test]
fn generate_key_produces_different_keys() {
    let random = SystemRandom::new();
    let alg = AeadAlgorithm::ChaCha20Poly1305;
    assert!(generate_key(alg, &random).unwrap() != generate_key(alg, &random).unwrap());
}

#[test]
fn generate_salt_is_sixteen_bytes() {
    let random = SystemRandom::new();
    assert_eq!(generate_salt(&random).unwrap().len(), 16);
}

#[test]
fn derive_key_rejects_a_short_salt() {
    let alg = AeadAlgorithm::ChaCha20Poly1305;
    let salt: [u8; 2] = [0xd6, 0x26];
    let result = derive_key(alg, &salt, "hello".to_string());
    assert_eq!(result.unwrap_err(), KeyError::SaltLengthError);
    let salt: [u8; 4] = [0xd6, 0x26, 0x98, 0xda];
    let result = derive_key(alg, &salt, "hello".to_string());
    assert_eq!(result.unwrap_err(), KeyError::SaltLengthError);
}

#[test]
fn derive_key_accepts_a_five_byte_salt() {
    let alg = AeadAlgorithm::ChaCha20Poly1305;
    let salt: [u8; 5] = [0xd6, 0x26, 0x98, 0xda, 0xf4];
    assert!(derive_key(alg, &salt, "hello".to_string()).is_ok());
}

#[test]
fn derive_key_has_the_algorithms_key_length() {
    let salt: [u8; 16] = [
        0xd6, 0x26, 0x98, 0xda, 0xf4, 0xdc, 0x50, 0x52, 0x24, 0xf2, 0x27, 0xd1, 0xfe, 0x39, 0x01,
        0x8a,
    ];
    let alg = AeadAlgorithm::ChaCha20Poly1305;
    assert_eq!(derive_key(alg, &salt, "hello".to_string()).unwrap().len(), alg.key_len());
    let alg = AeadAlgorithm::Aes128Gcm;
    assert_eq!(derive_key(alg, &salt, "hello".to_string()).unwrap().len(), alg.key_len());
    let alg = AeadAlgorithm::Aes256Gcm;
    assert_eq!(derive_key(alg, &salt, "hello".to_string()).unwrap().len(), alg.key_len());
}

#[test]
fn derive_key_is_deterministic() {
    let alg = AeadAlgorithm::ChaCha20Poly1305;
    let salt: [u8; 16] = [
        0xd6, 0x26, 0x98, 0xda, 0xf4, 0xdc, 0x50, 0x52, 0x24, 0xf2, 0x27, 0xd1, 0xfe, 0x39, 0x01,
        0x8a,
    ];
    let key_a = derive_key(alg, &salt, "hello".to_string()).unwrap();
    let key_b = derive_key(alg, &salt, "hello".to_string()).unwrap();
    assert_eq!(key_a, key_b);
}

#[test]
fn derive_key_varies_with_the_salt() {
    let alg = AeadAlgorithm::ChaCha20Poly1305;
    let salt_a: [u8; 16] = [
        0xd6, 0x26, 0x98, 0xda, 0xf4, 0xdc, 0x50, 0x52, 0x24, 0xf2, 0x27, 0xd1, 0xfe, 0x39, 0x01,
        0x8a,
    ];
    let salt_b: [u8; 16] = [
        0xe6, 0x26, 0x98, 0xda, 0xf4, 0xdc, 0x50, 0x52, 0x24, 0xf2, 0x27, 0xd1, 0xfe, 0x39, 0x01,
        0x8a,
    ];
    let key_a = derive_key(alg, &salt_a, "hello".to_string()).unwrap();
    let key_b = derive_key(alg, &salt_b, "hello".to_string()).unwrap();
    assert!(key_a != key_b);
}

#[test]
fn derive_key_varies_with_the_password() {
    let alg = AeadAlgorithm::ChaCha20Poly1305;
    let salt: [u8; 16] = [
        0xd6, 0x26, 0x98, 0xda, 0xf4, 0xdc, 0x50, 0x52, 0x24, 0xf2, 0x27, 0xd1, 0xfe, 0x39, 0x01,
        0x8a,
    ];
    let key_a = derive_key(alg, &salt, "hello".to_string()).unwrap();
    let key_b = derive_key(alg, &salt, "hell".to_string()).unwrap();
    assert!(key_a != key_b);
    assert!(key_a != salt.to_vec());
    assert!(key_a != b"hello".to_vec());
}

#[test]
fn iterations_is_deterministic() {
    assert_eq!(iterations("hello".to_string()), iterations("hello".to_string()));
}

#[test]
fn iterations_varies_with_the_password() {
    assert!(iterations("hello".to_string()) != iterations("hell".to_string()));
}

#[test]
fn iterations_stays_in_range() {
    for password in ["", "hello", "hell", "goodbye", "timbuk2", "pw1"] {
        let count = iterations(password.to_string());
        assert!(count >= 100_000);
        assert!(count < 110_000);
    }
}

#[test]
fn iterations_matches_the_pinned_hash() {
    assert_eq!(iterations("".to_string()), 109_733);
    assert_eq!(iterations("hello".to_string()), 103_163);
    assert_eq!(iterations("hell".to_string()), 107_494);
}

#[test]
fn key_error_descriptions() {
    assert_eq!(KeyError::SaltLengthError.description(), "The given salt was too short.");
    assert!(KeyError::KeyGenerationError.description().contains("key"));
    assert!(KeyError::SaltGenerationError.description().contains("salt"));
}
