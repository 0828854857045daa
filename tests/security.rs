use auradb::kem::{decapsulate, encapsulate, PQCKeyPair};
use auradb::symmetric::{decrypt, encrypt, generate_key, NONCE_SIZE, TAG_SIZE};
use pqcrypto_traits::kem::{PublicKey, SecretKey};

#[test]
fn test_kyber_handshake() {
    let server_keys = PQCKeyPair::generate();
    let (client_secret, ciphertext) = encapsulate(server_keys.pk.as_bytes()).unwrap();
    let server_secret = decapsulate(&ciphertext, &server_keys.sk).unwrap();
    assert_eq!(client_secret, server_secret);
    assert_eq!(client_secret.len(), 32);
    assert_eq!(ciphertext.len(), 1568);
}

#[test]
fn test_symmetric_encryption_decryption() {
    let key = generate_key();
    let plaintext = b"Hello, Quantum World!";
    let encrypted = encrypt(plaintext, &key).unwrap();
    let decrypted = decrypt(&encrypted, &key).unwrap();
    assert_eq!(plaintext, decrypted.as_slice());
}

#[test]
fn test_symmetric_encryption_different_keys() {
    let key1 = generate_key();
    let key2 = generate_key();
    let plaintext = b"Same message, different keys";
    let encrypted1 = encrypt(plaintext, &key1).unwrap();
    let encrypted2 = encrypt(plaintext, &key2).unwrap();
    assert_ne!(encrypted1, encrypted2);
    let decrypted1 = decrypt(&encrypted1, &key1).unwrap();
    let decrypted2 = decrypt(&encrypted2, &key2).unwrap();
    assert_eq!(plaintext, decrypted1.as_slice());
    assert_eq!(plaintext, decrypted2.as_slice());
}

#[test]
fn test_symmetric_encryption_edge_cases() {
    let key = generate_key();
    let empty_data = b"";
    let encrypted = encrypt(empty_data, &key).unwrap();
    let decrypted = decrypt(&encrypted, &key).unwrap();
    assert_eq!(empty_data, decrypted.as_slice());

    let large_data = vec![42u8; 10000];
    let encrypted = encrypt(&large_data, &key).unwrap();
    let decrypted = decrypt(&encrypted, &key).unwrap();
    assert_eq!(large_data, decrypted);

    let binary_data = &[0, 1, 255, 0, 128, 64, 32, 16, 8, 4, 2, 1];
    let encrypted = encrypt(binary_data, &key).unwrap();
    let decrypted = decrypt(&encrypted, &key).unwrap();
    assert_eq!(binary_data, decrypted.as_slice());
}

#[test]
fn test_symmetric_decryption_errors() {
    let key = generate_key();
    let plaintext = b"Secret message";
    let encrypted = encrypt(plaintext, &key).unwrap();

    let wrong_key = generate_key();
    assert!(decrypt(&encrypted, &wrong_key).is_err());

    let mut corrupted = encrypted.clone();
    if corrupted.len() > 10 {
        corrupted[10] ^= 0xFF;
        assert!(decrypt(&corrupted, &key).is_err());
    }

    let too_short = vec![1, 2, 3];
    assert!(decrypt(&too_short, &key).is_err());
}

#[test]
fn test_kem_keypair_generation() {
    let keypair1 = PQCKeyPair::generate();
    let keypair2 = PQCKeyPair::generate();
    assert_ne!(keypair1.pk.as_bytes(), keypair2.pk.as_bytes());
    assert_eq!(keypair1.pk.as_bytes(), keypair1.pk.as_bytes());
    assert_eq!(keypair1.pk.as_bytes().len(), 1568);
}

#[test]
fn test_kem_encapsulate_decapsulate() {
    let keypair = PQCKeyPair::generate();
    let pk_bytes = keypair.pk.as_bytes();
    let (shared_secret1, ciphertext) = encapsulate(pk_bytes).unwrap();
    let shared_secret2 = decapsulate(&ciphertext, &keypair.sk).unwrap();
    assert_eq!(shared_secret1, shared_secret2);
}

#[test]
fn test_kem_invalid_public_key() {
    let invalid_pk = vec![0u8; 1184];
    assert!(encapsulate(&invalid_pk).is_err());
    let wrong_size_pk = vec![0u8; 100];
    assert!(encapsulate(&wrong_size_pk).is_err());
}

#[test]
fn test_kem_invalid_ciphertext() {
    let keypair = PQCKeyPair::generate();
    let wrong_size_ct = vec![0u8; 10];
    assert!(decapsulate(&wrong_size_ct, &keypair.sk).is_err());
    let empty_ct = vec![];
    assert!(decapsulate(&empty_ct, &keypair.sk).is_err());
}

#[test]
fn sealed_buffer_layout_and_wrong_key_length() {
    let key = generate_key();
    let msg = b"abcdef";
    let sealed = encrypt(msg, &key).unwrap();
    assert_eq!(sealed.len(), NONCE_SIZE + msg.len() + TAG_SIZE);
    assert!(!sealed.windows(msg.len()).any(|w| w == msg));
    assert!(encrypt(msg, &key[..31]).is_err());
    assert!(decrypt(&sealed, &key[..31]).is_err());
}

#[test]
fn distinct_keys_give_disjoint_bodies_without_plaintext() {
    let k1 = generate_key();
    let k2 = generate_key();
    let m = vec![7u8; 64];
    let c1 = encrypt(&m, &k1).unwrap();
    let c2 = encrypt(&m, &k2).unwrap();
    assert_ne!(&c1[NONCE_SIZE..], &c2[NONCE_SIZE..]);
    assert!(!c1.windows(m.len()).any(|w| w == m.as_slice()));
    assert!(!c2.windows(m.len()).any(|w| w == m.as_slice()));
    assert!(decrypt(&c1, &k2).is_err());
}

#[test]
fn decapsulation_from_key_bytes_matches() {
    let keypair = PQCKeyPair::generate();
    let (secret, ct) = encapsulate(keypair.pk.as_bytes()).unwrap();
    let via_bytes = auradb::kem::decapsulate_bytes(&ct, keypair.sk.as_bytes()).unwrap();
    assert_eq!(via_bytes, secret);
    assert!(auradb::kem::decapsulate_bytes(&ct, &[0u8; 10]).is_err());
    assert!(auradb::kem::decapsulate_bytes(&ct[..100], keypair.sk.as_bytes()).is_err());
}
