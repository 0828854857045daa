use auradb::error::{AuraError, CryptoError, StoreError};
use std::io;

#[test]
fn test_error_creation_and_display() {
    let io_err = AuraError::Io(io::Error::new(io::ErrorKind::NotFound, "file not found"));
    assert!(io_err.to_string().contains("IO Error"));
    assert!(io_err.to_string().contains("file not found"));

    let ser_err = AuraError::Serialization("invalid data".to_string());
    assert!(ser_err.to_string().contains("Serialization Error"));
    assert!(ser_err.to_string().contains("invalid data"));

    let crypto_err = AuraError::Crypto("decryption failed".to_string());
    assert!(crypto_err.to_string().contains("Crypto Error"));
    assert!(crypto_err.to_string().contains("decryption failed"));

    let not_found_err = AuraError::NotFound("user_123".to_string());
    assert!(not_found_err.to_string().contains("Key not found"));
    assert!(not_found_err.to_string().contains("user_123"));
}

#[test]
fn test_error_from_conversion() {
    let io_error = io::Error::new(io::ErrorKind::PermissionDenied, "access denied");
    let aura_error: AuraError = io_error.into();
    match aura_error {
        AuraError::Io(_) => {}
        _ => panic!("Should convert to Io error"),
    }
}

#[test]
fn test_error_debug_formatting() {
    let err = AuraError::NotFound("test_key".to_string());
    let debug_str = format!("{:?}", err);
    assert!(debug_str.contains("NotFound"));
    assert!(debug_str.contains("test_key"));
}

#[test]
fn test_error_handling_in_server_context() {
    let io_error = AuraError::Io(std::io::Error::new(std::io::ErrorKind::NotFound, "test"));
    assert!(io_error.to_string().contains("IO Error"));

    let crypto_error = AuraError::Crypto("test crypto error".to_string());
    assert!(crypto_error.to_string().contains("crypto"));

    let not_found = AuraError::NotFound("test not found".to_string());
    assert!(not_found.to_string().contains("not found"));
}

#[test]
fn test_server_configuration_values() {
    let default_port = 7654;
    assert!(default_port > 1024 && default_port < 65535);
    let default_host = "127.0.0.1";
    assert!(!default_host.is_empty());
}

#[test]
fn store_error_messages_name_the_page() {
    assert_eq!(StoreError::PageNotFound(7).to_string(), "Page not found: 7");
    assert_eq!(
        StoreError::Tampered(12).to_string(),
        "Integrity Violation: Hash Mismatch on Page 12"
    );
    assert_eq!(
        StoreError::Serialization("x".to_string()).to_string(),
        "Serialization Error: x"
    );
}

#[test]
fn crypto_error_messages() {
    assert_eq!(CryptoError::KemFailed.to_string(), "Key Encapsulation Failed");
    assert_eq!(CryptoError::DecryptionFailed.to_string(), "Decryption Failed (Tag Mismatch)");
}
