//! Post-quantum key encapsulation (Kyber-1024) for the session handshake.
use crate::error::CryptoError;
use pqcrypto_kyber::kyber1024;
use pqcrypto_traits::kem::{Ciphertext as _, PublicKey as _, SecretKey as _, SharedSecret as _};
use vstd::prelude::*;

verus! {

/// Bytes of a Kyber-1024 public key.
pub const PUBLIC_KEY_SIZE: usize = 1568;

/// Bytes of a Kyber-1024 ciphertext.
pub const CIPHERTEXT_SIZE: usize = 1568;

/// Bytes of a Kyber-1024 secret key.
pub const SECRET_KEY_SIZE: usize = 3168;

/// Bytes of the shared secret.
pub const SHARED_SECRET_SIZE: usize = 32;

#[verifier::external_type_specification]
#[verifier::external_body]
pub struct ExPublicKey(kyber1024::PublicKey);

#[verifier::external_type_specification]
#[verifier::external_body]
pub struct ExSecretKey(kyber1024::SecretKey);

/// A Kyber-1024 keypair.
pub struct PQCKeyPair {
    pub pk: kyber1024::PublicKey,
    pub sk: kyber1024::SecretKey,
}

/// Relies on `kyber1024::keypair`: a fresh random keypair.
#[verifier::external_body]
fn kyber_keypair() -> (r: (kyber1024::PublicKey, kyber1024::SecretKey)) {
    kyber1024::keypair()
}

/// Relies on `PublicKey::from_bytes` of pqcrypto-kyber: it accepts exactly
/// the slices of 1568 bytes.
#[verifier::external_body]
fn public_key_from_bytes(b: &[u8]) -> (r: Option<kyber1024::PublicKey>)
    ensures
        r is Some <==> b@.len() == PUBLIC_KEY_SIZE,
{
    kyber1024::PublicKey::from_bytes(b).ok()
}

/// Relies on `kyber1024::encapsulate`: a random 32-byte shared secret and
/// its 1568-byte ciphertext, as bytes.
#[verifier::external_body]
fn kyber_encapsulate(pk: &kyber1024::PublicKey) -> (r: (Vec<u8>, Vec<u8>))
    ensures
        r.0@.len() == SHARED_SECRET_SIZE,
        r.1@.len() == CIPHERTEXT_SIZE,
{
    let (ss, ct) = kyber1024::encapsulate(pk);
    (ss.as_bytes().to_vec(), ct.as_bytes().to_vec())
}

/// The shared secret that Kyber-1024 decapsulation derives from a
/// ciphertext and a secret key, both as bytes.
pub uninterp spec fn kem_decap(ct: Seq<u8>, sk: Seq<u8>) -> Seq<u8>;

/// Relies on `SecretKey::as_bytes` of pqcrypto-kyber: the key's 3168 bytes.
#[verifier::external_body]
fn secret_key_bytes(sk: &kyber1024::SecretKey) -> (r: Vec<u8>)
    ensures
        r@.len() == SECRET_KEY_SIZE,
{
    sk.as_bytes().to_vec()
}

/// Relies on `kyber1024::decapsulate` (with the ciphertext and key rebuilt
/// from their bytes by `from_bytes`, which accepts exactly these lengths):
/// the 32-byte shared secret, a function of the two byte strings alone.
#[verifier::external_body]
fn kyber_decapsulate(ct: &[u8], sk: &[u8]) -> (r: Vec<u8>)
    requires
        ct@.len() == CIPHERTEXT_SIZE,
        sk@.len() == SECRET_KEY_SIZE,
    ensures
        r@.len() == SHARED_SECRET_SIZE,
        r@ == kem_decap(ct@, sk@),
{
    let ct = kyber1024::Ciphertext::from_bytes(ct).expect("length checked");
    let sk = kyber1024::SecretKey::from_bytes(sk).expect("length checked");
    kyber1024::decapsulate(&ct, &sk).as_bytes().to_vec()
}

impl PQCKeyPair {
    /// A fresh keypair.
    pub fn generate() -> (r: PQCKeyPair) {
        let (pk, sk) = kyber_keypair();
        PQCKeyPair { pk, sk }
    }
}

/// Creates a shared secret for the holder of the public key `pk_bytes`.
/// Returns `(secret, ciphertext)`, 32 and 1568 bytes; fails with `KemFailed`
/// exactly when `pk_bytes` is not 1568 bytes long.
pub fn encapsulate(pk_bytes: &[u8]) -> (r: Result<(Vec<u8>, Vec<u8>), CryptoError>)
    ensures
        r is Ok <==> pk_bytes@.len() == PUBLIC_KEY_SIZE,
        r matches Err(e) ==> e == CryptoError::KemFailed,
        r matches Ok(p) ==> p.0@.len() == SHARED_SECRET_SIZE && p.1@.len() == CIPHERTEXT_SIZE,
{
    match public_key_from_bytes(pk_bytes) {
        None => Err(CryptoError::KemFailed),
        Some(pk) => Ok(kyber_encapsulate(&pk)),
    }
}

/// Recovers the shared secret from a ciphertext and a secret key given as
/// bytes: `kem_decap` of the two. Fails with `KemFailed` exactly when either
/// has the wrong length.
pub fn decapsulate_bytes(ciphertext_bytes: &[u8], sk_bytes: &[u8]) -> (r: Result<Vec<u8>, CryptoError>)
    ensures
        r is Ok <==> ciphertext_bytes@.len() == CIPHERTEXT_SIZE && sk_bytes@.len() == SECRET_KEY_SIZE,
        r matches Err(e) ==> e == CryptoError::KemFailed,
        r matches Ok(s) ==> s@ == kem_decap(ciphertext_bytes@, sk_bytes@) && s@.len() == SHARED_SECRET_SIZE,
{
    if ciphertext_bytes.len() != CIPHERTEXT_SIZE || sk_bytes.len() != SECRET_KEY_SIZE {
        return Err(CryptoError::KemFailed);
    }
    Ok(kyber_decapsulate(ciphertext_bytes, sk_bytes))
}

/// Recovers the 32-byte shared secret from a ciphertext: `kem_decap` of the
/// ciphertext and the secret key's bytes. Fails with `KemFailed` exactly when
/// the ciphertext is not 1568 bytes long.
pub fn decapsulate(ciphertext_bytes: &[u8], sk: &kyber1024::SecretKey) -> (r: Result<
    Vec<u8>,
    CryptoError,
>)
    ensures
        r is Ok <==> ciphertext_bytes@.len() == CIPHERTEXT_SIZE,
        r matches Err(e) ==> e == CryptoError::KemFailed,
        r matches Ok(s) ==> s@.len() == SHARED_SECRET_SIZE && exists|skb: Seq<u8>|
            skb.len() == SECRET_KEY_SIZE && s@ == kem_decap(ciphertext_bytes@, skb),
{
    let skb = secret_key_bytes(sk);
    decapsulate_bytes(ciphertext_bytes, skb.as_slice())
}

} // verus!
