//! Authenticated encryption of byte buffers under a 256-bit key
//! (XChaCha20-Poly1305). A sealed buffer is `nonce ‖ ciphertext ‖ tag`.
use crate::error::CryptoError;
use chacha20poly1305::aead::{Aead, AeadCore, KeyInit, OsRng};
use chacha20poly1305::{XChaCha20Poly1305, XNonce};
use vstd::prelude::*;

verus! {

pub const KEY_SIZE: usize = 32;

/// XChaCha uses 24-byte nonces.
pub const NONCE_SIZE: usize = 24;

pub const TAG_SIZE: usize = 16;

/// The plaintext that `body` (ciphertext followed by its tag) opens to under
/// `key` and `nonce`, or `None` where the tag does not verify.
pub uninterp spec fn aead_open(key: Seq<u8>, nonce: Seq<u8>, body: Seq<u8>) -> Option<Seq<u8>>;

/// Longest plaintext, in bytes, that the cipher takes: fewer than
/// `u32::MAX` blocks of 64 bytes.
pub open spec fn fits_cipher(len: nat) -> bool {
    len / 64 < u32::MAX as nat
}

/// What a sealed buffer `input` opens to under `key`: its first 24 bytes are
/// the nonce, the rest the ciphertext and tag.
pub open spec fn opens_to(key: Seq<u8>, input: Seq<u8>) -> Option<Seq<u8>> {
    if input.len() < NONCE_SIZE + TAG_SIZE {
        None
    } else {
        aead_open(
            key,
            input.subrange(0, NONCE_SIZE as int),
            input.subrange(NONCE_SIZE as int, input.len() as int),
        )
    }
}

/// Relies on `XChaCha20Poly1305::generate_key` with the OS generator: 32
/// random bytes.
#[verifier::external_body]
pub fn generate_key() -> (r: [u8; KEY_SIZE]) {
    XChaCha20Poly1305::generate_key(&mut OsRng).into()
}

/// Relies on `XChaCha20Poly1305::generate_nonce` with the OS generator: 24
/// random bytes.
#[verifier::external_body]
fn random_nonce() -> (r: Vec<u8>)
    ensures
        r@.len() == NONCE_SIZE,
{
    XChaCha20Poly1305::generate_nonce(&mut OsRng).to_vec()
}

/// Relies on `Aead::encrypt` of `XChaCha20Poly1305`: it fails only on a
/// plaintext of `u32::MAX` blocks or more; otherwise it returns the
/// ciphertext with the 16-byte tag appended, which opens to the plaintext
/// under the same key and nonce.
#[verifier::external_body]
fn seal(key: &[u8], nonce: &[u8], data: &[u8]) -> (r: Option<Vec<u8>>)
    requires
        key@.len() == KEY_SIZE,
        nonce@.len() == NONCE_SIZE,
    ensures
        r is Some <==> fits_cipher(data@.len()),
        r matches Some(body) ==> body@.len() == data@.len() + TAG_SIZE && aead_open(
            key@,
            nonce@,
            body@,
        ) == Some(data@),
{
    let cipher = XChaCha20Poly1305::new_from_slice(key).ok()?;
    cipher.encrypt(XNonce::from_slice(nonce), data).ok()
}

/// Relies on `Aead::decrypt` of `XChaCha20Poly1305`: the plaintext where the
/// tag verifies, otherwise an error.
#[verifier::external_body]
fn open(key: &[u8], nonce: &[u8], body: &[u8]) -> (r: Option<Vec<u8>>)
    requires
        key@.len() == KEY_SIZE,
        nonce@.len() == NONCE_SIZE,
    ensures
        match r {
            Some(p) => aead_open(key@, nonce@, body@) == Some(p@),
            None => aead_open(key@, nonce@, body@) is None,
        },
{
    let cipher = XChaCha20Poly1305::new_from_slice(key).ok()?;
    cipher.decrypt(XNonce::from_slice(nonce), body).ok()
}

/// Encrypts `data` under `key` with a fresh random nonce. The result is
/// `nonce ‖ ciphertext ‖ tag`, 40 bytes longer than `data`, and opens to
/// `data` under `key`. Fails with `KemFailed` on a key that is not 32 bytes
/// (or a plaintext too long for the cipher).
pub fn encrypt(data: &[u8], key: &[u8]) -> (r: Result<Vec<u8>, CryptoError>)
    ensures
        r is Ok <==> key@.len() == KEY_SIZE && fits_cipher(data@.len()),
        r matches Err(e) ==> e == CryptoError::KemFailed,
        r matches Ok(out) ==> out@.len() == NONCE_SIZE + data@.len() + TAG_SIZE && opens_to(
            key@,
            out@,
        ) == Some(data@),
{
    if key.len() != KEY_SIZE {
        return Err(CryptoError::KemFailed);
    }
    let nonce = random_nonce();
    match seal(key, nonce.as_slice(), data) {
        None => Err(CryptoError::KemFailed),
        Some(body) => {
            let mut out: Vec<u8> = Vec::new();
            crate::bytes::push_bytes(&mut out, nonce.as_slice());
            crate::bytes::push_bytes(&mut out, body.as_slice());
            assert(out@.subrange(0, NONCE_SIZE as int) =~= nonce@);
            assert(out@.subrange(NONCE_SIZE as int, out@.len() as int) =~= body@);
            Ok(out)
        },
    }
}

/// Opens a buffer made by `encrypt`. Fails with `DecryptionFailed` on input
/// shorter than nonce and tag or whose tag does not verify, and with
/// `KemFailed` on a key that is not 32 bytes.
pub fn decrypt(input: &[u8], key: &[u8]) -> (r: Result<Vec<u8>, CryptoError>)
    ensures
        input@.len() < NONCE_SIZE + TAG_SIZE ==> r == Err::<Vec<u8>, _>(
            CryptoError::DecryptionFailed,
        ),
        input@.len() >= NONCE_SIZE + TAG_SIZE && key@.len() != KEY_SIZE ==> r == Err::<
            Vec<u8>,
            _,
        >(CryptoError::KemFailed),
        input@.len() >= NONCE_SIZE + TAG_SIZE && key@.len() == KEY_SIZE ==> match r {
            Ok(p) => opens_to(key@, input@) == Some(p@),
            Err(e) => opens_to(key@, input@) is None && e == CryptoError::DecryptionFailed,
        },
{
    if input.len() < NONCE_SIZE + TAG_SIZE {
        return Err(CryptoError::DecryptionFailed);
    }
    if key.len() != KEY_SIZE {
        return Err(CryptoError::KemFailed);
    }
    let nonce = vstd::slice::slice_subrange(input, 0, NONCE_SIZE);
    let body = vstd::slice::slice_subrange(input, NONCE_SIZE, input.len());
    match open(key, nonce, body) {
        Some(p) => Ok(p),
        None => Err(CryptoError::DecryptionFailed),
    }
}

} // verus!
