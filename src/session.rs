//! The per-connection session protocol: the KEM handshake's decisions and the
//! replies of the authenticated phase. Sockets are driven by the caller.
use crate::error::CryptoError;
use crate::kem::{decapsulate, CIPHERTEXT_SIZE, PUBLIC_KEY_SIZE};
use crate::query::QueryError;
use crate::text::{concat, u64_text};
use pqcrypto_kyber::kyber1024;
use vstd::prelude::*;

verus! {

/// Bytes the server sends first: its public key.
pub const HANDSHAKE_PUBLIC_KEY_SIZE: usize = PUBLIC_KEY_SIZE;

/// Bytes the client answers with: the encapsulated secret.
pub const HANDSHAKE_CIPHERTEXT_SIZE: usize = CIPHERTEXT_SIZE;

/// Where a connection stands.
pub enum ConnectionState {
    Handshake,
    Authenticated { session_key: Vec<u8> },
}

/// What the server does with the client's answer to its public key.
pub enum HandshakeStep {
    /// The client closed the connection: end quietly.
    Closed,
    /// Close the connection with this error.
    Fail(String),
    /// Go on in the given state.
    Proceed(ConnectionState),
}

/// Decides the handshake from the bytes the client sent in answer to the
/// public key: none means the client left; anything but 1568 bytes, or a
/// ciphertext that does not decapsulate, fails the connection; otherwise the
/// connection is authenticated with the shared secret as session key.
pub fn finish_handshake(answer: &[u8], sk: &kyber1024::SecretKey) -> (r: HandshakeStep)
    ensures
        answer@.len() == 0 ==> r is Closed,
        answer@.len() != 0 && answer@.len() != HANDSHAKE_CIPHERTEXT_SIZE ==> r is Fail,
        answer@.len() == HANDSHAKE_CIPHERTEXT_SIZE ==> (r matches HandshakeStep::Proceed(
            ConnectionState::Authenticated { session_key },
        ) && session_key@.len() == crate::kem::SHARED_SECRET_SIZE),
{
    let n = answer.len();
    if n == 0 {
        return HandshakeStep::Closed;
    }
    if n != HANDSHAKE_CIPHERTEXT_SIZE {
        let got = u64_text(n as u64);
        return HandshakeStep::Fail(concat("Expected 1568 bytes for ciphertext, got ", got.as_str()));
    }
    match decapsulate(answer, sk) {
        Ok(secret) => HandshakeStep::Proceed(ConnectionState::Authenticated { session_key: secret }),
        Err(_) => HandshakeStep::Fail("Handshake Failed: Invalid Kyber Ciphertext".to_owned()),
    }
}

/// The reply to a request: `OK: ` and the result, or `ERROR: ` and the
/// error's message.
pub fn reply(result: &Result<String, QueryError>) -> (r: String)
    ensures
        result matches Ok(s) ==> r@ == "OK: "@ + s@,
        result matches Err(e) ==> r@.len() >= 7 && r@.subrange(0, 7) == "ERROR: "@,
        result is Err && result->Err_0.message() is Some ==> r@ == "ERROR: "@ + result->Err_0.message()->Some_0,
{
    proof {
        reveal_strlit("OK: ");
        reveal_strlit("ERROR: ");
    }
    match result {
        Ok(s) => concat("OK: ", s.as_str()),
        Err(e) => {
            let m = e.to_string();
            let r = concat("ERROR: ", m.as_str());
            assert(r@.subrange(0, 7) =~= "ERROR: "@);
            r
        },
    }
}

/// The four bytes of `x`, most significant first.
pub open spec fn be32(x: u32) -> Seq<u8> {
    seq![
        ((x >> 24u32) & 0xff) as u8,
        ((x >> 16u32) & 0xff) as u8,
        ((x >> 8u32) & 0xff) as u8,
        (x & 0xff) as u8,
    ]
}

/// The length that a frame header announces.
pub open spec fn header_value(h: Seq<u8>) -> u32 {
    (((h[0] as u32) << 24u32) | ((h[1] as u32) << 16u32) | ((h[2] as u32) << 8u32) | (h[3] as u32)) as u32
}

/// The length of the frame whose 4-byte big-endian header is `header`.
pub fn frame_length(header: &[u8]) -> (r: u32)
    requires
        header@.len() == 4,
    ensures
        r == header_value(header@),
{
    ((header[0] as u32) << 24u32) | ((header[1] as u32) << 16u32) | ((header[2] as u32) << 8u32)
        | (header[3] as u32)
}

/// A message on the wire after the handshake: the 4-byte big-endian length of
/// the sealed payload, then the payload sealed under the session key.
/// Fails as `encrypt` does.
pub fn seal_message(session_key: &[u8], plaintext: &[u8]) -> (r: Result<Vec<u8>, CryptoError>)
    ensures
        r is Ok <==> session_key@.len() == crate::symmetric::KEY_SIZE && crate::symmetric::fits_cipher(plaintext@.len())
            && plaintext@.len() + 40 <= u32::MAX,
        r matches Ok(m) ==> m@.len() == 4 + 24 + plaintext@.len() + 16 && header_value(m@.subrange(0, 4)) == m@.len() - 4
            && crate::symmetric::opens_to(session_key@, m@.subrange(4, m@.len() as int)) == Some(plaintext@),
{
    if plaintext.len() > u32::MAX as usize - 40 {
        return Err(CryptoError::KemFailed);
    }
    let body = crate::symmetric::encrypt(plaintext, session_key)?;
    let n = body.len() as u32;
    let mut out: Vec<u8> = Vec::new();
    out.push(((n >> 24u32) & 0xff) as u8);
    out.push(((n >> 16u32) & 0xff) as u8);
    out.push(((n >> 8u32) & 0xff) as u8);
    out.push((n & 0xff) as u8);
    let ghost head = out@;
    assert(head[0] == ((n >> 24u32) & 0xff) as u8);
    assert(header_value(head) == n) by {
        let b0 = head[0];
        let b1 = head[1];
        let b2 = head[2];
        let b3 = head[3];
        assert((((b0 as u32) << 24u32) | ((b1 as u32) << 16u32) | ((b2 as u32) << 8u32) | (b3 as u32)) == n) by (bit_vector)
            requires
                b0 == ((n >> 24u32) & 0xff) as u8,
                b1 == ((n >> 16u32) & 0xff) as u8,
                b2 == ((n >> 8u32) & 0xff) as u8,
                b3 == (n & 0xff) as u8,
        ;
    }
    crate::bytes::push_bytes(&mut out, body.as_slice());
    assert(out@.subrange(0, 4) =~= head);
    assert(out@.subrange(4, out@.len() as int) =~= body@);
    Ok(out)
}

/// Opens the payload of a frame (without its header) under the session key.
pub fn open_message(session_key: &[u8], sealed: &[u8]) -> (r: Result<Vec<u8>, CryptoError>)
    ensures
        session_key@.len() == crate::symmetric::KEY_SIZE ==> match r {
            Ok(p) => crate::symmetric::opens_to(session_key@, sealed@) == Some(p@),
            Err(_) => crate::symmetric::opens_to(session_key@, sealed@) is None,
        },
{
    crate::symmetric::decrypt(sealed, session_key)
}

} // verus!
