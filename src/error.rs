//! The error kinds that cross the boundaries between the parts of the database.
use crate::text::{concat, io_error_text, u64_text, decimal};
use vstd::prelude::*;

verus! {

#[verifier::external_type_specification]
#[verifier::external_body]
pub struct ExIoError(std::io::Error);

/// Errors of the shared layers: I/O, encoding, cryptography, lookups.
#[derive(Debug)]
pub enum AuraError {
    Io(std::io::Error),
    Serialization(String),
    Crypto(String),
    NotFound(String),
}

impl AuraError {
    /// What the error says of itself, after its kind's label.
    pub open spec fn label(&self) -> Seq<char> {
        match self {
            AuraError::Io(_) => "IO Error: "@,
            AuraError::Serialization(_) => "Serialization Error: "@,
            AuraError::Crypto(_) => "Crypto Error: "@,
            AuraError::NotFound(_) => "Key not found: "@,
        }
    }

    /// The message: the kind's label followed by the detail.
    pub fn to_string(&self) -> (r: String)
        ensures
            r@.len() >= self.label().len(),
            r@.subrange(0, self.label().len() as int) == self.label(),
            match self {
                AuraError::Io(_) => true,
                AuraError::Serialization(s) => r@ == self.label() + s@,
                AuraError::Crypto(s) => r@ == self.label() + s@,
                AuraError::NotFound(s) => r@ == self.label() + s@,
            },
    {
        let r = match self {
            AuraError::Io(e) => {
                let detail = io_error_text(e);
                concat("IO Error: ", detail.as_str())
            },
            AuraError::Serialization(s) => concat("Serialization Error: ", s.as_str()),
            AuraError::Crypto(s) => concat("Crypto Error: ", s.as_str()),
            AuraError::NotFound(s) => concat("Key not found: ", s.as_str()),
        };
        proof {
            reveal_strlit("IO Error: ");
            reveal_strlit("Serialization Error: ");
            reveal_strlit("Crypto Error: ");
            reveal_strlit("Key not found: ");
            assert(r@.subrange(0, self.label().len() as int) =~= self.label());
        }
        r
    }
}

impl From<std::io::Error> for AuraError {
    fn from(e: std::io::Error) -> (r: AuraError)
        ensures
            r is Io,
    {
        AuraError::Io(e)
    }
}

impl vstd::std_specs::convert::FromSpecImpl<std::io::Error> for AuraError {
    open spec fn obeys_from_spec() -> bool {
        true
    }

    open spec fn from_spec(e: std::io::Error) -> AuraError {
        AuraError::Io(e)
    }
}

/// Errors of the storage engine.
#[derive(Debug)]
pub enum StoreError {
    Io(std::io::Error),
    PageNotFound(u32),
    Tampered(u32),
    Serialization(String),
}

impl StoreError {
    /// The message that the error shows.
    pub open spec fn message(&self) -> Seq<char> {
        match self {
            StoreError::Io(_) => "IO Error"@,
            StoreError::PageNotFound(id) => "Page not found: "@ + decimal(*id as nat),
            StoreError::Tampered(id) => "Integrity Violation: Hash Mismatch on Page "@ + decimal(
                *id as nat,
            ),
            StoreError::Serialization(s) => "Serialization Error: "@ + s@,
        }
    }

    /// The message: for I/O errors the label and the system's text, otherwise
    /// exactly `message()`.
    pub fn to_string(&self) -> (r: String)
        ensures
            !(self is Io) ==> r@ == self.message(),
    {
        match self {
            StoreError::Io(e) => {
                let detail = io_error_text(e);
                concat("IO Error: ", detail.as_str())
            },
            StoreError::PageNotFound(id) => {
                let n = u64_text(*id as u64);
                concat("Page not found: ", n.as_str())
            },
            StoreError::Tampered(id) => {
                let n = u64_text(*id as u64);
                concat("Integrity Violation: Hash Mismatch on Page ", n.as_str())
            },
            StoreError::Serialization(s) => concat("Serialization Error: ", s.as_str()),
        }
    }
}

impl From<std::io::Error> for StoreError {
    fn from(e: std::io::Error) -> (r: StoreError)
        ensures
            r is Io,
    {
        StoreError::Io(e)
    }
}

impl vstd::std_specs::convert::FromSpecImpl<std::io::Error> for StoreError {
    open spec fn obeys_from_spec() -> bool {
        true
    }

    open spec fn from_spec(e: std::io::Error) -> StoreError {
        StoreError::Io(e)
    }
}

/// Errors of the cryptographic primitives.
#[derive(Debug, PartialEq, Eq, Structural)]
pub enum CryptoError {
    KemFailed,
    InvalidSignature,
    DecryptionFailed,
}

impl CryptoError {
    pub open spec fn message(&self) -> Seq<char> {
        match self {
            CryptoError::KemFailed => "Key Encapsulation Failed"@,
            CryptoError::InvalidSignature => "Signature Verification Failed"@,
            CryptoError::DecryptionFailed => "Decryption Failed (Tag Mismatch)"@,
        }
    }

    pub fn to_string(&self) -> (r: String)
        ensures
            r@ == self.message(),
    {
        match self {
            CryptoError::KemFailed => "Key Encapsulation Failed".to_owned(),
            CryptoError::InvalidSignature => "Signature Verification Failed".to_owned(),
            CryptoError::DecryptionFailed => "Decryption Failed (Tag Mismatch)".to_owned(),
        }
    }
}

} // verus!
