//! The TLS settings of upstream connections.

use vstd::prelude::*;

verus! {

/// The protocol that is negotiated with an upstream.
pub const ALPN: &'static str = "h2";

/// The ways to sign a handshake.
#[derive(Clone, Copy, Debug, PartialEq, Eq, Structural)]
pub enum SignatureScheme {
    RsaPkcs1Sha256,
    RsaPkcs1Sha384,
    RsaPkcs1Sha512,
    RsaPssSha256,
    RsaPssSha384,
    RsaPssSha512,
    EcdsaNistp256Sha256,
    EcdsaNistp384Sha384,
    Ed25519,
}

impl SignatureScheme {
    /// The code of the scheme in a handshake.
    pub open spec fn spec_code(self) -> u16 {
        match self {
            SignatureScheme::RsaPkcs1Sha256 => 0x0401,
            SignatureScheme::RsaPkcs1Sha384 => 0x0501,
            SignatureScheme::RsaPkcs1Sha512 => 0x0601,
            SignatureScheme::RsaPssSha256 => 0x0804,
            SignatureScheme::RsaPssSha384 => 0x0805,
            SignatureScheme::RsaPssSha512 => 0x0806,
            SignatureScheme::EcdsaNistp256Sha256 => 0x0403,
            SignatureScheme::EcdsaNistp384Sha384 => 0x0503,
            SignatureScheme::Ed25519 => 0x0807,
        }
    }

    /// The code of the scheme in a handshake.
    pub fn code(self) -> (code: u16)
        ensures
            code == self.spec_code(),
    {
        match self {
            SignatureScheme::RsaPkcs1Sha256 => 0x0401,
            SignatureScheme::RsaPkcs1Sha384 => 0x0501,
            SignatureScheme::RsaPkcs1Sha512 => 0x0601,
            SignatureScheme::RsaPssSha256 => 0x0804,
            SignatureScheme::RsaPssSha384 => 0x0805,
            SignatureScheme::RsaPssSha512 => 0x0806,
            SignatureScheme::EcdsaNistp256Sha256 => 0x0403,
            SignatureScheme::EcdsaNistp384Sha384 => 0x0503,
            SignatureScheme::Ed25519 => 0x0807,
        }
    }
}

/// Takes any certificate of an upstream for good, and any signature of a handshake.
#[derive(Debug)]
pub struct NullVerifier;

impl NullVerifier {
    /// The ways to sign a handshake that an upstream may choose from, the preferred first.
    pub fn supported_verify_schemes(&self) -> (schemes: Vec<SignatureScheme>)
        ensures
            schemes@ == seq![
                SignatureScheme::RsaPkcs1Sha256,
                SignatureScheme::RsaPkcs1Sha384,
                SignatureScheme::RsaPkcs1Sha512,
                SignatureScheme::RsaPssSha256,
                SignatureScheme::RsaPssSha384,
                SignatureScheme::RsaPssSha512,
                SignatureScheme::EcdsaNistp256Sha256,
                SignatureScheme::EcdsaNistp384Sha384,
                SignatureScheme::Ed25519,
            ],
    {
        vec![
            SignatureScheme::RsaPkcs1Sha256,
            SignatureScheme::RsaPkcs1Sha384,
            SignatureScheme::RsaPkcs1Sha512,
            SignatureScheme::RsaPssSha256,
            SignatureScheme::RsaPssSha384,
            SignatureScheme::RsaPssSha512,
            SignatureScheme::EcdsaNistp256Sha256,
            SignatureScheme::EcdsaNistp384Sha384,
            SignatureScheme::Ed25519,
        ]
    }
}

} // verus!
