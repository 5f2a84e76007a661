//! Error types for the IKEv2 / IPsec implementation.

use vstd::prelude::*;

verus! {

/// Errors produced by this crate.
#[derive(Debug, Clone, PartialEq, Eq)]
pub enum Error {
    /// The input ends before a structure it announces.
    Truncated {
        /// Octets the structure needs.
        needed: usize,
        /// Octets available.
        have: usize,
    },
    /// A payload (or proposal, or transform) length too short for its header
    /// or running past what holds it.
    BadPayloadLength(usize),
    /// An unknown payload type.
    UnsupportedPayload(u8),
    /// An unknown exchange type.
    UnsupportedExchange(u8),
    /// An unknown transform type.
    UnsupportedTransformType(u8),
    /// An unknown transform id.
    UnsupportedTransformId {
        /// The transform type.
        t: u8,
        /// The transform id.
        id: u16,
    },
    /// An unknown Diffie-Hellman group.
    UnsupportedDhGroup(u16),
    /// An unknown encryption algorithm.
    UnsupportedEncr(u16),
    /// An unknown PRF.
    UnsupportedPrf(u16),
    /// An unknown integrity algorithm.
    UnsupportedInteg(u16),
    /// An unknown authentication method.
    UnsupportedAuthMethod(u8),
    /// An unknown identification type.
    UnsupportedIdType(u8),
    /// An unknown certificate encoding.
    UnsupportedCertEncoding(u8),
    /// An AUTH value or ICV did not verify.
    IntegrityCheckFailed,
    /// Decryption failed.
    DecryptFailed,
    /// A message arrived in a state that does not expect it.
    UnexpectedState {
        /// The exchange being processed.
        exchange: &'static str,
        /// What was wrong.
        msg: &'static str,
    },
    /// An SPI of a length other than 0 or 8.
    BadSpiLength(usize),
    /// No offered proposal is acceptable.
    NoProposalChosen,
    /// The Diffie-Hellman shared secret could not be computed.
    DhFailed,
    /// An Ed25519 operation failed.
    Ed25519(String),
    /// A cryptographic primitive failed.
    Crypto(String),
    /// Any other failure.
    Other(String),
}

} // verus!
