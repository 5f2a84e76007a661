//! Error types for the Kerberos library.

use vstd::prelude::*;

verus! {

/// Errors that can arise while processing Kerberos data.
#[derive(Debug)]
#[non_exhaustive]
pub enum Error {
    /// A DER/ASN.1 decode step failed.
    Asn1(&'static str),
    /// A value was outside the range the spec permits (e.g. a KerberosTime that
    /// cannot be represented as a 32-bit microsecond offset).
    Range(&'static str),
    /// A required field was absent from a decoded structure.
    MissingField(&'static str),
    /// An unexpected/unsupported tag or field value was encountered.
    Unexpected(&'static str),
    /// The supplied encryption type is unknown or unsupported.
    UnsupportedEnctype(u32),
    /// A checksum/checksum verification failed.
    ChecksumMismatch,
    /// Decryption of an `EncryptedData` failed (wrong key, tampering, or CTS
    /// processing error).
    DecryptFailed,
    /// The key-derivation parameters did not match what was expected.
    KeyDerivation(String),
    /// The message integrity code (MIC) did not verify.
    MicMismatch,
    /// A KDC/AP exchange returned an error code.
    KrbError {
        /// The error code.
        code: i32,
        /// The error text, if any.
        etext: Option<String>,
    },
    /// The pre-authentication data was missing or unacceptable.
    PreauthRequired,
    /// A principal name / realm did not parse or normalise as expected.
    Principal(String),
    /// An I/O or length constraint was violated.
    Constraint(&'static str),
}

} // verus!
