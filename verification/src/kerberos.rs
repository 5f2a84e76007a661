//! Kerberos v5 (RFC 4120) cryptography: the AES encryption types of RFC 3962
//! and RFC 8009 — string-to-key, key derivation, AES-CTS, and the
//! encrypt / decrypt / checksum operations on `EncryptedData` — and the DER
//! layer for principal names and the small types. The KDC, the client
//! exchanges and SPNEGO are not part of this crate; of the message types,
//! `EncryptedData`, `Checksum`, `PA-DATA`, `EncryptionKey`, `Ticket`,
//! `EncTicketPart`, `KDC-REQ-BODY`, `KDC-REQ`, `KDC-REP` and `EncKDCRepPart`
//! are.

pub mod asn1;
pub mod crypto;
pub mod error;
pub mod key_usage;
pub mod types;

pub use crypto::{
    ENCTYPE_AES128_CTS_HMAC_SHA1_96, ENCTYPE_AES128_CTS_HMAC_SHA256_128, ENCTYPE_AES256_CTS_HMAC_SHA1_96,
    ENCTYPE_AES256_CTS_HMAC_SHA384_192,
};
pub use error::Error;
