//! LDAP (RFC 4511): a BER codec, the protocol message model, a pluggable
//! directory backend with an in-memory implementation, and the session state
//! machine that answers requests.

pub mod backend;
pub mod ber;
pub mod error;
pub mod memory;
pub mod protocol;
pub mod session;
