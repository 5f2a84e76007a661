//! NETCONF (RFC 6241, RFC 6242): message framing, an XML reader and writer,
//! the RPC / hello / reply model, and a datastore server. The SSH transport
//! is not part of this crate.

pub mod error;
pub mod framing;
pub mod message;
pub mod server;
pub mod xml;

pub use error::NetconfError;
