//! IKEv2 / IPsec (RFC 7296, RFC 4301): the IKEv2 message codec (with the
//! encrypted SK payload), SA proposal negotiation, Diffie-Hellman, the key
//! schedule (prf+, SKEYSEED and child key material), and the SPD data model.
//! The exchange state machines are not part of this crate.

pub mod crypto;
pub mod error;
pub mod message;
pub mod spd;
pub mod state;
pub mod transforms;
pub mod types;

pub use error::Error;
pub use message::{
    AuthPayload, CertPayload, EncryptedPayload, Header, IdPayload, KePayload, Message, NoncePayload, NotifyPayload,
    Payload, TrafficSelector, TsPayload,
};
pub use state::{child_keymat, derive_keys, IkeSaKeys, SaParams};
pub use transforms::{Proposal, SaPayload, Transform};
pub use types::{
    AuthMethod, CertEncoding, DhGroup, EncrId, ExchangeType, IdType, IntegId, PayloadType, PrfId, ProtocolId,
    TransformType, IKE_VERSION,
};
