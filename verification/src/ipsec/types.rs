//! IKEv2 protocol enums and constants (RFC 7296).

use vstd::prelude::*;

pub mod flags;
pub mod ts_type;

verus! {

/// IKEv2 payload types (Next Payload field values, RFC 7296 §3.1).
#[derive(Debug, Clone, Copy, PartialEq, Eq, Structural)]
pub enum PayloadType {
    /// No next payload (the value 0).
    NoNext,
    /// Security Association.
    Sa,
    /// Key Exchange.
    Ke,
    /// Identification - Initiator.
    Idi,
    /// Identification - Responder.
    Idr,
    /// Certificate.
    Cert,
    /// Certificate Request.
    CertReq,
    /// Authentication.
    Auth,
    /// Nonce.
    Nonce,
    /// Notify.
    Notify,
    /// Delete.
    Delete,
    /// Vendor ID.
    Vendor,
    /// Traffic Selector - Initiator.
    TSi,
    /// Traffic Selector - Responder.
    TSr,
    /// Encrypted and Authenticated.
    Sk,
    /// Configuration.
    Cp,
    /// Extensible Authentication.
    Eap,
}

impl PayloadType {
    /// The value carried on the wire.
    pub open spec fn code(self) -> u8 {
        match self {
            PayloadType::NoNext => 0,
            PayloadType::Sa => 33,
            PayloadType::Ke => 34,
            PayloadType::Idi => 35,
            PayloadType::Idr => 36,
            PayloadType::Cert => 37,
            PayloadType::CertReq => 38,
            PayloadType::Auth => 39,
            PayloadType::Nonce => 40,
            PayloadType::Notify => 41,
            PayloadType::Delete => 42,
            PayloadType::Vendor => 43,
            PayloadType::TSi => 44,
            PayloadType::TSr => 45,
            PayloadType::Sk => 46,
            PayloadType::Cp => 47,
            PayloadType::Eap => 48,
        }
    }

    /// The values that name a variant.
    pub open spec fn is_code(v: u8) -> bool {
        v == 0 || v == 33 || v == 34 || v == 35 || v == 36 || v == 37 || v == 38 || v == 39 || v == 40 || v == 41 || v == 42 || v == 43 || v == 44 || v == 45 || v == 46 || v == 47 || v == 48
    }

    /// Parse a payload-type byte, mapping 0 to `NoNext`.
    pub fn from_u8(v: u8) -> (r: Option<PayloadType>)
        ensures
            r matches Some(x) ==> x.code() == v,
            r is Some <==> Self::is_code(v),
    {
        match v {
            0 => Some(PayloadType::NoNext),
            33 => Some(PayloadType::Sa),
            34 => Some(PayloadType::Ke),
            35 => Some(PayloadType::Idi),
            36 => Some(PayloadType::Idr),
            37 => Some(PayloadType::Cert),
            38 => Some(PayloadType::CertReq),
            39 => Some(PayloadType::Auth),
            40 => Some(PayloadType::Nonce),
            41 => Some(PayloadType::Notify),
            42 => Some(PayloadType::Delete),
            43 => Some(PayloadType::Vendor),
            44 => Some(PayloadType::TSi),
            45 => Some(PayloadType::TSr),
            46 => Some(PayloadType::Sk),
            47 => Some(PayloadType::Cp),
            48 => Some(PayloadType::Eap),
            _ => None,
        }
    }

    /// Numeric value for wire encoding.
    pub fn to_u8(self) -> (v: u8)
        ensures
            v == self.code(),
    {
        match self {
            PayloadType::NoNext => 0,
            PayloadType::Sa => 33,
            PayloadType::Ke => 34,
            PayloadType::Idi => 35,
            PayloadType::Idr => 36,
            PayloadType::Cert => 37,
            PayloadType::CertReq => 38,
            PayloadType::Auth => 39,
            PayloadType::Nonce => 40,
            PayloadType::Notify => 41,
            PayloadType::Delete => 42,
            PayloadType::Vendor => 43,
            PayloadType::TSi => 44,
            PayloadType::TSr => 45,
            PayloadType::Sk => 46,
            PayloadType::Cp => 47,
            PayloadType::Eap => 48,
        }
    }
}

/// IKEv2 exchange types (RFC 7296 §3.1, "Exchange Type").
#[derive(Debug, Clone, Copy, PartialEq, Eq, Structural)]
pub enum ExchangeType {
    /// IKE_SA_INIT.
    IkeSaInit,
    /// IKE_AUTH.
    IkeAuth,
    /// CREATE_CHILD_SA.
    CreateChildSa,
    /// INFORMATIONAL.
    Informational,
}

impl ExchangeType {
    /// The value carried on the wire.
    pub open spec fn code(self) -> u8 {
        match self {
            ExchangeType::IkeSaInit => 34,
            ExchangeType::IkeAuth => 35,
            ExchangeType::CreateChildSa => 36,
            ExchangeType::Informational => 37,
        }
    }

    /// The values that name a variant.
    pub open spec fn is_code(v: u8) -> bool {
        v == 34 || v == 35 || v == 36 || v == 37
    }

    /// Parse an exchange-type byte.
    pub fn from_u8(v: u8) -> (r: Option<ExchangeType>)
        ensures
            r matches Some(x) ==> x.code() == v,
            r is Some <==> Self::is_code(v),
    {
        match v {
            34 => Some(ExchangeType::IkeSaInit),
            35 => Some(ExchangeType::IkeAuth),
            36 => Some(ExchangeType::CreateChildSa),
            37 => Some(ExchangeType::Informational),
            _ => None,
        }
    }

    /// Numeric value for wire encoding.
    pub fn to_u8(self) -> (v: u8)
        ensures
            v == self.code(),
    {
        match self {
            ExchangeType::IkeSaInit => 34,
            ExchangeType::IkeAuth => 35,
            ExchangeType::CreateChildSa => 36,
            ExchangeType::Informational => 37,
        }
    }
}

/// Protocol identifiers used in SA payloads (RFC 7296 §3.3.1).
#[derive(Debug, Clone, Copy, PartialEq, Eq, Structural)]
pub enum ProtocolId {
    /// IKE.
    Ike,
    /// AH.
    Ah,
    /// ESP.
    Esp,
}

impl ProtocolId {
    /// The value carried on the wire.
    pub open spec fn code(self) -> u8 {
        match self {
            ProtocolId::Ike => 1,
            ProtocolId::Ah => 2,
            ProtocolId::Esp => 3,
        }
    }

    /// The values that name a variant.
    pub open spec fn is_code(v: u8) -> bool {
        v == 1 || v == 2 || v == 3
    }

    /// Parse a protocol-id byte.
    pub fn from_u8(v: u8) -> (r: Option<ProtocolId>)
        ensures
            r matches Some(x) ==> x.code() == v,
            r is Some <==> Self::is_code(v),
    {
        match v {
            1 => Some(ProtocolId::Ike),
            2 => Some(ProtocolId::Ah),
            3 => Some(ProtocolId::Esp),
            _ => None,
        }
    }

    /// Numeric value for wire encoding.
    pub fn to_u8(self) -> (v: u8)
        ensures
            v == self.code(),
    {
        match self {
            ProtocolId::Ike => 1,
            ProtocolId::Ah => 2,
            ProtocolId::Esp => 3,
        }
    }
}

/// Transform types within a proposal (RFC 7296 §3.3.2).
#[derive(Debug, Clone, Copy, PartialEq, Eq, Structural)]
pub enum TransformType {
    /// Encryption algorithm.
    Encr,
    /// Pseudo-random function.
    Prf,
    /// Integrity algorithm.
    Integ,
    /// Diffie-Hellman group.
    Dh,
    /// Extended sequence numbers.
    Esn,
}

impl TransformType {
    /// The value carried on the wire.
    pub open spec fn code(self) -> u8 {
        match self {
            TransformType::Encr => 1,
            TransformType::Prf => 2,
            TransformType::Integ => 3,
            TransformType::Dh => 4,
            TransformType::Esn => 5,
        }
    }

    /// The values that name a variant.
    pub open spec fn is_code(v: u8) -> bool {
        v == 1 || v == 2 || v == 3 || v == 4 || v == 5
    }

    /// Parse a transform-type byte.
    pub fn from_u8(v: u8) -> (r: Option<TransformType>)
        ensures
            r matches Some(x) ==> x.code() == v,
            r is Some <==> Self::is_code(v),
    {
        match v {
            1 => Some(TransformType::Encr),
            2 => Some(TransformType::Prf),
            3 => Some(TransformType::Integ),
            4 => Some(TransformType::Dh),
            5 => Some(TransformType::Esn),
            _ => None,
        }
    }

    /// Numeric value for wire encoding.
    pub fn to_u8(self) -> (v: u8)
        ensures
            v == self.code(),
    {
        match self {
            TransformType::Encr => 1,
            TransformType::Prf => 2,
            TransformType::Integ => 3,
            TransformType::Dh => 4,
            TransformType::Esn => 5,
        }
    }
}

/// Encryption transform identifiers (RFC 7296 §3.3.2 / RFC 8221).
#[derive(Debug, Clone, Copy, PartialEq, Eq, Structural)]
pub enum EncrId {
    /// AES-CBC with a 128-bit key.
    AesCbc128,
    /// AES-CBC with a 192-bit key.
    AesCbc192,
    /// AES-CBC with a 256-bit key.
    AesCbc256,
    /// AES-GCM (16-octet ICV) with a 128-bit key.
    AesGcm16_128,
    /// AES-GCM (16-octet ICV) with a 192-bit key.
    AesGcm16_192,
    /// AES-GCM (16-octet ICV) with a 256-bit key.
    AesGcm16_256,
}

impl EncrId {
    /// The value carried on the wire.
    pub open spec fn code(self) -> u16 {
        match self {
            EncrId::AesCbc128 => 12,
            EncrId::AesCbc192 => 13,
            EncrId::AesCbc256 => 14,
            EncrId::AesGcm16_128 => 18,
            EncrId::AesGcm16_192 => 19,
            EncrId::AesGcm16_256 => 20,
        }
    }

    /// The values that name a variant.
    pub open spec fn is_code(v: u16) -> bool {
        v == 12 || v == 13 || v == 14 || v == 18 || v == 19 || v == 20
    }

    /// Parse an encryption transform id.
    pub fn from_u16(v: u16) -> (r: Option<EncrId>)
        ensures
            r matches Some(x) ==> x.code() == v,
            r is Some <==> Self::is_code(v),
    {
        match v {
            12 => Some(EncrId::AesCbc128),
            13 => Some(EncrId::AesCbc192),
            14 => Some(EncrId::AesCbc256),
            18 => Some(EncrId::AesGcm16_128),
            19 => Some(EncrId::AesGcm16_192),
            20 => Some(EncrId::AesGcm16_256),
            _ => None,
        }
    }

    /// Numeric value for wire encoding.
    pub fn to_u16(self) -> (v: u16)
        ensures
            v == self.code(),
    {
        match self {
            EncrId::AesCbc128 => 12,
            EncrId::AesCbc192 => 13,
            EncrId::AesCbc256 => 14,
            EncrId::AesGcm16_128 => 18,
            EncrId::AesGcm16_192 => 19,
            EncrId::AesGcm16_256 => 20,
        }
    }

    /// Symmetric key length in bytes (the AES key, excluding any AEAD salt).
    pub open spec fn spec_key_len(self) -> usize {
        match self {
            EncrId::AesCbc128 => 16,
            EncrId::AesCbc192 => 24,
            EncrId::AesCbc256 => 32,
            EncrId::AesGcm16_128 => 16,
            EncrId::AesGcm16_192 => 24,
            EncrId::AesGcm16_256 => 32,
        }
    }

    /// Symmetric key length in bytes (the AES key, excluding any AEAD salt).
    pub fn key_len(self) -> (r: usize)
        ensures
            r == self.spec_key_len(),
    {
        match self {
            EncrId::AesCbc128 => 16,
            EncrId::AesCbc192 => 24,
            EncrId::AesCbc256 => 32,
            EncrId::AesGcm16_128 => 16,
            EncrId::AesGcm16_192 => 24,
            EncrId::AesGcm16_256 => 32,
        }
    }

    /// Whether this is an AEAD transform (no separate integrity algorithm).
    pub open spec fn spec_is_aead(self) -> bool {
        match self {
            EncrId::AesCbc128 => false,
            EncrId::AesCbc192 => false,
            EncrId::AesCbc256 => false,
            EncrId::AesGcm16_128 => true,
            EncrId::AesGcm16_192 => true,
            EncrId::AesGcm16_256 => true,
        }
    }

    /// Whether this is an AEAD transform (no separate integrity algorithm).
    pub fn is_aead(self) -> (r: bool)
        ensures
            r == self.spec_is_aead(),
    {
        match self {
            EncrId::AesCbc128 => false,
            EncrId::AesCbc192 => false,
            EncrId::AesCbc256 => false,
            EncrId::AesGcm16_128 => true,
            EncrId::AesGcm16_192 => true,
            EncrId::AesGcm16_256 => true,
        }
    }
}

/// PRF transform identifiers (RFC 7296 §3.3.2).
#[derive(Debug, Clone, Copy, PartialEq, Eq, Structural)]
pub enum PrfId {
    /// HMAC-SHA1.
    HmacSha1,
    /// HMAC-SHA2-256.
    HmacSha256,
    /// HMAC-SHA2-384.
    HmacSha384,
    /// HMAC-SHA2-512.
    HmacSha512,
}

impl PrfId {
    /// The value carried on the wire.
    pub open spec fn code(self) -> u16 {
        match self {
            PrfId::HmacSha1 => 1,
            PrfId::HmacSha256 => 2,
            PrfId::HmacSha384 => 3,
            PrfId::HmacSha512 => 4,
        }
    }

    /// The values that name a variant.
    pub open spec fn is_code(v: u16) -> bool {
        v == 1 || v == 2 || v == 3 || v == 4
    }

    /// Parse a PRF transform id.
    pub fn from_u16(v: u16) -> (r: Option<PrfId>)
        ensures
            r matches Some(x) ==> x.code() == v,
            r is Some <==> Self::is_code(v),
    {
        match v {
            1 => Some(PrfId::HmacSha1),
            2 => Some(PrfId::HmacSha256),
            3 => Some(PrfId::HmacSha384),
            4 => Some(PrfId::HmacSha512),
            _ => None,
        }
    }

    /// Numeric value for wire encoding.
    pub fn to_u16(self) -> (v: u16)
        ensures
            v == self.code(),
    {
        match self {
            PrfId::HmacSha1 => 1,
            PrfId::HmacSha256 => 2,
            PrfId::HmacSha384 => 3,
            PrfId::HmacSha512 => 4,
        }
    }

    /// Output size of the underlying PRF in bytes.
    pub open spec fn spec_output_len(self) -> usize {
        match self {
            PrfId::HmacSha1 => 20,
            PrfId::HmacSha256 => 32,
            PrfId::HmacSha384 => 48,
            PrfId::HmacSha512 => 64,
        }
    }

    /// Output size of the underlying PRF in bytes.
    pub fn output_len(self) -> (r: usize)
        ensures
            r == self.spec_output_len(),
    {
        match self {
            PrfId::HmacSha1 => 20,
            PrfId::HmacSha256 => 32,
            PrfId::HmacSha384 => 48,
            PrfId::HmacSha512 => 64,
        }
    }
}

/// Integrity transform identifiers (RFC 7296 §3.3.2 / RFC 8221).
#[derive(Debug, Clone, Copy, PartialEq, Eq, Structural)]
pub enum IntegId {
    /// HMAC-SHA1-96.
    HmacSha1_96,
    /// HMAC-SHA2-256-128.
    HmacSha256_128,
    /// HMAC-SHA2-384-192.
    HmacSha384_192,
    /// HMAC-SHA2-512-256.
    HmacSha512_256,
}

impl IntegId {
    /// The value carried on the wire.
    pub open spec fn code(self) -> u16 {
        match self {
            IntegId::HmacSha1_96 => 1,
            IntegId::HmacSha256_128 => 12,
            IntegId::HmacSha384_192 => 13,
            IntegId::HmacSha512_256 => 14,
        }
    }

    /// The values that name a variant.
    pub open spec fn is_code(v: u16) -> bool {
        v == 1 || v == 12 || v == 13 || v == 14
    }

    /// Parse an integrity transform id.
    pub fn from_u16(v: u16) -> (r: Option<IntegId>)
        ensures
            r matches Some(x) ==> x.code() == v,
            r is Some <==> Self::is_code(v),
    {
        match v {
            1 => Some(IntegId::HmacSha1_96),
            12 => Some(IntegId::HmacSha256_128),
            13 => Some(IntegId::HmacSha384_192),
            14 => Some(IntegId::HmacSha512_256),
            _ => None,
        }
    }

    /// Numeric value for wire encoding.
    pub fn to_u16(self) -> (v: u16)
        ensures
            v == self.code(),
    {
        match self {
            IntegId::HmacSha1_96 => 1,
            IntegId::HmacSha256_128 => 12,
            IntegId::HmacSha384_192 => 13,
            IntegId::HmacSha512_256 => 14,
        }
    }

    /// Key length of the integrity algorithm in bytes.
    pub open spec fn spec_key_len(self) -> usize {
        match self {
            IntegId::HmacSha1_96 => 20,
            IntegId::HmacSha256_128 => 32,
            IntegId::HmacSha384_192 => 48,
            IntegId::HmacSha512_256 => 64,
        }
    }

    /// Key length of the integrity algorithm in bytes.
    pub fn key_len(self) -> (r: usize)
        ensures
            r == self.spec_key_len(),
    {
        match self {
            IntegId::HmacSha1_96 => 20,
            IntegId::HmacSha256_128 => 32,
            IntegId::HmacSha384_192 => 48,
            IntegId::HmacSha512_256 => 64,
        }
    }

    /// Truncated ICV length in bytes.
    pub open spec fn spec_icv_len(self) -> usize {
        match self {
            IntegId::HmacSha1_96 => 12,
            IntegId::HmacSha256_128 => 16,
            IntegId::HmacSha384_192 => 24,
            IntegId::HmacSha512_256 => 32,
        }
    }

    /// Truncated ICV length in bytes.
    pub fn icv_len(self) -> (r: usize)
        ensures
            r == self.spec_icv_len(),
    {
        match self {
            IntegId::HmacSha1_96 => 12,
            IntegId::HmacSha256_128 => 16,
            IntegId::HmacSha384_192 => 24,
            IntegId::HmacSha512_256 => 32,
        }
    }
}

/// Diffie-Hellman group identifiers (RFC 7296 Appendix B / RFC 8031).
#[derive(Debug, Clone, Copy, PartialEq, Eq, Structural)]
pub enum DhGroup {
    /// 768-bit MODP group.
    Modp768,
    /// 1024-bit MODP group.
    Modp1024,
    /// 1536-bit MODP group.
    Modp1536,
    /// 2048-bit MODP group.
    Modp2048,
    /// 3072-bit MODP group.
    Modp3072,
    /// 4096-bit MODP group.
    Modp4096,
    /// Curve25519.
    Curve25519,
}

impl DhGroup {
    /// The value carried on the wire.
    pub open spec fn code(self) -> u16 {
        match self {
            DhGroup::Modp768 => 1,
            DhGroup::Modp1024 => 2,
            DhGroup::Modp1536 => 5,
            DhGroup::Modp2048 => 14,
            DhGroup::Modp3072 => 15,
            DhGroup::Modp4096 => 16,
            DhGroup::Curve25519 => 31,
        }
    }

    /// The values that name a variant.
    pub open spec fn is_code(v: u16) -> bool {
        v == 1 || v == 2 || v == 5 || v == 14 || v == 15 || v == 16 || v == 31
    }

    /// Parse a Diffie-Hellman group id.
    pub fn from_u16(v: u16) -> (r: Option<DhGroup>)
        ensures
            r matches Some(x) ==> x.code() == v,
            r is Some <==> Self::is_code(v),
    {
        match v {
            1 => Some(DhGroup::Modp768),
            2 => Some(DhGroup::Modp1024),
            5 => Some(DhGroup::Modp1536),
            14 => Some(DhGroup::Modp2048),
            15 => Some(DhGroup::Modp3072),
            16 => Some(DhGroup::Modp4096),
            31 => Some(DhGroup::Curve25519),
            _ => None,
        }
    }

    /// Numeric value for wire encoding.
    pub fn to_u16(self) -> (v: u16)
        ensures
            v == self.code(),
    {
        match self {
            DhGroup::Modp768 => 1,
            DhGroup::Modp1024 => 2,
            DhGroup::Modp1536 => 5,
            DhGroup::Modp2048 => 14,
            DhGroup::Modp3072 => 15,
            DhGroup::Modp4096 => 16,
            DhGroup::Curve25519 => 31,
        }
    }

    /// The length of a public value / shared secret in bytes.
    pub open spec fn spec_key_len(self) -> usize {
        match self {
            DhGroup::Modp768 => 96,
            DhGroup::Modp1024 => 128,
            DhGroup::Modp1536 => 192,
            DhGroup::Modp2048 => 256,
            DhGroup::Modp3072 => 384,
            DhGroup::Modp4096 => 512,
            DhGroup::Curve25519 => 32,
        }
    }

    /// The length of a public value / shared secret in bytes.
    pub fn key_len(self) -> (r: usize)
        ensures
            r == self.spec_key_len(),
    {
        match self {
            DhGroup::Modp768 => 96,
            DhGroup::Modp1024 => 128,
            DhGroup::Modp1536 => 192,
            DhGroup::Modp2048 => 256,
            DhGroup::Modp3072 => 384,
            DhGroup::Modp4096 => 512,
            DhGroup::Curve25519 => 32,
        }
    }
}

/// Authentication method identifiers (RFC 7296 §3.8 / RFC 7420).
#[derive(Debug, Clone, Copy, PartialEq, Eq, Structural)]
pub enum AuthMethod {
    /// RSA digital signature.
    Rsa,
    /// Shared key message integrity code.
    Psk,
    /// DSS digital signature.
    Ecdsa,
    /// Digital signature (RFC 7427).
    DigitalSignature,
}

impl AuthMethod {
    /// The value carried on the wire.
    pub open spec fn code(self) -> u8 {
        match self {
            AuthMethod::Rsa => 1,
            AuthMethod::Psk => 2,
            AuthMethod::Ecdsa => 3,
            AuthMethod::DigitalSignature => 14,
        }
    }

    /// The values that name a variant.
    pub open spec fn is_code(v: u8) -> bool {
        v == 1 || v == 2 || v == 3 || v == 14
    }

    /// Parse an authentication-method byte.
    pub fn from_u8(v: u8) -> (r: Option<AuthMethod>)
        ensures
            r matches Some(x) ==> x.code() == v,
            r is Some <==> Self::is_code(v),
    {
        match v {
            1 => Some(AuthMethod::Rsa),
            2 => Some(AuthMethod::Psk),
            3 => Some(AuthMethod::Ecdsa),
            14 => Some(AuthMethod::DigitalSignature),
            _ => None,
        }
    }

    /// Numeric value for wire encoding.
    pub fn to_u8(self) -> (v: u8)
        ensures
            v == self.code(),
    {
        match self {
            AuthMethod::Rsa => 1,
            AuthMethod::Psk => 2,
            AuthMethod::Ecdsa => 3,
            AuthMethod::DigitalSignature => 14,
        }
    }
}

/// Identification type values (RFC 7296 §3.5).
#[derive(Debug, Clone, Copy, PartialEq, Eq, Structural)]
pub enum IdType {
    /// An IPv4 address.
    Ipv4,
    /// A fully-qualified domain name.
    Fqdn,
    /// An RFC 822 e-mail address.
    Rfc822,
    /// An IPv6 address.
    Ipv6,
    /// An opaque key identifier.
    KeyId,
}

impl IdType {
    /// The value carried on the wire.
    pub open spec fn code(self) -> u8 {
        match self {
            IdType::Ipv4 => 1,
            IdType::Fqdn => 2,
            IdType::Rfc822 => 3,
            IdType::Ipv6 => 5,
            IdType::KeyId => 11,
        }
    }

    /// The values that name a variant.
    pub open spec fn is_code(v: u8) -> bool {
        v == 1 || v == 2 || v == 3 || v == 5 || v == 11
    }

    /// Parse an ID-type byte.
    pub fn from_u8(v: u8) -> (r: Option<IdType>)
        ensures
            r matches Some(x) ==> x.code() == v,
            r is Some <==> Self::is_code(v),
    {
        match v {
            1 => Some(IdType::Ipv4),
            2 => Some(IdType::Fqdn),
            3 => Some(IdType::Rfc822),
            5 => Some(IdType::Ipv6),
            11 => Some(IdType::KeyId),
            _ => None,
        }
    }

    /// Numeric value for wire encoding.
    pub fn to_u8(self) -> (v: u8)
        ensures
            v == self.code(),
    {
        match self {
            IdType::Ipv4 => 1,
            IdType::Fqdn => 2,
            IdType::Rfc822 => 3,
            IdType::Ipv6 => 5,
            IdType::KeyId => 11,
        }
    }
}

/// Certificate encoding identifiers (RFC 7296 §3.6).
#[derive(Debug, Clone, Copy, PartialEq, Eq, Structural)]
pub enum CertEncoding {
    /// PKCS #7 wrapped X.509 certificate.
    Pkcs7,
    /// PGP certificate.
    Pgp,
    /// DNS signed key.
    Dns,
    /// X.509 certificate - signature.
    X509,
    /// Raw RSA key.
    RawRsa,
    /// X.509 certificate - attribute.
    X509Attr,
    /// Hash and URL of X.509 certificate.
    HashUrlX509,
    /// Hash and URL of X.509 bundle.
    HashUrlX509Bundle,
    /// OCSP content.
    OCSP,
    /// Raw public key.
    RawPublicKey,
}

impl CertEncoding {
    /// The value carried on the wire.
    pub open spec fn code(self) -> u8 {
        match self {
            CertEncoding::Pkcs7 => 1,
            CertEncoding::Pgp => 2,
            CertEncoding::Dns => 3,
            CertEncoding::X509 => 4,
            CertEncoding::RawRsa => 5,
            CertEncoding::X509Attr => 6,
            CertEncoding::HashUrlX509 => 7,
            CertEncoding::HashUrlX509Bundle => 8,
            CertEncoding::OCSP => 9,
            CertEncoding::RawPublicKey => 11,
        }
    }

    /// The values that name a variant.
    pub open spec fn is_code(v: u8) -> bool {
        v == 1 || v == 2 || v == 3 || v == 4 || v == 5 || v == 6 || v == 7 || v == 8 || v == 9 || v == 11
    }

    /// Parse a certificate-encoding byte.
    pub fn from_u8(v: u8) -> (r: Option<CertEncoding>)
        ensures
            r matches Some(x) ==> x.code() == v,
            r is Some <==> Self::is_code(v),
    {
        match v {
            1 => Some(CertEncoding::Pkcs7),
            2 => Some(CertEncoding::Pgp),
            3 => Some(CertEncoding::Dns),
            4 => Some(CertEncoding::X509),
            5 => Some(CertEncoding::RawRsa),
            6 => Some(CertEncoding::X509Attr),
            7 => Some(CertEncoding::HashUrlX509),
            8 => Some(CertEncoding::HashUrlX509Bundle),
            9 => Some(CertEncoding::OCSP),
            11 => Some(CertEncoding::RawPublicKey),
            _ => None,
        }
    }

    /// Numeric value for wire encoding.
    pub fn to_u8(self) -> (v: u8)
        ensures
            v == self.code(),
    {
        match self {
            CertEncoding::Pkcs7 => 1,
            CertEncoding::Pgp => 2,
            CertEncoding::Dns => 3,
            CertEncoding::X509 => 4,
            CertEncoding::RawRsa => 5,
            CertEncoding::X509Attr => 6,
            CertEncoding::HashUrlX509 => 7,
            CertEncoding::HashUrlX509Bundle => 8,
            CertEncoding::OCSP => 9,
            CertEncoding::RawPublicKey => 11,
        }
    }
}

/// IKE version byte (2.0).
pub const IKE_VERSION: u8 = 0x20;

} // verus!
