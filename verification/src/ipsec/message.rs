//! IKEv2 message and payload codec (RFC 7296 §3).

use vstd::prelude::*;
use crate::digits::{be_digits, be_value};
use crate::ipsec::error::Error;
use crate::ipsec::transforms::SaPayload;
use crate::ipsec::types::{AuthMethod, CertEncoding, DhGroup, ExchangeType, IdType, PayloadType};
use crate::ipsec::types::flags::{INITIATOR, RESPONSE};

pub mod body;
pub mod chain;
pub mod sa;
pub mod sk;

pub use body::{
    decode_auth_body, decode_cert_body, decode_id_body, decode_ke_body, decode_nonce_body, decode_notify_body,
    decode_ts_body, encode_auth_body, encode_cert_body, encode_id_body, encode_ke_body, encode_nonce_body,
    encode_notify_body, encode_ts_body,
};
pub use chain::{decode_payloads_chain, encode_payload};
pub use sa::{decode_sa_body, encode_sa_body};

verus! {

/// Length of the fixed IKE header.
pub const IKE_HEADER_LEN: usize = 28;

/// Length of the generic payload header.
pub const PAYLOAD_HEADER_LEN: usize = 4;

/// The block the SK padding aligns to.
pub const BLOCK: usize = 16;

// ===========================================================================
// Big-endian fields
// ===========================================================================

/// The two big-endian octets of `v`.
pub open spec fn be16(v: u16) -> Seq<u8> {
    be_digits(v as nat, 2)
}

/// The four big-endian octets of `v`.
pub open spec fn be32(v: u32) -> Seq<u8> {
    be_digits(v as nat, 4)
}

/// The 16-bit big-endian value at `i` in `b`.
pub open spec fn u16_at(b: Seq<u8>, i: int) -> u16 {
    be_value(b.subrange(i, i + 2)) as u16
}

/// The 32-bit big-endian value at `i` in `b`.
pub open spec fn u32_at(b: Seq<u8>, i: int) -> u32 {
    be_value(b.subrange(i, i + 4)) as u32
}

pub(crate) fn put_u16(buf: &mut Vec<u8>, v: u16)
    ensures
        final(buf)@ == old(buf)@ + be16(v),
{
    buf.push((v / 256) as u8);
    buf.push((v % 256) as u8);
    proof {
        reveal_with_fuel(be_digits, 3);
        assert((v as nat / 256) % 256 == v as nat / 256);
        assert(final(buf)@ =~= old(buf)@ + be16(v));
    }
}

pub(crate) fn put_u32(buf: &mut Vec<u8>, v: u32)
    ensures
        final(buf)@ == old(buf)@ + be32(v),
{
    buf.push((v / 0x1000000) as u8);
    buf.push(((v / 0x10000) % 256) as u8);
    buf.push(((v / 256) % 256) as u8);
    buf.push((v % 256) as u8);
    proof {
        reveal_with_fuel(be_digits, 5);
        let n = v as nat;
        assert(n / 256 / 256 == n / 0x10000) by {
            vstd::arithmetic::div_mod::lemma_div_denominator(n as int, 256, 256);
        }
        assert(n / 256 / 256 / 256 == n / 0x1000000) by {
            vstd::arithmetic::div_mod::lemma_div_denominator(n as int, 0x10000, 256);
        }
        assert((n / 0x1000000) % 256 == n / 0x1000000);
        assert(final(buf)@ =~= old(buf)@ + be32(v));
    }
}

pub(crate) fn get_u16(b: &[u8], i: usize) -> (r: u16)
    requires
        i + 2 <= b@.len(),
    ensures
        r == u16_at(b@, i as int),
        r as nat == be_value(b@.subrange(i as int, i + 2)),
{
    let r = (b[i] as u16) * 256 + (b[i + 1] as u16);
    proof {
        let s = b@.subrange(i as int, i + 2);
        reveal_with_fuel(be_value, 3);
        assert(s.drop_last().drop_last() =~= Seq::<u8>::empty());
        assert(s.drop_last() =~= seq![b@[i as int]]);
    }
    r
}

pub(crate) fn get_u32(b: &[u8], i: usize) -> (r: u32)
    requires
        i + 4 <= b@.len(),
    ensures
        r == u32_at(b@, i as int),
        r as nat == be_value(b@.subrange(i as int, i + 4)),
{
    let r = (b[i] as u32) * 0x1000000 + (b[i + 1] as u32) * 0x10000 + (b[i + 2] as u32) * 256 + (b[i + 3] as u32);
    proof {
        let s = b@.subrange(i as int, i + 4);
        reveal_with_fuel(be_value, 5);
        assert(s.drop_last().drop_last().drop_last().drop_last() =~= Seq::<u8>::empty());
        assert(s.drop_last().drop_last().drop_last() =~= seq![b@[i as int]]);
        assert(s.drop_last().drop_last() =~= seq![b@[i as int], b@[i + 1]]);
        assert(s.drop_last() =~= seq![b@[i as int], b@[i + 1], b@[i + 2]]);
    }
    r
}

// ===========================================================================
// IKE header
// ===========================================================================

/// The fixed 28-byte IKE header (RFC 7296 §3.1).
#[derive(Debug, Clone, PartialEq, Eq)]
pub struct Header {
    /// The initiator's SPI.
    pub spi_i: [u8; 8],
    /// The responder's SPI.
    pub spi_r: [u8; 8],
    /// The type of the first payload.
    pub next_payload: PayloadType,
    /// Major and minor version.
    pub version: u8,
    /// The exchange type.
    pub exchange: ExchangeType,
    /// The flags octet.
    pub flags: u8,
    /// The message id.
    pub message_id: u32,
    /// The length of the whole message.
    pub length: u32,
}

/// The wire octets of a header.
pub open spec fn header_bytes(h: Header) -> Seq<u8> {
    h.spi_i@ + h.spi_r@ + seq![h.next_payload.code(), h.version, h.exchange.code(), h.flags] + be32(h.message_id)
        + be32(h.length)
}

/// `h` is the header the first 28 octets of `b` spell.
pub open spec fn header_of(b: Seq<u8>, h: Header) -> bool {
    &&& h.spi_i@ == b.subrange(0, 8)
    &&& h.spi_r@ == b.subrange(8, 16)
    &&& h.next_payload.code() == b[16]
    &&& h.version == b[17]
    &&& h.exchange.code() == b[18]
    &&& h.flags == b[19]
    &&& h.message_id == u32_at(b, 20)
    &&& h.length == u32_at(b, 24)
}

/// What decoding a header from `b` gives: a truncation error below 28
/// octets, an error for an unknown first payload or exchange type, and
/// otherwise the header the octets spell.
pub open spec fn header_decoded(b: Seq<u8>, r: Result<Header, Error>) -> bool {
    if b.len() < 28 {
        r == Err::<Header, Error>(Error::Truncated { needed: 28, have: b.len() as usize })
    } else if !PayloadType::is_code(b[16]) {
        r == Err::<Header, Error>(Error::UnsupportedPayload(b[16]))
    } else if !ExchangeType::is_code(b[18]) {
        r == Err::<Header, Error>(Error::UnsupportedExchange(b[18]))
    } else {
        r matches Ok(h) && header_of(b, h)
    }
}

fn copy8(b: &[u8], i: usize) -> (r: [u8; 8])
    requires
        i + 8 <= b@.len(),
    ensures
        r@ == b@.subrange(i as int, i + 8),
{
    let r = [b[i], b[i + 1], b[i + 2], b[i + 3], b[i + 4], b[i + 5], b[i + 6], b[i + 7]];
    assert(r@ =~= b@.subrange(i as int, i + 8));
    r
}

impl Header {
    /// The 28 wire octets of the header.
    pub fn encode(&self) -> (r: Vec<u8>)
        ensures
            r@ == header_bytes(*self),
    {
        let mut b: Vec<u8> = Vec::new();
        b.extend_from_slice(self.spi_i.as_slice());
        b.extend_from_slice(self.spi_r.as_slice());
        b.push(self.next_payload.to_u8());
        b.push(self.version);
        b.push(self.exchange.to_u8());
        b.push(self.flags);
        put_u32(&mut b, self.message_id);
        put_u32(&mut b, self.length);
        assert(b@ =~= header_bytes(*self));
        b
    }

    /// Decode the header at the start of `buf`.
    pub fn decode(buf: &[u8]) -> (r: Result<Header, Error>)
        ensures
            header_decoded(buf@, r),
    {
        if buf.len() < IKE_HEADER_LEN {
            return Err(Error::Truncated { needed: IKE_HEADER_LEN, have: buf.len() });
        }
        let spi_i = copy8(buf, 0);
        let spi_r = copy8(buf, 8);
        let next = match PayloadType::from_u8(buf[16]) {
            Some(p) => p,
            None => return Err(Error::UnsupportedPayload(buf[16])),
        };
        let version = buf[17];
        let exchange = match ExchangeType::from_u8(buf[18]) {
            Some(x) => x,
            None => return Err(Error::UnsupportedExchange(buf[18])),
        };
        let flags = buf[19];
        let message_id = get_u32(buf, 20);
        let length = get_u32(buf, 24);
        Ok(Header { spi_i, spi_r, next_payload: next, version, exchange, flags, message_id, length })
    }

    /// The INITIATOR flag is set.
    pub fn is_initiator(&self) -> (b: bool)
        ensures
            b == (self.flags & INITIATOR != 0),
    {
        self.flags & INITIATOR != 0
    }

    /// The RESPONSE flag is set.
    pub fn is_response(&self) -> (b: bool)
        ensures
            b == (self.flags & RESPONSE != 0),
    {
        self.flags & RESPONSE != 0
    }
}

// ===========================================================================
// Payload model
// ===========================================================================

/// A decoded IKEv2 payload.
#[derive(Debug, Clone)]
pub enum Payload {
    /// Security Association.
    Sa(SaPayload),
    /// Key Exchange.
    Ke(KePayload),
    /// Nonce.
    Nonce(NoncePayload),
    /// Identification of the initiator.
    Idi(IdPayload),
    /// Identification of the responder.
    Idr(IdPayload),
    /// Authentication.
    Auth(AuthPayload),
    /// Certificate.
    Cert(CertPayload),
    /// Certificate request.
    CertReq(CertPayload),
    /// Traffic selectors of the initiator.
    TSi(TsPayload),
    /// Traffic selectors of the responder.
    TSr(TsPayload),
    /// Notify.
    Notify(NotifyPayload),
    /// Encrypted and authenticated.
    Sk(EncryptedPayload),
    /// Any other payload, kept undecoded.
    Raw(RawPayload),
}

/// The payload type a payload is sent as.
pub open spec fn ptype_of(p: Payload) -> PayloadType {
    match p {
        Payload::Sa(_) => PayloadType::Sa,
        Payload::Ke(_) => PayloadType::Ke,
        Payload::Nonce(_) => PayloadType::Nonce,
        Payload::Idi(_) => PayloadType::Idi,
        Payload::Idr(_) => PayloadType::Idr,
        Payload::Auth(_) => PayloadType::Auth,
        Payload::Cert(_) => PayloadType::Cert,
        Payload::CertReq(_) => PayloadType::CertReq,
        Payload::TSi(_) => PayloadType::TSi,
        Payload::TSr(_) => PayloadType::TSr,
        Payload::Notify(_) => PayloadType::Notify,
        Payload::Sk(_) => PayloadType::Sk,
        Payload::Raw(r) => r.ptype,
    }
}

impl Payload {
    /// The payload type this payload is sent as.
    pub fn ptype(&self) -> (t: PayloadType)
        ensures
            t == ptype_of(*self),
    {
        match self {
            Payload::Sa(_) => PayloadType::Sa,
            Payload::Ke(_) => PayloadType::Ke,
            Payload::Nonce(_) => PayloadType::Nonce,
            Payload::Idi(_) => PayloadType::Idi,
            Payload::Idr(_) => PayloadType::Idr,
            Payload::Auth(_) => PayloadType::Auth,
            Payload::Cert(_) => PayloadType::Cert,
            Payload::CertReq(_) => PayloadType::CertReq,
            Payload::TSi(_) => PayloadType::TSi,
            Payload::TSr(_) => PayloadType::TSr,
            Payload::Notify(_) => PayloadType::Notify,
            Payload::Sk(_) => PayloadType::Sk,
            Payload::Raw(r) => r.ptype,
        }
    }
}

/// A generic, undecoded payload (V, D, CP, EAP, ...).
#[derive(Debug, Clone)]
pub struct RawPayload {
    /// Its payload type.
    pub ptype: PayloadType,
    /// The critical bit.
    pub critical: bool,
    /// Its body.
    pub data: Vec<u8>,
}

/// Diffie-Hellman key exchange payload (RFC 7296 §3.4).
#[derive(Debug, Clone)]
pub struct KePayload {
    /// The group.
    pub group: DhGroup,
    /// The public value.
    pub public_key: Vec<u8>,
}

/// Nonce payload (RFC 7296 §3.9).
#[derive(Debug, Clone)]
pub struct NoncePayload {
    /// The nonce.
    pub nonce: Vec<u8>,
}

/// Identification payload (RFC 7296 §3.5).
#[derive(Debug, Clone)]
pub struct IdPayload {
    /// The identification type.
    pub id_type: IdType,
    /// The identification data.
    pub data: Vec<u8>,
}

/// Authentication payload (RFC 7296 §3.8).
#[derive(Debug, Clone)]
pub struct AuthPayload {
    /// The authentication method.
    pub method: AuthMethod,
    /// The authentication data.
    pub data: Vec<u8>,
}

/// Certificate / Certificate Request payload (RFC 7296 §3.6).
#[derive(Debug, Clone)]
pub struct CertPayload {
    /// The certificate encoding.
    pub encoding: CertEncoding,
    /// The certificate data.
    pub data: Vec<u8>,
}

/// Traffic selector payload (RFC 7296 §3.13).
#[derive(Debug, Clone)]
pub struct TsPayload {
    /// The selectors.
    pub selectors: Vec<TrafficSelector>,
}

/// One traffic selector.
#[derive(Debug, Clone)]
pub struct TrafficSelector {
    /// The selector type.
    pub ts_type: u8,
    /// The IP protocol.
    pub iproto: u8,
    /// The first port.
    pub start_port: u16,
    /// The last port.
    pub end_port: u16,
    /// The first address.
    pub start_addr: Vec<u8>,
    /// The last address.
    pub end_addr: Vec<u8>,
}

/// The value of a traffic selector.
pub struct SelectorModel {
    /// The selector type.
    pub ts_type: u8,
    /// The IP protocol.
    pub iproto: u8,
    /// The first port.
    pub start_port: u16,
    /// The last port.
    pub end_port: u16,
    /// The first address.
    pub start_addr: Seq<u8>,
    /// The last address.
    pub end_addr: Seq<u8>,
}

impl View for TrafficSelector {
    type V = SelectorModel;

    open spec fn view(&self) -> SelectorModel {
        SelectorModel {
            ts_type: self.ts_type,
            iproto: self.iproto,
            start_port: self.start_port,
            end_port: self.end_port,
            start_addr: self.start_addr@,
            end_addr: self.end_addr@,
        }
    }
}

/// Notify payload (RFC 7296 §3.10).
#[derive(Debug, Clone)]
pub struct NotifyPayload {
    /// The protocol id.
    pub protocol: u8,
    /// The SPI.
    pub spi: Vec<u8>,
    /// The notify message type.
    pub notify_type: u16,
    /// The notification data.
    pub data: Vec<u8>,
}

/// Encrypted (SK) payload envelope (RFC 7296 §3.14).
#[derive(Debug, Clone)]
pub struct EncryptedPayload {
    /// The type of the first inner payload.
    pub next_payload: PayloadType,
    /// The critical bit.
    pub critical: bool,
    /// The initialization vector.
    pub iv: Vec<u8>,
    /// Encrypted inner payloads (CBC: ciphertext; AEAD: ciphertext only).
    pub ciphertext: Vec<u8>,
    /// Integrity checksum (CBC) or AEAD tag.
    pub icv: Vec<u8>,
}

/// A full IKEv2 message: header + payloads.
#[derive(Debug, Clone)]
pub struct Message {
    /// The header.
    pub header: Header,
    /// The payloads, in order.
    pub payloads: Vec<Payload>,
}

/// A 32-bit value read back from its four big-endian octets.
pub proof fn lemma_be32_round_trip(v: u32)
    ensures
        u32_at(be32(v), 0) == v,
{
    let s = be32(v);
    crate::digits::lemma_be_digits_len(v as nat, 4);
    assert(s.subrange(0, 4) =~= s);
    assert(v < crate::digits::pw(256, 4)) by {
        reveal_with_fuel(crate::digits::pw, 5);
    }
    crate::digits::lemma_be_value_digits(v as nat, 4);
}

/// Decoding an encoded header gives the header back.
pub proof fn lemma_header_round_trip(h: Header)
    ensures
        header_decoded(header_bytes(h), Ok::<Header, Error>(h)),
{
    let b = header_bytes(h);
    lemma_be32_round_trip(h.message_id);
    lemma_be32_round_trip(h.length);
    crate::digits::lemma_be_digits_len(h.message_id as nat, 4);
    crate::digits::lemma_be_digits_len(h.length as nat, 4);
    assert(b.subrange(0, 8) =~= h.spi_i@);
    assert(b.subrange(8, 16) =~= h.spi_r@);
    assert(b.subrange(20, 24) =~= be32(h.message_id).subrange(0, 4));
    assert(b.subrange(24, 28) =~= be32(h.length).subrange(0, 4));
    assert(PayloadType::is_code(h.next_payload.code()));
    assert(ExchangeType::is_code(h.exchange.code()));
}

} // verus!
