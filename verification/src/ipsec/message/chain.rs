//! Payloads with their generic header, chains of payloads, and whole
//! messages.

use vstd::prelude::*;
use crate::ipsec::error::Error;
use crate::ipsec::message::{
    be16, be32, get_u16, header_bytes, header_decoded, put_u16, u16_at, u32_at, EncryptedPayload, Header, Message,
    NoncePayload, Payload, RawPayload, ptype_of,
};
use crate::ipsec::message::body::{
    auth_error, auth_of, cert_error, cert_of, id_error, id_of, ke_bytes, ke_error, ke_of,
    notify_error, notify_bytes, notify_of, selector_models, ts_bytes, ts_decoded, typed_bytes,
    decode_auth_body, decode_cert_body, decode_id_body, decode_ke_body, decode_nonce_body, decode_notify_body,
    decode_ts_body, encode_auth_body, encode_cert_body, encode_id_body, encode_ke_body, encode_nonce_body,
    encode_notify_body, encode_ts_body, range_of,
};
use crate::ipsec::message::sa::{
    decode_sa_body, encode_sa_body, proposal_models, proposals_bytes, proposals_from, sa_encodable,
};
use crate::ipsec::types::PayloadType;

verus! {

// --- encoding --------------------------------------------------------------------

/// The generic payload header: the next payload type, the critical bit, and
/// the payload's length including this header (its low sixteen bits).
pub open spec fn payload_header_bytes(next: PayloadType, critical: bool, len: nat) -> Seq<u8> {
    seq![next.code(), if critical { 0x80u8 } else { 0u8 }] + be16((len % 65536) as u16)
}

pub(crate) fn push_payload_header(out: &mut Vec<u8>, next: PayloadType, critical: bool, len: usize)
    ensures
        final(out)@ == old(out)@ + payload_header_bytes(next, critical, len as nat),
{
    out.push(next.to_u8());
    out.push(if critical { 0x80 } else { 0 });
    put_u16(out, (len % 65536) as u16);
    assert(final(out)@ =~= old(out)@ + payload_header_bytes(next, critical, len as nat));
}

/// The body of a payload as this codec writes it (an SK payload's is its IV,
/// ciphertext and ICV, as `EncryptedPayload::to_wire` gives them).
pub open spec fn payload_body_bytes(p: Payload) -> Seq<u8> {
    match p {
        Payload::Sa(s) => proposals_bytes(s.proposals@),
        Payload::Ke(k) => ke_bytes(k.group, k.public_key@),
        Payload::Nonce(n) => n.nonce@,
        Payload::Idi(i) => typed_bytes(i.id_type.code(), i.data@),
        Payload::Idr(i) => typed_bytes(i.id_type.code(), i.data@),
        Payload::Auth(a) => typed_bytes(a.method.code(), a.data@),
        Payload::Cert(c) => typed_bytes(c.encoding.code(), c.data@),
        Payload::CertReq(c) => typed_bytes(c.encoding.code(), c.data@),
        Payload::TSi(t) => ts_bytes(selector_models(t.selectors@)),
        Payload::TSr(t) => ts_bytes(selector_models(t.selectors@)),
        Payload::Notify(n) => notify_bytes(n.protocol, n.spi@, n.notify_type, n.data@),
        Payload::Sk(e) => e.iv@ + e.ciphertext@ + e.icv@,
        Payload::Raw(r) => r.data@,
    }
}

/// The next-payload field a payload's header carries when a payload of type
/// `next` follows it: an SK payload names the first payload inside it.
pub open spec fn header_next(p: Payload, next: PayloadType) -> PayloadType {
    match p {
        Payload::Sk(e) => e.next_payload,
        _ => next,
    }
}

/// The critical bit a payload's header carries (only an SK payload keeps one).
pub open spec fn header_critical(p: Payload) -> bool {
    match p {
        Payload::Sk(e) => e.critical,
        _ => false,
    }
}

/// A payload the encoder can write: an SA payload's key lengths fit.
pub open spec fn payload_encodable(p: Payload) -> bool {
    p matches Payload::Sa(s) ==> sa_encodable(s)
}

/// The wire octets of a payload followed by one of type `next`.
pub open spec fn payload_bytes(p: Payload, next: PayloadType) -> Seq<u8> {
    payload_header_bytes(header_next(p, next), header_critical(p), payload_body_bytes(p).len() + 4)
        + payload_body_bytes(p)
}

fn payload_body(p: &Payload) -> (r: Vec<u8>)
    requires
        payload_encodable(*p),
    ensures
        r@ == payload_body_bytes(*p),
{
    match p {
        Payload::Sa(s) => encode_sa_body(s),
        Payload::Ke(k) => encode_ke_body(k),
        Payload::Nonce(n) => encode_nonce_body(n),
        Payload::Idi(i) => encode_id_body(i),
        Payload::Idr(i) => encode_id_body(i),
        Payload::Auth(a) => encode_auth_body(a),
        Payload::Cert(c) => encode_cert_body(c),
        Payload::CertReq(c) => encode_cert_body(c),
        Payload::TSi(t) => encode_ts_body(t),
        Payload::TSr(t) => encode_ts_body(t),
        Payload::Notify(n) => encode_notify_body(n),
        Payload::Sk(e) => {
            let mut v = vstd::slice::slice_to_vec(e.iv.as_slice());
            v.extend_from_slice(e.ciphertext.as_slice());
            v.extend_from_slice(e.icv.as_slice());
            v
        },
        Payload::Raw(r) => vstd::slice::slice_to_vec(r.data.as_slice()),
    }
}

/// Encode a single payload (with its 4-byte generic header, whose length
/// counts that header) into `out`.
pub fn encode_payload(out: &mut Vec<u8>, p: &Payload, next: PayloadType)
    requires
        payload_encodable(*p),
    ensures
        final(out)@ == old(out)@ + payload_bytes(*p, next),
{
    let body = payload_body(p);
    let len = body.len() % 65536 + 4;
    proof {
        vstd::arithmetic::div_mod::lemma_add_mod_noop(body@.len() as int, 4, 65536);
        vstd::arithmetic::div_mod::lemma_mod_twice(body@.len() as int, 65536);
        vstd::arithmetic::div_mod::lemma_add_mod_noop((body@.len() % 65536) as int, 4, 65536);
        assert(len as nat % 65536 == (body@.len() + 4) % 65536);
    }
    let (hn, hc) = match p {
        Payload::Sk(e) => (e.next_payload, e.critical),
        _ => (next, false),
    };
    push_payload_header(out, hn, hc, len);
    out.extend_from_slice(body.as_slice());
    assert(final(out)@ =~= old(out)@ + payload_bytes(*p, next)) by {
        assert(payload_header_bytes(hn, hc, len as nat) == payload_header_bytes(hn, hc, body@.len() + 4));
    }
}

/// The type of the payload after the `i`-th of `ps`.
pub open spec fn next_type(ps: Seq<Payload>, i: int) -> PayloadType {
    if i + 1 < ps.len() {
        ptype_of(ps[i + 1])
    } else {
        PayloadType::NoNext
    }
}

/// The wire octets of the first `k` payloads of a chain, each header naming
/// the type of the payload after it.
pub open spec fn chain_bytes(ps: Seq<Payload>, k: nat) -> Seq<u8>
    decreases k,
{
    if k == 0 {
        Seq::empty()
    } else {
        chain_bytes(ps, (k - 1) as nat) + payload_bytes(ps[k - 1], next_type(ps, k - 1))
    }
}

/// Every payload of the list can be encoded.
pub open spec fn all_encodable(ps: Seq<Payload>) -> bool {
    forall|i: int| 0 <= i < ps.len() ==> payload_encodable(#[trigger] ps[i])
}

/// Encode a chain of payloads.
pub(crate) fn encode_chain(ps: &[Payload]) -> (r: Vec<u8>)
    requires
        all_encodable(ps@),
    ensures
        r@ == chain_bytes(ps@, ps@.len()),
{
    let mut out: Vec<u8> = Vec::new();
    let n = ps.len();
    let mut i: usize = 0;
    while i < n
        invariant
            i <= n == ps@.len(),
            all_encodable(ps@),
            out@ == chain_bytes(ps@, i as nat),
        decreases n - i,
    {
        let next = if i + 1 < n { ps[i + 1].ptype() } else { PayloadType::NoNext };
        assert(payload_encodable(ps@[i as int]));
        encode_payload(&mut out, &ps[i], next);
        i = i + 1;
    }
    out
}

// --- decoding --------------------------------------------------------------------

/// The payload type a code names.
pub open spec fn payload_type_of(v: u8) -> PayloadType {
    choose|t: PayloadType| t.code() == v
}

proof fn lemma_payload_type_of(t: PayloadType)
    ensures
        payload_type_of(t.code()) == t,
{
    let u = payload_type_of(t.code());
    assert(u.code() == t.code());
}

/// The error decoding the body of a payload of type `t` gives, if any.
pub open spec fn body_error(t: PayloadType, b: Seq<u8>) -> Option<Error> {
    match t {
        PayloadType::Sa => match proposals_from(b, 0) {
            Err(e) => Some(e),
            Ok(_) => None,
        },
        PayloadType::Ke => ke_error(b),
        PayloadType::Idi => id_error(b),
        PayloadType::Idr => id_error(b),
        PayloadType::Auth => auth_error(b),
        PayloadType::Cert => cert_error(b),
        PayloadType::CertReq => cert_error(b),
        PayloadType::TSi => match ts_decoded(b) {
            Err(e) => Some(e),
            Ok(_) => None,
        },
        PayloadType::TSr => match ts_decoded(b) {
            Err(e) => Some(e),
            Ok(_) => None,
        },
        PayloadType::Notify => notify_error(b),
        _ => None,
    }
}

/// `p` is the payload of type `t` whose body is `b`, with header fields
/// `next` and `critical`.
pub open spec fn payload_of(t: PayloadType, next: PayloadType, critical: bool, b: Seq<u8>, p: Payload) -> bool {
    match t {
        PayloadType::Sa => p matches Payload::Sa(s) && proposals_from(b, 0) == Ok::<_, Error>(proposal_models(s.proposals@)),
        PayloadType::Ke => p matches Payload::Ke(k) && ke_of(b, k),
        PayloadType::Nonce => p matches Payload::Nonce(n) && n.nonce@ == b,
        PayloadType::Idi => p matches Payload::Idi(i) && id_of(b, i),
        PayloadType::Idr => p matches Payload::Idr(i) && id_of(b, i),
        PayloadType::Auth => p matches Payload::Auth(a) && auth_of(b, a),
        PayloadType::Cert => p matches Payload::Cert(c) && cert_of(b, c),
        PayloadType::CertReq => p matches Payload::CertReq(c) && cert_of(b, c),
        PayloadType::TSi => p matches Payload::TSi(ts) && ts_decoded(b) == Ok::<_, Error>(selector_models(ts.selectors@)),
        PayloadType::TSr => p matches Payload::TSr(ts) && ts_decoded(b) == Ok::<_, Error>(selector_models(ts.selectors@)),
        PayloadType::Notify => p matches Payload::Notify(n) && notify_of(b, n),
        PayloadType::Sk => p matches Payload::Sk(e) && e.next_payload == next && e.critical == critical && e.iv@.len()
            == 0 && e.ciphertext@ == b && e.icv@.len() == 0,
        _ => p matches Payload::Raw(r) && r.ptype == t && r.critical == critical && r.data@ == b,
    }
}

/// The length field of the payload at the start of `s`.
pub open spec fn len_field(s: Seq<u8>) -> int {
    u16_at(s, 2) as int
}

/// The body of the payload at the start of `s`.
pub open spec fn body_of(s: Seq<u8>) -> Seq<u8> {
    s.subrange(4, len_field(s))
}

/// The error reading the generic header of the payload at the start of `s`
/// gives, if any.
pub open spec fn header_error(s: Seq<u8>) -> Option<Error> {
    if s.len() < 4 {
        Some(Error::Truncated { needed: 4, have: s.len() as usize })
    } else if !PayloadType::is_code(s[0]) {
        Some(Error::UnsupportedPayload(s[0]))
    } else if len_field(s) < 4 {
        Some(Error::BadPayloadLength(len_field(s) as usize))
    } else if s.len() < len_field(s) {
        Some(Error::Truncated { needed: len_field(s) as usize, have: s.len() as usize })
    } else {
        None
    }
}

/// The error decoding the payload of type `t` at the start of `s` gives, if
/// any.
pub open spec fn one_error(s: Seq<u8>, t: PayloadType) -> Option<Error> {
    match header_error(s) {
        Some(e) => Some(e),
        None => body_error(t, body_of(s)),
    }
}

/// Decode the payload of type `ptype` at the start of `slice`, returning it
/// and the type of the next one.
fn decode_one(slice: &[u8], ptype: PayloadType) -> (r: Result<(Payload, PayloadType), Error>)
    ensures
        match one_error(slice@, ptype) {
            Some(e) => r == Err::<(Payload, PayloadType), Error>(e),
            None => r matches Ok((p, next)) && next == payload_type_of(slice@[0]) && payload_of(
                ptype,
                next,
                slice@[1] & 0x80 != 0,
                body_of(slice@),
                p,
            ),
        },
{
    if slice.len() < 4 {
        return Err(Error::Truncated { needed: 4, have: slice.len() });
    }
    let next = match PayloadType::from_u8(slice[0]) {
        Some(t) => t,
        None => return Err(Error::UnsupportedPayload(slice[0])),
    };
    proof {
        lemma_payload_type_of(next);
    }
    let critical = slice[1] & 0x80 != 0;
    let len = get_u16(slice, 2) as usize;
    if len < 4 {
        return Err(Error::BadPayloadLength(len));
    }
    if slice.len() < len {
        return Err(Error::Truncated { needed: len, have: slice.len() });
    }
    let body = &slice[4..len];
    assert(body@ == body_of(slice@));
    let payload = match ptype {
        PayloadType::Sa => match decode_sa_body(body) {
            Ok(s) => Payload::Sa(s),
            Err(e) => return Err(e),
        },
        PayloadType::Ke => match decode_ke_body(body) {
            Ok(k) => Payload::Ke(k),
            Err(e) => return Err(e),
        },
        PayloadType::Nonce => Payload::Nonce(decode_nonce_body(body)),
        PayloadType::Idi => match decode_id_body(body) {
            Ok(i) => Payload::Idi(i),
            Err(e) => return Err(e),
        },
        PayloadType::Idr => match decode_id_body(body) {
            Ok(i) => Payload::Idr(i),
            Err(e) => return Err(e),
        },
        PayloadType::Auth => match decode_auth_body(body) {
            Ok(a) => Payload::Auth(a),
            Err(e) => return Err(e),
        },
        PayloadType::Cert => match decode_cert_body(body) {
            Ok(c) => Payload::Cert(c),
            Err(e) => return Err(e),
        },
        PayloadType::CertReq => match decode_cert_body(body) {
            Ok(c) => Payload::CertReq(c),
            Err(e) => return Err(e),
        },
        PayloadType::TSi => match decode_ts_body(body) {
            Ok(t) => Payload::TSi(t),
            Err(e) => return Err(e),
        },
        PayloadType::TSr => match decode_ts_body(body) {
            Ok(t) => Payload::TSr(t),
            Err(e) => return Err(e),
        },
        PayloadType::Notify => match decode_notify_body(body) {
            Ok(n) => Payload::Notify(n),
            Err(e) => return Err(e),
        },
        PayloadType::Sk => Payload::Sk(
            EncryptedPayload {
                next_payload: next,
                critical,
                iv: Vec::new(),
                ciphertext: vstd::slice::slice_to_vec(body),
                icv: Vec::new(),
            },
        ),
        other => Payload::Raw(RawPayload { ptype: other, critical, data: vstd::slice::slice_to_vec(body) }),
    };
    Ok((payload, next))
}

/// The error decoding the chain of payloads of `b` from `off` on, the first
/// of type `cur`, gives, if any. The chain ends at a "no next payload" type
/// or at the end of `b`.
pub open spec fn chain_error(b: Seq<u8>, off: int, cur: PayloadType) -> Option<Error>
    decreases b.len() - off,
{
    if cur == PayloadType::NoNext || off < 0 || off >= b.len() {
        None
    } else {
        let s = b.subrange(off, b.len() as int);
        match one_error(s, cur) {
            Some(e) => Some(e),
            None => {
                if len_field(s) < 4 {
                    None
                } else {
                    chain_error(b, off + len_field(s), payload_type_of(s[0]))
                }
            },
        }
    }
}

/// `ps` are the payloads of the chain of `b` from `off` on.
pub open spec fn chain_payloads(b: Seq<u8>, off: int, cur: PayloadType, ps: Seq<Payload>) -> bool
    decreases b.len() - off,
{
    if cur == PayloadType::NoNext || off < 0 || off >= b.len() {
        ps.len() == 0
    } else {
        let s = b.subrange(off, b.len() as int);
        let next = payload_type_of(s[0]);
        &&& ps.len() >= 1
        &&& payload_of(cur, next, s[1] & 0x80 != 0, body_of(s), ps[0])
        &&& (4 <= len_field(s) <= s.len() ==> chain_payloads(b, off + len_field(s), next, ps.drop_first()))
    }
}

/// Decode the chain of payloads of `buf` from `off` up to `end`.
fn decode_chain_from(buf: &[u8], end: usize, start_off: usize, start: PayloadType) -> (r: Result<Vec<Payload>, Error>)
    requires
        end <= buf@.len(),
    ensures
        match chain_error(buf@.subrange(0, end as int), start_off as int, start) {
            Some(e) => r == Err::<Vec<Payload>, Error>(e),
            None => r matches Ok(ps) && chain_payloads(buf@.subrange(0, end as int), start_off as int, start, ps@),
        },
{
    let ghost b = buf@.subrange(0, end as int);
    let mut out: Vec<Payload> = Vec::new();
    let mut off = start_off;
    let mut cur = start;
    while cur != PayloadType::NoNext && off < end
        invariant
            end <= buf@.len(),
            b == buf@.subrange(0, end as int),
            chain_error(b, start_off as int, start) == chain_error(b, off as int, cur),
            forall|rest: Seq<Payload>|
                chain_payloads(b, off as int, cur, rest) ==> #[trigger] chain_payloads(
                    b,
                    start_off as int,
                    start,
                    out@ + rest,
                ),
        decreases end - off,
    {
        let ghost s = b.subrange(off as int, b.len() as int);
        let slice = &buf[off..end];
        assert(slice@ == s);
        let (p, next) = match decode_one(slice, cur) {
            Ok(x) => x,
            Err(e) => return Err(e),
        };
        let len = get_u16(slice, 2) as usize;
        let ghost before = out@;
        out.push(p);
        proof {
            assert forall|rest: Seq<Payload>|
                chain_payloads(b, (off + len) as int, next, rest) implies #[trigger] chain_payloads(
                b,
                start_off as int,
                start,
                out@ + rest,
            ) by {
                let whole = seq![p] + rest;
                assert(whole.drop_first() =~= rest);
                assert(whole[0] == p);
                assert(chain_payloads(b, off as int, cur, whole));
                assert(before + whole =~= out@ + rest);
            }
        }
        off = off + len;
        cur = next;
    }
    proof {
        assert(chain_payloads(b, off as int, cur, Seq::<Payload>::empty()));
        assert(chain_payloads(b, start_off as int, start, out@ + Seq::<Payload>::empty()));
        assert(out@ + Seq::<Payload>::empty() =~= out@);
    }
    Ok(out)
}

/// Decode a chain of payloads starting at `start` type from `buf`.
pub fn decode_payloads_chain(buf: &[u8], start: PayloadType) -> (r: Result<Vec<Payload>, Error>)
    ensures
        match chain_error(buf@, 0, start) {
            Some(e) => r == Err::<Vec<Payload>, Error>(e),
            None => r matches Ok(ps) && chain_payloads(buf@, 0, start, ps@),
        },
{
    assert(buf@.subrange(0, buf@.len() as int) =~= buf@);
    decode_chain_from(buf, buf.len(), 0, start)
}

// --- messages --------------------------------------------------------------------

/// The wire octets of a message: its header, with the type of the first
/// payload and the total length (low 32 bits), then the payload chain.
pub open spec fn message_bytes(h: Header, ps: Seq<Payload>) -> Seq<u8> {
    let body = chain_bytes(ps, ps.len());
    let first = if ps.len() > 0 {
        ptype_of(ps[0])
    } else {
        PayloadType::NoNext
    };
    header_bytes(Header { next_payload: first, length: ((28 + body.len()) % 0x1_0000_0000) as u32, ..h }) + body
}

/// What decoding a message from `b` gives: the header's error, a truncation
/// error when fewer octets than its length are there, the chain's error, or
/// the header and the payloads of the chain within its length.
pub open spec fn message_decoded(b: Seq<u8>, r: Result<Message, Error>) -> bool {
    if b.len() < 28 || !PayloadType::is_code(b[16]) || !crate::ipsec::types::ExchangeType::is_code(b[18]) {
        r matches Err(e) && header_decoded(b, Err::<Header, Error>(e))
    } else {
        let total = crate::ipsec::message::u32_at(b, 24) as int;
        if b.len() < total {
            r == Err::<Message, Error>(Error::Truncated { needed: total as usize, have: b.len() as usize })
        } else {
            let inner = b.subrange(0, total);
            match chain_error(inner, 28, payload_type_of(b[16])) {
                Some(e) => r == Err::<Message, Error>(e),
                None => r matches Ok(m) && header_decoded(b, Ok::<Header, Error>(m.header)) && chain_payloads(
                    inner,
                    28,
                    payload_type_of(b[16]),
                    m.payloads@,
                ),
            }
        }
    }
}

impl Message {
    /// Encode the message to wire bytes.
    pub fn encode(&self) -> (r: Vec<u8>)
        requires
            all_encodable(self.payloads@),
        ensures
            r@ == message_bytes(self.header, self.payloads@),
    {
        let body = encode_chain(self.payloads.as_slice());
        let n = self.payloads.len();
        let first = if n > 0 { self.payloads[0].ptype() } else { PayloadType::NoNext };
        let length = ((28 + (body.len() as u64 % 0x1_0000_0000)) % 0x1_0000_0000) as u32;
        proof {
            vstd::arithmetic::div_mod::lemma_add_mod_noop(28, body@.len() as int, 0x1_0000_0000);
            vstd::arithmetic::div_mod::lemma_mod_twice(body@.len() as int, 0x1_0000_0000);
            vstd::arithmetic::div_mod::lemma_add_mod_noop(28, (body@.len() % 0x1_0000_0000) as int, 0x1_0000_0000);
        }
        let header = Header {
            spi_i: self.header.spi_i,
            spi_r: self.header.spi_r,
            next_payload: first,
            version: self.header.version,
            exchange: self.header.exchange,
            flags: self.header.flags,
            message_id: self.header.message_id,
            length,
        };
        let mut out = header.encode();
        out.extend_from_slice(body.as_slice());
        out
    }

    /// Decode a message. An SK payload is left encrypted, its whole body (IV,
    /// ciphertext and ICV, whose lengths depend on the negotiated algorithms)
    /// held as its `ciphertext`.
    pub fn decode(buf: &[u8]) -> (r: Result<Message, Error>)
        ensures
            message_decoded(buf@, r),
    {
        let header = match Header::decode(buf) {
            Ok(h) => h,
            Err(e) => return Err(e),
        };
        let total = header.length as usize;
        if buf.len() < total {
            return Err(Error::Truncated { needed: total, have: buf.len() });
        }
        proof {
            lemma_payload_type_of(header.next_payload);
        }
        let payloads = match decode_chain_from(buf, total, 28, header.next_payload) {
            Ok(ps) => ps,
            Err(e) => return Err(e),
        };
        Ok(Message { header, payloads })
    }
}

// --- round trip ------------------------------------------------------------------

/// A chain the codec frames payload by payload: each payload's length fits
/// its 16-bit field, none is sent as "no next payload", and each header but
/// the last names the type of the payload after it (so an SK payload, whose
/// header names the first payload inside it, comes last).
pub open spec fn chain_framed(ps: Seq<Payload>) -> bool {
    forall|i: int|
        0 <= i < ps.len() ==> {
            &&& payload_body_bytes(#[trigger] ps[i]).len() + 4 < 65536
            &&& ptype_of(ps[i]) != PayloadType::NoNext
            &&& (i + 1 < ps.len() ==> header_next(ps[i], next_type(ps, i)) == next_type(ps, i))
        }
}

/// The first error decoding the bodies of `ps` from the `i`-th on gives.
pub open spec fn chain_body_error(ps: Seq<Payload>, i: int) -> Option<Error>
    decreases ps.len() - i,
{
    if i < 0 || i >= ps.len() {
        None
    } else {
        match body_error(ptype_of(ps[i]), payload_body_bytes(ps[i])) {
            Some(e) => Some(e),
            None => chain_body_error(ps, i + 1),
        }
    }
}

/// `qs` are what the payloads of `ps` from the `i`-th on read back as: one
/// each, read from its own body with its own header's fields.
pub open spec fn payloads_read_back(ps: Seq<Payload>, i: int, qs: Seq<Payload>) -> bool {
    &&& qs.len() == ps.len() - i
    &&& forall|j: int|
        i <= j < ps.len() ==> payload_of(
            ptype_of(ps[j]),
            header_next(ps[j], next_type(ps, j)),
            header_critical(ps[j]),
            payload_body_bytes(ps[j]),
            #[trigger] qs[j - i],
        )
}

proof fn lemma_chain_bytes_prefix(ps: Seq<Payload>, m: nat, n: nat)
    requires
        m <= n,
    ensures
        chain_bytes(ps, m).len() <= chain_bytes(ps, n).len(),
        chain_bytes(ps, n).subrange(0, chain_bytes(ps, m).len() as int) == chain_bytes(ps, m),
    decreases n,
{
    if m == n {
        assert(chain_bytes(ps, n).subrange(0, chain_bytes(ps, n).len() as int) =~= chain_bytes(ps, n));
    } else {
        lemma_chain_bytes_prefix(ps, m, (n - 1) as nat);
        let a = chain_bytes(ps, (n - 1) as nat);
        let l = chain_bytes(ps, m).len() as int;
        assert((a + payload_bytes(ps[n - 1], next_type(ps, n - 1))).subrange(0, l) =~= a.subrange(0, l));
    }
}

/// The header octets of the `i`-th payload, and where its body ends.
#[verifier::spinoff_prover]
proof fn lemma_payload_at(ps: Seq<Payload>, i: nat)
    requires
        chain_framed(ps),
        i < ps.len(),
    ensures
        ({
            let b = chain_bytes(ps, ps.len());
            let off = chain_bytes(ps, i).len() as int;
            let s = b.subrange(off, b.len() as int);
            let p = ps[i as int];
            &&& chain_bytes(ps, i + 1).len() == off + payload_body_bytes(p).len() + 4
            &&& off + payload_body_bytes(p).len() + 4 <= b.len()
            &&& header_error(s) is None
            &&& len_field(s) == payload_body_bytes(p).len() + 4
            &&& body_of(s) == payload_body_bytes(p)
            &&& payload_type_of(s[0]) == header_next(p, next_type(ps, i as int))
            &&& (s[1] & 0x80 != 0) == header_critical(p)
        }),
{
    let n = ps.len();
    let b = chain_bytes(ps, n);
    let off = chain_bytes(ps, i).len() as int;
    let p = ps[i as int];
    let nx = next_type(ps, i as int);
    let body = payload_body_bytes(p);
    let blen = body.len() + 4;
    assert(body.len() + 4 < 65536);
    let piece = payload_bytes(p, nx);
    let hdr = payload_header_bytes(header_next(p, nx), header_critical(p), blen);
    crate::digits::lemma_be_digits_len((blen % 65536) as nat, 2);
    assert(piece == hdr + body);
    assert(piece.len() == blen);
    lemma_chain_bytes_prefix(ps, i + 1, n);
    let a1 = chain_bytes(ps, i + 1);
    assert(a1 == chain_bytes(ps, i) + piece);
    let s = b.subrange(off, b.len() as int);
    assert(s.subrange(0, blen as int) =~= piece) by {
        assert forall|k: int| 0 <= k < blen implies #[trigger] s.subrange(0, blen as int)[k] == piece[k] by {
            assert(b.subrange(0, a1.len() as int)[off + k] == a1[off + k]);
        }
    }
    assert(s[0] == piece[0]);
    assert(s[1] == piece[1]);
    lemma_payload_type_of(header_next(p, nx));
    assert(s.subrange(2, 4) =~= piece.subrange(2, 4));
    assert(piece.subrange(2, 4) =~= be16((blen % 65536) as u16));
    assert(u16_at(s, 2) == (blen % 65536) as u16) by {
        assert(((blen % 65536) as u16) < crate::digits::pw(256, 2)) by {
            reveal_with_fuel(crate::digits::pw, 3);
        }
        crate::digits::lemma_be_value_digits((blen % 65536) as u16 as nat, 2);
    }
    assert(body_of(s) =~= body) by {
        assert forall|k: int| 0 <= k < body.len() implies #[trigger] body_of(s)[k] == body[k] by {
            assert(s.subrange(0, blen as int)[4 + k] == piece[4 + k]);
        }
    }
    assert((0x80u8 & 0x80u8) != 0 && (0u8 & 0x80u8) == 0) by (bit_vector);
}

/// From the `i`-th payload on, decoding the encoding of a framed chain meets
/// the first error of the payloads' bodies, or reads each payload back from
/// its own body.
#[verifier::spinoff_prover]
#[verifier::rlimit(60)]
proof fn lemma_chain_read(ps: Seq<Payload>, i: nat)
    requires
        chain_framed(ps),
        i < ps.len(),
    ensures
        chain_error(chain_bytes(ps, ps.len()), chain_bytes(ps, i).len() as int, ptype_of(ps[i as int]))
            == chain_body_error(ps, i as int),
        forall|qs: Seq<Payload>|
            #[trigger] chain_payloads(chain_bytes(ps, ps.len()), chain_bytes(ps, i).len() as int, ptype_of(ps[i as int]), qs)
                ==> payloads_read_back(ps, i as int, qs),
    decreases ps.len() - i,
{
    let n = ps.len();
    let b = chain_bytes(ps, n);
    let off = chain_bytes(ps, i).len() as int;
    let p = ps[i as int];
    lemma_payload_at(ps, i);
    let s = b.subrange(off, b.len() as int);
    let nxt = payload_type_of(s[0]);
    let off2 = chain_bytes(ps, i + 1).len() as int;
    assert(ptype_of(p) != PayloadType::NoNext);
    assert(one_error(s, ptype_of(p)) == body_error(ptype_of(p), payload_body_bytes(p)));
    assert(off + len_field(s) == off2);
    if i + 1 < n {
        lemma_chain_read(ps, i + 1);
        assert(nxt == ptype_of(ps[(i + 1) as int]));
        assert(chain_error(b, off2, nxt) == chain_body_error(ps, (i + 1) as int));
        assert forall|qs: Seq<Payload>|
            #[trigger] chain_payloads(b, off, ptype_of(p), qs) implies payloads_read_back(ps, i as int, qs) by {
            assert(chain_payloads(b, off2, nxt, qs.drop_first()));
            assert(payloads_read_back(ps, (i + 1) as int, qs.drop_first()));
            assert forall|j: int| i <= j < ps.len() implies payload_of(
                ptype_of(ps[j]),
                header_next(ps[j], next_type(ps, j)),
                header_critical(ps[j]),
                payload_body_bytes(ps[j]),
                #[trigger] qs[j - i],
            ) by {
                if j > i {
                    assert(qs.drop_first()[j - (i + 1)] == qs[j - i]);
                }
            }
        }
    } else {
        lemma_chain_bytes_prefix(ps, n, n);
        assert(off2 == b.len());
        assert(chain_body_error(ps, (i + 1) as int) == None::<Error>);
        assert(chain_error(b, off2, nxt) == None::<Error>);
        assert forall|qs: Seq<Payload>|
            #[trigger] chain_payloads(b, off, ptype_of(p), qs) implies payloads_read_back(ps, i as int, qs) by {
            assert(chain_payloads(b, off2, nxt, qs.drop_first()));
            assert(qs.drop_first().len() == 0);
        }
    }
}

/// Reading a chain does not depend on what stands before it.
proof fn lemma_chain_shift(pre: Seq<u8>, body: Seq<u8>, off: int, t: PayloadType)
    requires
        0 <= off,
    ensures
        chain_error(pre + body, pre.len() + off, t) == chain_error(body, off, t),
        forall|qs: Seq<Payload>|
            #[trigger] chain_payloads(pre + body, pre.len() + off, t, qs) == chain_payloads(body, off, t, qs),
    decreases body.len() - off,
{
    let b = pre + body;
    if !(t == PayloadType::NoNext || off >= body.len()) {
        let s = b.subrange(pre.len() + off, b.len() as int);
        assert(s =~= body.subrange(off, body.len() as int));
        let s2 = body.subrange(off, body.len() as int);
        let lf = len_field(s);
        assert(one_error(s, t) == one_error(s2, t));
        assert(len_field(s2) == lf);
        assert(s2[0] == s[0]);
        let x = payload_type_of(s[0]);
        if lf >= 4 && off + lf < body.len() {
            lemma_chain_shift(pre, body, off + lf, x);
            assert(pre.len() + off + lf == pre.len() + (off + lf));
        } else if lf >= 4 {
            assert(chain_error(b, pre.len() + off + lf, x) == None::<Error>);
            assert(chain_error(body, off + lf, x) == None::<Error>);
        }
        assert forall|qs: Seq<Payload>|
            #[trigger] chain_payloads(pre + body, pre.len() + off, t, qs) == chain_payloads(body, off, t, qs) by {
            if lf >= 4 && off + lf < body.len() {
                assert(chain_payloads(b, pre.len() + off + lf, x, qs.drop_first())
                    == chain_payloads(body, off + lf, x, qs.drop_first()));
            } else if lf >= 4 {
                assert(chain_payloads(b, pre.len() + off + lf, x, qs.drop_first()) == (qs.drop_first().len() == 0));
                assert(chain_payloads(body, off + lf, x, qs.drop_first()) == (qs.drop_first().len() == 0));
            }
            assert(s2.len() == s.len());
            assert(s2[1] == s[1]);
            assert(body_of(s2) == body_of(s));
        }
    }
}

/// Decoding the encoding of a message whose chain is framed gives back its
/// header (with the first payload's type and the total length) and, unless
/// a payload's body does not decode, one payload for each, read from its own
/// body with its own header's fields. With the body round-trip laws
/// (`lemma_sa_round_trip`, `lemma_ke_round_trip`, ...), each decoded payload
/// is the one that was encoded.
#[verifier::spinoff_prover]
#[verifier::rlimit(60)]
pub proof fn lemma_message_round_trip(h: Header, ps: Seq<Payload>, r: Result<Message, Error>)
    requires
        chain_framed(ps),
        28 + chain_bytes(ps, ps.len()).len() < 0x1_0000_0000,
        message_decoded(message_bytes(h, ps), r),
    ensures
        match chain_body_error(ps, 0) {
            Some(e) => r == Err::<Message, Error>(e),
            None => r matches Ok(m) && {
                &&& m.header.spi_i@ == h.spi_i@
                &&& m.header.spi_r@ == h.spi_r@
                &&& m.header.version == h.version
                &&& m.header.exchange == h.exchange
                &&& m.header.flags == h.flags
                &&& m.header.message_id == h.message_id
                &&& m.header.next_payload == (if ps.len() > 0 { ptype_of(ps[0]) } else { PayloadType::NoNext })
                &&& m.header.length == 28 + chain_bytes(ps, ps.len()).len()
                &&& payloads_read_back(ps, 0, m.payloads@)
            },
        },
{
    let body = chain_bytes(ps, ps.len());
    let first = if ps.len() > 0 { ptype_of(ps[0]) } else { PayloadType::NoNext };
    let total = 28 + body.len();
    let hh = Header { next_payload: first, length: (total % 0x1_0000_0000) as u32, ..h };
    let b = message_bytes(h, ps);
    assert(b == header_bytes(hh) + body);
    crate::ipsec::message::lemma_header_round_trip(hh);
    let hb = header_bytes(hh);
    assert(hb.len() == 28) by {
        crate::digits::lemma_be_digits_len(hh.message_id as nat, 4);
        crate::digits::lemma_be_digits_len(hh.length as nat, 4);
    }
    assert(b.subrange(0, 28) =~= hb);
    assert(b[16] == hb[16]);
    assert(b[18] == hb[18]);
    assert(b.subrange(24, 28) =~= hb.subrange(24, 28));
    assert(b.subrange(20, 24) =~= hb.subrange(20, 24));
    assert(b.subrange(0, 8) =~= hb.subrange(0, 8));
    assert(b.subrange(8, 16) =~= hb.subrange(8, 16));
    assert(u32_at(b, 24) == total);
    lemma_payload_type_of(first);
    assert(b.subrange(0, total as int) =~= b);
    if ps.len() > 0 {
        lemma_chain_read(ps, 0);
        assert(chain_bytes(ps, 0).len() == 0);
        lemma_chain_shift(hb, body, 0, ptype_of(ps[0]));
    } else {
        assert(body.len() == 0);
        assert(chain_body_error(ps, 0) == None::<Error>);
    }
}

} // verus!
