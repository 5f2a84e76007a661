//! The bodies of the simple payloads (KE, Ni/Nr, IDi/IDr, AUTH, CERT/CERTREQ,
//! TSi/TSr, N), without their generic payload header.

use vstd::prelude::*;
use crate::ipsec::error::Error;
use crate::ipsec::message::{
    be16, get_u16, put_u16, u16_at, AuthPayload, CertPayload, IdPayload, KePayload, NoncePayload, NotifyPayload,
    SelectorModel, TrafficSelector, TsPayload,
};
use crate::ipsec::types::{AuthMethod, CertEncoding, DhGroup, IdType};

verus! {

/// The octets of `b` from `i` on, as a vector.
pub(crate) fn tail_from(b: &[u8], i: usize) -> (r: Vec<u8>)
    requires
        i <= b@.len(),
    ensures
        r@ == b@.subrange(i as int, b@.len() as int),
{
    vstd::slice::slice_to_vec(&b[i..b.len()])
}

/// The octets of `b` in `[i, j)`, as a vector.
pub(crate) fn range_of(b: &[u8], i: usize, j: usize) -> (r: Vec<u8>)
    requires
        i <= j <= b@.len(),
    ensures
        r@ == b@.subrange(i as int, j as int),
{
    vstd::slice::slice_to_vec(&b[i..j])
}

/// A one-octet type followed by three reserved octets and the data.
pub open spec fn typed_bytes(code: u8, data: Seq<u8>) -> Seq<u8> {
    seq![code, 0u8, 0u8, 0u8] + data
}

fn typed_body(code: u8, data: &[u8]) -> (r: Vec<u8>)
    ensures
        r@ == typed_bytes(code, data@),
{
    let mut b: Vec<u8> = Vec::new();
    b.push(code);
    b.push(0);
    b.push(0);
    b.push(0);
    b.extend_from_slice(data);
    assert(b@ =~= typed_bytes(code, data@));
    b
}

// --- KE ----------------------------------------------------------------------

/// The body of a KE payload: the group, two reserved octets, the public value.
pub open spec fn ke_bytes(group: DhGroup, public_key: Seq<u8>) -> Seq<u8> {
    be16(group.code()) + be16(0) + public_key
}

/// The error decoding a KE body gives, if any.
pub open spec fn ke_error(b: Seq<u8>) -> Option<Error> {
    if b.len() < 4 {
        Some(Error::Truncated { needed: 4, have: b.len() as usize })
    } else if !DhGroup::is_code(u16_at(b, 0)) {
        Some(Error::UnsupportedDhGroup(u16_at(b, 0)))
    } else {
        None
    }
}

/// `k` is the KE payload the body `b` spells.
pub open spec fn ke_of(b: Seq<u8>, k: KePayload) -> bool {
    k.group.code() == u16_at(b, 0) && k.public_key@ == b.subrange(4, b.len() as int)
}

/// Encode a KE payload body.
pub fn encode_ke_body(ke: &KePayload) -> (r: Vec<u8>)
    ensures
        r@ == ke_bytes(ke.group, ke.public_key@),
{
    let mut b: Vec<u8> = Vec::new();
    put_u16(&mut b, ke.group.to_u16());
    put_u16(&mut b, 0);
    b.extend_from_slice(ke.public_key.as_slice());
    assert(b@ =~= ke_bytes(ke.group, ke.public_key@));
    b
}

/// Decode a KE payload body.
pub fn decode_ke_body(body: &[u8]) -> (r: Result<KePayload, Error>)
    ensures
        match ke_error(body@) {
            Some(e) => r == Err::<KePayload, Error>(e),
            None => r matches Ok(k) && ke_of(body@, k),
        },
{
    if body.len() < 4 {
        return Err(Error::Truncated { needed: 4, have: body.len() });
    }
    let code = get_u16(body, 0);
    let group = match DhGroup::from_u16(code) {
        Some(g) => g,
        None => return Err(Error::UnsupportedDhGroup(code)),
    };
    Ok(KePayload { group, public_key: tail_from(body, 4) })
}

// --- Nonce ---------------------------------------------------------------------

/// Encode a nonce payload body: the nonce itself.
pub fn encode_nonce_body(n: &NoncePayload) -> (r: Vec<u8>)
    ensures
        r@ == n.nonce@,
{
    vstd::slice::slice_to_vec(n.nonce.as_slice())
}

/// Decode a nonce payload body: the whole body is the nonce.
pub fn decode_nonce_body(body: &[u8]) -> (r: NoncePayload)
    ensures
        r.nonce@ == body@,
{
    NoncePayload { nonce: vstd::slice::slice_to_vec(body) }
}

// --- ID ------------------------------------------------------------------------

/// Encode an identification payload body.
pub fn encode_id_body(id: &IdPayload) -> (r: Vec<u8>)
    ensures
        r@ == typed_bytes(id.id_type.code(), id.data@),
{
    typed_body(id.id_type.to_u8(), id.data.as_slice())
}

/// The error decoding an ID body gives, if any.
pub open spec fn id_error(b: Seq<u8>) -> Option<Error> {
    if b.len() == 0 {
        Some(Error::Truncated { needed: 1, have: 0 })
    } else if !IdType::is_code(b[0]) {
        Some(Error::UnsupportedIdType(b[0]))
    } else if b.len() < 4 {
        Some(Error::Truncated { needed: 4, have: b.len() as usize })
    } else {
        None
    }
}

/// `id` is the ID payload the body `b` spells.
pub open spec fn id_of(b: Seq<u8>, id: IdPayload) -> bool {
    id.id_type.code() == b[0] && id.data@ == b.subrange(4, b.len() as int)
}

/// Decode an identification payload body.
pub fn decode_id_body(body: &[u8]) -> (r: Result<IdPayload, Error>)
    ensures
        match id_error(body@) {
            Some(e) => r == Err::<IdPayload, Error>(e),
            None => r matches Ok(id) && id_of(body@, id),
        },
{
    if body.len() == 0 {
        return Err(Error::Truncated { needed: 1, have: 0 });
    }
    let id_type = match IdType::from_u8(body[0]) {
        Some(t) => t,
        None => return Err(Error::UnsupportedIdType(body[0])),
    };
    if body.len() < 4 {
        return Err(Error::Truncated { needed: 4, have: body.len() });
    }
    Ok(IdPayload { id_type, data: tail_from(body, 4) })
}

// --- AUTH ----------------------------------------------------------------------

/// Encode an authentication payload body.
pub fn encode_auth_body(a: &AuthPayload) -> (r: Vec<u8>)
    ensures
        r@ == typed_bytes(a.method.code(), a.data@),
{
    typed_body(a.method.to_u8(), a.data.as_slice())
}

/// The error decoding an AUTH body gives, if any.
pub open spec fn auth_error(b: Seq<u8>) -> Option<Error> {
    if b.len() < 4 {
        Some(Error::Truncated { needed: 4, have: b.len() as usize })
    } else if !AuthMethod::is_code(b[0]) {
        Some(Error::UnsupportedAuthMethod(b[0]))
    } else {
        None
    }
}

/// `a` is the AUTH payload the body `b` spells.
pub open spec fn auth_of(b: Seq<u8>, a: AuthPayload) -> bool {
    a.method.code() == b[0] && a.data@ == b.subrange(4, b.len() as int)
}

/// Decode an authentication payload body.
pub fn decode_auth_body(body: &[u8]) -> (r: Result<AuthPayload, Error>)
    ensures
        match auth_error(body@) {
            Some(e) => r == Err::<AuthPayload, Error>(e),
            None => r matches Ok(a) && auth_of(body@, a),
        },
{
    if body.len() < 4 {
        return Err(Error::Truncated { needed: 4, have: body.len() });
    }
    let method = match AuthMethod::from_u8(body[0]) {
        Some(m) => m,
        None => return Err(Error::UnsupportedAuthMethod(body[0])),
    };
    Ok(AuthPayload { method, data: tail_from(body, 4) })
}

// --- CERT / CERTREQ ------------------------------------------------------------

/// Encode a certificate (request) payload body.
pub fn encode_cert_body(c: &CertPayload) -> (r: Vec<u8>)
    ensures
        r@ == typed_bytes(c.encoding.code(), c.data@),
{
    typed_body(c.encoding.to_u8(), c.data.as_slice())
}

/// The error decoding a CERT body gives, if any.
pub open spec fn cert_error(b: Seq<u8>) -> Option<Error> {
    if b.len() == 0 {
        Some(Error::Truncated { needed: 1, have: 0 })
    } else if !CertEncoding::is_code(b[0]) {
        Some(Error::UnsupportedCertEncoding(b[0]))
    } else if b.len() < 4 {
        Some(Error::Truncated { needed: 4, have: b.len() as usize })
    } else {
        None
    }
}

/// `c` is the CERT payload the body `b` spells.
pub open spec fn cert_of(b: Seq<u8>, c: CertPayload) -> bool {
    c.encoding.code() == b[0] && c.data@ == b.subrange(4, b.len() as int)
}

/// Decode a certificate (request) payload body.
pub fn decode_cert_body(body: &[u8]) -> (r: Result<CertPayload, Error>)
    ensures
        match cert_error(body@) {
            Some(e) => r == Err::<CertPayload, Error>(e),
            None => r matches Ok(c) && cert_of(body@, c),
        },
{
    if body.len() == 0 {
        return Err(Error::Truncated { needed: 1, have: 0 });
    }
    let encoding = match CertEncoding::from_u8(body[0]) {
        Some(e) => e,
        None => return Err(Error::UnsupportedCertEncoding(body[0])),
    };
    if body.len() < 4 {
        return Err(Error::Truncated { needed: 4, have: body.len() });
    }
    Ok(CertPayload { encoding, data: tail_from(body, 4) })
}

// --- Notify --------------------------------------------------------------------

/// The body of a notify payload.
pub open spec fn notify_bytes(protocol: u8, spi: Seq<u8>, notify_type: u16, data: Seq<u8>) -> Seq<u8> {
    seq![protocol, (spi.len() % 256) as u8] + be16(notify_type) + spi + data
}

/// Encode a notify payload body (the SPI size octet keeps the low eight bits
/// of the SPI's length).
pub fn encode_notify_body(n: &NotifyPayload) -> (r: Vec<u8>)
    ensures
        r@ == notify_bytes(n.protocol, n.spi@, n.notify_type, n.data@),
{
    let mut b: Vec<u8> = Vec::new();
    b.push(n.protocol);
    b.push((n.spi.len() % 256) as u8);
    put_u16(&mut b, n.notify_type);
    b.extend_from_slice(n.spi.as_slice());
    b.extend_from_slice(n.data.as_slice());
    assert(b@ =~= notify_bytes(n.protocol, n.spi@, n.notify_type, n.data@));
    b
}

/// The error decoding a notify body gives, if any: it is shorter than its
/// fixed part, or than the SPI it announces.
pub open spec fn notify_error(b: Seq<u8>) -> Option<Error> {
    if b.len() < 4 {
        Some(Error::Truncated { needed: 4, have: b.len() as usize })
    } else if 4 + b[1] > b.len() {
        Some(Error::Truncated { needed: (4 + b[1]) as usize, have: b.len() as usize })
    } else {
        None
    }
}

/// `n` is the notify payload the body `b` spells.
pub open spec fn notify_of(b: Seq<u8>, n: NotifyPayload) -> bool {
    &&& n.protocol == b[0]
    &&& n.spi@ == b.subrange(4, 4 + b[1])
    &&& n.notify_type == u16_at(b, 2)
    &&& n.data@ == b.subrange(4 + b[1], b.len() as int)
}

/// Decode a notify payload body.
pub fn decode_notify_body(body: &[u8]) -> (r: Result<NotifyPayload, Error>)
    ensures
        match notify_error(body@) {
            Some(e) => r == Err::<NotifyPayload, Error>(e),
            None => r matches Ok(n) && notify_of(body@, n),
        },
{
    if body.len() < 4 {
        return Err(Error::Truncated { needed: 4, have: body.len() });
    }
    let protocol = body[0];
    let spi_size = body[1] as usize;
    if 4 + spi_size > body.len() {
        return Err(Error::Truncated { needed: 4 + spi_size, have: body.len() });
    }
    let notify_type = get_u16(body, 2);
    let spi = range_of(body, 4, 4 + spi_size);
    Ok(NotifyPayload { protocol, spi, notify_type, data: tail_from(body, 4 + spi_size) })
}

// --- Traffic selectors ---------------------------------------------------------

/// The wire octets of one traffic selector; the length field keeps the low
/// sixteen bits of the selector's length.
pub open spec fn selector_bytes(s: SelectorModel) -> Seq<u8> {
    seq![s.ts_type, s.iproto] + be16(((8 + s.start_addr.len() + s.end_addr.len()) % 65536) as u16) + be16(
        s.start_port,
    ) + be16(s.end_port) + s.start_addr + s.end_addr
}

/// The wire octets of a list of selectors.
pub open spec fn selectors_bytes(s: Seq<SelectorModel>) -> Seq<u8>
    decreases s.len(),
{
    if s.len() == 0 {
        Seq::empty()
    } else {
        selectors_bytes(s.drop_last()) + selector_bytes(s.last())
    }
}

/// The values of a list of selectors.
pub open spec fn selector_models(s: Seq<TrafficSelector>) -> Seq<SelectorModel> {
    s.map_values(|t: TrafficSelector| t@)
}

/// The body of a TS payload: the count (low eight bits), three reserved
/// octets, the selectors.
pub open spec fn ts_bytes(s: Seq<SelectorModel>) -> Seq<u8> {
    seq![(s.len() % 256) as u8, 0u8, 0u8, 0u8] + selectors_bytes(s)
}

fn push_selector(b: &mut Vec<u8>, s: &TrafficSelector)
    ensures
        final(b)@ == old(b)@ + selector_bytes(s@),
{
    b.push(s.ts_type);
    b.push(s.iproto);
    let a = s.start_addr.len() % 65536;
    let e = s.end_addr.len() % 65536;
    let len = ((8 + a + e) % 65536) as u16;
    proof {
        vstd::arithmetic::div_mod::lemma_add_mod_noop(8 + s.start_addr@.len() as int, s.end_addr@.len() as int, 65536);
        vstd::arithmetic::div_mod::lemma_add_mod_noop(8, s.start_addr@.len() as int, 65536);
        vstd::arithmetic::div_mod::lemma_mod_twice(8 + s.start_addr@.len() as int, 65536);
        vstd::arithmetic::div_mod::lemma_add_mod_noop(8 + a as int, e as int, 65536);
        vstd::arithmetic::div_mod::lemma_add_mod_noop(8, a as int, 65536);
        assert(len == ((8 + s.start_addr@.len() + s.end_addr@.len()) % 65536) as u16);
    }
    put_u16(b, len);
    put_u16(b, s.start_port);
    put_u16(b, s.end_port);
    b.extend_from_slice(s.start_addr.as_slice());
    b.extend_from_slice(s.end_addr.as_slice());
    assert(b@ =~= old(b)@ + selector_bytes(s@));
}

/// Encode a traffic selector payload body.
pub fn encode_ts_body(ts: &TsPayload) -> (r: Vec<u8>)
    ensures
        r@ == ts_bytes(selector_models(ts.selectors@)),
{
    let mut b: Vec<u8> = Vec::new();
    b.push((ts.selectors.len() % 256) as u8);
    b.push(0);
    b.push(0);
    b.push(0);
    let ghost head = b@;
    let mut i: usize = 0;
    while i < ts.selectors.len()
        invariant
            i <= ts.selectors@.len(),
            head == seq![(ts.selectors@.len() % 256) as u8, 0u8, 0u8, 0u8],
            b@ == head + selectors_bytes(selector_models(ts.selectors@.take(i as int))),
        decreases ts.selectors.len() - i,
    {
        push_selector(&mut b, &ts.selectors[i]);
        proof {
            let m = selector_models(ts.selectors@.take(i + 1));
            assert(m.drop_last() =~= selector_models(ts.selectors@.take(i as int)));
            assert(m.last() == ts.selectors@[i as int]@);
        }
        i = i + 1;
        proof {
            assert(b@ =~= head + selectors_bytes(selector_models(ts.selectors@.take(i as int))));
        }
    }
    assert(ts.selectors@.take(i as int) =~= ts.selectors@);
    assert(selector_models(ts.selectors@).len() == ts.selectors@.len());
    assert(b@ =~= ts_bytes(selector_models(ts.selectors@)));
    b
}

/// The length field of the selector at `p`.
pub open spec fn sel_len_at(b: Seq<u8>, p: int) -> int {
    u16_at(b, p + 2) as int
}

/// The length of each of the two addresses of the selector at `p`.
pub open spec fn addr_len_at(b: Seq<u8>, p: int) -> int {
    (sel_len_at(b, p) - 8) / 2
}

/// The selector whose octets start at `p`.
pub open spec fn selector_at(b: Seq<u8>, p: int) -> SelectorModel {
    let al = addr_len_at(b, p);
    SelectorModel {
        ts_type: b[p],
        iproto: b[p + 1],
        start_port: u16_at(b, p + 4),
        end_port: u16_at(b, p + 6),
        start_addr: b.subrange(p + 8, p + 8 + al),
        end_addr: b.subrange(p + 8 + al, p + 8 + 2 * al),
    }
}

/// `k` selectors read from `p` on, each following the last by its length
/// field: a truncation error where fewer than four octets are left (none
/// when the last length ran past the body), where the ports or the addresses
/// run past the body, and a length error for a length below eight.
pub open spec fn selectors_from(b: Seq<u8>, p: int, k: nat) -> Result<Seq<SelectorModel>, Error>
    decreases k,
{
    if k == 0 {
        Ok(Seq::empty())
    } else if p + 4 > b.len() {
        Err(Error::Truncated { needed: 4, have: if p <= b.len() { (b.len() - p) as usize } else { 0 } })
    } else if p + 8 > b.len() {
        Err(Error::Truncated { needed: 8, have: (b.len() - p) as usize })
    } else if sel_len_at(b, p) < 8 {
        Err(Error::BadPayloadLength(sel_len_at(b, p) as usize))
    } else if p + 8 + 2 * addr_len_at(b, p) > b.len() {
        Err(Error::Truncated { needed: (8 + 2 * addr_len_at(b, p)) as usize, have: (b.len() - p) as usize })
    } else {
        match selectors_from(b, p + sel_len_at(b, p), (k - 1) as nat) {
            Ok(rest) => Ok(seq![selector_at(b, p)] + rest),
            Err(e) => Err(e),
        }
    }
}

/// The selectors a TS body holds, or the error decoding it gives.
pub open spec fn ts_decoded(b: Seq<u8>) -> Result<Seq<SelectorModel>, Error> {
    if b.len() < 4 {
        Err(Error::Truncated { needed: 4, have: b.len() as usize })
    } else {
        selectors_from(b, 4, b[0] as nat)
    }
}

/// `done` followed by what `r` holds, or `r`'s error.
pub open spec fn after(done: Seq<SelectorModel>, r: Result<Seq<SelectorModel>, Error>) -> Result<
    Seq<SelectorModel>,
    Error,
> {
    match r {
        Ok(rest) => Ok(done + rest),
        Err(e) => Err(e),
    }
}

/// Decode a traffic selector payload body.
pub fn decode_ts_body(body: &[u8]) -> (r: Result<TsPayload, Error>)
    ensures
        match ts_decoded(body@) {
            Ok(s) => r matches Ok(ts) && selector_models(ts.selectors@) == s,
            Err(e) => r == Err::<TsPayload, Error>(e),
        },
{
    if body.len() < 4 {
        return Err(Error::Truncated { needed: 4, have: body.len() });
    }
    let n = body[0] as usize;
    let mut selectors: Vec<TrafficSelector> = Vec::new();
    let mut p: usize = 4;
    let mut i: usize = 0;
    proof {
        assert(selector_models(selectors@) =~= Seq::<SelectorModel>::empty());
        match selectors_from(body@, 4, n as nat) {
            Ok(rest) => assert(Seq::<SelectorModel>::empty() + rest =~= rest),
            Err(_) => {},
        }
    }
    while i < n
        invariant
            i <= n,
            n == body@[0],
            body@.len() >= 4,
            p <= body@.len(),
            ts_decoded(body@) == after(selector_models(selectors@), selectors_from(body@, p as int, (n - i) as nat)),
        decreases n - i,
    {
        if body.len() - p < 4 {
            return Err(Error::Truncated { needed: 4, have: body.len() - p });
        }
        if body.len() - p < 8 {
            return Err(Error::Truncated { needed: 8, have: body.len() - p });
        }
        let sel_len = get_u16(body, p + 2) as usize;
        if sel_len < 8 {
            return Err(Error::BadPayloadLength(sel_len));
        }
        let addr_len = (sel_len - 8) / 2;
        if 8 + 2 * addr_len > body.len() - p {
            return Err(Error::Truncated { needed: 8 + 2 * addr_len, have: body.len() - p });
        }
        let ts_type = body[p];
        let iproto = body[p + 1];
        let start_port = get_u16(body, p + 4);
        let end_port = get_u16(body, p + 6);
        let start_addr = range_of(body, p + 8, p + 8 + addr_len);
        let end_addr = range_of(body, p + 8 + addr_len, p + 8 + 2 * addr_len);
        let sel = TrafficSelector { ts_type, iproto, start_port, end_port, start_addr, end_addr };
        proof {
            assert(sel@ == selector_at(body@, p as int));
        }
        let ghost before = selector_models(selectors@);
        selectors.push(sel);
        proof {
            assert(selector_models(selectors@) =~= before + seq![selector_at(body@, p as int)]);
            let rest = selectors_from(body@, p + sel_len_at(body@, p as int), (n - i - 1) as nat);
            match rest {
                Ok(rs) => {
                    assert(before + (seq![selector_at(body@, p as int)] + rs) =~= (before + seq![selector_at(body@, p as int)]) + rs);
                },
                Err(_) => {},
            }
        }
        if i + 1 == n {
            proof {
                assert(selectors_from(body@, p + sel_len_at(body@, p as int), 0) == Ok::<Seq<SelectorModel>, Error>(Seq::empty()));
                assert(selector_models(selectors@) + Seq::<SelectorModel>::empty() =~= selector_models(selectors@));
            }
            return Ok(TsPayload { selectors });
        }
        if sel_len > body.len() - p {
            return Err(Error::Truncated { needed: 4, have: 0 });
        }
        p = p + sel_len;
        i = i + 1;
    }
    proof {
        assert(selector_models(selectors@) + Seq::<SelectorModel>::empty() =~= selector_models(selectors@));
    }
    Ok(TsPayload { selectors })
}

// --- round trips -------------------------------------------------------------------

proof fn lemma_be16_at(v: u16, pre: Seq<u8>, post: Seq<u8>)
    ensures
        u16_at(pre + be16(v) + post, pre.len() as int) == v,
{
    let b = pre + be16(v) + post;
    crate::digits::lemma_be_digits_len(v as nat, 2);
    assert(b.subrange(pre.len() as int, pre.len() as int + 2) =~= be16(v));
    assert(v < crate::digits::pw(256, 2)) by {
        reveal_with_fuel(crate::digits::pw, 3);
    }
    crate::digits::lemma_be_value_digits(v as nat, 2);
}

/// Decoding an encoded KE body gives the payload back.
pub proof fn lemma_ke_round_trip(k: KePayload)
    ensures
        ke_error(ke_bytes(k.group, k.public_key@)) is None,
        ke_of(ke_bytes(k.group, k.public_key@), k),
{
    let b = ke_bytes(k.group, k.public_key@);
    crate::digits::lemma_be_digits_len(k.group.code() as nat, 2);
    crate::digits::lemma_be_digits_len(0, 2);
    lemma_be16_at(k.group.code(), Seq::empty(), be16(0) + k.public_key@);
    assert(Seq::<u8>::empty() + be16(k.group.code()) + (be16(0) + k.public_key@) =~= b);
    assert(b.subrange(4, b.len() as int) =~= k.public_key@);
    assert(DhGroup::is_code(k.group.code()));
}

/// Decoding an encoded ID body gives the payload back.
pub proof fn lemma_id_round_trip(id: IdPayload)
    ensures
        id_error(typed_bytes(id.id_type.code(), id.data@)) is None,
        id_of(typed_bytes(id.id_type.code(), id.data@), id),
{
    let b = typed_bytes(id.id_type.code(), id.data@);
    assert(b.subrange(4, b.len() as int) =~= id.data@);
    assert(IdType::is_code(id.id_type.code()));
}

/// Decoding an encoded AUTH body gives the payload back.
pub proof fn lemma_auth_round_trip(a: AuthPayload)
    ensures
        auth_error(typed_bytes(a.method.code(), a.data@)) is None,
        auth_of(typed_bytes(a.method.code(), a.data@), a),
{
    let b = typed_bytes(a.method.code(), a.data@);
    assert(b.subrange(4, b.len() as int) =~= a.data@);
    assert(AuthMethod::is_code(a.method.code()));
}

/// Decoding an encoded CERT body gives the payload back.
pub proof fn lemma_cert_round_trip(c: CertPayload)
    ensures
        cert_error(typed_bytes(c.encoding.code(), c.data@)) is None,
        cert_of(typed_bytes(c.encoding.code(), c.data@), c),
{
    let b = typed_bytes(c.encoding.code(), c.data@);
    assert(b.subrange(4, b.len() as int) =~= c.data@);
    assert(CertEncoding::is_code(c.encoding.code()));
}

/// Decoding an encoded notify body gives the payload back, when its SPI
/// is shorter than 256 octets (the SPI size field holds one octet).
pub proof fn lemma_notify_round_trip(n: NotifyPayload)
    requires
        n.spi@.len() < 256,
    ensures
        notify_error(notify_bytes(n.protocol, n.spi@, n.notify_type, n.data@)) is None,
        notify_of(notify_bytes(n.protocol, n.spi@, n.notify_type, n.data@), n),
{
    let b = notify_bytes(n.protocol, n.spi@, n.notify_type, n.data@);
    crate::digits::lemma_be_digits_len(n.notify_type as nat, 2);
    let pre = seq![n.protocol, (n.spi@.len() % 256) as u8];
    lemma_be16_at(n.notify_type, pre, n.spi@ + n.data@);
    assert(pre + be16(n.notify_type) + (n.spi@ + n.data@) =~= b);
    assert(b[1] == n.spi@.len());
    assert(b.subrange(4, 4 + b[1]) =~= n.spi@);
    assert(b.subrange(4 + b[1], b.len() as int) =~= n.data@);
}

} // verus!
