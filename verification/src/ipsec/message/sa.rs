//! The body of the SA payload: proposals and their transforms.

use vstd::prelude::*;
use crate::ipsec::error::Error;
use crate::ipsec::message::{be16, get_u16, put_u16, u16_at};
use crate::ipsec::message::body::range_of;
use crate::ipsec::transforms::{Proposal, SaPayload, Transform};
use crate::ipsec::types::{ProtocolId, TransformType};

verus! {

// --- encoding --------------------------------------------------------------------

/// The transform carries a Key Length attribute: an encryption transform with
/// a key length.
pub open spec fn has_key_attr(t: Transform) -> bool {
    t.transform_type == TransformType::Encr && t.key_len is Some
}

/// The length of a transform substructure: eight octets, and four more for
/// the Key Length attribute.
pub open spec fn transform_len(t: Transform) -> nat {
    if has_key_attr(t) {
        12
    } else {
        8
    }
}

/// The key length of `t` in bits fits the attribute's 16-bit value (the
/// encoder writes the low sixteen bits of the byte length times eight).
pub open spec fn key_attr_fits(t: Transform) -> bool {
    has_key_attr(t) ==> (t.key_len->0 % 65536) * 8 < 65536
}

/// The wire octets of a transform substructure (RFC 7296 §3.3.2); `last`
/// marks the final transform of its proposal. The Key Length is a
/// fixed-length (TV) attribute, type 14 with the format bit set.
pub open spec fn transform_bytes(t: Transform, last: bool) -> Seq<u8> {
    seq![if last { 0u8 } else { 3u8 }, 0u8] + be16(transform_len(t) as u16) + seq![t.transform_type.code(), 0u8]
        + be16(t.transform_id) + if has_key_attr(t) {
        be16(0x800E) + be16(((t.key_len->0 % 65536) * 8) as u16)
    } else {
        Seq::empty()
    }
}

/// The octets of the first `k` transforms of `ts`.
pub open spec fn transforms_upto(ts: Seq<Transform>, k: nat) -> Seq<u8>
    decreases k,
{
    if k == 0 {
        Seq::empty()
    } else {
        transforms_upto(ts, (k - 1) as nat) + transform_bytes(ts[k - 1], k == ts.len())
    }
}

/// The length of a proposal substructure: its eight-octet header, SPI and
/// transforms.
pub open spec fn proposal_len(p: Proposal) -> nat {
    8 + p.spi@.len() + transforms_upto(p.transforms@, p.transforms@.len()).len()
}

/// The wire octets of a proposal substructure (RFC 7296 §3.3.1): the
/// last-substructure marker, the proposal length, the number, protocol, SPI
/// size and transform count (each the low eight bits), the SPI and the
/// transforms.
pub open spec fn proposal_bytes(p: Proposal, last: bool) -> Seq<u8> {
    seq![if last { 0u8 } else { 2u8 }, 0u8] + be16(proposal_len(p) as u16) + seq![
        p.proposal_num,
        p.protocol.code(),
        (p.spi@.len() % 256) as u8,
        (p.transforms@.len() % 256) as u8,
    ] + p.spi@ + transforms_upto(p.transforms@, p.transforms@.len())
}

/// The octets of the first `k` proposals of `ps`.
pub open spec fn proposals_upto(ps: Seq<Proposal>, k: nat) -> Seq<u8>
    decreases k,
{
    if k == 0 {
        Seq::empty()
    } else {
        proposals_upto(ps, (k - 1) as nat) + proposal_bytes(ps[k - 1], k == ps.len())
    }
}

/// The wire octets of a list of proposals.
pub open spec fn proposals_bytes(ps: Seq<Proposal>) -> Seq<u8> {
    proposals_upto(ps, ps.len())
}

/// Every Key Length fits its field and every proposal's length fits its
/// 16-bit field.
pub open spec fn sa_encodable(sa: SaPayload) -> bool {
    &&& forall|i: int, j: int|
        0 <= i < sa.proposals@.len() && 0 <= j < sa.proposals@[i].transforms@.len() ==> key_attr_fits(
            #[trigger] sa.proposals@[i].transforms@[j],
        )
    &&& forall|i: int| 0 <= i < sa.proposals@.len() ==> proposal_len(#[trigger] sa.proposals@[i]) < 65536
}

fn encode_transform(out: &mut Vec<u8>, t: &Transform, last: bool)
    requires
        key_attr_fits(*t),
    ensures
        final(out)@ == old(out)@ + transform_bytes(*t, last),
{
    let next: u8 = if last { 0 } else { 3 };
    out.push(next);
    out.push(0);
    let has_key = t.transform_type == TransformType::Encr && t.key_len.is_some();
    let len: u16 = if has_key { 12 } else { 8 };
    put_u16(out, len);
    out.push(t.transform_type.to_u8());
    out.push(0);
    put_u16(out, t.transform_id);
    if t.transform_type == TransformType::Encr {
        match t.key_len {
            Some(kl) => {
                put_u16(out, 0x800E);
                put_u16(out, ((kl % 65536) as u16) * 8);
            },
            None => {},
        }
    }
    assert(final(out)@ =~= old(out)@ + transform_bytes(*t, last));
}

/// Encode an SA payload body.
#[verifier::spinoff_prover]
pub fn encode_sa_body(sa: &SaPayload) -> (r: Vec<u8>)
    requires
        sa_encodable(*sa),
    ensures
        r@ == proposals_bytes(sa.proposals@),
{
    let mut out: Vec<u8> = Vec::new();
    let mut i: usize = 0;
    let n_props = sa.proposals.len();
    while i < n_props
        invariant
            n_props == sa.proposals@.len(),
            i <= n_props,
            sa_encodable(*sa),
            out@ == proposals_upto(sa.proposals@, i as nat),
        decreases n_props - i,
    {
        let prop = &sa.proposals[i];
        let n_trans = prop.transforms.len();
        let mut tb: Vec<u8> = Vec::new();
        let mut j: usize = 0;
        while j < n_trans
            invariant
                j <= n_trans == prop.transforms@.len(),
                i < sa.proposals@.len(),
                *prop == sa.proposals@[i as int],
                sa_encodable(*sa),
                tb@ == transforms_upto(prop.transforms@, j as nat),
            decreases n_trans - j,
        {
            assert(key_attr_fits(sa.proposals@[i as int].transforms@[j as int]));
            encode_transform(&mut tb, &prop.transforms[j], j + 1 == n_trans);
            j = j + 1;
        }
        assert(proposal_len(*prop) < 65536);
        let plen = (8 + prop.spi.len() + tb.len()) as u16;
        let ghost start = out@;
        out.push(if i + 1 == n_props { 0 } else { 2 });
        out.push(0);
        put_u16(&mut out, plen);
        out.push(prop.proposal_num);
        out.push(prop.protocol.to_u8());
        out.push((prop.spi.len() % 256) as u8);
        out.push((n_trans % 256) as u8);
        out.extend_from_slice(prop.spi.as_slice());
        out.extend_from_slice(tb.as_slice());
        assert(out@ =~= start + proposal_bytes(*prop, i + 1 == n_props));
        i = i + 1;
    }
    out
}

// --- decoding --------------------------------------------------------------------

/// The transform type a code names.
pub open spec fn transform_type_of(v: u8) -> TransformType {
    choose|t: TransformType| t.code() == v
}

/// The protocol a code names.
pub open spec fn protocol_of(v: u8) -> ProtocolId {
    choose|p: ProtocolId| p.code() == v
}

proof fn lemma_transform_type_of(t: TransformType)
    ensures
        transform_type_of(t.code()) == t,
{
    let u = transform_type_of(t.code());
    assert(u.code() == t.code());
}

proof fn lemma_protocol_of(p: ProtocolId)
    ensures
        protocol_of(p.code()) == p,
{
    let u = protocol_of(p.code());
    assert(u.code() == p.code());
}

/// The key length the attributes of a transform's octets `t` from `a` on
/// set, starting from `acc` (RFC 7296 §3.3.5): a fixed-length (TV)
/// attribute of type 14 sets it to its value in bits over eight; other TV
/// attributes are passed over, and variable-length (TLV) ones skipped by
/// their length.
pub open spec fn attr_key(t: Seq<u8>, a: int, acc: Option<usize>) -> Option<usize>
    decreases t.len() - a,
{
    if a < 0 || a + 4 > t.len() {
        acc
    } else if u16_at(t, a) & 0x8000 != 0 {
        attr_key(
            t,
            a + 4,
            if u16_at(t, a) & 0x7FFF == 14 {
                Some((u16_at(t, a + 2) / 8) as usize)
            } else {
                acc
            },
        )
    } else {
        let skip = u16_at(t, a + 2) as int;
        if a + 4 + skip > t.len() {
            acc
        } else {
            attr_key(t, a + 4 + skip, acc)
        }
    }
}

/// The error reading a transform at the start of `b` (the rest of its
/// proposal) gives, if any.
pub open spec fn transform_error(b: Seq<u8>) -> Option<Error> {
    if b.len() < 8 {
        Some(Error::Truncated { needed: 8, have: b.len() as usize })
    } else if u16_at(b, 2) < 8 || u16_at(b, 2) > b.len() {
        Some(Error::BadPayloadLength(u16_at(b, 2) as usize))
    } else if !TransformType::is_code(b[4]) {
        Some(Error::UnsupportedTransformType(b[4]))
    } else {
        None
    }
}

/// The transform at the start of `b`; its attributes are read within its
/// own length.
pub open spec fn transform_at(b: Seq<u8>) -> Transform {
    Transform {
        transform_type: transform_type_of(b[4]),
        transform_id: u16_at(b, 6),
        key_len: attr_key(b.subrange(0, u16_at(b, 2) as int), 8, None),
    }
}

fn decode_transform(buf: &[u8]) -> (r: Result<(Transform, u8, u16), Error>)
    ensures
        match transform_error(buf@) {
            Some(e) => r == Err::<(Transform, u8, u16), Error>(e),
            None => r == Ok::<(Transform, u8, u16), Error>((transform_at(buf@), buf@[0], u16_at(buf@, 2))),
        },
{
    if buf.len() < 8 {
        return Err(Error::Truncated { needed: 8, have: buf.len() });
    }
    let tlen = get_u16(buf, 2);
    if tlen < 8 || tlen as usize > buf.len() {
        return Err(Error::BadPayloadLength(tlen as usize));
    }
    let next = buf[0];
    let ttype = match TransformType::from_u8(buf[4]) {
        Some(t) => t,
        None => return Err(Error::UnsupportedTransformType(buf[4])),
    };
    proof {
        lemma_transform_type_of(ttype);
    }
    let tid = get_u16(buf, 6);
    let t = &buf[0..tlen as usize];
    let ghost tv = buf@.subrange(0, tlen as int);
    assert(t@ == tv);
    let mut key_len: Option<usize> = None;
    let mut a: usize = 8;
    while t.len() >= 4 && a <= t.len() - 4
        invariant
            t@ == tv,
            a <= t@.len(),
            attr_key(tv, 8, None) == attr_key(tv, a as int, key_len),
        decreases t.len() - a,
    {
        let atype = get_u16(t, a);
        if atype & 0x8000 != 0 {
            let val = get_u16(t, a + 2);
            if atype & 0x7FFF == 14 {
                key_len = Some((val / 8) as usize);
            }
            a = a + 4;
        } else {
            let alen = get_u16(t, a + 2) as usize;
            if 4 + alen > t.len() - a {
                proof {
                    assert(attr_key(tv, a as int, key_len) == key_len);
                }
                a = t.len();
            } else {
                a = a + 4 + alen;
            }
        }
    }
    proof {
        assert(buf@.subrange(2, 4) =~= tv.subrange(2, 4));
    }
    Ok((Transform { transform_type: ttype, transform_id: tid, key_len }, next, tlen))
}

/// Up to `k` transforms read from `p` on within `b[..end]`, stopping after
/// one whose first octet (the last-substructure marker) is zero; with the
/// offset after the last one read.
pub open spec fn transforms_from(b: Seq<u8>, p: int, end: int, k: nat) -> Result<(Seq<Transform>, int), Error>
    decreases k,
{
    if k == 0 {
        Ok((Seq::empty(), p))
    } else {
        let tb = b.subrange(p, end);
        match transform_error(tb) {
            Some(e) => Err(e),
            None => {
                let t = transform_at(tb);
                let q = p + u16_at(tb, 2);
                if b[p] == 0 {
                    Ok((seq![t], q))
                } else {
                    match transforms_from(b, q, end, (k - 1) as nat) {
                        Ok((ts, e)) => Ok((seq![t] + ts, e)),
                        Err(e) => Err(e),
                    }
                }
            },
        }
    }
}

/// The value of a proposal.
pub struct ProposalModel {
    /// The proposal number.
    pub proposal_num: u8,
    /// The protocol.
    pub protocol: ProtocolId,
    /// The SPI.
    pub spi: Seq<u8>,
    /// The transforms.
    pub transforms: Seq<Transform>,
}

impl View for Proposal {
    type V = ProposalModel;

    open spec fn view(&self) -> ProposalModel {
        ProposalModel {
            proposal_num: self.proposal_num,
            protocol: self.protocol,
            spi: self.spi@,
            transforms: self.transforms@,
        }
    }
}

/// The values of a list of proposals.
pub open spec fn proposal_models(ps: Seq<Proposal>) -> Seq<ProposalModel> {
    ps.map_values(|p: Proposal| p@)
}

/// The proposals read from `off` to the end of `b`, each `Proposal Length`
/// octets long, or the error decoding them gives.
pub open spec fn proposals_from(b: Seq<u8>, off: int) -> Result<Seq<ProposalModel>, Error>
    decreases b.len() - off,
{
    if off < 0 || off >= b.len() {
        Ok(Seq::empty())
    } else if b.len() - off < 8 {
        Err(Error::Truncated { needed: 8, have: (b.len() - off) as usize })
    } else if u16_at(b, off + 2) < 8 || u16_at(b, off + 2) > b.len() - off {
        Err(Error::BadPayloadLength(u16_at(b, off + 2) as usize))
    } else if !ProtocolId::is_code(b[off + 5]) {
        Err(Error::UnsupportedPayload(b[off + 5]))
    } else if b[off + 6] > u16_at(b, off + 2) - 8 {
        Err(Error::BadSpiLength(b[off + 6] as usize))
    } else {
        let end = off + u16_at(b, off + 2);
        let spi_end = off + 8 + b[off + 6];
        match transforms_from(b, spi_end, end, b[off + 7] as nat) {
            Err(e) => Err(e),
            Ok((ts, _)) => {
                let p = ProposalModel {
                    proposal_num: b[off + 4],
                    protocol: protocol_of(b[off + 5]),
                    spi: b.subrange(off + 8, spi_end),
                    transforms: ts,
                };
                match proposals_from(b, end) {
                    Ok(rest) => Ok(seq![p] + rest),
                    Err(e) => Err(e),
                }
            },
        }
    }
}

/// `done` followed by what `r` holds, or `r`'s error.
pub open spec fn after_proposals(done: Seq<ProposalModel>, r: Result<Seq<ProposalModel>, Error>) -> Result<
    Seq<ProposalModel>,
    Error,
> {
    match r {
        Ok(rest) => Ok(done + rest),
        Err(e) => Err(e),
    }
}

/// `done` followed by the transforms `r` holds, or `r`'s error.
pub open spec fn after_transforms(done: Seq<Transform>, r: Result<(Seq<Transform>, int), Error>) -> Result<
    (Seq<Transform>, int),
    Error,
> {
    match r {
        Ok((ts, q)) => Ok((done + ts, q)),
        Err(e) => Err(e),
    }
}

/// Decode an SA payload body.
pub fn decode_sa_body(body: &[u8]) -> (r: Result<SaPayload, Error>)
    ensures
        match proposals_from(body@, 0) {
            Ok(ps) => r matches Ok(sa) && proposal_models(sa.proposals@) == ps,
            Err(e) => r == Err::<SaPayload, Error>(e),
        },
{
    let mut proposals: Vec<Proposal> = Vec::new();
    let mut off: usize = 0;
    proof {
        assert(proposal_models(proposals@) =~= Seq::<ProposalModel>::empty());
        match proposals_from(body@, 0) {
            Ok(ps) => assert(Seq::<ProposalModel>::empty() + ps =~= ps),
            Err(_) => {},
        }
    }
    while off < body.len()
        invariant
            off <= body@.len(),
            proposals_from(body@, 0) == after_proposals(proposal_models(proposals@), proposals_from(body@, off as int)),
        decreases body.len() - off,
    {
        if body.len() - off < 8 {
            return Err(Error::Truncated { needed: 8, have: body.len() - off });
        }
        let plen = get_u16(body, off + 2) as usize;
        if plen < 8 || plen > body.len() - off {
            return Err(Error::BadPayloadLength(plen));
        }
        let proposal_num = body[off + 4];
        let protocol = match ProtocolId::from_u8(body[off + 5]) {
            Some(p) => p,
            None => return Err(Error::UnsupportedPayload(body[off + 5])),
        };
        proof {
            lemma_protocol_of(protocol);
        }
        let spi_size = body[off + 6] as usize;
        if spi_size > plen - 8 {
            return Err(Error::BadSpiLength(spi_size));
        }
        let n_trans = body[off + 7] as usize;
        let end = off + plen;
        let spi_end = off + 8 + spi_size;
        let spi = range_of(body, off + 8, spi_end);
        let mut p: usize = spi_end;
        let mut transforms: Vec<Transform> = Vec::new();
        let mut k: usize = 0;
        let ghost all = transforms_from(body@, spi_end as int, end as int, n_trans as nat);
        proof {
            match all {
                Ok((ts, q)) => assert(Seq::<Transform>::empty() + ts =~= ts),
                Err(e) => {
                    assert(proposals_from(body@, off as int) == Err::<Seq<ProposalModel>, Error>(e));
                },
            }
        }
        while k < n_trans
            invariant_except_break
                end <= body@.len(),
                spi_end <= end,
                all == transforms_from(body@, spi_end as int, end as int, n_trans as nat),
                k <= n_trans,
                spi_end <= p <= end,
                all == after_transforms(transforms@, transforms_from(body@, p as int, end as int, (n_trans - k) as nat)),
                all matches Err(e) ==> proposals_from(body@, 0) == Err::<Seq<ProposalModel>, Error>(e),
            ensures
                all matches Ok((ts, _)) && ts == transforms@,
            decreases n_trans - k,
        {
            let ghost tail = body@.subrange(p as int, end as int);
            let (t, nxt, tlen) = match decode_transform(&body[p..end]) {
                Ok(x) => x,
                Err(e) => return Err(e),
            };
            let ghost before = transforms@;
            transforms.push(t);
            p = p + tlen as usize;
            k = k + 1;
            if nxt == 0 {
                assert(transforms@ =~= before + seq![t]);
                break;
            }
            proof {
                match transforms_from(body@, p as int, end as int, (n_trans - k) as nat) {
                    Ok((ts, e)) => {
                        assert(before + (seq![t] + ts) =~= transforms@ + ts);
                    },
                    Err(_) => {},
                }
            }
            if k == n_trans {
                assert(transforms@ + Seq::<Transform>::empty() =~= transforms@);
            }
        }
        let prop = Proposal { proposal_num, protocol, spi, transforms };
        let ghost before = proposal_models(proposals@);
        proposals.push(prop);
        proof {
            assert(proposal_models(proposals@) =~= before + seq![prop@]);
            match proposals_from(body@, end as int) {
                Ok(rest) => {
                    assert(before + (seq![prop@] + rest) =~= proposal_models(proposals@) + rest);
                },
                Err(_) => {},
            }
        }
        off = end;
    }
    proof {
        assert(proposal_models(proposals@) + Seq::<ProposalModel>::empty() =~= proposal_models(proposals@));
    }
    Ok(SaPayload { proposals })
}

// --- round trip ------------------------------------------------------------------

/// A transform the codec carries unchanged: only an encryption transform
/// has a key length, and it fits the attribute in bits.
pub open spec fn transform_round_trips(t: Transform) -> bool {
    t.key_len matches Some(k) ==> t.transform_type == TransformType::Encr && k < 8192
}

/// An SA the codec carries unchanged: its transforms do, and each proposal's
/// SPI size, transform count and length fit their fields.
pub open spec fn sa_round_trips(sa: SaPayload) -> bool {
    &&& forall|i: int, j: int|
        0 <= i < sa.proposals@.len() && 0 <= j < sa.proposals@[i].transforms@.len() ==> transform_round_trips(
            #[trigger] sa.proposals@[i].transforms@[j],
        )
    &&& forall|i: int|
        0 <= i < sa.proposals@.len() ==> {
            &&& (#[trigger] sa.proposals@[i]).spi@.len() < 256
            &&& sa.proposals@[i].transforms@.len() < 256
            &&& proposal_len(sa.proposals@[i]) < 65536
        }
}

proof fn lemma_u16_of(b: Seq<u8>, i: int, v: u16)
    requires
        0 <= i,
        i + 2 <= b.len(),
        b.subrange(i, i + 2) == be16(v),
    ensures
        u16_at(b, i) == v,
{
    crate::digits::lemma_be_digits_len(v as nat, 2);
    assert(v < crate::digits::pw(256, 2)) by {
        reveal_with_fuel(crate::digits::pw, 3);
    }
    crate::digits::lemma_be_value_digits(v as nat, 2);
}

proof fn lemma_be16_len(v: u16)
    ensures
        be16(v).len() == 2,
{
    crate::digits::lemma_be_digits_len(v as nat, 2);
}

/// A transform's octets, found at `p` within `b[..end]`, read back as that
/// transform, with its length and last-substructure marker.
proof fn lemma_transform_decodes(t: Transform, last: bool, b: Seq<u8>, p: int, end: int)
    requires
        transform_round_trips(t),
        0 <= p,
        p + transform_len(t) <= end <= b.len(),
        b.subrange(p, p + transform_len(t)) == transform_bytes(t, last),
    ensures
        transform_error(b.subrange(p, end)) is None,
        transform_at(b.subrange(p, end)) == t,
        u16_at(b.subrange(p, end), 2) == transform_len(t),
        b[p] == (if last { 0u8 } else { 3u8 }),
{
    let tl = transform_len(t) as int;
    let tb = b.subrange(p, end);
    let x = transform_bytes(t, last);
    lemma_be16_len(tl as u16);
    lemma_be16_len(t.transform_id);
    lemma_be16_len(0x800E);
    let kv: u16 = if has_key_attr(t) { ((t.key_len->0 % 65536) * 8) as u16 } else { 0 };
    lemma_be16_len(kv);
    assert(x.len() == tl);
    assert(tb.subrange(0, tl) =~= x);
    assert(b[p] == x[0]);
    assert(tb[4] == x[4]);
    assert(x[4] == t.transform_type.code());
    lemma_transform_type_of(t.transform_type);
    assert(tb.subrange(2, 4) =~= x.subrange(2, 4));
    assert(x.subrange(2, 4) =~= be16(tl as u16));
    lemma_u16_of(tb, 2, tl as u16);
    assert(tb.subrange(6, 8) =~= x.subrange(6, 8));
    assert(x.subrange(6, 8) =~= be16(t.transform_id));
    lemma_u16_of(tb, 6, t.transform_id);
    if has_key_attr(t) {
        let k = t.key_len->0;
        assert(x.subrange(8, 10) =~= be16(0x800E));
        lemma_u16_of(x, 8, 0x800E);
        assert(x.subrange(10, 12) =~= be16(kv));
        lemma_u16_of(x, 10, kv);
        assert(kv == k * 8);
        assert((0x800Eu16 & 0x8000u16) != 0 && (0x800Eu16 & 0x7FFFu16) == 14) by (bit_vector);
        assert(attr_key(x, 12, Some((kv / 8) as usize)) == Some((kv / 8) as usize));
        assert(attr_key(x, 8, None) == Some(k));
    } else {
        assert(attr_key(x, 8, None) == None::<usize>);
    }
}

proof fn lemma_transform_bytes_len(t: Transform, last: bool)
    ensures
        transform_bytes(t, last).len() == transform_len(t),
{
    lemma_be16_len(transform_len(t) as u16);
    lemma_be16_len(t.transform_id);
    lemma_be16_len(0x800E);
    if has_key_attr(t) {
        lemma_be16_len(((t.key_len->0 % 65536) * 8) as u16);
    }
}

/// The octets of the first `m` transforms begin those of the first `n`.
proof fn lemma_transforms_upto_prefix(ts: Seq<Transform>, m: nat, n: nat)
    requires
        m <= n,
    ensures
        transforms_upto(ts, m).len() <= transforms_upto(ts, n).len(),
        transforms_upto(ts, n).subrange(0, transforms_upto(ts, m).len() as int) == transforms_upto(ts, m),
    decreases n,
{
    if m == n {
        assert(transforms_upto(ts, n).subrange(0, transforms_upto(ts, n).len() as int) =~= transforms_upto(ts, n));
    } else {
        lemma_transforms_upto_prefix(ts, m, (n - 1) as nat);
        let a = transforms_upto(ts, (n - 1) as nat);
        let l = transforms_upto(ts, m).len() as int;
        assert((a + transform_bytes(ts[n - 1], n == ts.len())).subrange(0, l) =~= a.subrange(0, l));
    }
}

/// The transforms `ts` written from `p0` within `b[..end]` read back from the
/// `i`-th on, ending where their octets end.
proof fn lemma_transforms_decode(ts: Seq<Transform>, b: Seq<u8>, p0: int, end: int, i: nat)
    requires
        forall|j: int| 0 <= j < ts.len() ==> transform_round_trips(#[trigger] ts[j]),
        i < ts.len(),
        0 <= p0,
        p0 + transforms_upto(ts, ts.len()).len() <= end <= b.len(),
        b.subrange(p0, p0 + transforms_upto(ts, ts.len()).len()) == transforms_upto(ts, ts.len()),
    ensures
        transforms_from(b, p0 + transforms_upto(ts, i).len(), end, (ts.len() - i) as nat) == Ok::<
            (Seq<Transform>, int),
            Error,
        >((ts.subrange(i as int, ts.len() as int), p0 + transforms_upto(ts, ts.len()).len())),
    decreases ts.len() - i,
{
    let n = ts.len();
    let u = transforms_upto(ts, n);
    let a = transforms_upto(ts, i);
    let piece = transform_bytes(ts[i as int], i + 1 == n);
    let pi = p0 + a.len();
    lemma_transform_bytes_len(ts[i as int], i + 1 == n);
    lemma_transforms_upto_prefix(ts, (i + 1) as nat, n);
    let a1 = transforms_upto(ts, (i + 1) as nat);
    assert(a1 == a + piece);
    let tl = transform_len(ts[i as int]) as int;
    assert(b.subrange(pi, pi + tl) =~= piece) by {
        assert forall|k: int| 0 <= k < tl implies #[trigger] b.subrange(pi, pi + tl)[k] == piece[k] by {
            assert(b.subrange(p0, p0 + u.len())[a.len() + k] == u[a.len() + k]);
            assert(u.subrange(0, a1.len() as int)[a.len() + k] == a1[a.len() + k]);
        }
    }
    lemma_transform_decodes(ts[i as int], i + 1 == n, b, pi, end);
    let q = pi + tl;
    assert(q == p0 + a1.len());
    if i + 1 == n {
        assert(a1 == u);
        assert(ts.subrange(i as int, n as int) =~= seq![ts[i as int]]);
    } else {
        lemma_transforms_decode(ts, b, p0, end, (i + 1) as nat);
        assert(seq![ts[i as int]] + ts.subrange((i + 1) as int, n as int) =~= ts.subrange(i as int, n as int));
    }
}

proof fn lemma_proposal_bytes_len(p: Proposal, last: bool)
    ensures
        proposal_bytes(p, last).len() == proposal_len(p),
{
    lemma_be16_len(proposal_len(p) as u16);
}

/// The octets of the first `m` proposals begin those of the first `n`.
proof fn lemma_proposals_upto_prefix(ps: Seq<Proposal>, m: nat, n: nat)
    requires
        m <= n,
    ensures
        proposals_upto(ps, m).len() <= proposals_upto(ps, n).len(),
        proposals_upto(ps, n).subrange(0, proposals_upto(ps, m).len() as int) == proposals_upto(ps, m),
    decreases n,
{
    if m == n {
        assert(proposals_upto(ps, n).subrange(0, proposals_upto(ps, n).len() as int) =~= proposals_upto(ps, n));
    } else {
        lemma_proposals_upto_prefix(ps, m, (n - 1) as nat);
        let a = proposals_upto(ps, (n - 1) as nat);
        let l = proposals_upto(ps, m).len() as int;
        assert((a + proposal_bytes(ps[n - 1], n == ps.len())).subrange(0, l) =~= a.subrange(0, l));
    }
}

/// Where the `i`-th proposal of `sa` stands in the encoding, and what its
/// header octets, SPI and transforms read as.
#[verifier::spinoff_prover]
#[verifier::rlimit(100)]
proof fn lemma_proposal_fields(sa: SaPayload, i: nat)
    requires
        sa_round_trips(sa),
        i < sa.proposals@.len(),
    ensures
        ({
            let ps = sa.proposals@;
            let b = proposals_bytes(ps);
            let off = proposals_upto(ps, i).len() as int;
            let p = ps[i as int];
            let plen = proposal_len(p) as int;
            let spi_end = off + 8 + p.spi@.len();
            &&& 8 <= plen
            &&& off + plen <= b.len()
            &&& proposals_upto(ps, (i + 1) as nat).len() == off + plen
            &&& p.spi@.len() <= plen - 8
            &&& u16_at(b, off + 2) == plen
            &&& b[off + 4] == p.proposal_num
            &&& b[off + 5] == p.protocol.code()
            &&& b[off + 6] == p.spi@.len()
            &&& b[off + 7] == p.transforms@.len()
            &&& b.subrange(off + 8, spi_end) == p.spi@
            &&& transforms_from(b, spi_end, off + plen, p.transforms@.len() as nat) matches Ok((x, _))
                && x == p.transforms@
        }),
{
    let ps = sa.proposals@;
    let n = ps.len();
    let b = proposals_bytes(ps);
    let off = proposals_upto(ps, i).len() as int;
    let p = ps[i as int];
    let last = i + 1 == n;
    let piece = proposal_bytes(p, last);
    let plen = proposal_len(p) as int;
    lemma_proposal_bytes_len(p, last);
    lemma_proposals_upto_prefix(ps, (i + 1) as nat, n);
    let a1 = proposals_upto(ps, (i + 1) as nat);
    assert(a1 == proposals_upto(ps, i) + piece);
    assert(b.subrange(off, off + plen) =~= piece) by {
        assert forall|k: int| 0 <= k < plen implies #[trigger] b.subrange(off, off + plen)[k] == piece[k] by {
            assert(b.subrange(0, a1.len() as int)[off + k] == a1[off + k]);
        }
    }
    assert(p.spi@.len() < 256 && p.transforms@.len() < 256 && plen < 65536);
    let ts = p.transforms@;
    let t_all = transforms_upto(ts, ts.len());
    let spi = p.spi@;
    lemma_be16_len(plen as u16);
    let hdr = seq![if last { 0u8 } else { 2u8 }, 0u8] + be16(plen as u16) + seq![
        p.proposal_num,
        p.protocol.code(),
        (spi.len() % 256) as u8,
        (ts.len() % 256) as u8,
    ];
    assert(piece == hdr + spi + t_all);
    assert(b.subrange(off + 2, off + 4) =~= be16(plen as u16)) by {
        assert(b.subrange(off + 2, off + 4) =~= piece.subrange(2, 4));
        assert(piece.subrange(2, 4) =~= hdr.subrange(2, 4));
    }
    lemma_u16_of(b, off + 2, plen as u16);
    assert(b[off + 4] == piece[4]);
    assert(b[off + 5] == piece[5]);
    assert(b[off + 6] == piece[6]);
    assert(b[off + 7] == piece[7]);
    assert(b[off + 5] == p.protocol.code());
    assert(b[off + 6] == spi.len());
    assert(b[off + 7] == ts.len());
    lemma_protocol_of(p.protocol);
    let end = off + plen;
    let spi_end = off + 8 + spi.len();
    assert(b.subrange(off + 8, spi_end) =~= spi) by {
        assert forall|k: int| 0 <= k < spi.len() implies #[trigger] b.subrange(off + 8, spi_end)[k] == spi[k] by {
            assert(b.subrange(off, off + plen)[8 + k] == piece[8 + k]);
        }
    }
    if ts.len() > 0 {
        assert(forall|j: int| 0 <= j < ts.len() ==> transform_round_trips(#[trigger] ts[j])) by {
            assert forall|j: int| 0 <= j < ts.len() implies transform_round_trips(#[trigger] ts[j]) by {
                assert(transform_round_trips(sa.proposals@[i as int].transforms@[j]));
            }
        }
        assert(b.subrange(spi_end, spi_end + t_all.len()) =~= t_all) by {
            assert forall|k: int| 0 <= k < t_all.len() implies #[trigger] b.subrange(
                spi_end,
                spi_end + t_all.len(),
            )[k] == t_all[k] by {
                assert(b.subrange(off, off + plen)[8 + spi.len() + k] == piece[8 + spi.len() + k]);
            }
        }
        lemma_transforms_decode(ts, b, spi_end, end, 0);
        assert(ts.subrange(0, ts.len() as int) =~= ts);
    } else {
        assert(ts =~= Seq::<Transform>::empty());
    }
    assert(end == a1.len());
    assert(b[off + 4] == p.proposal_num);
}

/// The `i`-th proposal of `sa` reads back as itself, followed by the rest.
#[verifier::spinoff_prover]
proof fn lemma_proposal_step(sa: SaPayload, i: nat)
    requires
        sa_round_trips(sa),
        i < sa.proposals@.len(),
    ensures
        proposals_upto(sa.proposals@, (i + 1) as nat).len() == proposals_upto(sa.proposals@, i).len() + proposal_len(
            sa.proposals@[i as int],
        ),
        proposals_from(proposals_bytes(sa.proposals@), proposals_upto(sa.proposals@, i).len() as int)
            == after_proposals(
            seq![sa.proposals@[i as int]@],
            proposals_from(proposals_bytes(sa.proposals@), proposals_upto(sa.proposals@, (i + 1) as nat).len() as int),
        ),
{
    lemma_proposal_fields(sa, i);
    let ps = sa.proposals@;
    let b = proposals_bytes(ps);
    let off = proposals_upto(ps, i).len() as int;
    let p = ps[i as int];
    lemma_protocol_of(p.protocol);
    let spi_end = off + 8 + p.spi@.len();
    let pm = ProposalModel {
        proposal_num: b[off + 4],
        protocol: protocol_of(b[off + 5]),
        spi: b.subrange(off + 8, spi_end),
        transforms: p.transforms@,
    };
    assert(pm == p@);
    assert(ProtocolId::is_code(b[off + 5]));
}

/// The proposals of `sa` read back from the `i`-th on.
proof fn lemma_proposals_decode(sa: SaPayload, i: nat)
    requires
        sa_round_trips(sa),
        i <= sa.proposals@.len(),
    ensures
        proposals_from(proposals_bytes(sa.proposals@), proposals_upto(sa.proposals@, i).len() as int) == Ok::<
            Seq<ProposalModel>,
            Error,
        >(proposal_models(sa.proposals@).subrange(i as int, sa.proposals@.len() as int)),
    decreases sa.proposals@.len() - i,
{
    let ps = sa.proposals@;
    let n = ps.len();
    lemma_proposals_upto_prefix(ps, i, n);
    if i == n {
        assert(proposal_models(ps).subrange(n as int, n as int) =~= Seq::<ProposalModel>::empty());
    } else {
        lemma_proposal_step(sa, i);
        lemma_proposals_decode(sa, (i + 1) as nat);
        assert(seq![ps[i as int]@] + proposal_models(ps).subrange((i + 1) as int, n as int) =~= proposal_models(
            ps,
        ).subrange(i as int, n as int));
    }
}

/// Decoding the encoding of an SA body gives its proposals back, for an SA
/// whose fields the wire format carries unchanged (which the encoder
/// accepts).
pub proof fn lemma_sa_round_trip(sa: SaPayload)
    requires
        sa_round_trips(sa),
    ensures
        sa_encodable(sa),
        proposals_from(proposals_bytes(sa.proposals@), 0) == Ok::<Seq<ProposalModel>, Error>(
            proposal_models(sa.proposals@),
        ),
{
    assert forall|i: int, j: int|
        0 <= i < sa.proposals@.len() && 0 <= j < sa.proposals@[i].transforms@.len() implies key_attr_fits(
        #[trigger] sa.proposals@[i].transforms@[j],
    ) by {
        assert(transform_round_trips(sa.proposals@[i].transforms@[j]));
    }
    lemma_proposals_decode(sa, 0);
    assert(proposal_models(sa.proposals@).subrange(0, sa.proposals@.len() as int) =~= proposal_models(
        sa.proposals@,
    ));
}

} // verus!
