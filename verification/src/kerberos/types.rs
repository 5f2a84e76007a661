//! Kerberos structures, most carried under an `[n] IMPLICIT` context tag:
//! `EncryptedData` (RFC 4120 §5.2.9) and `Checksum` (§5.2.10), the
//! `(Int32, OCTET STRING)` pairs `PA-DATA` (§5.2.7) and `EncryptionKey`
//! (§5.2.9), the `Ticket` and `EncTicketPart` (§5.3), the `KDC-REQ-BODY`,
//! `KDC-REQ` and `KDC-REP` (§5.4.1, §5.4.2), and the `EncKDCRepPart`
//! (§5.4.2) with its last-request entries and host addresses.
//!
//! Each encoder is stated as the octets it writes, and each decoder as the
//! value it reads from an element, element by element, with the fault it
//! reports first.

use vstd::prelude::*;
use crate::kerberos::asn1::{
    lemma_der_tlv, lemma_int32_der, kstrings_der, Tlv, Cursor, der, int32_der, spec_der_tlv, spec_der_single, spec_int32, spec_uint32, malformed,
    unexpected_tag, int32, octet_string, sequence, implicit_octet_string, parts_view, concat, read_single,
    ensure_tag, decode_int32, decode_u32, lemma_concat2, lemma_concat_push, set_of, sorted_parts,
    PrincipalName, PrincipalNameModel, spec_kstring, kstring_der, principal_name_der, spec_principal_name_of,
    read_kerberos_string, realm, app_tag, tlv, lemma_principal_name_round_trip, lemma_kstring_read,
    spec_peel, peel_explicit, be_value_small, spec_ktime, read_kerberos_time, kerberos_time, ctx, integer_u32,
    uint32_der, tlvs_view, time_text,
};
use crate::digits::be_value;
use vstd::utf8::encode_utf8;
use crate::kerberos::error::Error;

verus! {

/// The identifier octet of `[n] IMPLICIT` over a primitive type.
pub open spec fn implicit_tag(n: u8) -> u8 {
    (0x80 + n % 32) as u8
}

/// Whether `t` is the identifier of `[n]` (primitive). Tag numbers from 31 on
/// take more than one octet, so no one-octet identifier is theirs.
pub open spec fn is_implicit_tag(t: u8, n: u8) -> bool {
    n < 31 && t == 0x80 + n
}

/// An element of `b` ends after its header, and within `b`.
proof fn lemma_tlv_bounds(b: Seq<u8>)
    requires
        spec_der_tlv(b) is Some,
    ensures
        ({
            let (t, h, e) = spec_der_tlv(b)->Some_0;
            2 <= h <= e <= b.len()
        }),
{
}

/// Check that `t` is the identifier of `[n]` (primitive).
fn ensure_implicit(t: u8, n: u8) -> (r: Result<(), Error>)
    ensures
        r == if is_implicit_tag(t, n) {
            Ok::<(), Error>(())
        } else {
            Err::<(), Error>(unexpected_tag())
        },
{
    if n >= 31 {
        return Err(Error::Asn1("unexpected DER tag"));
    }
    assert(0x80u8 | n == 0x80 + n) by (bit_vector)
        requires
            n < 31,
    ;
    ensure_tag(t, 0x80 | n)
}

// ---------------------------------------------------------------------------
// EncryptedData
// ---------------------------------------------------------------------------

/// `EncryptedData` — `SEQUENCE { etype Int32, kvno UInt32 OPTIONAL, cipher
/// OCTET STRING }`.
#[derive(Debug, Clone, PartialEq, Eq)]
pub struct EncryptedData {
    /// The encryption type.
    pub etype: i32,
    /// The key version number, if given.
    pub kvno: Option<u32>,
    /// The ciphertext.
    pub cipher: Vec<u8>,
}

/// The value of an `EncryptedData`.
pub struct EncryptedDataModel {
    pub etype: i32,
    pub kvno: Option<u32>,
    pub cipher: Seq<u8>,
}

impl View for EncryptedData {
    type V = EncryptedDataModel;

    open spec fn view(&self) -> EncryptedDataModel {
        EncryptedDataModel { etype: self.etype, kvno: self.kvno, cipher: self.cipher@ }
    }
}

/// The element written for a key version number: an `Int32` of its bits, or
/// nothing.
pub open spec fn kvno_der(k: Option<u32>) -> Seq<u8> {
    match k {
        Some(v) => int32_der(v as i32),
        None => Seq::empty(),
    }
}

/// The encoding of an `EncryptedData` under `[n] IMPLICIT`.
pub open spec fn encrypted_data_der(n: u8, m: EncryptedDataModel) -> Seq<u8> {
    der(implicit_tag(n), der(0x30, int32_der(m.etype) + kvno_der(m.kvno) + der(0x04, m.cipher)))
}

/// The fault for an element that has no place in an `EncryptedData`.
pub open spec fn encrypted_data_field() -> Error {
    Error::Unexpected("EncryptedData field")
}

/// What the elements after `etype` in `b` give, read in order: an `INTEGER`
/// sets the key version, an `OCTET STRING` the ciphertext (a later one wins),
/// and anything else is a fault. `kvno` and `cipher` are what was read
/// before `b`.
pub open spec fn spec_encrypted_fields(b: Seq<u8>, kvno: Option<u32>, cipher: Seq<u8>) -> Result<
    (Option<u32>, Seq<u8>),
    Error,
>
    decreases b.len(),
{
    if b.len() == 0 {
        Ok((kvno, cipher))
    } else {
        match spec_der_tlv(b) {
            None => Err(malformed()),
            Some((t, h, e)) => if e == 0 || e > b.len() {
                Err(malformed())
            } else {
                let rest = b.subrange(e as int, b.len() as int);
                let c = b.subrange(h as int, e as int);
                if t == 0x02 {
                    match spec_uint32((t, c)) {
                        Err(x) => Err(x),
                        Ok(k) => spec_encrypted_fields(rest, Some(k), cipher),
                    }
                } else if t == 0x04 {
                    spec_encrypted_fields(rest, kvno, c)
                } else {
                    Err(encrypted_data_field())
                }
            },
        }
    }
}

/// The `EncryptedData` of type `etype` with the fields `f` read after it; the
/// ciphertext must not be empty.
pub open spec fn encrypted_data_with(etype: i32, f: Result<(Option<u32>, Seq<u8>), Error>) -> Result<
    EncryptedDataModel,
    Error,
> {
    match f {
        Err(e) => Err(e),
        Ok((kvno, cipher)) => if cipher.len() == 0 {
            Err(Error::MissingField("EncryptedData.cipher"))
        } else {
            Ok(EncryptedDataModel { etype, kvno, cipher })
        },
    }
}

/// The `EncryptedData` that the `[n] IMPLICIT` element `x` holds, or the
/// first fault: the tag, the one `SEQUENCE` inside, its leading `etype`, the
/// fields after it, and a ciphertext that must not be empty.
pub open spec fn spec_encrypted_data_of(n: u8, x: (u8, Seq<u8>)) -> Result<EncryptedDataModel, Error> {
    if !is_implicit_tag(x.0, n) {
        Err(unexpected_tag())
    } else {
        match spec_der_single(x.1) {
            None => Err(malformed()),
            Some((t, c)) => if t != 0x30 {
                Err(unexpected_tag())
            } else {
                match spec_der_tlv(c) {
                    None => Err(malformed()),
                    Some((t1, h1, e1)) => match spec_int32((t1, c.subrange(h1 as int, e1 as int))) {
                        Err(e) => Err(e),
                        Ok(etype) => encrypted_data_with(
                            etype,
                            spec_encrypted_fields(c.subrange(e1 as int, c.len() as int), None, Seq::empty()),
                        ),
                    },
                }
            },
        }
    }
}

impl EncryptedData {
    /// Encode as `[n] IMPLICIT SEQUENCE { etype, kvno?, cipher }`.
    pub fn encode_implicit(&self, n: u8) -> (r: Vec<u8>)
        ensures
            r@ == encrypted_data_der(n, self@),
    {
        let mut parts: Vec<Vec<u8>> = Vec::new();
        let e = int32(self.etype);
        parts.push(e);
        let ghost kv: Seq<u8> = kvno_der(self.kvno);
        match self.kvno {
            Some(k) => {
                let kb = int32(k as i32);
                parts.push(kb);
            },
            None => {},
        }
        let cb = octet_string(self.cipher.as_slice());
        proof {
            let pv = parts_view(parts@);
            match self.kvno {
                Some(k) => {
                    assert(pv =~= seq![e@, kv]);
                    lemma_concat2(e@, kv);
                },
                None => {
                    assert(pv =~= seq![e@]);
                    assert(seq![e@] =~= Seq::<Seq<u8>>::empty().push(e@));
                    lemma_concat_push(Seq::<Seq<u8>>::empty(), e@);
                    assert(concat(Seq::<Seq<u8>>::empty()) =~= Seq::<u8>::empty());
                    assert(concat(pv) =~= e@ + kv);
                },
            }
            lemma_concat_push(pv, cb@);
            assert(parts_view(parts@.push(cb)) =~= pv.push(cb@));
        }
        parts.push(cb);
        let s = sequence(parts.as_slice());
        proof {
            assert(concat(parts_view(parts@)) =~= int32_der(self.etype) + kv + der(0x04, self.cipher@));
        }
        implicit_octet_string(n, s.as_slice())
    }

    /// Decode the `[n] IMPLICIT` element `any`.
    pub fn decode_implicit(n: u8, any: &Tlv) -> (r: Result<Self, Error>)
        ensures
            match spec_encrypted_data_of(n, any@) {
                Ok(m) => r matches Ok(x) && x@ == m,
                Err(e) => r == Err::<EncryptedData, Error>(e),
            },
    {
        match ensure_implicit(any.tag, n) {
            Ok(()) => {},
            Err(e) => return Err(e),
        }
        let seq = match read_single(any.value.as_slice()) {
            Ok(x) => x,
            Err(e) => return Err(e),
        };
        match ensure_tag(seq.tag, 0x30) {
            Ok(()) => {},
            Err(e) => return Err(e),
        }
        let mut cur = Cursor::new(seq.value.as_slice());
        let first = match cur.take() {
            Ok(x) => x,
            Err(e) => return Err(e),
        };
        let etype = match decode_int32(&first) {
            Ok(v) => v,
            Err(e) => return Err(e),
        };
        let ghost start: Seq<u8> = cur@;
        let mut kvno: Option<u32> = None;
        let mut cipher: Vec<u8> = Vec::new();
        while !cur.at_end()
            invariant
                spec_encrypted_data_of(n, any@) == encrypted_data_with(
                    etype,
                    spec_encrypted_fields(start, None, Seq::empty()),
                ),
                spec_encrypted_fields(start, None, Seq::empty()) == spec_encrypted_fields(
                    cur@,
                    kvno,
                    cipher@,
                ),
            decreases cur@.len(),
        {
            let ghost before: Seq<u8> = cur@;
            let a = match cur.take() {
                Ok(x) => x,
                Err(e) => return Err(e),
            };
            proof {
                lemma_tlv_bounds(before);
            }
            if a.tag == 0x02 {
                let k = match decode_u32(&a) {
                    Ok(v) => v,
                    Err(e) => return Err(e),
                };
                kvno = Some(k);
            } else if a.tag == 0x04 {
                cipher = a.value.clone();
            } else {
                return Err(Error::Unexpected("EncryptedData field"));
            }
        }
        if cipher.len() == 0 {
            return Err(Error::MissingField("EncryptedData.cipher"));
        }
        Ok(EncryptedData { etype, kvno, cipher })
    }
}

// ---------------------------------------------------------------------------
// Checksum
// ---------------------------------------------------------------------------

/// `Checksum` — `SEQUENCE { cksumtype Int32, checksum OCTET STRING }`.
#[derive(Debug, Clone, PartialEq, Eq)]
pub struct Checksum {
    /// The checksum type.
    pub cksumtype: i32,
    /// The checksum octets.
    pub checksum: Vec<u8>,
}

/// The value of a `Checksum`.
pub struct ChecksumModel {
    pub cksumtype: i32,
    pub checksum: Seq<u8>,
}

impl View for Checksum {
    type V = ChecksumModel;

    open spec fn view(&self) -> ChecksumModel {
        ChecksumModel { cksumtype: self.cksumtype, checksum: self.checksum@ }
    }
}

/// The encoding of a `Checksum` under `[n] IMPLICIT`.
pub open spec fn checksum_der(n: u8, m: ChecksumModel) -> Seq<u8> {
    der(implicit_tag(n), pair_der(m.cksumtype, m.checksum))
}

/// The `(Int32, OCTET STRING)` pair that the `SEQUENCE` element `x` holds,
/// or the first fault: the tag, the leading `Int32` and the `OCTET STRING`
/// that follows it (anything after that is not read).
pub open spec fn spec_pair_of(x: (u8, Seq<u8>)) -> Result<(i32, Seq<u8>), Error> {
    if x.0 != 0x30 {
        Err(unexpected_tag())
    } else {
        let c = x.1;
        match spec_der_tlv(c) {
            None => Err(malformed()),
            Some((t1, h1, e1)) => match spec_int32((t1, c.subrange(h1 as int, e1 as int))) {
                Err(e) => Err(e),
                Ok(v) => {
                    let rest = c.subrange(e1 as int, c.len() as int);
                    match spec_der_tlv(rest) {
                        None => Err(malformed()),
                        Some((t2, h2, e2)) => if t2 != 0x04 {
                            Err(unexpected_tag())
                        } else {
                            Ok((v, rest.subrange(h2 as int, e2 as int)))
                        },
                    }
                },
            },
        }
    }
}

/// The encoding of an `(Int32, OCTET STRING)` pair as a `SEQUENCE`.
pub open spec fn pair_der(v: i32, o: Seq<u8>) -> Seq<u8> {
    der(0x30, int32_der(v) + der(0x04, o))
}

/// The pair inside the `[n] IMPLICIT` element `x`: the tag, then the one
/// `SEQUENCE` it holds.
pub open spec fn spec_implicit_pair_of(n: u8, x: (u8, Seq<u8>)) -> Result<(i32, Seq<u8>), Error> {
    if !is_implicit_tag(x.0, n) {
        Err(unexpected_tag())
    } else {
        match spec_der_single(x.1) {
            None => Err(malformed()),
            Some(y) => spec_pair_of(y),
        }
    }
}

/// Encode an `(Int32, OCTET STRING)` pair as a `SEQUENCE`.
fn encode_pair(v: i32, o: &[u8]) -> (r: Vec<u8>)
    ensures
        r@ == pair_der(v, o@),
{
    let t = int32(v);
    let c = octet_string(o);
    let parts = vec![t, c];
    proof {
        assert(parts_view(parts@) =~= seq![parts@[0]@, parts@[1]@]);
        lemma_concat2(parts@[0]@, parts@[1]@);
    }
    sequence(parts.as_slice())
}

/// Read an `(Int32, OCTET STRING)` pair from the `SEQUENCE` element `seq`.
fn decode_pair(seq: &Tlv) -> (r: Result<(i32, Vec<u8>), Error>)
    ensures
        match spec_pair_of(seq@) {
            Ok((v, o)) => r matches Ok((a, b)) && a == v && b@ == o,
            Err(e) => r == Err::<(i32, Vec<u8>), Error>(e),
        },
{
    match ensure_tag(seq.tag, 0x30) {
        Ok(()) => {},
        Err(e) => return Err(e),
    }
    let mut cur = Cursor::new(seq.value.as_slice());
    let first = match cur.take() {
        Ok(x) => x,
        Err(e) => return Err(e),
    };
    let v = match decode_int32(&first) {
        Ok(v) => v,
        Err(e) => return Err(e),
    };
    let o = match cur.take() {
        Ok(x) => x,
        Err(e) => return Err(e),
    };
    match ensure_tag(o.tag, 0x04) {
        Ok(()) => {},
        Err(e) => return Err(e),
    }
    Ok((v, o.value))
}

/// Read the pair inside the `[n] IMPLICIT` element `any`.
fn decode_implicit_pair(n: u8, any: &Tlv) -> (r: Result<(i32, Vec<u8>), Error>)
    ensures
        match spec_implicit_pair_of(n, any@) {
            Ok((v, o)) => r matches Ok((a, b)) && a == v && b@ == o,
            Err(e) => r == Err::<(i32, Vec<u8>), Error>(e),
        },
{
    match ensure_implicit(any.tag, n) {
        Ok(()) => {},
        Err(e) => return Err(e),
    }
    let seq = match read_single(any.value.as_slice()) {
        Ok(x) => x,
        Err(e) => return Err(e),
    };
    decode_pair(&seq)
}

/// The `Checksum` that the `[n] IMPLICIT` element `x` holds, or the first
/// fault.
pub open spec fn spec_checksum_of(n: u8, x: (u8, Seq<u8>)) -> Result<ChecksumModel, Error> {
    match spec_implicit_pair_of(n, x) {
        Err(e) => Err(e),
        Ok((t, c)) => Ok(ChecksumModel { cksumtype: t, checksum: c }),
    }
}

impl Checksum {
    /// Encode as `[n] IMPLICIT SEQUENCE { cksumtype, checksum }`.
    pub fn encode_implicit(&self, n: u8) -> (r: Vec<u8>)
        ensures
            r@ == checksum_der(n, self@),
    {
        let s = encode_pair(self.cksumtype, self.checksum.as_slice());
        implicit_octet_string(n, s.as_slice())
    }

    /// Decode the `[n] IMPLICIT` element `any`.
    pub fn decode_implicit(n: u8, any: &Tlv) -> (r: Result<Self, Error>)
        ensures
            match spec_checksum_of(n, any@) {
                Ok(m) => r matches Ok(x) && x@ == m,
                Err(e) => r == Err::<Checksum, Error>(e),
            },
    {
        match decode_implicit_pair(n, any) {
            Ok((cksumtype, checksum)) => Ok(Checksum { cksumtype, checksum }),
            Err(e) => Err(e),
        }
    }
}

// ---------------------------------------------------------------------------
// PA-DATA
// ---------------------------------------------------------------------------

/// `PA-DATA` — `SEQUENCE { padata-type Int32, padata-value OCTET STRING }`
/// (RFC 4120 §5.2.7).
#[derive(Debug, Clone, PartialEq, Eq)]
pub struct PaData {
    /// The pre-authentication type.
    pub padata_type: i32,
    /// The pre-authentication value.
    pub padata_value: Vec<u8>,
}

/// The value of a `PA-DATA`.
pub struct PaDataModel {
    pub padata_type: i32,
    pub padata_value: Seq<u8>,
}

impl View for PaData {
    type V = PaDataModel;

    open spec fn view(&self) -> PaDataModel {
        PaDataModel { padata_type: self.padata_type, padata_value: self.padata_value@ }
    }
}

impl PaData {
    /// The DER encoding of this `PA-DATA`.
    pub fn encode(&self) -> (r: Vec<u8>)
        ensures
            r@ == pair_der(self.padata_type, self.padata_value@),
    {
        encode_pair(self.padata_type, self.padata_value.as_slice())
    }

    /// Read a `PA-DATA` from the next element of `cur`.
    pub fn decode(cur: &mut Cursor<'_>) -> (r: Result<Self, Error>)
        ensures
            match spec_der_tlv(old(cur)@) {
                None => r == Err::<PaData, Error>(malformed()) && final(cur)@ == old(cur)@,
                Some((t, h, e)) => final(cur)@ == old(cur)@.subrange(e as int, old(cur)@.len() as int)
                    && match spec_pair_of((t, old(cur)@.subrange(h as int, e as int))) {
                    Ok((v, o)) => r matches Ok(x) && x@ == PaDataModel { padata_type: v, padata_value: o },
                    Err(x) => r == Err::<PaData, Error>(x),
                },
            },
    {
        let seq = match cur.take() {
            Ok(x) => x,
            Err(e) => return Err(e),
        };
        match decode_pair(&seq) {
            Ok((padata_type, padata_value)) => Ok(PaData { padata_type, padata_value }),
            Err(e) => Err(e),
        }
    }
}

/// The encodings of some `PA-DATA`.
pub open spec fn pa_ders(l: Seq<PaData>) -> Seq<Seq<u8>> {
    Seq::new(l.len(), |i: int| pair_der(l[i].padata_type, l[i].padata_value@))
}

/// The values of some `PA-DATA`.
pub open spec fn pa_views(l: Seq<PaData>) -> Seq<PaDataModel> {
    Seq::new(l.len(), |i: int| l[i]@)
}

/// A `SET OF PA-DATA`: the encodings in DER order.
pub fn encode_pa_data(list: &[PaData]) -> (r: Vec<u8>)
    ensures
        r@ == der(0x31, concat(sorted_parts(pa_ders(list@)))),
{
    let mut parts: Vec<Vec<u8>> = Vec::new();
    let mut i: usize = 0;
    while i < list.len()
        invariant
            i <= list@.len(),
            parts_view(parts@) == pa_ders(list@).subrange(0, i as int),
        decreases list.len() - i,
    {
        let e = list[i].encode();
        proof {
            assert(parts_view(parts@.push(e)) =~= parts_view(parts@).push(e@));
            assert(pa_ders(list@).subrange(0, i + 1) =~= pa_ders(list@).subrange(0, i as int).push(e@));
        }
        parts.push(e);
        i = i + 1;
    }
    assert(pa_ders(list@).subrange(0, i as int) =~= pa_ders(list@));
    set_of(parts.as_slice())
}

/// The `PA-DATA` that the elements of `b` hold, read in order, or the first
/// fault.
pub open spec fn spec_pa_list(b: Seq<u8>) -> Result<Seq<PaDataModel>, Error>
    decreases b.len(),
{
    if b.len() == 0 {
        Ok(Seq::empty())
    } else {
        match spec_der_tlv(b) {
            None => Err(malformed()),
            Some((t, h, e)) => if e == 0 || e > b.len() {
                Err(malformed())
            } else {
                match spec_pair_of((t, b.subrange(h as int, e as int))) {
                    Err(x) => Err(x),
                    Ok((v, o)) => match spec_pa_list(b.subrange(e as int, b.len() as int)) {
                        Err(x) => Err(x),
                        Ok(rest) => Ok(seq![PaDataModel { padata_type: v, padata_value: o }] + rest),
                    },
                }
            },
        }
    }
}

/// The `PA-DATA` that a `SET OF PA-DATA` element holds.
pub open spec fn spec_pa_data_of(x: (u8, Seq<u8>)) -> Result<Seq<PaDataModel>, Error> {
    if x.0 != 0x31 {
        Err(unexpected_tag())
    } else {
        spec_pa_list(x.1)
    }
}

/// Read a `SET OF PA-DATA` element.
pub fn decode_pa_data(any: &Tlv) -> (r: Result<Vec<PaData>, Error>)
    ensures
        match spec_pa_data_of(any@) {
            Ok(v) => r matches Ok(x) && pa_views(x@) == v,
            Err(e) => r == Err::<Vec<PaData>, Error>(e),
        },
{
    match ensure_tag(any.tag, 0x31) {
        Ok(()) => {},
        Err(e) => return Err(e),
    }
    let mut cur = Cursor::new(any.value.as_slice());
    let mut out: Vec<PaData> = Vec::new();
    proof {
        assert(pa_views(out@) =~= Seq::<PaDataModel>::empty());
        match spec_pa_list(any@.1) {
            Ok(rest) => assert(pa_views(out@) + rest =~= rest),
            Err(_) => {},
        }
    }
    while !cur.at_end()
        invariant
            spec_pa_data_of(any@) == match spec_pa_list(cur@) {
                Ok(rest) => Ok(pa_views(out@) + rest),
                Err(e) => Err::<Seq<PaDataModel>, Error>(e),
            },
        decreases cur@.len(),
    {
        let ghost before: Seq<u8> = cur@;
        proof {
            if spec_der_tlv(before) is Some {
                lemma_tlv_bounds(before);
            }
        }
        let p = match PaData::decode(&mut cur) {
            Ok(x) => x,
            Err(e) => return Err(e),
        };
        proof {
            match spec_pa_list(cur@) {
                Ok(rest) => {
                    assert(pa_views(out@.push(p)) =~= pa_views(out@).push(p@));
                    assert(pa_views(out@) + (seq![p@] + rest) =~= pa_views(out@.push(p)) + rest);
                },
                Err(_) => {},
            }
        }
        out.push(p);
    }
    proof {
        assert(pa_views(out@) + Seq::<PaDataModel>::empty() =~= pa_views(out@));
    }
    Ok(out)
}

// ---------------------------------------------------------------------------
// EncryptionKey
// ---------------------------------------------------------------------------

/// `EncryptionKey` — `SEQUENCE { keytype Int32, keyvalue OCTET STRING }`
/// (RFC 4120 §5.2.9).
#[derive(Debug, Clone, PartialEq, Eq)]
pub struct EncryptionKey {
    /// The key's encryption type.
    pub keytype: i32,
    /// The key octets.
    pub keyvalue: Vec<u8>,
}

/// The value of an `EncryptionKey`.
pub struct EncryptionKeyModel {
    pub keytype: i32,
    pub keyvalue: Seq<u8>,
}

impl View for EncryptionKey {
    type V = EncryptionKeyModel;

    open spec fn view(&self) -> EncryptionKeyModel {
        EncryptionKeyModel { keytype: self.keytype, keyvalue: self.keyvalue@ }
    }
}

impl EncryptionKey {
    /// The DER encoding of this key.
    pub fn encode(&self) -> (r: Vec<u8>)
        ensures
            r@ == pair_der(self.keytype, self.keyvalue@),
    {
        encode_pair(self.keytype, self.keyvalue.as_slice())
    }

    /// Encode as `[n] IMPLICIT SEQUENCE { keytype, keyvalue }`.
    pub fn encode_key_implicit(&self, n: u8) -> (r: Vec<u8>)
        ensures
            r@ == der(implicit_tag(n), pair_der(self.keytype, self.keyvalue@)),
    {
        let s = self.encode();
        implicit_octet_string(n, s.as_slice())
    }

    /// Decode the `[n] IMPLICIT` element `any`.
    pub fn decode_implicit(n: u8, any: &Tlv) -> (r: Result<Self, Error>)
        ensures
            match spec_implicit_pair_of(n, any@) {
                Ok((t, v)) => r matches Ok(x) && x@ == EncryptionKeyModel { keytype: t, keyvalue: v },
                Err(e) => r == Err::<EncryptionKey, Error>(e),
            },
    {
        match decode_implicit_pair(n, any) {
            Ok((keytype, keyvalue)) => Ok(EncryptionKey { keytype, keyvalue }),
            Err(e) => Err(e),
        }
    }
}

// ---------------------------------------------------------------------------
// Ticket
// ---------------------------------------------------------------------------

/// `Ticket` — `[APPLICATION 1] SEQUENCE { tkt-vno Int32, realm Realm, sname
/// PrincipalName, enc-part [3] EncryptedData }`, written here with its fields
/// in order and untagged but for `enc-part`.
#[derive(Debug, Clone, PartialEq, Eq)]
pub struct Ticket {
    /// The ticket format version.
    pub tkt_vno: i32,
    /// The realm that issued the ticket.
    pub realm: String,
    /// The service the ticket is for.
    pub sname: PrincipalName,
    /// The encrypted part.
    pub enc_part: EncryptedData,
}

/// The value of a `Ticket`.
pub struct TicketModel {
    pub tkt_vno: i32,
    pub realm: Seq<char>,
    pub sname: PrincipalNameModel,
    pub enc_part: EncryptedDataModel,
}

impl View for Ticket {
    type V = TicketModel;

    open spec fn view(&self) -> TicketModel {
        TicketModel { tkt_vno: self.tkt_vno, realm: self.realm@, sname: self.sname@, enc_part: self.enc_part@ }
    }
}

/// The contents of a ticket's `SEQUENCE`.
pub open spec fn ticket_fields_der(m: TicketModel) -> Seq<u8> {
    int32_der(m.tkt_vno) + kstring_der(m.realm) + principal_name_der(m.sname) + encrypted_data_der(3, m.enc_part)
}

/// The encoding of a ticket under `[APPLICATION app]`.
pub open spec fn ticket_der(app: u8, m: TicketModel) -> Seq<u8> {
    der((0x60 + app % 32) as u8, der(0x30, ticket_fields_der(m)))
}

/// The element at the front of `b` and the octets after it.
pub open spec fn spec_next(b: Seq<u8>) -> Option<((u8, Seq<u8>), Seq<u8>)> {
    match spec_der_tlv(b) {
        Some((t, h, e)) => Some(((t, b.subrange(h as int, e as int)), b.subrange(e as int, b.len() as int))),
        None => None,
    }
}

/// The ticket that the contents `c` of its `SEQUENCE` hold, read element by
/// element, or the first fault.
pub open spec fn spec_ticket_fields(c: Seq<u8>) -> Result<TicketModel, Error> {
    match spec_next(c) {
        None => Err(malformed()),
        Some((x, rest)) => match spec_int32(x) {
            Err(e) => Err(e),
            Ok(tkt_vno) => spec_ticket_realm(rest, tkt_vno),
        },
    }
}

/// The rest of a ticket after its `tkt-vno`: the realm, then the rest.
pub open spec fn spec_ticket_realm(c: Seq<u8>, tkt_vno: i32) -> Result<TicketModel, Error> {
    match spec_next(c) {
        None => Err(malformed()),
        Some((x, rest)) => match spec_kstring(x) {
            Err(e) => Err(e),
            Ok(realm) => spec_ticket_sname(rest, tkt_vno, realm),
        },
    }
}

/// The rest of a ticket after its realm: the service name, then the rest.
pub open spec fn spec_ticket_sname(c: Seq<u8>, tkt_vno: i32, realm: Seq<char>) -> Result<TicketModel, Error> {
    match spec_next(c) {
        None => Err(malformed()),
        Some((x, rest)) => match spec_principal_name_of(x) {
            Err(e) => Err(e),
            Ok(sname) => spec_ticket_enc(rest, tkt_vno, realm, sname),
        },
    }
}

/// The rest of a ticket after its service name: the `[3]` encrypted part
/// (anything after it is not read).
pub open spec fn spec_ticket_enc(c: Seq<u8>, tkt_vno: i32, realm: Seq<char>, sname: PrincipalNameModel) -> Result<
    TicketModel,
    Error,
> {
    match spec_next(c) {
        None => Err(malformed()),
        Some((x, _)) => match spec_encrypted_data_of(3, x) {
            Err(e) => Err(e),
            Ok(enc_part) => Ok(TicketModel { tkt_vno, realm, sname, enc_part }),
        },
    }
}

/// The ticket that `value`, the contents of an `[APPLICATION 1]` element,
/// holds: exactly one `SEQUENCE`.
pub open spec fn spec_ticket_value(value: Seq<u8>) -> Result<TicketModel, Error> {
    match spec_der_single(value) {
        None => Err(malformed()),
        Some((t, c)) => if t != 0x30 {
            Err(unexpected_tag())
        } else {
            spec_ticket_fields(c)
        },
    }
}

/// The ticket that the octets `data` hold: exactly one `[APPLICATION 1]`
/// element.
pub open spec fn spec_ticket(data: Seq<u8>) -> Result<TicketModel, Error> {
    match spec_der_single(data) {
        None => Err(malformed()),
        Some((t, v)) => if t != 0x61 {
            Err(unexpected_tag())
        } else {
            spec_ticket_value(v)
        },
    }
}

impl Ticket {
    /// Encode as `[APPLICATION app]` (a ticket is `APPLICATION 1`).
    pub fn encode_application(&self, app: u8) -> (r: Vec<u8>)
        ensures
            r@ == ticket_der(app, self@),
    {
        let v = int32(self.tkt_vno);
        let rl = realm(self.realm.as_str());
        let sn = self.sname.encode();
        let ep = self.enc_part.encode_implicit(3);
        let parts = vec![v, rl, sn, ep];
        proof {
            let pv = parts_view(parts@);
            assert(pv =~= seq![parts@[0]@, parts@[1]@, parts@[2]@].push(parts@[3]@));
            assert(seq![parts@[0]@, parts@[1]@, parts@[2]@] =~= seq![parts@[0]@, parts@[1]@].push(parts@[2]@));
            lemma_concat2(parts@[0]@, parts@[1]@);
            lemma_concat_push(seq![parts@[0]@, parts@[1]@], parts@[2]@);
            lemma_concat_push(seq![parts@[0]@, parts@[1]@, parts@[2]@], parts@[3]@);
            assert(concat(pv) == ticket_fields_der(self@));
        }
        let s = sequence(parts.as_slice());
        let t = app_tag(app);
        tlv(t, s.as_slice())
    }
}

/// Read the ticket that `data` holds: exactly one `[APPLICATION 1]` element.
pub fn decode_ticket(data: &[u8]) -> (r: Result<Ticket, Error>)
    ensures
        match spec_ticket(data@) {
            Ok(m) => r matches Ok(x) && x@ == m,
            Err(e) => r == Err::<Ticket, Error>(e),
        },
{
    let outer = match read_single(data) {
        Ok(x) => x,
        Err(e) => return Err(e),
    };
    match ensure_tag(outer.tag, 0x61) {
        Ok(()) => {},
        Err(e) => return Err(e),
    }
    decode_ticket_value(outer.value.as_slice())
}

/// Read the ticket that `value`, the contents of an `[APPLICATION 1]`
/// element, holds.
pub(crate) fn decode_ticket_value(value: &[u8]) -> (r: Result<Ticket, Error>)
    ensures
        match spec_ticket_value(value@) {
            Ok(m) => r matches Ok(x) && x@ == m,
            Err(e) => r == Err::<Ticket, Error>(e),
        },
{
    let seq = match read_single(value) {
        Ok(x) => x,
        Err(e) => return Err(e),
    };
    match ensure_tag(seq.tag, 0x30) {
        Ok(()) => {},
        Err(e) => return Err(e),
    }
    let mut c = Cursor::new(seq.value.as_slice());
    let a = match c.take() {
        Ok(x) => x,
        Err(e) => return Err(e),
    };
    let tkt_vno = match decode_int32(&a) {
        Ok(v) => v,
        Err(e) => return Err(e),
    };
    let rl = match c.take() {
        Ok(x) => x,
        Err(e) => return Err(e),
    };
    let realm_s = match read_kerberos_string(&rl) {
        Ok(v) => v,
        Err(e) => return Err(e),
    };
    let sname = match PrincipalName::decode(&mut c) {
        Ok(v) => v,
        Err(e) => return Err(e),
    };
    let enc = match c.take() {
        Ok(x) => x,
        Err(e) => return Err(e),
    };
    let enc_part = match EncryptedData::decode_implicit(3, &enc) {
        Ok(v) => v,
        Err(e) => return Err(e),
    };
    Ok(Ticket { tkt_vno, realm: realm_s, sname, enc_part })
}

// ---------------------------------------------------------------------------
// Sequences, BIT STRING flags, host addresses, last-request entries
// ---------------------------------------------------------------------------

/// The contents of the one `SEQUENCE` that `b` consists of.
pub open spec fn spec_sequence_of(b: Seq<u8>) -> Result<Seq<u8>, Error> {
    match spec_der_single(b) {
        None => Err(malformed()),
        Some((t, c)) => if t != 0x30 {
            Err(unexpected_tag())
        } else {
            Ok(c)
        },
    }
}

/// Read the one `SEQUENCE` element that `b` consists of.
pub(crate) fn unwrap_sequence(b: &[u8]) -> (r: Result<Tlv, Error>)
    ensures
        match spec_sequence_of(b@) {
            Ok(c) => r matches Ok(x) && x@ == (0x30u8, c),
            Err(e) => r == Err::<Tlv, Error>(e),
        },
{
    let seq = match read_single(b) {
        Ok(x) => x,
        Err(e) => return Err(e),
    };
    match ensure_tag(seq.tag, 0x30) {
        Ok(()) => {},
        Err(e) => return Err(e),
    }
    Ok(seq)
}

/// The four big-endian octets of `v` after an unused-bits octet of zero.
pub open spec fn bit_string_u32_der(v: u32) -> Seq<u8> {
    der(0x03, seq![0u8] + crate::kerberos::asn1::be4(v))
}

/// A `BIT STRING` of a `u32` (unused-bits octet `0`, then four octets).
pub(crate) fn bit_string_u32(v: u32) -> (r: Vec<u8>)
    ensures
        r@ == bit_string_u32_der(v),
{
    let mut content: Vec<u8> = Vec::new();
    content.push(0);
    let b = crate::kerberos::asn1::be4_bytes(v);
    content.extend_from_slice(b.as_slice());
    assert(content@ =~= seq![0u8] + crate::kerberos::asn1::be4(v));
    tlv(0x03, content.as_slice())
}

/// The fault for a `BIT STRING` that is not five octets with no unused bits.
pub open spec fn bit_string_shape() -> Error {
    Error::Unexpected("BIT STRING length/used-bits")
}

/// The `u32` a `BIT STRING` element (possibly `[n] EXPLICIT`-wrapped) holds.
pub open spec fn spec_bit_string_u32(x: (u8, Seq<u8>)) -> Result<u32, Error> {
    match spec_peel(x) {
        Err(e) => Err(e),
        Ok((t, v)) => if t != 0x03 {
            Err(unexpected_tag())
        } else if v.len() != 5 || v[0] != 0 {
            Err(bit_string_shape())
        } else {
            Ok(be_value(v.subrange(1, 5)) as u32)
        },
    }
}

/// Read the `u32` a `BIT STRING` element holds.
pub(crate) fn read_bit_string_u32(any: &Tlv) -> (r: Result<u32, Error>)
    ensures
        r == spec_bit_string_u32(any@),
{
    let inner = match peel_explicit(any) {
        Ok(x) => x,
        Err(e) => return Err(e),
    };
    match ensure_tag(inner.tag, 0x03) {
        Ok(()) => {},
        Err(e) => return Err(e),
    }
    let v = &inner.value;
    if v.len() != 5 || v[0] != 0 {
        return Err(Error::Unexpected("BIT STRING length/used-bits"));
    }
    let sl = v.as_slice();
    let four = &sl[1..5];
    assert(four@ =~= v@.subrange(1, 5));
    let x = be_value_small(four);
    Ok(x as u32)
}

/// `HostAddress` — `SEQUENCE { addr-type Int32, address OCTET STRING }`.
#[derive(Debug, Clone, PartialEq, Eq)]
pub struct HostAddress {
    /// The address type.
    pub addr_type: i32,
    /// The address octets.
    pub address: Vec<u8>,
}

impl View for HostAddress {
    type V = (i32, Seq<u8>);

    open spec fn view(&self) -> (i32, Seq<u8>) {
        (self.addr_type, self.address@)
    }
}

/// The values of some host addresses.
pub open spec fn host_views(l: Seq<HostAddress>) -> Seq<(i32, Seq<u8>)> {
    Seq::new(l.len(), |i: int| l[i]@)
}

/// The encodings of some host addresses.
pub open spec fn host_ders(l: Seq<HostAddress>) -> Seq<Seq<u8>> {
    Seq::new(l.len(), |i: int| pair_der(l[i].addr_type, l[i].address@))
}

/// `HostAddresses` — `SEQUENCE OF HostAddress`.
pub(crate) fn encode_host_addresses(list: &[HostAddress]) -> (r: Vec<u8>)
    ensures
        r@ == der(0x30, concat(host_ders(list@))),
{
    let mut parts: Vec<Vec<u8>> = Vec::new();
    let mut i: usize = 0;
    while i < list.len()
        invariant
            i <= list@.len(),
            parts_view(parts@) == host_ders(list@).subrange(0, i as int),
        decreases list.len() - i,
    {
        let e = encode_pair(list[i].addr_type, list[i].address.as_slice());
        proof {
            assert(parts_view(parts@.push(e)) =~= parts_view(parts@).push(e@));
            assert(host_ders(list@).subrange(0, i + 1) =~= host_ders(list@).subrange(0, i as int).push(e@));
        }
        parts.push(e);
        i = i + 1;
    }
    assert(host_ders(list@).subrange(0, i as int) =~= host_ders(list@));
    sequence(parts.as_slice())
}

/// The `(Int32, OCTET STRING)` pairs that the `SEQUENCE` elements of `b`
/// hold, read in order, or the first fault.
pub open spec fn spec_pair_list(b: Seq<u8>) -> Result<Seq<(i32, Seq<u8>)>, Error>
    decreases b.len(),
{
    if b.len() == 0 {
        Ok(Seq::empty())
    } else {
        match spec_next(b) {
            None => Err(malformed()),
            Some((x, rest)) => if rest.len() >= b.len() {
                Err(malformed())
            } else {
                match spec_pair_of(x) {
                    Err(e) => Err(e),
                    Ok(p) => match spec_pair_list(rest) {
                        Err(e) => Err(e),
                        Ok(r) => Ok(seq![p] + r),
                    },
                }
            },
        }
    }
}

/// The host addresses an element holds: the contents are one `SEQUENCE OF
/// HostAddress` (the element's own tag is not checked).
pub open spec fn spec_host_addresses_of(x: (u8, Seq<u8>)) -> Result<Seq<(i32, Seq<u8>)>, Error> {
    match spec_sequence_of(x.1) {
        Err(e) => Err(e),
        Ok(c) => spec_pair_list(c),
    }
}

/// Read the host addresses an element holds.
pub(crate) fn decode_host_addresses(any: &Tlv) -> (r: Result<Vec<HostAddress>, Error>)
    ensures
        match spec_host_addresses_of(any@) {
            Ok(v) => r matches Ok(x) && host_views(x@) == v,
            Err(e) => r == Err::<Vec<HostAddress>, Error>(e),
        },
{
    let seq = match unwrap_sequence(any.value.as_slice()) {
        Ok(x) => x,
        Err(e) => return Err(e),
    };
    let mut cur = Cursor::new(seq.value.as_slice());
    let mut out: Vec<HostAddress> = Vec::new();
    proof {
        assert(host_views(out@) =~= Seq::<(i32, Seq<u8>)>::empty());
        match spec_pair_list(seq@.1) {
            Ok(rest) => assert(host_views(out@) + rest =~= rest),
            Err(_) => {},
        }
    }
    while !cur.at_end()
        invariant
            spec_host_addresses_of(any@) == match spec_pair_list(cur@) {
                Ok(rest) => Ok(host_views(out@) + rest),
                Err(e) => Err::<Seq<(i32, Seq<u8>)>, Error>(e),
            },
        decreases cur@.len(),
    {
        let ghost before: Seq<u8> = cur@;
        let a = match cur.take() {
            Ok(x) => x,
            Err(e) => return Err(e),
        };
        proof {
            lemma_tlv_bounds(before);
        }
        let (addr_type, address) = match decode_pair(&a) {
            Ok(p) => p,
            Err(e) => return Err(e),
        };
        let h = HostAddress { addr_type, address };
        proof {
            match spec_pair_list(cur@) {
                Ok(rest) => {
                    assert(host_views(out@.push(h)) =~= host_views(out@).push(h@));
                    assert(host_views(out@) + (seq![h@] + rest) =~= host_views(out@.push(h)) + rest);
                },
                Err(_) => {},
            }
        }
        out.push(h);
    }
    proof {
        assert(host_views(out@) + Seq::<(i32, Seq<u8>)>::empty() =~= host_views(out@));
    }
    Ok(out)
}

/// `LastReq` entry — `SEQUENCE { lr-type Int32, lr-value KerberosTime }`.
#[derive(Debug, Clone, Copy, PartialEq, Eq)]
pub struct LastReq {
    /// The kind of request.
    pub lr_type: i32,
    /// When it was made, in seconds since the epoch.
    pub lr_value: u64,
}

/// The entry a `SEQUENCE` element holds: an `Int32` and a `KerberosTime`
/// (anything after them is not read).
pub open spec fn spec_last_req_of(x: (u8, Seq<u8>)) -> Result<LastReq, Error> {
    if x.0 != 0x30 {
        Err(unexpected_tag())
    } else {
        match spec_next(x.1) {
            None => Err(malformed()),
            Some((y1, r1)) => match spec_int32(y1) {
                Err(e) => Err(e),
                Ok(lr_type) => match spec_next(r1) {
                    None => Err(malformed()),
                    Some((y2, _)) => match spec_ktime(y2) {
                        Err(e) => Err(e),
                        Ok(lr_value) => Ok(LastReq { lr_type, lr_value }),
                    },
                },
            },
        }
    }
}

/// The entries that the elements of `b` hold, read in order, or the first
/// fault.
pub open spec fn spec_last_req_list(b: Seq<u8>) -> Result<Seq<LastReq>, Error>
    decreases b.len(),
{
    if b.len() == 0 {
        Ok(Seq::empty())
    } else {
        match spec_next(b) {
            None => Err(malformed()),
            Some((x, rest)) => if rest.len() >= b.len() {
                Err(malformed())
            } else {
                match spec_last_req_of(x) {
                    Err(e) => Err(e),
                    Ok(p) => match spec_last_req_list(rest) {
                        Err(e) => Err(e),
                        Ok(r) => Ok(seq![p] + r),
                    },
                }
            },
        }
    }
}

/// Read one entry from a `SEQUENCE` element.
fn decode_last_req(seq: &Tlv) -> (r: Result<LastReq, Error>)
    ensures
        r == spec_last_req_of(seq@),
{
    match ensure_tag(seq.tag, 0x30) {
        Ok(()) => {},
        Err(e) => return Err(e),
    }
    let mut ic = Cursor::new(seq.value.as_slice());
    let a = match ic.take() {
        Ok(x) => x,
        Err(e) => return Err(e),
    };
    let lr_type = match decode_int32(&a) {
        Ok(v) => v,
        Err(e) => return Err(e),
    };
    let b = match ic.take() {
        Ok(x) => x,
        Err(e) => return Err(e),
    };
    let lr_value = match read_kerberos_time(&b) {
        Ok(v) => v,
        Err(e) => return Err(e),
    };
    Ok(LastReq { lr_type, lr_value })
}

/// Read the entries the elements of `b` hold, appending them to `out`.
fn decode_last_reqs(b: &[u8], out: &mut Vec<LastReq>) -> (r: Result<(), Error>)
    ensures
        match spec_last_req_list(b@) {
            Ok(l) => r is Ok && final(out)@ == old(out)@ + l,
            Err(e) => r == Err::<(), Error>(e),
        },
{
    let ghost start: Seq<LastReq> = out@;
    let mut cur = Cursor::new(b);
    proof {
        match spec_last_req_list(b@) {
            Ok(rest) => assert(start + rest =~= out@ + rest),
            Err(_) => {},
        }
    }
    while !cur.at_end()
        invariant
            match spec_last_req_list(b@) {
                Ok(l) => spec_last_req_list(cur@) matches Ok(rest) && start + l == out@ + rest,
                Err(e) => spec_last_req_list(cur@) == Err::<Seq<LastReq>, Error>(e),
            },
        decreases cur@.len(),
    {
        let ghost before: Seq<u8> = cur@;
        let a = match cur.take() {
            Ok(x) => x,
            Err(e) => return Err(e),
        };
        proof {
            lemma_tlv_bounds(before);
        }
        let e = match decode_last_req(&a) {
            Ok(v) => v,
            Err(x) => return Err(x),
        };
        proof {
            match spec_last_req_list(cur@) {
                Ok(rest) => {
                    assert(out@.push(e) + rest =~= out@ + (seq![e] + rest));
                },
                Err(_) => {},
            }
        }
        out.push(e);
    }
    proof {
        match spec_last_req_list(b@) {
            Ok(l) => assert(out@ + Seq::<LastReq>::empty() =~= out@),
            Err(_) => {},
        }
    }
    Ok(())
}

// ---------------------------------------------------------------------------
// EncKDCRepPart
// ---------------------------------------------------------------------------

/// `EncKDCRepPart` (RFC 4120 §5.4.2): the session key and the ticket's
/// times, flags and service, as the KDC returns them to the client.
#[derive(Debug, Clone, PartialEq, Eq)]
pub struct EncKdcRepPart {
    /// The session key.
    pub key: EncryptionKey,
    /// The last-request entries.
    pub last_req: Vec<LastReq>,
    /// The nonce of the request.
    pub nonce: u32,
    /// When the client's key expires, if given.
    pub key_expiration: Option<u64>,
    /// The ticket flags.
    pub flags: u32,
    /// When the client authenticated.
    pub authtime: u64,
    /// When the ticket becomes valid, if given.
    pub starttime: Option<u64>,
    /// When the ticket expires.
    pub endtime: u64,
    /// The renewal limit, if given.
    pub renew_till: Option<u64>,
    /// The service's realm.
    pub srealm: String,
    /// The service's name.
    pub sname: PrincipalName,
    /// The client addresses, if given.
    pub caddr: Option<Vec<HostAddress>>,
}

/// The value of an `EncKDCRepPart`.
pub struct EncKdcRepPartModel {
    pub key: EncryptionKeyModel,
    pub last_req: Seq<LastReq>,
    pub nonce: u32,
    pub key_expiration: Option<u64>,
    pub flags: u32,
    pub authtime: u64,
    pub starttime: Option<u64>,
    pub endtime: u64,
    pub renew_till: Option<u64>,
    pub srealm: Seq<char>,
    pub sname: PrincipalNameModel,
    pub caddr: Option<Seq<(i32, Seq<u8>)>>,
}

impl View for EncKdcRepPart {
    type V = EncKdcRepPartModel;

    open spec fn view(&self) -> EncKdcRepPartModel {
        EncKdcRepPartModel {
            key: self.key@,
            last_req: self.last_req@,
            nonce: self.nonce,
            key_expiration: self.key_expiration,
            flags: self.flags,
            authtime: self.authtime,
            starttime: self.starttime,
            endtime: self.endtime,
            renew_till: self.renew_till,
            srealm: self.srealm@,
            sname: self.sname@,
            caddr: match self.caddr {
                Some(v) => Some(host_views(v@)),
                None => None,
            },
        }
    }
}

/// The value decoding starts from, before any field is read.
pub open spec fn enc_kdc_rep_part_start() -> EncKdcRepPartModel {
    EncKdcRepPartModel {
        key: EncryptionKeyModel { keytype: 0, keyvalue: Seq::empty() },
        last_req: Seq::empty(),
        nonce: 0,
        key_expiration: None,
        flags: 0,
        authtime: 0,
        starttime: None,
        endtime: 0,
        renew_till: None,
        srealm: Seq::empty(),
        sname: PrincipalNameModel { name_type: 0, name_string: Seq::empty() },
        caddr: None,
    }
}

/// The key an untagged `SEQUENCE` field holds: an `Int32` and the contents
/// of the next element, whatever its tag (anything after is not read).
pub open spec fn spec_rep_key_of(c: Seq<u8>) -> Result<EncryptionKeyModel, Error> {
    match spec_next(c) {
        None => Err(malformed()),
        Some((y1, r1)) => match spec_int32(y1) {
            Err(e) => Err(e),
            Ok(keytype) => match spec_next(r1) {
                None => Err(malformed()),
                Some((y2, _)) => Ok(EncryptionKeyModel { keytype, keyvalue: y2.1 }),
            },
        },
    }
}

/// The fault for an element that has no place in an `EncKDCRepPart`.
pub open spec fn enc_kdc_rep_part_field() -> Error {
    Error::Unexpected("EncKDCRepPart field")
}

/// What reading the field `x` does to `s`: each field's tag says which part
/// it sets (the last-request entries add to those already read).
#[verifier::opaque]
pub open spec fn spec_rep_field(x: (u8, Seq<u8>), s: EncKdcRepPartModel) -> Result<EncKdcRepPartModel, Error> {
    let t = x.0;
    if t == 0x30 {
        match spec_rep_key_of(x.1) {
            Err(e) => Err(e),
            Ok(k) => Ok(EncKdcRepPartModel { key: k, ..s }),
        }
    } else if t == 0xA0 {
        match spec_sequence_of(x.1) {
            Err(e) => Err(e),
            Ok(c) => match spec_last_req_list(c) {
                Err(e) => Err(e),
                Ok(l) => Ok(EncKdcRepPartModel { last_req: s.last_req + l, ..s }),
            },
        }
    } else if t == 0xA1 {
        match spec_uint32(x) {
            Err(e) => Err(e),
            Ok(v) => Ok(EncKdcRepPartModel { nonce: v, ..s }),
        }
    } else if t == 0xA2 {
        match spec_ktime(x) {
            Err(e) => Err(e),
            Ok(v) => Ok(EncKdcRepPartModel { key_expiration: Some(v), ..s }),
        }
    } else if t == 0xA3 {
        match spec_bit_string_u32(x) {
            Err(e) => Err(e),
            Ok(v) => Ok(EncKdcRepPartModel { flags: v, ..s }),
        }
    } else if t == 0xA4 {
        match spec_ktime(x) {
            Err(e) => Err(e),
            Ok(v) => Ok(EncKdcRepPartModel { authtime: v, ..s }),
        }
    } else if t == 0xA5 {
        match spec_ktime(x) {
            Err(e) => Err(e),
            Ok(v) => Ok(EncKdcRepPartModel { starttime: Some(v), ..s }),
        }
    } else if t == 0xA6 {
        match spec_ktime(x) {
            Err(e) => Err(e),
            Ok(v) => Ok(EncKdcRepPartModel { endtime: v, ..s }),
        }
    } else if t == 0xA7 {
        match spec_ktime(x) {
            Err(e) => Err(e),
            Ok(v) => Ok(EncKdcRepPartModel { renew_till: Some(v), ..s }),
        }
    } else if t == 0xA8 {
        match spec_kstring(x) {
            Err(e) => Err(e),
            Ok(v) => Ok(EncKdcRepPartModel { srealm: v, ..s }),
        }
    } else if t == 0xA9 {
        match spec_next(x.1) {
            None => Err(malformed()),
            Some((y, _)) => match spec_principal_name_of(y) {
                Err(e) => Err(e),
                Ok(v) => Ok(EncKdcRepPartModel { sname: v, ..s }),
            },
        }
    } else if t == 0xAA {
        match spec_host_addresses_of(x) {
            Err(e) => Err(e),
            Ok(v) => Ok(EncKdcRepPartModel { caddr: Some(v), ..s }),
        }
    } else {
        Err(enc_kdc_rep_part_field())
    }
}

/// What reading the fields in `b`, in order, does to `s`, or the first fault.
pub open spec fn spec_rep_fields(b: Seq<u8>, s: EncKdcRepPartModel) -> Result<EncKdcRepPartModel, Error>
    decreases b.len(),
{
    if b.len() == 0 {
        Ok(s)
    } else {
        match spec_next(b) {
            None => Err(malformed()),
            Some((x, rest)) => if rest.len() >= b.len() {
                Err(malformed())
            } else {
                match spec_rep_field(x, s) {
                    Err(e) => Err(e),
                    Ok(s2) => spec_rep_fields(rest, s2),
                }
            },
        }
    }
}

/// The `EncKDCRepPart` a `SEQUENCE` element holds.
pub open spec fn spec_enc_kdc_rep_part_of(x: (u8, Seq<u8>)) -> Result<EncKdcRepPartModel, Error> {
    if x.0 != 0x30 {
        Err(unexpected_tag())
    } else {
        spec_rep_fields(x.1, enc_kdc_rep_part_start())
    }
}

/// Read the field `a` into `ek`.
fn apply_rep_field(a: &Tlv, ek: &mut EncKdcRepPart) -> (r: Result<(), Error>)
    ensures
        match spec_rep_field(a@, old(ek)@) {
            Ok(s2) => r is Ok && final(ek)@ == s2,
            Err(e) => r == Err::<(), Error>(e),
        },
{
    proof {
        reveal(spec_rep_field);
    }
    let t = a.tag;
    if t == 0x30 {
        let mut kc = Cursor::new(a.value.as_slice());
        let k1 = match kc.take() {
            Ok(x) => x,
            Err(e) => return Err(e),
        };
        let keytype = match decode_int32(&k1) {
            Ok(v) => v,
            Err(e) => return Err(e),
        };
        let v = match kc.take() {
            Ok(x) => x,
            Err(e) => return Err(e),
        };
        ek.key = EncryptionKey { keytype, keyvalue: v.value };
        Ok(())
    } else if t == 0xA0 {
        let outer = match unwrap_sequence(a.value.as_slice()) {
            Ok(x) => x,
            Err(e) => return Err(e),
        };
        decode_last_reqs(outer.value.as_slice(), &mut ek.last_req)
    } else if t == 0xA1 {
        match decode_u32(a) {
            Ok(v) => {
                ek.nonce = v;
                Ok(())
            },
            Err(e) => Err(e),
        }
    } else if t == 0xA2 {
        match read_kerberos_time(a) {
            Ok(v) => {
                ek.key_expiration = Some(v);
                Ok(())
            },
            Err(e) => Err(e),
        }
    } else if t == 0xA3 {
        match read_bit_string_u32(a) {
            Ok(v) => {
                ek.flags = v;
                Ok(())
            },
            Err(e) => Err(e),
        }
    } else if t == 0xA4 {
        match read_kerberos_time(a) {
            Ok(v) => {
                ek.authtime = v;
                Ok(())
            },
            Err(e) => Err(e),
        }
    } else if t == 0xA5 {
        match read_kerberos_time(a) {
            Ok(v) => {
                ek.starttime = Some(v);
                Ok(())
            },
            Err(e) => Err(e),
        }
    } else if t == 0xA6 {
        match read_kerberos_time(a) {
            Ok(v) => {
                ek.endtime = v;
                Ok(())
            },
            Err(e) => Err(e),
        }
    } else if t == 0xA7 {
        match read_kerberos_time(a) {
            Ok(v) => {
                ek.renew_till = Some(v);
                Ok(())
            },
            Err(e) => Err(e),
        }
    } else if t == 0xA8 {
        match read_kerberos_string(a) {
            Ok(v) => {
                ek.srealm = v;
                Ok(())
            },
            Err(e) => Err(e),
        }
    } else if t == 0xA9 {
        let mut nc = Cursor::new(a.value.as_slice());
        match PrincipalName::decode(&mut nc) {
            Ok(v) => {
                ek.sname = v;
                Ok(())
            },
            Err(e) => Err(e),
        }
    } else if t == 0xAA {
        match decode_host_addresses(a) {
            Ok(v) => {
                ek.caddr = Some(v);
                Ok(())
            },
            Err(e) => Err(e),
        }
    } else {
        Err(Error::Unexpected("EncKDCRepPart field"))
    }
}

/// The element of a `KerberosTime`.
pub open spec fn ktime_der(secs: u64) -> Seq<u8> {
    der(0x18, time_text(secs as nat))
}

/// The encoding of a last-request entry.
pub open spec fn last_req_der(l: LastReq) -> Seq<u8> {
    der(0x30, int32_der(l.lr_type) + ktime_der(l.lr_value))
}

/// The encodings of some last-request entries.
pub open spec fn last_req_ders(l: Seq<LastReq>) -> Seq<Seq<u8>> {
    Seq::new(l.len(), |i: int| last_req_der(l[i]))
}

/// The encodings of some `(Int32, OCTET STRING)` pairs.
pub open spec fn pairs_der(v: Seq<(i32, Seq<u8>)>) -> Seq<Seq<u8>> {
    Seq::new(v.len(), |i: int| pair_der(v[i].0, v[i].1))
}

/// `p` with the `[tag]` time field for `o` added, if there is one.
pub open spec fn push_time(p: Seq<Seq<u8>>, o: Option<u64>, tag: u8) -> Seq<Seq<u8>> {
    match o {
        Some(v) => p.push(der(tag, ktime_der(v))),
        None => p,
    }
}

/// The fields of an `EncKDCRepPart` as written: the key untagged, then the
/// fields `[0]` to `[10]` in order, the optional ones only when present.
pub open spec fn rep_part_fields(m: EncKdcRepPartModel) -> Seq<Seq<u8>> {
    let p0 = seq![
        pair_der(m.key.keytype, m.key.keyvalue),
        der(0xA0, der(0x30, concat(last_req_ders(m.last_req)))),
        der(0xA1, uint32_der(m.nonce)),
    ];
    let p1 = push_time(p0, m.key_expiration, 0xA2);
    let p2 = p1.push(der(0xA3, bit_string_u32_der(m.flags))).push(der(0xA4, ktime_der(m.authtime)));
    let p3 = push_time(p2, m.starttime, 0xA5);
    let p4 = p3.push(der(0xA6, ktime_der(m.endtime)));
    let p5 = push_time(p4, m.renew_till, 0xA7);
    let p6 = p5.push(der(0xA8, kstring_der(m.srealm))).push(der(0xA9, principal_name_der(m.sname)));
    match m.caddr {
        Some(l) => p6.push(der(0xAA, der(0x30, concat(pairs_der(l))))),
        None => p6,
    }
}

/// Encode a `SEQUENCE OF LastReq`.
fn encode_last_reqs(l: &Vec<LastReq>) -> (r: Vec<u8>)
    ensures
        r@ == der(0x30, concat(last_req_ders(l@))),
{
    let mut parts: Vec<Vec<u8>> = Vec::new();
    let mut i: usize = 0;
    while i < l.len()
        invariant
            i <= l@.len(),
            parts_view(parts@) == last_req_ders(l@).subrange(0, i as int),
        decreases l.len() - i,
    {
        let a = int32(l[i].lr_type);
        let b = kerberos_time(l[i].lr_value);
        let two = vec![a, b];
        proof {
            assert(parts_view(two@) =~= seq![two@[0]@, two@[1]@]);
            lemma_concat2(two@[0]@, two@[1]@);
        }
        let e = sequence(two.as_slice());
        proof {
            assert(parts_view(parts@.push(e)) =~= parts_view(parts@).push(e@));
            assert(last_req_ders(l@).subrange(0, i + 1) =~= last_req_ders(l@).subrange(0, i as int).push(e@));
        }
        parts.push(e);
        i = i + 1;
    }
    assert(last_req_ders(l@).subrange(0, i as int) =~= last_req_ders(l@));
    sequence(parts.as_slice())
}

/// Add the `[tag]` time field for `o` to `parts`, if there is one.
fn push_time_field(parts: &mut Vec<Vec<u8>>, o: Option<u64>, tag: u8)
    requires
        tag < 31,
    ensures
        parts_view(final(parts)@) == push_time(parts_view(old(parts)@), o, (0xA0 + tag) as u8),
{
    match o {
        Some(v) => {
            let t = kerberos_time(v);
            let e = ctx(tag, t.as_slice());
            proof {
                assert(parts_view(parts@.push(e)) =~= parts_view(parts@).push(e@));
            }
            parts.push(e);
        },
        None => {},
    }
}

/// Add `e` to `parts`.
fn push_part(parts: &mut Vec<Vec<u8>>, e: Vec<u8>)
    ensures
        parts_view(final(parts)@) == parts_view(old(parts)@).push(e@),
{
    proof {
        assert(parts_view(parts@.push(e)) =~= parts_view(parts@).push(e@));
    }
    parts.push(e);
}

impl EncKdcRepPart {
    /// The DER encoding of this `EncKDCRepPart`.
    pub fn encode(&self) -> (r: Vec<u8>)
        ensures
            r@ == der(0x30, concat(rep_part_fields(self@))),
    {
        let mut parts: Vec<Vec<u8>> = Vec::new();
        push_part(&mut parts, self.key.encode());
        let lr = encode_last_reqs(&self.last_req);
        push_part(&mut parts, ctx(0, lr.as_slice()));
        let n = integer_u32(self.nonce);
        push_part(&mut parts, ctx(1, n.as_slice()));
        proof {
            assert(parts_view(parts@) =~= seq![
                pair_der(self@.key.keytype, self@.key.keyvalue),
                der(0xA0, der(0x30, concat(last_req_ders(self@.last_req)))),
                der(0xA1, uint32_der(self@.nonce)),
            ]);
        }
        push_time_field(&mut parts, self.key_expiration, 2);
        let f = bit_string_u32(self.flags);
        push_part(&mut parts, ctx(3, f.as_slice()));
        let at = kerberos_time(self.authtime);
        push_part(&mut parts, ctx(4, at.as_slice()));
        push_time_field(&mut parts, self.starttime, 5);
        let et = kerberos_time(self.endtime);
        push_part(&mut parts, ctx(6, et.as_slice()));
        push_time_field(&mut parts, self.renew_till, 7);
        let rl = realm(self.srealm.as_str());
        push_part(&mut parts, ctx(8, rl.as_slice()));
        let sn = self.sname.encode();
        push_part(&mut parts, ctx(9, sn.as_slice()));
        match &self.caddr {
            Some(addr) => {
                let ha = encode_host_addresses(addr.as_slice());
                proof {
                    assert(host_ders(addr@) =~= pairs_der(host_views(addr@)));
                }
                push_part(&mut parts, ctx(10, ha.as_slice()));
            },
            None => {},
        }
        sequence(parts.as_slice())
    }

    /// Read an `EncKDCRepPart` from the next element of `cur`: its fields in
    /// any order, each tagged by what it sets.
    pub fn decode(cur: &mut Cursor<'_>) -> (r: Result<Self, Error>)
        ensures
            match spec_der_tlv(old(cur)@) {
                None => r == Err::<EncKdcRepPart, Error>(malformed()) && final(cur)@ == old(cur)@,
                Some((t, h, e)) => final(cur)@ == old(cur)@.subrange(e as int, old(cur)@.len() as int)
                    && match spec_enc_kdc_rep_part_of((t, old(cur)@.subrange(h as int, e as int))) {
                    Ok(m) => r matches Ok(x) && x@ == m,
                    Err(x) => r == Err::<EncKdcRepPart, Error>(x),
                },
            },
    {
        let ghost whole: Seq<u8> = cur@;
        let seq = match cur.take() {
            Ok(x) => x,
            Err(e) => return Err(e),
        };
        match ensure_tag(seq.tag, 0x30) {
            Ok(()) => {},
            Err(e) => return Err(e),
        }
        let mut c = Cursor::new(seq.value.as_slice());
        let mut ek = EncKdcRepPart {
            key: EncryptionKey { keytype: 0, keyvalue: Vec::new() },
            last_req: Vec::new(),
            nonce: 0,
            key_expiration: None,
            flags: 0,
            authtime: 0,
            starttime: None,
            endtime: 0,
            renew_till: None,
            srealm: String::new(),
            sname: PrincipalName { name_type: 0, name_string: Vec::new() },
            caddr: None,
        };
        proof {
            assert(ek.key.keyvalue@ =~= Seq::<u8>::empty());
            assert(ek.last_req@ =~= Seq::<LastReq>::empty());
            assert(ek.sname.name_string@ =~= Seq::<String>::empty());
            assert(ek.sname@.name_string =~= Seq::<Seq<char>>::empty());
            assert(ek@ == enc_kdc_rep_part_start());
        }
        while !c.at_end()
            invariant
                spec_enc_kdc_rep_part_of(seq@) == spec_rep_fields(c@, ek@),
                whole == old(cur)@,
                spec_der_tlv(whole) matches Some((t, h, e)) && seq@ == (t, whole.subrange(h as int, e as int))
                    && cur@ == whole.subrange(e as int, whole.len() as int),
            decreases c@.len(),
        {
            let ghost before: Seq<u8> = c@;
            let a = match c.take() {
                Ok(x) => x,
                Err(e) => return Err(e),
            };
            proof {
                lemma_tlv_bounds(before);
            }
            match apply_rep_field(&a, &mut ek) {
                Ok(()) => {},
                Err(e) => return Err(e),
            }
        }
        Ok(ek)
    }
}

// ---------------------------------------------------------------------------
// KDC-REQ-BODY
// ---------------------------------------------------------------------------

/// The element of each `Int32` in a list.
pub open spec fn int32_ders(v: Seq<i32>) -> Seq<Seq<u8>> {
    Seq::new(v.len(), |i: int| int32_der(v[i]))
}

/// The `Int32`s the elements of `b` hold, read in order, or the first fault.
pub open spec fn spec_int32_list(b: Seq<u8>) -> Result<Seq<i32>, Error>
    decreases b.len(),
{
    if b.len() == 0 {
        Ok(Seq::empty())
    } else {
        match spec_next(b) {
            None => Err(malformed()),
            Some((x, rest)) => if rest.len() >= b.len() {
                Err(malformed())
            } else {
                match spec_int32(x) {
                    Err(e) => Err(e),
                    Ok(v) => match spec_int32_list(rest) {
                        Err(e) => Err(e),
                        Ok(r) => Ok(seq![v] + r),
                    },
                }
            },
        }
    }
}

/// Read the `Int32`s the elements of `b` hold, appending them to `out`.
fn decode_int32s(b: &[u8], out: &mut Vec<i32>) -> (r: Result<(), Error>)
    ensures
        match spec_int32_list(b@) {
            Ok(l) => r is Ok && final(out)@ == old(out)@ + l,
            Err(e) => r == Err::<(), Error>(e),
        },
{
    let ghost start: Seq<i32> = out@;
    let mut cur = Cursor::new(b);
    proof {
        match spec_int32_list(b@) {
            Ok(rest) => assert(start + rest =~= out@ + rest),
            Err(_) => {},
        }
    }
    while !cur.at_end()
        invariant
            match spec_int32_list(b@) {
                Ok(l) => spec_int32_list(cur@) matches Ok(rest) && start + l == out@ + rest,
                Err(e) => spec_int32_list(cur@) == Err::<Seq<i32>, Error>(e),
            },
        decreases cur@.len(),
    {
        let ghost before: Seq<u8> = cur@;
        let a = match cur.take() {
            Ok(x) => x,
            Err(e) => return Err(e),
        };
        proof {
            lemma_tlv_bounds(before);
        }
        let v = match decode_int32(&a) {
            Ok(v) => v,
            Err(x) => return Err(x),
        };
        proof {
            match spec_int32_list(cur@) {
                Ok(rest) => {
                    assert(out@.push(v) + rest =~= out@ + (seq![v] + rest));
                },
                Err(_) => {},
            }
        }
        out.push(v);
    }
    proof {
        match spec_int32_list(b@) {
            Ok(l) => assert(out@ + Seq::<i32>::empty() =~= out@),
            Err(_) => {},
        }
    }
    Ok(())
}

/// The values of some tickets.
pub open spec fn ticket_views(l: Seq<Ticket>) -> Seq<TicketModel> {
    Seq::new(l.len(), |i: int| l[i]@)
}

/// The ticket an `[APPLICATION 1]` element holds.
pub open spec fn spec_ticket_elem(x: (u8, Seq<u8>)) -> Result<TicketModel, Error> {
    if x.0 != 0x61 {
        Err(unexpected_tag())
    } else {
        spec_ticket_value(x.1)
    }
}

/// The tickets the elements of `b` hold, read in order, or the first fault.
pub open spec fn spec_ticket_list(b: Seq<u8>) -> Result<Seq<TicketModel>, Error>
    decreases b.len(),
{
    if b.len() == 0 {
        Ok(Seq::empty())
    } else {
        match spec_next(b) {
            None => Err(malformed()),
            Some((x, rest)) => if rest.len() >= b.len() {
                Err(malformed())
            } else {
                match spec_ticket_elem(x) {
                    Err(e) => Err(e),
                    Ok(v) => match spec_ticket_list(rest) {
                        Err(e) => Err(e),
                        Ok(r) => Ok(seq![v] + r),
                    },
                }
            },
        }
    }
}

/// The tickets an `[n]` element holds: its first element is a `SEQUENCE` of
/// `[APPLICATION 1]` tickets.
pub open spec fn spec_tickets_of(n: u8, x: (u8, Seq<u8>)) -> Result<Seq<TicketModel>, Error> {
    if n >= 31 || x.0 != 0xA0 + n {
        Err(unexpected_tag())
    } else {
        match spec_next(x.1) {
            None => Err(malformed()),
            Some((y, _)) => if y.0 != 0x30 {
                Err(unexpected_tag())
            } else {
                spec_ticket_list(y.1)
            },
        }
    }
}

/// Read the tickets an `[n]` element holds.
pub(crate) fn decode_tickets(n: u8, any: &Tlv) -> (r: Result<Vec<Ticket>, Error>)
    ensures
        match spec_tickets_of(n, any@) {
            Ok(v) => r matches Ok(x) && ticket_views(x@) == v,
            Err(e) => r == Err::<Vec<Ticket>, Error>(e),
        },
{
    if n >= 31 {
        return Err(Error::Asn1("unexpected DER tag"));
    }
    match ensure_tag(any.tag, 0xA0 + n) {
        Ok(()) => {},
        Err(e) => return Err(e),
    }
    let mut outer = Cursor::new(any.value.as_slice());
    let seq = match outer.take() {
        Ok(x) => x,
        Err(e) => return Err(e),
    };
    match ensure_tag(seq.tag, 0x30) {
        Ok(()) => {},
        Err(e) => return Err(e),
    }
    let mut cur = Cursor::new(seq.value.as_slice());
    let mut out: Vec<Ticket> = Vec::new();
    proof {
        assert(ticket_views(out@) =~= Seq::<TicketModel>::empty());
        match spec_ticket_list(seq@.1) {
            Ok(rest) => assert(ticket_views(out@) + rest =~= rest),
            Err(_) => {},
        }
    }
    while !cur.at_end()
        invariant
            spec_tickets_of(n, any@) == match spec_ticket_list(cur@) {
                Ok(rest) => Ok(ticket_views(out@) + rest),
                Err(e) => Err::<Seq<TicketModel>, Error>(e),
            },
        decreases cur@.len(),
    {
        let ghost before: Seq<u8> = cur@;
        let a = match cur.take() {
            Ok(x) => x,
            Err(e) => return Err(e),
        };
        proof {
            lemma_tlv_bounds(before);
        }
        match ensure_tag(a.tag, 0x61) {
            Ok(()) => {},
            Err(e) => return Err(e),
        }
        let t = match decode_ticket_value(a.value.as_slice()) {
            Ok(x) => x,
            Err(e) => return Err(e),
        };
        proof {
            match spec_ticket_list(cur@) {
                Ok(rest) => {
                    assert(ticket_views(out@.push(t)) =~= ticket_views(out@).push(t@));
                    assert(ticket_views(out@) + (seq![t@] + rest) =~= ticket_views(out@.push(t)) + rest);
                },
                Err(_) => {},
            }
        }
        out.push(t);
    }
    proof {
        assert(ticket_views(out@) + Seq::<TicketModel>::empty() =~= ticket_views(out@));
    }
    Ok(out)
}

/// `KDC-REQ-BODY` (RFC 4120 §5.4.1): what a client asks the KDC for.
#[derive(Debug, Clone, PartialEq, Eq)]
pub struct KdcReqBody {
    /// The KDC options (a `BIT STRING`).
    pub kdc_options: u32,
    /// The client's name, if given.
    pub cname: Option<PrincipalName>,
    /// The realm.
    pub realm: String,
    /// The service's name, if given.
    pub sname: Option<PrincipalName>,
    /// When the ticket should become valid, if given.
    pub from: Option<u64>,
    /// When the ticket should expire.
    pub till: u64,
    /// The renewal limit asked for, if any.
    pub rtime: Option<u64>,
    /// The nonce.
    pub nonce: u32,
    /// The encryption types the client accepts, in order of preference.
    pub etype: Vec<i32>,
    /// The client addresses, if given.
    pub addresses: Option<Vec<HostAddress>>,
    /// Encrypted authorization data, if given.
    pub enc_authorization_data: Option<EncryptedData>,
    /// Additional tickets, if given.
    pub additional_tickets: Option<Vec<Ticket>>,
}

/// The value of a `KDC-REQ-BODY`.
pub struct KdcReqBodyModel {
    pub kdc_options: u32,
    pub cname: Option<PrincipalNameModel>,
    pub realm: Seq<char>,
    pub sname: Option<PrincipalNameModel>,
    pub from: Option<u64>,
    pub till: u64,
    pub rtime: Option<u64>,
    pub nonce: u32,
    pub etype: Seq<i32>,
    pub addresses: Option<Seq<(i32, Seq<u8>)>>,
    pub enc_authorization_data: Option<EncryptedDataModel>,
    pub additional_tickets: Option<Seq<TicketModel>>,
}

impl View for KdcReqBody {
    type V = KdcReqBodyModel;

    open spec fn view(&self) -> KdcReqBodyModel {
        KdcReqBodyModel {
            kdc_options: self.kdc_options,
            cname: match self.cname {
                Some(c) => Some(c@),
                None => None,
            },
            realm: self.realm@,
            sname: match self.sname {
                Some(c) => Some(c@),
                None => None,
            },
            from: self.from,
            till: self.till,
            rtime: self.rtime,
            nonce: self.nonce,
            etype: self.etype@,
            addresses: match self.addresses {
                Some(v) => Some(host_views(v@)),
                None => None,
            },
            enc_authorization_data: match self.enc_authorization_data {
                Some(e) => Some(e@),
                None => None,
            },
            additional_tickets: match self.additional_tickets {
                Some(v) => Some(ticket_views(v@)),
                None => None,
            },
        }
    }
}

/// The value decoding starts from, before any field is read.
pub open spec fn kdc_req_body_start() -> KdcReqBodyModel {
    KdcReqBodyModel {
        kdc_options: 0,
        cname: None,
        realm: Seq::empty(),
        sname: None,
        from: None,
        till: 0,
        rtime: None,
        nonce: 0,
        etype: Seq::empty(),
        addresses: None,
        enc_authorization_data: None,
        additional_tickets: None,
    }
}

/// The principal name the first element of the contents of `x` holds.
pub open spec fn spec_wrapped_name(x: (u8, Seq<u8>)) -> Result<PrincipalNameModel, Error> {
    match spec_next(x.1) {
        None => Err(malformed()),
        Some((y, _)) => spec_principal_name_of(y),
    }
}

/// The fault for an element that has no place in a `KDC-REQ-BODY`.
pub open spec fn kdc_req_body_field() -> Error {
    Error::Unexpected("KDC-REQ-BODY field")
}

/// What reading the field `x` does to `s`: each field's tag says which part
/// it sets (the encryption types add to those already read).
#[verifier::opaque]
pub open spec fn spec_req_field(x: (u8, Seq<u8>), s: KdcReqBodyModel) -> Result<KdcReqBodyModel, Error> {
    let t = x.0;
    if t == 0xA0 {
        match spec_bit_string_u32(x) {
            Err(e) => Err(e),
            Ok(v) => Ok(KdcReqBodyModel { kdc_options: v, ..s }),
        }
    } else if t == 0xA1 {
        match spec_wrapped_name(x) {
            Err(e) => Err(e),
            Ok(v) => Ok(KdcReqBodyModel { cname: Some(v), ..s }),
        }
    } else if t == 0xA2 {
        match spec_kstring(x) {
            Err(e) => Err(e),
            Ok(v) => Ok(KdcReqBodyModel { realm: v, ..s }),
        }
    } else if t == 0xA3 {
        match spec_wrapped_name(x) {
            Err(e) => Err(e),
            Ok(v) => Ok(KdcReqBodyModel { sname: Some(v), ..s }),
        }
    } else if t == 0xA4 {
        match spec_ktime(x) {
            Err(e) => Err(e),
            Ok(v) => Ok(KdcReqBodyModel { from: Some(v), ..s }),
        }
    } else if t == 0xA5 {
        match spec_ktime(x) {
            Err(e) => Err(e),
            Ok(v) => Ok(KdcReqBodyModel { till: v, ..s }),
        }
    } else if t == 0xA6 {
        match spec_ktime(x) {
            Err(e) => Err(e),
            Ok(v) => Ok(KdcReqBodyModel { rtime: Some(v), ..s }),
        }
    } else if t == 0xA7 {
        match spec_uint32(x) {
            Err(e) => Err(e),
            Ok(v) => Ok(KdcReqBodyModel { nonce: v, ..s }),
        }
    } else if t == 0xA8 {
        match spec_sequence_of(x.1) {
            Err(e) => Err(e),
            Ok(c) => match spec_int32_list(c) {
                Err(e) => Err(e),
                Ok(l) => Ok(KdcReqBodyModel { etype: s.etype + l, ..s }),
            },
        }
    } else if t == 0xA9 {
        match spec_host_addresses_of(x) {
            Err(e) => Err(e),
            Ok(v) => Ok(KdcReqBodyModel { addresses: Some(v), ..s }),
        }
    } else if t == 0x8A {
        match spec_encrypted_data_of(10, x) {
            Err(e) => Err(e),
            Ok(v) => Ok(KdcReqBodyModel { enc_authorization_data: Some(v), ..s }),
        }
    } else if t == 0xAB {
        match spec_tickets_of(11, x) {
            Err(e) => Err(e),
            Ok(v) => Ok(KdcReqBodyModel { additional_tickets: Some(v), ..s }),
        }
    } else {
        Err(kdc_req_body_field())
    }
}

/// What reading the fields in `b`, in order, does to `s`, or the first fault.
pub open spec fn spec_req_fields(b: Seq<u8>, s: KdcReqBodyModel) -> Result<KdcReqBodyModel, Error>
    decreases b.len(),
{
    if b.len() == 0 {
        Ok(s)
    } else {
        match spec_next(b) {
            None => Err(malformed()),
            Some((x, rest)) => if rest.len() >= b.len() {
                Err(malformed())
            } else {
                match spec_req_field(x, s) {
                    Err(e) => Err(e),
                    Ok(s2) => spec_req_fields(rest, s2),
                }
            },
        }
    }
}

/// The `KDC-REQ-BODY` a `SEQUENCE` element holds.
pub open spec fn spec_kdc_req_body_of(x: (u8, Seq<u8>)) -> Result<KdcReqBodyModel, Error> {
    if x.0 != 0x30 {
        Err(unexpected_tag())
    } else {
        spec_req_fields(x.1, kdc_req_body_start())
    }
}

/// Read the principal name the first element of `a`'s contents holds.
fn decode_wrapped_name(a: &Tlv) -> (r: Result<PrincipalName, Error>)
    ensures
        match spec_wrapped_name(a@) {
            Ok(m) => r matches Ok(x) && x@ == m,
            Err(e) => r == Err::<PrincipalName, Error>(e),
        },
{
    let mut nc = Cursor::new(a.value.as_slice());
    PrincipalName::decode(&mut nc)
}

/// Read the field `a` into `body`.
fn apply_req_field(a: &Tlv, body: &mut KdcReqBody) -> (r: Result<(), Error>)
    ensures
        match spec_req_field(a@, old(body)@) {
            Ok(s2) => r is Ok && final(body)@ == s2,
            Err(e) => r == Err::<(), Error>(e),
        },
{
    proof {
        reveal(spec_req_field);
    }
    let t = a.tag;
    if t == 0xA0 {
        match read_bit_string_u32(a) {
            Ok(v) => {
                body.kdc_options = v;
                Ok(())
            },
            Err(e) => Err(e),
        }
    } else if t == 0xA1 {
        match decode_wrapped_name(a) {
            Ok(v) => {
                body.cname = Some(v);
                Ok(())
            },
            Err(e) => Err(e),
        }
    } else if t == 0xA2 {
        match read_kerberos_string(a) {
            Ok(v) => {
                body.realm = v;
                Ok(())
            },
            Err(e) => Err(e),
        }
    } else if t == 0xA3 {
        match decode_wrapped_name(a) {
            Ok(v) => {
                body.sname = Some(v);
                Ok(())
            },
            Err(e) => Err(e),
        }
    } else if t == 0xA4 {
        match read_kerberos_time(a) {
            Ok(v) => {
                body.from = Some(v);
                Ok(())
            },
            Err(e) => Err(e),
        }
    } else if t == 0xA5 {
        match read_kerberos_time(a) {
            Ok(v) => {
                body.till = v;
                Ok(())
            },
            Err(e) => Err(e),
        }
    } else if t == 0xA6 {
        match read_kerberos_time(a) {
            Ok(v) => {
                body.rtime = Some(v);
                Ok(())
            },
            Err(e) => Err(e),
        }
    } else if t == 0xA7 {
        match decode_u32(a) {
            Ok(v) => {
                body.nonce = v;
                Ok(())
            },
            Err(e) => Err(e),
        }
    } else if t == 0xA8 {
        let seq = match unwrap_sequence(a.value.as_slice()) {
            Ok(x) => x,
            Err(e) => return Err(e),
        };
        decode_int32s(seq.value.as_slice(), &mut body.etype)
    } else if t == 0xA9 {
        match decode_host_addresses(a) {
            Ok(v) => {
                body.addresses = Some(v);
                Ok(())
            },
            Err(e) => Err(e),
        }
    } else if t == 0x8A {
        match EncryptedData::decode_implicit(10, a) {
            Ok(v) => {
                body.enc_authorization_data = Some(v);
                Ok(())
            },
            Err(e) => Err(e),
        }
    } else if t == 0xAB {
        match decode_tickets(11, a) {
            Ok(v) => {
                body.additional_tickets = Some(v);
                Ok(())
            },
            Err(e) => Err(e),
        }
    } else {
        Err(Error::Unexpected("KDC-REQ-BODY field"))
    }
}

/// `p` with the `[tag]` name field for `o` added, if there is one.
pub open spec fn push_name(p: Seq<Seq<u8>>, o: Option<PrincipalNameModel>, tag: u8) -> Seq<Seq<u8>> {
    match o {
        Some(n) => p.push(der(tag, principal_name_der(n))),
        None => p,
    }
}

/// The encodings of some tickets under `[APPLICATION 1]`.
pub open spec fn tickets_der(l: Seq<TicketModel>) -> Seq<Seq<u8>> {
    Seq::new(l.len(), |i: int| ticket_der(1, l[i]))
}

/// The fields of a `KDC-REQ-BODY` as written: `[0]` to `[11]` in order, the
/// optional ones only when present.
pub open spec fn req_body_fields(m: KdcReqBodyModel) -> Seq<Seq<u8>> {
    let p0 = seq![der(0xA0, bit_string_u32_der(m.kdc_options))];
    let p1 = push_name(p0, m.cname, 0xA1);
    let p2 = p1.push(der(0xA2, kstring_der(m.realm)));
    let p3 = push_name(p2, m.sname, 0xA3);
    let p4 = push_time(p3, m.from, 0xA4);
    let p5 = p4.push(der(0xA5, ktime_der(m.till)));
    let p6 = push_time(p5, m.rtime, 0xA6);
    let p7 = p6.push(der(0xA7, uint32_der(m.nonce))).push(der(0xA8, der(0x30, concat(int32_ders(m.etype)))));
    let p8 = match m.addresses {
        Some(l) => p7.push(der(0xA9, der(0x30, concat(pairs_der(l))))),
        None => p7,
    };
    let p9 = match m.enc_authorization_data {
        Some(e) => p8.push(encrypted_data_der(10, e)),
        None => p8,
    };
    match m.additional_tickets {
        Some(l) => p9.push(der(0xAB, der(0x30, concat(tickets_der(l))))),
        None => p9,
    }
}

/// Encode a `SEQUENCE OF Int32`.
fn encode_int32s(v: &Vec<i32>) -> (r: Vec<u8>)
    ensures
        r@ == der(0x30, concat(int32_ders(v@))),
{
    let mut parts: Vec<Vec<u8>> = Vec::new();
    let mut i: usize = 0;
    while i < v.len()
        invariant
            i <= v@.len(),
            parts_view(parts@) == int32_ders(v@).subrange(0, i as int),
        decreases v.len() - i,
    {
        let e = int32(v[i]);
        proof {
            assert(parts_view(parts@.push(e)) =~= parts_view(parts@).push(e@));
            assert(int32_ders(v@).subrange(0, i + 1) =~= int32_ders(v@).subrange(0, i as int).push(e@));
        }
        parts.push(e);
        i = i + 1;
    }
    assert(int32_ders(v@).subrange(0, i as int) =~= int32_ders(v@));
    sequence(parts.as_slice())
}

/// Encode a `SEQUENCE OF Ticket`, each under `[APPLICATION 1]`.
fn encode_tickets(v: &Vec<Ticket>) -> (r: Vec<u8>)
    ensures
        r@ == der(0x30, concat(tickets_der(ticket_views(v@)))),
{
    let mut parts: Vec<Vec<u8>> = Vec::new();
    let mut i: usize = 0;
    while i < v.len()
        invariant
            i <= v@.len(),
            parts_view(parts@) == tickets_der(ticket_views(v@)).subrange(0, i as int),
        decreases v.len() - i,
    {
        let e = v[i].encode_application(1);
        proof {
            assert(parts_view(parts@.push(e)) =~= parts_view(parts@).push(e@));
            assert(tickets_der(ticket_views(v@)).subrange(0, i + 1) =~= tickets_der(ticket_views(v@)).subrange(
                0,
                i as int,
            ).push(e@));
        }
        parts.push(e);
        i = i + 1;
    }
    assert(tickets_der(ticket_views(v@)).subrange(0, i as int) =~= tickets_der(ticket_views(v@)));
    sequence(parts.as_slice())
}

/// Add the `[tag]` name field for `o` to `parts`, if there is one.
fn push_name_field(parts: &mut Vec<Vec<u8>>, o: &Option<PrincipalName>, tag: u8)
    requires
        tag < 31,
    ensures
        parts_view(final(parts)@) == push_name(
            parts_view(old(parts)@),
            match o {
                Some(c) => Some(c@),
                None => None,
            },
            (0xA0 + tag) as u8,
        ),
{
    match o {
        Some(n) => {
            let b = n.encode();
            push_part(parts, ctx(tag, b.as_slice()));
        },
        None => {},
    }
}

impl KdcReqBody {
    /// The DER encoding of this `KDC-REQ-BODY`.
    pub fn encode(&self) -> (r: Vec<u8>)
        ensures
            r@ == der(0x30, concat(req_body_fields(self@))),
    {
        let mut parts: Vec<Vec<u8>> = Vec::new();
        let ko = bit_string_u32(self.kdc_options);
        push_part(&mut parts, ctx(0, ko.as_slice()));
        assert(parts_view(parts@) =~= seq![der(0xA0, bit_string_u32_der(self.kdc_options))]);
        push_name_field(&mut parts, &self.cname, 1);
        let rl = realm(self.realm.as_str());
        push_part(&mut parts, ctx(2, rl.as_slice()));
        push_name_field(&mut parts, &self.sname, 3);
        push_time_field(&mut parts, self.from, 4);
        let tl = kerberos_time(self.till);
        push_part(&mut parts, ctx(5, tl.as_slice()));
        push_time_field(&mut parts, self.rtime, 6);
        let n = integer_u32(self.nonce);
        push_part(&mut parts, ctx(7, n.as_slice()));
        let et = encode_int32s(&self.etype);
        push_part(&mut parts, ctx(8, et.as_slice()));
        match &self.addresses {
            Some(addrs) => {
                let ha = encode_host_addresses(addrs.as_slice());
                proof {
                    assert(host_ders(addrs@) =~= pairs_der(host_views(addrs@)));
                }
                push_part(&mut parts, ctx(9, ha.as_slice()));
            },
            None => {},
        }
        match &self.enc_authorization_data {
            Some(ea) => {
                push_part(&mut parts, ea.encode_implicit(10));
            },
            None => {},
        }
        match &self.additional_tickets {
            Some(tkts) => {
                let t = encode_tickets(tkts);
                push_part(&mut parts, ctx(11, t.as_slice()));
            },
            None => {},
        }
        sequence(parts.as_slice())
    }

    /// Read a `KDC-REQ-BODY` from the next element of `cur`: its fields in
    /// any order, each tagged by what it sets.
    pub fn decode(cur: &mut Cursor<'_>) -> (r: Result<Self, Error>)
        ensures
            match spec_der_tlv(old(cur)@) {
                None => r == Err::<KdcReqBody, Error>(malformed()) && final(cur)@ == old(cur)@,
                Some((t, h, e)) => final(cur)@ == old(cur)@.subrange(e as int, old(cur)@.len() as int)
                    && match spec_kdc_req_body_of((t, old(cur)@.subrange(h as int, e as int))) {
                    Ok(m) => r matches Ok(x) && x@ == m,
                    Err(x) => r == Err::<KdcReqBody, Error>(x),
                },
            },
    {
        let seq = match cur.take() {
            Ok(x) => x,
            Err(e) => return Err(e),
        };
        Self::from_tlv(&seq)
    }

    /// The `KDC-REQ-BODY` a `SEQUENCE` element holds.
    pub(crate) fn from_tlv(seq: &Tlv) -> (r: Result<Self, Error>)
        ensures
            match spec_kdc_req_body_of(seq@) {
                Ok(m) => r matches Ok(x) && x@ == m,
                Err(x) => r == Err::<KdcReqBody, Error>(x),
            },
    {
        match ensure_tag(seq.tag, 0x30) {
            Ok(()) => {},
            Err(e) => return Err(e),
        }
        let mut c = Cursor::new(seq.value.as_slice());
        let mut body = KdcReqBody {
            kdc_options: 0,
            cname: None,
            realm: String::new(),
            sname: None,
            from: None,
            till: 0,
            rtime: None,
            nonce: 0,
            etype: Vec::new(),
            addresses: None,
            enc_authorization_data: None,
            additional_tickets: None,
        };
        proof {
            assert(body.etype@ =~= Seq::<i32>::empty());
            assert(body@ == kdc_req_body_start());
        }
        while !c.at_end()
            invariant
                spec_kdc_req_body_of(seq@) == spec_req_fields(c@, body@),
            decreases c@.len(),
        {
            let ghost before: Seq<u8> = c@;
            let a = match c.take() {
                Ok(x) => x,
                Err(e) => return Err(e),
            };
            proof {
                lemma_tlv_bounds(before);
            }
            match apply_req_field(&a, &mut body) {
                Ok(()) => {},
                Err(e) => return Err(e),
            }
        }
        Ok(body)
    }
}

// ---------------------------------------------------------------------------
// KDC-REQ (AS-REQ / TGS-REQ)
// ---------------------------------------------------------------------------

/// `KDC-REQ` (RFC 4120 §5.4.1), written under `[APPLICATION 10]` (AS-REQ)
/// or `[APPLICATION 12]` (TGS-REQ): the version and message type untagged,
/// the pre-authentication data as a `SET OF`, then the body.
#[derive(Debug, Clone, PartialEq, Eq)]
pub struct KdcReq {
    /// The protocol version.
    pub pvno: i32,
    /// The message type.
    pub msg_type: i32,
    /// The pre-authentication data, if any.
    pub padata: Option<Vec<PaData>>,
    /// The request body.
    pub req_body: KdcReqBody,
}

/// The value of a `KDC-REQ`.
pub struct KdcReqModel {
    pub pvno: i32,
    pub msg_type: i32,
    pub padata: Option<Seq<PaDataModel>>,
    pub req_body: KdcReqBodyModel,
}

impl View for KdcReq {
    type V = KdcReqModel;

    open spec fn view(&self) -> KdcReqModel {
        KdcReqModel {
            pvno: self.pvno,
            msg_type: self.msg_type,
            padata: match self.padata {
                Some(v) => Some(pa_views(v@)),
                None => None,
            },
            req_body: self.req_body@,
        }
    }
}

/// The encodings of some `PA-DATA` values.
pub open spec fn pa_model_ders(v: Seq<PaDataModel>) -> Seq<Seq<u8>> {
    Seq::new(v.len(), |i: int| pair_der(v[i].padata_type, v[i].padata_value))
}

/// The encoding of a `KDC-REQ` under `[APPLICATION app]`.
pub open spec fn kdc_req_der(app: u8, m: KdcReqModel) -> Seq<u8> {
    let pa = match m.padata {
        Some(l) => der(0x31, concat(sorted_parts(pa_model_ders(l)))),
        None => Seq::empty(),
    };
    der(
        (0x60 + app % 32) as u8,
        der(0x30, int32_der(m.pvno) + int32_der(m.msg_type) + pa + der(0x30, concat(req_body_fields(m.req_body)))),
    )
}

/// The fault for an element that has no place in a `KDC-REQ`.
pub open spec fn kdc_req_element() -> Error {
    Error::Unexpected("KDC-REQ element")
}

/// What the elements after the message type in `b` give, read in order: a
/// `SET` sets the pre-authentication data, a `SEQUENCE` the body (a later
/// one wins), anything else is a fault.
pub open spec fn spec_kdc_req_rest(
    b: Seq<u8>,
    padata: Option<Seq<PaDataModel>>,
    body: Option<KdcReqBodyModel>,
) -> Result<(Option<Seq<PaDataModel>>, Option<KdcReqBodyModel>), Error>
    decreases b.len(),
{
    if b.len() == 0 {
        Ok((padata, body))
    } else {
        match spec_next(b) {
            None => Err(malformed()),
            Some((x, rest)) => if rest.len() >= b.len() {
                Err(malformed())
            } else if x.0 == 0x31 {
                match spec_pa_data_of(x) {
                    Err(e) => Err(e),
                    Ok(p) => spec_kdc_req_rest(rest, Some(p), body),
                }
            } else if x.0 == 0x30 {
                match spec_kdc_req_body_of(x) {
                    Err(e) => Err(e),
                    Ok(bd) => spec_kdc_req_rest(rest, padata, Some(bd)),
                }
            } else {
                Err(kdc_req_element())
            },
        }
    }
}

/// The `KDC-REQ` of version `pvno` and type `msg_type` with the elements
/// `rest` after them.
pub open spec fn spec_kdc_req_after(pvno: i32, msg_type: i32, rest: Seq<u8>) -> Result<KdcReqModel, Error> {
    match spec_kdc_req_rest(rest, None, None) {
        Err(e) => Err(e),
        Ok((padata, body)) => match body {
            None => Err(Error::MissingField("KDC-REQ.req-body")),
            Some(req_body) => Ok(KdcReqModel { pvno, msg_type, padata, req_body }),
        },
    }
}

/// The `KDC-REQ` that `data` holds: exactly one `[APPLICATION app]` element
/// around one `SEQUENCE`.
pub open spec fn spec_kdc_req(app: u8, data: Seq<u8>) -> Result<KdcReqModel, Error> {
    match spec_der_single(data) {
        None => Err(malformed()),
        Some((t, v)) => if app >= 31 || t != 0x60 + app {
            Err(unexpected_tag())
        } else {
            match spec_sequence_of(v) {
                Err(e) => Err(e),
                Ok(c) => match spec_next(c) {
                    None => Err(malformed()),
                    Some((x1, c2)) => match spec_int32(x1) {
                        Err(e) => Err(e),
                        Ok(pvno) => match spec_next(c2) {
                            None => Err(malformed()),
                            Some((x2, c3)) => match spec_int32(x2) {
                                Err(e) => Err(e),
                                Ok(msg_type) => spec_kdc_req_after(pvno, msg_type, c3),
                            },
                        },
                    },
                },
            }
        }
    }
}

impl KdcReq {
    /// Encode as `[APPLICATION app]` (10 for AS-REQ, 12 for TGS-REQ).
    pub fn encode_application(&self, app: u8) -> (r: Vec<u8>)
        ensures
            r@ == kdc_req_der(app, self@),
    {
        let mut parts: Vec<Vec<u8>> = Vec::new();
        push_part(&mut parts, int32(self.pvno));
        push_part(&mut parts, int32(self.msg_type));
        let ghost pa: Seq<u8> = match self@.padata {
            Some(l) => der(0x31, concat(sorted_parts(pa_model_ders(l)))),
            None => Seq::empty(),
        };
        match &self.padata {
            Some(pa_list) => {
                let set = encode_pa_data(pa_list.as_slice());
                proof {
                    assert(pa_ders(pa_list@) =~= pa_model_ders(pa_views(pa_list@)));
                }
                push_part(&mut parts, set);
            },
            None => {},
        }
        let body = self.req_body.encode();
        push_part(&mut parts, body);
        proof {
            let a = int32_der(self.pvno);
            let b = int32_der(self.msg_type);
            let d = body@;
            lemma_concat2(a, b);
            match self.padata {
                Some(_) => {
                    assert(parts_view(parts@) =~= seq![a, b].push(pa).push(d));
                    lemma_concat_push(seq![a, b], pa);
                    lemma_concat_push(seq![a, b].push(pa), d);
                },
                None => {
                    assert(parts_view(parts@) =~= seq![a, b].push(d));
                    lemma_concat_push(seq![a, b], d);
                    assert(a + b + pa =~= a + b);
                },
            }
        }
        let s = sequence(parts.as_slice());
        let t = app_tag(app);
        tlv(t, s.as_slice())
    }

    /// Decode the `[APPLICATION app]` element that `data` consists of.
    pub fn decode_application(app: u8, data: &[u8]) -> (r: Result<Self, Error>)
        ensures
            match spec_kdc_req(app, data@) {
                Ok(m) => r matches Ok(x) && x@ == m,
                Err(e) => r == Err::<KdcReq, Error>(e),
            },
    {
        let outer = match read_single(data) {
            Ok(x) => x,
            Err(e) => return Err(e),
        };
        if app >= 31 {
            return Err(Error::Asn1("unexpected DER tag"));
        }
        match ensure_tag(outer.tag, 0x60 + app) {
            Ok(()) => {},
            Err(e) => return Err(e),
        }
        let seq = match unwrap_sequence(outer.value.as_slice()) {
            Ok(x) => x,
            Err(e) => return Err(e),
        };
        let mut c = Cursor::new(seq.value.as_slice());
        let a1 = match c.take() {
            Ok(x) => x,
            Err(e) => return Err(e),
        };
        let pvno = match decode_int32(&a1) {
            Ok(v) => v,
            Err(e) => return Err(e),
        };
        let a2 = match c.take() {
            Ok(x) => x,
            Err(e) => return Err(e),
        };
        let msg_type = match decode_int32(&a2) {
            Ok(v) => v,
            Err(e) => return Err(e),
        };
        let ghost start: Seq<u8> = c@;
        let mut padata: Option<Vec<PaData>> = None;
        let mut req_body: Option<KdcReqBody> = None;
        while !c.at_end()
            invariant
                spec_kdc_req(app, data@) == spec_kdc_req_after(pvno, msg_type, start),
                spec_kdc_req_rest(start, None, None) == spec_kdc_req_rest(
                    c@,
                    match padata {
                        Some(v) => Some(pa_views(v@)),
                        None => None,
                    },
                    match req_body {
                        Some(b) => Some(b@),
                        None => None,
                    },
                ),
            decreases c@.len(),
        {
            let ghost before: Seq<u8> = c@;
            let a = match c.take() {
                Ok(x) => x,
                Err(e) => return Err(e),
            };
            proof {
                lemma_tlv_bounds(before);
            }
            if a.tag == 0x31 {
                match decode_pa_data(&a) {
                    Ok(v) => padata = Some(v),
                    Err(e) => return Err(e),
                }
            } else if a.tag == 0x30 {
                match KdcReqBody::from_tlv(&a) {
                    Ok(b) => req_body = Some(b),
                    Err(e) => return Err(e),
                }
            } else {
                return Err(Error::Unexpected("KDC-REQ element"));
            }
        }
        match req_body {
            Some(req_body) => Ok(KdcReq { pvno, msg_type, padata, req_body }),
            None => Err(Error::MissingField("KDC-REQ.req-body")),
        }
    }
}

// ---------------------------------------------------------------------------
// KDC-REP (AS-REP / TGS-REP)
// ---------------------------------------------------------------------------

/// `KDC-REP` (RFC 4120 §5.4.2), written under `[APPLICATION 11]` (AS-REP)
/// or `[APPLICATION 13]` (TGS-REP).
#[derive(Debug, Clone, PartialEq, Eq)]
pub struct KdcRep {
    /// The protocol version.
    pub pvno: i32,
    /// The message type.
    pub msg_type: i32,
    /// The pre-authentication data, if any.
    pub padata: Option<Vec<PaData>>,
    /// The client's realm.
    pub crealm: String,
    /// The client's name.
    pub cname: PrincipalName,
    /// The ticket issued.
    pub ticket: Ticket,
    /// The encrypted `EncKDCRepPart`, under `[6]`.
    pub enc_part: EncryptedData,
}

/// The value of a `KDC-REP`.
pub struct KdcRepModel {
    pub pvno: i32,
    pub msg_type: i32,
    pub padata: Option<Seq<PaDataModel>>,
    pub crealm: Seq<char>,
    pub cname: PrincipalNameModel,
    pub ticket: TicketModel,
    pub enc_part: EncryptedDataModel,
}

impl View for KdcRep {
    type V = KdcRepModel;

    open spec fn view(&self) -> KdcRepModel {
        KdcRepModel {
            pvno: self.pvno,
            msg_type: self.msg_type,
            padata: match self.padata {
                Some(v) => Some(pa_views(v@)),
                None => None,
            },
            crealm: self.crealm@,
            cname: self.cname@,
            ticket: self.ticket@,
            enc_part: self.enc_part@,
        }
    }
}

/// The encoding of a `KDC-REP` under `[APPLICATION app]`.
pub open spec fn kdc_rep_der(app: u8, m: KdcRepModel) -> Seq<u8> {
    let pa = match m.padata {
        Some(l) => der(0x31, concat(sorted_parts(pa_model_ders(l)))),
        None => Seq::empty(),
    };
    der(
        (0x60 + app % 32) as u8,
        der(
            0x30,
            int32_der(m.pvno) + int32_der(m.msg_type) + pa + der(0xA1, kstring_der(m.crealm)) + der(
                0xA2,
                principal_name_der(m.cname),
            ) + ticket_der(1, m.ticket) + encrypted_data_der(6, m.enc_part),
        ),
    )
}

/// The fields of a `KDC-REP` read so far.
pub struct KdcRepFields {
    pub padata: Option<Vec<PaData>>,
    pub crealm: String,
    pub cname: Option<PrincipalName>,
    pub ticket: Option<Ticket>,
    pub enc_part: Option<EncryptedData>,
}

/// The value of the fields of a `KDC-REP` read so far.
pub struct KdcRepFieldsModel {
    pub padata: Option<Seq<PaDataModel>>,
    pub crealm: Seq<char>,
    pub cname: Option<PrincipalNameModel>,
    pub ticket: Option<TicketModel>,
    pub enc_part: Option<EncryptedDataModel>,
}

impl View for KdcRepFields {
    type V = KdcRepFieldsModel;

    open spec fn view(&self) -> KdcRepFieldsModel {
        KdcRepFieldsModel {
            padata: match self.padata {
                Some(v) => Some(pa_views(v@)),
                None => None,
            },
            crealm: self.crealm@,
            cname: match self.cname {
                Some(c) => Some(c@),
                None => None,
            },
            ticket: match self.ticket {
                Some(t) => Some(t@),
                None => None,
            },
            enc_part: match self.enc_part {
                Some(e) => Some(e@),
                None => None,
            },
        }
    }
}

/// The fault for an element that has no place in a `KDC-REP`.
pub open spec fn kdc_rep_field() -> Error {
    Error::Unexpected("KDC-REP field")
}

/// What reading the element `x` does to the fields `s` read so far.
#[verifier::opaque]
pub open spec fn spec_kdc_rep_field(x: (u8, Seq<u8>), s: KdcRepFieldsModel) -> Result<KdcRepFieldsModel, Error> {
    let t = x.0;
    if t == 0x31 {
        match spec_pa_data_of(x) {
            Err(e) => Err(e),
            Ok(v) => Ok(KdcRepFieldsModel { padata: Some(v), ..s }),
        }
    } else if t == 0xA1 {
        match spec_kstring(x) {
            Err(e) => Err(e),
            Ok(v) => Ok(KdcRepFieldsModel { crealm: v, ..s }),
        }
    } else if t == 0xA2 {
        match spec_wrapped_name(x) {
            Err(e) => Err(e),
            Ok(v) => Ok(KdcRepFieldsModel { cname: Some(v), ..s }),
        }
    } else if t == 0x61 {
        match spec_ticket_value(x.1) {
            Err(e) => Err(e),
            Ok(v) => Ok(KdcRepFieldsModel { ticket: Some(v), ..s }),
        }
    } else if t == 0x86 {
        match spec_encrypted_data_of(6, x) {
            Err(e) => Err(e),
            Ok(v) => Ok(KdcRepFieldsModel { enc_part: Some(v), ..s }),
        }
    } else {
        Err(kdc_rep_field())
    }
}

/// What reading the elements in `b`, in order, does to `s`, or the first
/// fault.
pub open spec fn spec_kdc_rep_fields(b: Seq<u8>, s: KdcRepFieldsModel) -> Result<KdcRepFieldsModel, Error>
    decreases b.len(),
{
    if b.len() == 0 {
        Ok(s)
    } else {
        match spec_next(b) {
            None => Err(malformed()),
            Some((x, rest)) => if rest.len() >= b.len() {
                Err(malformed())
            } else {
                match spec_kdc_rep_field(x, s) {
                    Err(e) => Err(e),
                    Ok(s2) => spec_kdc_rep_fields(rest, s2),
                }
            },
        }
    }
}

/// The `KDC-REP` the fields `f` make, or the first of `cname`, `ticket` and
/// `enc-part` that is missing.
pub open spec fn kdc_rep_from(pvno: i32, msg_type: i32, f: KdcRepFieldsModel) -> Result<KdcRepModel, Error> {
    match f.cname {
        None => Err(Error::MissingField("KDC-REP.cname")),
        Some(cname) => match f.ticket {
            None => Err(Error::MissingField("KDC-REP.ticket")),
            Some(ticket) => match f.enc_part {
                None => Err(Error::MissingField("KDC-REP.enc-part")),
                Some(enc_part) => Ok(
                    KdcRepModel { pvno, msg_type, padata: f.padata, crealm: f.crealm, cname, ticket, enc_part },
                ),
            },
        },
    }
}

/// The fields before any is read.
pub open spec fn kdc_rep_fields_start() -> KdcRepFieldsModel {
    KdcRepFieldsModel { padata: None, crealm: Seq::empty(), cname: None, ticket: None, enc_part: None }
}

/// The `KDC-REP` that `data` holds: exactly one `[APPLICATION app]` element
/// around one `SEQUENCE`.
pub open spec fn spec_kdc_rep(app: u8, data: Seq<u8>) -> Result<KdcRepModel, Error> {
    match spec_der_single(data) {
        None => Err(malformed()),
        Some((t, v)) => if app >= 31 || t != 0x60 + app {
            Err(unexpected_tag())
        } else {
            match spec_sequence_of(v) {
                Err(e) => Err(e),
                Ok(c) => match spec_next(c) {
                    None => Err(malformed()),
                    Some((x1, c2)) => match spec_int32(x1) {
                        Err(e) => Err(e),
                        Ok(pvno) => match spec_next(c2) {
                            None => Err(malformed()),
                            Some((x2, c3)) => match spec_int32(x2) {
                                Err(e) => Err(e),
                                Ok(msg_type) => match spec_kdc_rep_fields(c3, kdc_rep_fields_start()) {
                                    Err(e) => Err(e),
                                    Ok(f) => kdc_rep_from(pvno, msg_type, f),
                                },
                            },
                        },
                    },
                },
            }
        }
    }
}

/// Read the element `a` into the fields `st`.
fn apply_kdc_rep_field(a: &Tlv, st: &mut KdcRepFields) -> (r: Result<(), Error>)
    ensures
        match spec_kdc_rep_field(a@, old(st)@) {
            Ok(s2) => r is Ok && final(st)@ == s2,
            Err(e) => r == Err::<(), Error>(e),
        },
{
    proof {
        reveal(spec_kdc_rep_field);
    }
    let t = a.tag;
    if t == 0x31 {
        match decode_pa_data(a) {
            Ok(v) => {
                st.padata = Some(v);
                Ok(())
            },
            Err(e) => Err(e),
        }
    } else if t == 0xA1 {
        match read_kerberos_string(a) {
            Ok(v) => {
                st.crealm = v;
                Ok(())
            },
            Err(e) => Err(e),
        }
    } else if t == 0xA2 {
        match decode_wrapped_name(a) {
            Ok(v) => {
                st.cname = Some(v);
                Ok(())
            },
            Err(e) => Err(e),
        }
    } else if t == 0x61 {
        match decode_ticket_value(a.value.as_slice()) {
            Ok(v) => {
                st.ticket = Some(v);
                Ok(())
            },
            Err(e) => Err(e),
        }
    } else if t == 0x86 {
        match EncryptedData::decode_implicit(6, a) {
            Ok(v) => {
                st.enc_part = Some(v);
                Ok(())
            },
            Err(e) => Err(e),
        }
    } else {
        Err(Error::Unexpected("KDC-REP field"))
    }
}

impl KdcRep {
    /// Encode as `[APPLICATION app]` (11 for AS-REP, 13 for TGS-REP).
    pub fn encode_application(&self, app: u8) -> (r: Vec<u8>)
        ensures
            r@ == kdc_rep_der(app, self@),
    {
        let mut parts: Vec<Vec<u8>> = Vec::new();
        push_part(&mut parts, int32(self.pvno));
        push_part(&mut parts, int32(self.msg_type));
        let ghost pa: Seq<u8> = match self@.padata {
            Some(l) => der(0x31, concat(sorted_parts(pa_model_ders(l)))),
            None => Seq::empty(),
        };
        let ghost p2: Seq<Seq<u8>> = parts_view(parts@);
        match &self.padata {
            Some(pa_list) => {
                let set = encode_pa_data(pa_list.as_slice());
                proof {
                    assert(pa_ders(pa_list@) =~= pa_model_ders(pa_views(pa_list@)));
                }
                push_part(&mut parts, set);
            },
            None => {},
        }
        let ghost p3: Seq<Seq<u8>> = parts_view(parts@);
        proof {
            lemma_concat2(p2[0], p2[1]);
            assert(p2 =~= seq![p2[0], p2[1]]);
            match self.padata {
                Some(_) => {
                    assert(p3 =~= p2.push(pa));
                    lemma_concat_push(p2, pa);
                },
                None => {
                    assert(p3 =~= p2);
                    assert(concat(p2) + pa =~= concat(p2));
                },
            }
            assert(concat(p3) == int32_der(self.pvno) + int32_der(self.msg_type) + pa);
        }
        let rl = realm(self.crealm.as_str());
        let e1 = ctx(1, rl.as_slice());
        let ghost p4: Seq<Seq<u8>> = p3.push(e1@);
        push_part(&mut parts, e1);
        let cn = self.cname.encode();
        let e2 = ctx(2, cn.as_slice());
        let ghost p5: Seq<Seq<u8>> = p4.push(e2@);
        push_part(&mut parts, e2);
        let e3 = self.ticket.encode_application(1);
        let ghost p6: Seq<Seq<u8>> = p5.push(e3@);
        push_part(&mut parts, e3);
        let e4 = self.enc_part.encode_implicit(6);
        push_part(&mut parts, e4);
        proof {
            lemma_concat_push(p3, e1@);
            lemma_concat_push(p4, e2@);
            lemma_concat_push(p5, e3@);
            lemma_concat_push(p6, e4@);
        }
        let s = sequence(parts.as_slice());
        let t = app_tag(app);
        tlv(t, s.as_slice())
    }

    /// Decode the `[APPLICATION app]` element that `data` consists of.
    pub fn decode_application(app: u8, data: &[u8]) -> (r: Result<Self, Error>)
        ensures
            match spec_kdc_rep(app, data@) {
                Ok(m) => r matches Ok(x) && x@ == m,
                Err(e) => r == Err::<KdcRep, Error>(e),
            },
    {
        let outer = match read_single(data) {
            Ok(x) => x,
            Err(e) => return Err(e),
        };
        if app >= 31 {
            return Err(Error::Asn1("unexpected DER tag"));
        }
        match ensure_tag(outer.tag, 0x60 + app) {
            Ok(()) => {},
            Err(e) => return Err(e),
        }
        let seq = match unwrap_sequence(outer.value.as_slice()) {
            Ok(x) => x,
            Err(e) => return Err(e),
        };
        let mut c = Cursor::new(seq.value.as_slice());
        let a1 = match c.take() {
            Ok(x) => x,
            Err(e) => return Err(e),
        };
        let pvno = match decode_int32(&a1) {
            Ok(v) => v,
            Err(e) => return Err(e),
        };
        let a2 = match c.take() {
            Ok(x) => x,
            Err(e) => return Err(e),
        };
        let msg_type = match decode_int32(&a2) {
            Ok(v) => v,
            Err(e) => return Err(e),
        };
        let ghost start: Seq<u8> = c@;
        let mut st = KdcRepFields { padata: None, crealm: String::new(), cname: None, ticket: None, enc_part: None };
        proof {
            assert(st@ == kdc_rep_fields_start());
        }
        while !c.at_end()
            invariant
                spec_kdc_rep(app, data@) == match spec_kdc_rep_fields(start, kdc_rep_fields_start()) {
                    Err(e) => Err(e),
                    Ok(f) => kdc_rep_from(pvno, msg_type, f),
                },
                spec_kdc_rep_fields(start, kdc_rep_fields_start()) == spec_kdc_rep_fields(c@, st@),
            decreases c@.len(),
        {
            let ghost before: Seq<u8> = c@;
            let a = match c.take() {
                Ok(x) => x,
                Err(e) => return Err(e),
            };
            proof {
                lemma_tlv_bounds(before);
            }
            match apply_kdc_rep_field(&a, &mut st) {
                Ok(()) => {},
                Err(e) => return Err(e),
            }
        }
        let KdcRepFields { padata, crealm, cname, ticket, enc_part } = st;
        let cname = match cname {
            Some(v) => v,
            None => return Err(Error::MissingField("KDC-REP.cname")),
        };
        let ticket = match ticket {
            Some(v) => v,
            None => return Err(Error::MissingField("KDC-REP.ticket")),
        };
        let enc_part = match enc_part {
            Some(v) => v,
            None => return Err(Error::MissingField("KDC-REP.enc-part")),
        };
        Ok(KdcRep { pvno, msg_type, padata, crealm, cname, ticket, enc_part })
    }
}

// ---------------------------------------------------------------------------
// EncTicketPart
// ---------------------------------------------------------------------------

/// `TransitedEncoding` — `SEQUENCE { tr-type Int32, contents OCTET STRING }`.
#[derive(Debug, Clone, PartialEq, Eq)]
pub struct TransitedEncoding {
    /// The encoding type.
    pub tr_type: i32,
    /// The realms transited, encoded.
    pub contents: Vec<u8>,
}

/// An `AuthorizationData` entry — `SEQUENCE { ad-type Int32, ad-data OCTET
/// STRING }`.
#[derive(Debug, Clone, PartialEq, Eq)]
pub struct AuthorizationDataElement {
    /// The entry's type.
    pub ad_type: i32,
    /// The entry's data.
    pub ad_data: Vec<u8>,
}

impl View for AuthorizationDataElement {
    type V = (i32, Seq<u8>);

    open spec fn view(&self) -> (i32, Seq<u8>) {
        (self.ad_type, self.ad_data@)
    }
}

/// The values of some authorization entries.
pub open spec fn ad_views(l: Seq<AuthorizationDataElement>) -> Seq<(i32, Seq<u8>)> {
    Seq::new(l.len(), |i: int| l[i]@)
}

/// `AuthorizationData` — `SEQUENCE OF` entries.
pub(crate) fn encode_authorization_data(ad: &Vec<AuthorizationDataElement>) -> (r: Vec<u8>)
    ensures
        r@ == der(0x30, concat(pairs_der(ad_views(ad@)))),
{
    let mut parts: Vec<Vec<u8>> = Vec::new();
    let mut i: usize = 0;
    while i < ad.len()
        invariant
            i <= ad@.len(),
            parts_view(parts@) == pairs_der(ad_views(ad@)).subrange(0, i as int),
        decreases ad.len() - i,
    {
        let e = encode_pair(ad[i].ad_type, ad[i].ad_data.as_slice());
        proof {
            assert(parts_view(parts@.push(e)) =~= parts_view(parts@).push(e@));
            assert(pairs_der(ad_views(ad@)).subrange(0, i + 1) =~= pairs_der(ad_views(ad@)).subrange(0, i as int).push(
                e@,
            ));
        }
        parts.push(e);
        i = i + 1;
    }
    assert(pairs_der(ad_views(ad@)).subrange(0, i as int) =~= pairs_der(ad_views(ad@)));
    sequence(parts.as_slice())
}

/// Read the authorization entries an element holds: its contents are one
/// `SEQUENCE OF` entries (the element's own tag is not checked).
pub(crate) fn decode_authorization_data(any: &Tlv) -> (r: Result<Vec<AuthorizationDataElement>, Error>)
    ensures
        match spec_host_addresses_of(any@) {
            Ok(v) => r matches Ok(x) && ad_views(x@) == v,
            Err(e) => r == Err::<Vec<AuthorizationDataElement>, Error>(e),
        },
{
    let addrs = match decode_host_addresses(any) {
        Ok(v) => v,
        Err(e) => return Err(e),
    };
    let mut out: Vec<AuthorizationDataElement> = Vec::new();
    let mut i: usize = 0;
    while i < addrs.len()
        invariant
            i <= addrs@.len(),
            ad_views(out@) == host_views(addrs@).subrange(0, i as int),
        decreases addrs.len() - i,
    {
        let e = AuthorizationDataElement { ad_type: addrs[i].addr_type, ad_data: addrs[i].address.clone() };
        proof {
            assert(ad_views(out@.push(e)) =~= ad_views(out@).push(e@));
            assert(host_views(addrs@).subrange(0, i + 1) =~= host_views(addrs@).subrange(0, i as int).push(
                addrs@[i as int]@,
            ));
        }
        out.push(e);
        i = i + 1;
    }
    assert(host_views(addrs@).subrange(0, i as int) =~= host_views(addrs@));
    Ok(out)
}

/// `EncTicketPart` (RFC 4120 §5.3): what a ticket holds, encrypted.
#[derive(Debug, Clone, PartialEq, Eq)]
pub struct EncTicketPart {
    /// The ticket flags (a `BIT STRING`).
    pub flags: u32,
    /// The session key.
    pub key: EncryptionKey,
    /// The client's realm.
    pub crealm: String,
    /// The client's name.
    pub cname: PrincipalName,
    /// The realms transited.
    pub transited: TransitedEncoding,
    /// When the client authenticated.
    pub authtime: u64,
    /// When the ticket becomes valid, if given.
    pub starttime: Option<u64>,
    /// When the ticket expires.
    pub endtime: u64,
    /// The renewal limit, if given.
    pub renew_till: Option<u64>,
    /// The client addresses, if given.
    pub caddr: Option<Vec<HostAddress>>,
    /// Authorization data, if given.
    pub authorization_data: Option<Vec<AuthorizationDataElement>>,
}

/// The value of an `EncTicketPart`.
pub struct EncTicketPartModel {
    pub flags: u32,
    pub key: EncryptionKeyModel,
    pub crealm: Seq<char>,
    pub cname: PrincipalNameModel,
    pub transited: (i32, Seq<u8>),
    pub authtime: u64,
    pub starttime: Option<u64>,
    pub endtime: u64,
    pub renew_till: Option<u64>,
    pub caddr: Option<Seq<(i32, Seq<u8>)>>,
    pub authorization_data: Option<Seq<(i32, Seq<u8>)>>,
}

impl View for EncTicketPart {
    type V = EncTicketPartModel;

    open spec fn view(&self) -> EncTicketPartModel {
        EncTicketPartModel {
            flags: self.flags,
            key: self.key@,
            crealm: self.crealm@,
            cname: self.cname@,
            transited: (self.transited.tr_type, self.transited.contents@),
            authtime: self.authtime,
            starttime: self.starttime,
            endtime: self.endtime,
            renew_till: self.renew_till,
            caddr: match self.caddr {
                Some(v) => Some(host_views(v@)),
                None => None,
            },
            authorization_data: match self.authorization_data {
                Some(v) => Some(ad_views(v@)),
                None => None,
            },
        }
    }
}

/// The value decoding starts from, before any field is read.
pub open spec fn enc_ticket_part_start() -> EncTicketPartModel {
    EncTicketPartModel {
        flags: 0,
        key: EncryptionKeyModel { keytype: 0, keyvalue: Seq::empty() },
        crealm: Seq::empty(),
        cname: PrincipalNameModel { name_type: 0, name_string: Seq::empty() },
        transited: (0, Seq::empty()),
        authtime: 0,
        starttime: None,
        endtime: 0,
        renew_till: None,
        caddr: None,
        authorization_data: None,
    }
}

/// The fault for an element that has no place in an `EncTicketPart`.
pub open spec fn enc_ticket_part_field() -> Error {
    Error::Unexpected("EncTicketPart field")
}

/// What reading the field `x` does to `s`: each field's tag says which part
/// it sets.
#[verifier::opaque]
pub open spec fn spec_etp_field(x: (u8, Seq<u8>), s: EncTicketPartModel) -> Result<EncTicketPartModel, Error> {
    let t = x.0;
    if t == 0x03 {
        match spec_bit_string_u32(x) {
            Err(e) => Err(e),
            Ok(v) => Ok(EncTicketPartModel { flags: v, ..s }),
        }
    } else if t == 0x80 {
        match spec_implicit_pair_of(0, x) {
            Err(e) => Err(e),
            Ok((kt, kv)) => Ok(EncTicketPartModel { key: EncryptionKeyModel { keytype: kt, keyvalue: kv }, ..s }),
        }
    } else if t == 0xA1 {
        match spec_kstring(x) {
            Err(e) => Err(e),
            Ok(v) => Ok(EncTicketPartModel { crealm: v, ..s }),
        }
    } else if t == 0xA2 {
        match spec_wrapped_name(x) {
            Err(e) => Err(e),
            Ok(v) => Ok(EncTicketPartModel { cname: v, ..s }),
        }
    } else if t == 0xA3 {
        match spec_sequence_of(x.1) {
            Err(e) => Err(e),
            Ok(c) => match spec_pair_of((0x30u8, c)) {
                Err(e) => Err(e),
                Ok(p) => Ok(EncTicketPartModel { transited: p, ..s }),
            },
        }
    } else if t == 0xA4 {
        match spec_ktime(x) {
            Err(e) => Err(e),
            Ok(v) => Ok(EncTicketPartModel { authtime: v, ..s }),
        }
    } else if t == 0xA5 {
        match spec_ktime(x) {
            Err(e) => Err(e),
            Ok(v) => Ok(EncTicketPartModel { starttime: Some(v), ..s }),
        }
    } else if t == 0xA6 {
        match spec_ktime(x) {
            Err(e) => Err(e),
            Ok(v) => Ok(EncTicketPartModel { endtime: v, ..s }),
        }
    } else if t == 0xA7 {
        match spec_ktime(x) {
            Err(e) => Err(e),
            Ok(v) => Ok(EncTicketPartModel { renew_till: Some(v), ..s }),
        }
    } else if t == 0xA8 {
        match spec_host_addresses_of(x) {
            Err(e) => Err(e),
            Ok(v) => Ok(EncTicketPartModel { caddr: Some(v), ..s }),
        }
    } else if t == 0xA9 {
        match spec_host_addresses_of(x) {
            Err(e) => Err(e),
            Ok(v) => Ok(EncTicketPartModel { authorization_data: Some(v), ..s }),
        }
    } else {
        Err(enc_ticket_part_field())
    }
}

/// What reading the fields in `b`, in order, does to `s`, or the first fault.
pub open spec fn spec_etp_fields(b: Seq<u8>, s: EncTicketPartModel) -> Result<EncTicketPartModel, Error>
    decreases b.len(),
{
    if b.len() == 0 {
        Ok(s)
    } else {
        match spec_next(b) {
            None => Err(malformed()),
            Some((x, rest)) => if rest.len() >= b.len() {
                Err(malformed())
            } else {
                match spec_etp_field(x, s) {
                    Err(e) => Err(e),
                    Ok(s2) => spec_etp_fields(rest, s2),
                }
            },
        }
    }
}

/// The `EncTicketPart` a `SEQUENCE` element holds.
pub open spec fn spec_enc_ticket_part_of(x: (u8, Seq<u8>)) -> Result<EncTicketPartModel, Error> {
    if x.0 != 0x30 {
        Err(unexpected_tag())
    } else {
        spec_etp_fields(x.1, enc_ticket_part_start())
    }
}

/// Read the field `a` into `etp`.
fn apply_etp_field(a: &Tlv, etp: &mut EncTicketPart) -> (r: Result<(), Error>)
    ensures
        match spec_etp_field(a@, old(etp)@) {
            Ok(s2) => r is Ok && final(etp)@ == s2,
            Err(e) => r == Err::<(), Error>(e),
        },
{
    proof {
        reveal(spec_etp_field);
    }
    let t = a.tag;
    if t == 0x03 {
        match read_bit_string_u32(a) {
            Ok(v) => {
                etp.flags = v;
                Ok(())
            },
            Err(e) => Err(e),
        }
    } else if t == 0x80 {
        match EncryptionKey::decode_implicit(0, a) {
            Ok(v) => {
                etp.key = v;
                Ok(())
            },
            Err(e) => Err(e),
        }
    } else if t == 0xA1 {
        match read_kerberos_string(a) {
            Ok(v) => {
                etp.crealm = v;
                Ok(())
            },
            Err(e) => Err(e),
        }
    } else if t == 0xA2 {
        match decode_wrapped_name(a) {
            Ok(v) => {
                etp.cname = v;
                Ok(())
            },
            Err(e) => Err(e),
        }
    } else if t == 0xA3 {
        let seq = match unwrap_sequence(a.value.as_slice()) {
            Ok(x) => x,
            Err(e) => return Err(e),
        };
        match decode_pair(&seq) {
            Ok((tr_type, contents)) => {
                etp.transited = TransitedEncoding { tr_type, contents };
                Ok(())
            },
            Err(e) => Err(e),
        }
    } else if t == 0xA4 {
        match read_kerberos_time(a) {
            Ok(v) => {
                etp.authtime = v;
                Ok(())
            },
            Err(e) => Err(e),
        }
    } else if t == 0xA5 {
        match read_kerberos_time(a) {
            Ok(v) => {
                etp.starttime = Some(v);
                Ok(())
            },
            Err(e) => Err(e),
        }
    } else if t == 0xA6 {
        match read_kerberos_time(a) {
            Ok(v) => {
                etp.endtime = v;
                Ok(())
            },
            Err(e) => Err(e),
        }
    } else if t == 0xA7 {
        match read_kerberos_time(a) {
            Ok(v) => {
                etp.renew_till = Some(v);
                Ok(())
            },
            Err(e) => Err(e),
        }
    } else if t == 0xA8 {
        match decode_host_addresses(a) {
            Ok(v) => {
                etp.caddr = Some(v);
                Ok(())
            },
            Err(e) => Err(e),
        }
    } else if t == 0xA9 {
        match decode_authorization_data(a) {
            Ok(v) => {
                etp.authorization_data = Some(v);
                Ok(())
            },
            Err(e) => Err(e),
        }
    } else {
        Err(Error::Unexpected("EncTicketPart field"))
    }
}

/// The fields of an `EncTicketPart` as written: the flags untagged, then
/// `[0]` to `[9]` in order, the optional ones only when present.
pub open spec fn etp_fields(m: EncTicketPartModel) -> Seq<Seq<u8>> {
    let p0 = seq![
        bit_string_u32_der(m.flags),
        der(implicit_tag(0), pair_der(m.key.keytype, m.key.keyvalue)),
        der(0xA1, kstring_der(m.crealm)),
        der(0xA2, principal_name_der(m.cname)),
        der(0xA3, pair_der(m.transited.0, m.transited.1)),
        der(0xA4, ktime_der(m.authtime)),
    ];
    let p1 = push_time(p0, m.starttime, 0xA5);
    let p2 = p1.push(der(0xA6, ktime_der(m.endtime)));
    let p3 = push_time(p2, m.renew_till, 0xA7);
    let p4 = match m.caddr {
        Some(l) => p3.push(der(0xA8, der(0x30, concat(pairs_der(l))))),
        None => p3,
    };
    match m.authorization_data {
        Some(l) => p4.push(der(0xA9, der(0x30, concat(pairs_der(l))))),
        None => p4,
    }
}

impl EncTicketPart {
    /// The DER encoding of this `EncTicketPart`.
    pub fn encode(&self) -> (r: Vec<u8>)
        ensures
            r@ == der(0x30, concat(etp_fields(self@))),
    {
        let mut parts: Vec<Vec<u8>> = Vec::new();
        push_part(&mut parts, bit_string_u32(self.flags));
        push_part(&mut parts, self.key.encode_key_implicit(0));
        let rl = realm(self.crealm.as_str());
        push_part(&mut parts, ctx(1, rl.as_slice()));
        let cn = self.cname.encode();
        push_part(&mut parts, ctx(2, cn.as_slice()));
        let tr = encode_pair(self.transited.tr_type, self.transited.contents.as_slice());
        push_part(&mut parts, ctx(3, tr.as_slice()));
        let at = kerberos_time(self.authtime);
        push_part(&mut parts, ctx(4, at.as_slice()));
        proof {
            assert(parts_view(parts@) =~= seq![
                bit_string_u32_der(self.flags),
                der(implicit_tag(0), pair_der(self.key.keytype, self.key.keyvalue@)),
                der(0xA1, kstring_der(self.crealm@)),
                der(0xA2, principal_name_der(self.cname@)),
                der(0xA3, pair_der(self.transited.tr_type, self.transited.contents@)),
                der(0xA4, ktime_der(self.authtime)),
            ]);
        }
        push_time_field(&mut parts, self.starttime, 5);
        let et = kerberos_time(self.endtime);
        push_part(&mut parts, ctx(6, et.as_slice()));
        push_time_field(&mut parts, self.renew_till, 7);
        match &self.caddr {
            Some(addr) => {
                let ha = encode_host_addresses(addr.as_slice());
                proof {
                    assert(host_ders(addr@) =~= pairs_der(host_views(addr@)));
                }
                push_part(&mut parts, ctx(8, ha.as_slice()));
            },
            None => {},
        }
        match &self.authorization_data {
            Some(ad) => {
                let e = encode_authorization_data(ad);
                push_part(&mut parts, ctx(9, e.as_slice()));
            },
            None => {},
        }
        sequence(parts.as_slice())
    }

    /// Read an `EncTicketPart` from the next element of `cur`: its fields in
    /// any order, each tagged by what it sets.
    pub fn decode(cur: &mut Cursor<'_>) -> (r: Result<Self, Error>)
        ensures
            match spec_der_tlv(old(cur)@) {
                None => r == Err::<EncTicketPart, Error>(malformed()) && final(cur)@ == old(cur)@,
                Some((t, h, e)) => final(cur)@ == old(cur)@.subrange(e as int, old(cur)@.len() as int)
                    && match spec_enc_ticket_part_of((t, old(cur)@.subrange(h as int, e as int))) {
                    Ok(m) => r matches Ok(x) && x@ == m,
                    Err(x) => r == Err::<EncTicketPart, Error>(x),
                },
            },
    {
        let seq = match cur.take() {
            Ok(x) => x,
            Err(e) => return Err(e),
        };
        Self::from_tlv(&seq)
    }

    /// The `EncTicketPart` a `SEQUENCE` element holds.
    pub(crate) fn from_tlv(seq: &Tlv) -> (r: Result<Self, Error>)
        ensures
            match spec_enc_ticket_part_of(seq@) {
                Ok(m) => r matches Ok(x) && x@ == m,
                Err(x) => r == Err::<EncTicketPart, Error>(x),
            },
    {
        match ensure_tag(seq.tag, 0x30) {
            Ok(()) => {},
            Err(e) => return Err(e),
        }
        let mut c = Cursor::new(seq.value.as_slice());
        let mut etp = EncTicketPart {
            flags: 0,
            key: EncryptionKey { keytype: 0, keyvalue: Vec::new() },
            crealm: String::new(),
            cname: PrincipalName { name_type: 0, name_string: Vec::new() },
            transited: TransitedEncoding { tr_type: 0, contents: Vec::new() },
            authtime: 0,
            starttime: None,
            endtime: 0,
            renew_till: None,
            caddr: None,
            authorization_data: None,
        };
        proof {
            assert(etp.key.keyvalue@ =~= Seq::<u8>::empty());
            assert(etp.transited.contents@ =~= Seq::<u8>::empty());
            assert(etp.cname.name_string@ =~= Seq::<String>::empty());
            assert(etp.cname@.name_string =~= Seq::<Seq<char>>::empty());
            assert(etp@ == enc_ticket_part_start());
        }
        while !c.at_end()
            invariant
                spec_enc_ticket_part_of(seq@) == spec_etp_fields(c@, etp@),
            decreases c@.len(),
        {
            let ghost before: Seq<u8> = c@;
            let a = match c.take() {
                Ok(x) => x,
                Err(e) => return Err(e),
            };
            proof {
                lemma_tlv_bounds(before);
            }
            match apply_etp_field(&a, &mut etp) {
                Ok(()) => {},
                Err(e) => return Err(e),
            }
        }
        Ok(etp)
    }
}

// ---------------------------------------------------------------------------
// Reading back what was written
// ---------------------------------------------------------------------------

/// The pair written as a `SEQUENCE` reads back from the front of any octets
/// that start with it.
#[verifier::spinoff_prover]
proof fn lemma_pair_read(v: i32, o: Seq<u8>, rest: Seq<u8>)
    requires
        o.len() <= 0xffff_ff00,
    ensures
        ({
            let d = pair_der(v, o);
            let b = d + rest;
            &&& d.len() <= o.len() + 18
            &&& spec_der_tlv(b) matches Some((t, h, e)) && t == 0x30 && e == d.len()
                && spec_pair_of((t, b.subrange(h as int, e as int))) == Ok::<(i32, Seq<u8>), Error>((v, o))
                && b.subrange(e as int, b.len() as int) == rest
        }),
{
    let c = crate::ldap::ber::spec_int_bytes(v as int);
    lemma_int32_der(v);
    let o_der = der(0x04, o);
    lemma_der_tlv(0x04, o, Seq::empty());
    assert(o_der + Seq::<u8>::empty() =~= o_der);
    lemma_der_tlv(0x02, c, o_der);
    let inner = int32_der(v) + o_der;
    lemma_der_tlv(0x30, inner, rest);
    let rest1 = inner.subrange(int32_der(v).len() as int, inner.len() as int);
    assert(rest1 == o_der);
}

/// What a `Checksum` is encoded as reads back as the same `Checksum`.
#[verifier::spinoff_prover]
pub proof fn lemma_checksum_round_trip(n: u8, m: ChecksumModel)
    requires
        n < 31,
        m.checksum.len() <= 0xffff_ff00,
    ensures
        spec_der_single(checksum_der(n, m)) matches Some(x) && spec_checksum_of(n, x) == Ok::<ChecksumModel, Error>(m),
{
    lemma_implicit_pair_round_trip(n, m.cksumtype, m.checksum);
}

/// An `(Int32, OCTET STRING)` pair written under `[n] IMPLICIT` (as
/// `EncryptionKey::encode_key_implicit` and `Checksum::encode_implicit` write
/// theirs) is one element, and reads back as the same pair.
#[verifier::spinoff_prover]
pub proof fn lemma_implicit_pair_round_trip(n: u8, v: i32, o: Seq<u8>)
    requires
        n < 31,
        o.len() <= 0xffff_ff00,
    ensures
        spec_der_single(der(implicit_tag(n), pair_der(v, o))) matches Some(x)
            && x == (implicit_tag(n), pair_der(v, o))
            && spec_implicit_pair_of(n, x) == Ok::<(i32, Seq<u8>), Error>((v, o)),
{
    let d = pair_der(v, o);
    assert(d.len() <= o.len() + 18 && (spec_der_single(d) matches Some(y) && spec_pair_of(y) == Ok::<
        (i32, Seq<u8>),
        Error,
    >((v, o)))) by {
        lemma_pair_read(v, o, Seq::empty());
        assert(d + Seq::<u8>::empty() =~= d);
    }
    let e = der(implicit_tag(n), d);
    assert(spec_der_single(e) == Some((implicit_tag(n), d))) by {
        assert(n % 32 == n);
        lemma_der_tlv(implicit_tag(n), d, Seq::empty());
        assert(e + Seq::<u8>::empty() =~= e);
    }
}

/// A `PA-DATA` written and then read from the front of a cursor gives the
/// same `PA-DATA` back, and leaves the cursor after it.
#[verifier::spinoff_prover]
pub proof fn lemma_pa_data_round_trip(v: i32, o: Seq<u8>, rest: Seq<u8>)
    requires
        o.len() <= 0xffff_ff00,
    ensures
        spec_der_tlv(pair_der(v, o) + rest) matches Some((t, h, e))
            && spec_pair_of((t, (pair_der(v, o) + rest).subrange(h as int, e as int))) == Ok::<(i32, Seq<u8>), Error>((v, o))
            && (pair_der(v, o) + rest).subrange(e as int, (pair_der(v, o) + rest).len() as int) == rest,
{
    lemma_pair_read(v, o, rest);
}

/// The fields written after `etype` read back as the key version number and
/// ciphertext they were written from.
#[verifier::spinoff_prover]
proof fn lemma_encrypted_fields_read(kvno: Option<u32>, cipher: Seq<u8>)
    requires
        0 < cipher.len() <= 0xffff_ff00,
        kvno matches Some(k) ==> k < 0x8000_0000,
    ensures
        spec_encrypted_fields(kvno_der(kvno) + der(0x04, cipher), None, Seq::empty()) == Ok::<
            (Option<u32>, Seq<u8>),
            Error,
        >((kvno, cipher)),
{
    let kv = kvno_der(kvno);
    let cd = der(0x04, cipher);
    lemma_der_tlv(0x04, cipher, Seq::empty());
    assert(cd + Seq::<u8>::empty() =~= cd);
    assert(cd.subrange(cd.len() as int, cd.len() as int) =~= Seq::<u8>::empty());
    assert(spec_encrypted_fields(Seq::<u8>::empty(), kvno, cipher) == Ok::<(Option<u32>, Seq<u8>), Error>(
        (kvno, cipher),
    ));
    assert(spec_encrypted_fields(cd, kvno, Seq::empty()) == Ok::<(Option<u32>, Seq<u8>), Error>(
        (kvno, cipher),
    ));
    let tail = kv + cd;
    match kvno {
        Some(k) => {
            let ck = crate::ldap::ber::spec_int_bytes((k as i32) as int);
            lemma_int32_der(k as i32);
            lemma_der_tlv(0x02, ck, cd);
            assert(spec_uint32((0x02u8, ck)) == Ok::<u32, Error>(k));
        },
        None => {
            assert(tail =~= cd);
        },
    }
}

/// What an `EncryptedData` is encoded as reads back as the same
/// `EncryptedData`, when it has a ciphertext and its key version number fits
/// the `Int32` it is written as.
#[verifier::spinoff_prover]
pub proof fn lemma_encrypted_data_round_trip(n: u8, m: EncryptedDataModel)
    requires
        n < 31,
        0 < m.cipher.len() <= 0xffff_ff00,
        m.kvno matches Some(k) ==> k < 0x8000_0000,
    ensures
        spec_der_single(encrypted_data_der(n, m)) matches Some(x)
            && spec_encrypted_data_of(n, x) == Ok::<EncryptedDataModel, Error>(m),
{
    let ce = crate::ldap::ber::spec_int_bytes(m.etype as int);
    let ie = int32_der(m.etype);
    let tail = kvno_der(m.kvno) + der(0x04, m.cipher);
    let inner = ie + kvno_der(m.kvno) + der(0x04, m.cipher);
    let sd = der(0x30, inner);
    let whole = der(implicit_tag(n), sd);
    assert(ie == der(0x02, ce) && ce.len() <= 4 && spec_int32((0x02u8, ce)) == Ok::<i32, Error>(m.etype)) by {
        lemma_int32_der(m.etype);
    }
    assert(tail.len() <= m.cipher.len() + 16) by {
        lemma_der_tlv(0x04, m.cipher, Seq::empty());
        match m.kvno {
            Some(k) => lemma_int32_der(k as i32),
            None => {},
        }
    }
    assert(inner =~= ie + tail);
    let h1 = (ie.len() - ce.len()) as nat;
    assert(spec_der_tlv(inner) == Some((0x02u8, h1, ie.len())) && inner.subrange(h1 as int, ie.len() as int) == ce
        && inner.subrange(ie.len() as int, inner.len() as int) == tail) by {
        lemma_der_tlv(0x02, ce, tail);
    }
    assert(spec_der_single(sd) == Some((0x30u8, inner)) && sd.len() <= inner.len() + 6) by {
        lemma_der_tlv(0x30, inner, Seq::empty());
        assert(sd + Seq::<u8>::empty() =~= sd);
    }
    assert(spec_der_single(whole) == Some((implicit_tag(n), sd))) by {
        assert(n % 32 == n);
        lemma_der_tlv(implicit_tag(n), sd, Seq::empty());
        assert(whole + Seq::<u8>::empty() =~= whole);
    }
    lemma_encrypted_fields_read(m.kvno, m.cipher);
    assert(encrypted_data_der(n, m) == whole);
}

/// The encrypted part of a ticket reads back as itself.
#[verifier::spinoff_prover]
proof fn lemma_ticket_enc_read(m: TicketModel)
    requires
        0 < m.enc_part.cipher.len() <= 0xffff_ff00,
        m.enc_part.kvno matches Some(k) ==> k < 0x8000_0000,
    ensures
        spec_ticket_enc(encrypted_data_der(3, m.enc_part), m.tkt_vno, m.realm, m.sname) == Ok::<TicketModel, Error>(m),
{
    lemma_encrypted_data_round_trip(3, m.enc_part);
}

/// The service name and encrypted part of a ticket read back as the ticket.
#[verifier::spinoff_prover]
proof fn lemma_ticket_sname_read(m: TicketModel)
    requires
        (principal_name_der(m.sname) + encrypted_data_der(3, m.enc_part)).len() <= 0xffff_ff00,
        m.enc_part.cipher.len() > 0,
        m.enc_part.kvno matches Some(k) ==> k < 0x8000_0000,
    ensures
        spec_ticket_sname(principal_name_der(m.sname) + encrypted_data_der(3, m.enc_part), m.tkt_vno, m.realm)
            == Ok::<TicketModel, Error>(m),
{
    let ee = encrypted_data_der(3, m.enc_part);
    let pc = int32_der(m.sname.name_type) + der(0x30, concat(kstrings_der(m.sname.name_string)));
    assert(spec_next(principal_name_der(m.sname) + ee) == Some(((0x30u8, pc), ee))) by {
        lemma_der_tlv(0x30, pc, ee);
    }
    assert(spec_principal_name_of((0x30u8, pc)) == Ok::<PrincipalNameModel, Error>(m.sname)) by {
        lemma_principal_name_round_trip(m.sname);
    }
    assert(m.enc_part.cipher.len() <= 0xffff_ff00);
    lemma_ticket_enc_read(m);
}

/// The fields of a ticket read back, element by element, as the ticket.
proof fn lemma_ticket_fields_read(m: TicketModel)
    requires
        ticket_fields_der(m).len() <= 0xffff_ff00,
        m.enc_part.cipher.len() > 0,
        m.enc_part.kvno matches Some(k) ==> k < 0x8000_0000,
    ensures
        spec_ticket_fields(ticket_fields_der(m)) == Ok::<TicketModel, Error>(m),
{
    let ie = int32_der(m.tkt_vno);
    let ce = crate::ldap::ber::spec_int_bytes(m.tkt_vno as int);
    let ke = kstring_der(m.realm);
    let re = encode_utf8(m.realm);
    let c3 = principal_name_der(m.sname) + encrypted_data_der(3, m.enc_part);
    let c2 = ke + c3;
    let f = ticket_fields_der(m);
    assert(f =~= ie + c2);
    lemma_ticket_sname_read(m);
    assert(spec_ticket_realm(c2, m.tkt_vno) == Ok::<TicketModel, Error>(m)) by {
        lemma_der_tlv(0x1B, re, c3);
        lemma_kstring_read(m.realm);
    }
    assert(ie == der(0x02, ce) && spec_int32((0x02u8, ce)) == Ok::<i32, Error>(m.tkt_vno)) by {
        lemma_int32_der(m.tkt_vno);
    }
    assert(spec_next(f) == Some(((0x02u8, ce), c2))) by {
        lemma_der_tlv(0x02, ce, c2);
    }
}

/// What a ticket is encoded as under `[APPLICATION 1]` reads back as the
/// same ticket, when its encrypted part has a ciphertext and a key version
/// number that fits an `Int32`, and the whole fits four length octets.
#[verifier::spinoff_prover]
pub proof fn lemma_ticket_round_trip(m: TicketModel)
    requires
        ticket_fields_der(m).len() <= 0xffff_ff00,
        m.enc_part.cipher.len() > 0,
        m.enc_part.kvno matches Some(k) ==> k < 0x8000_0000,
    ensures
        spec_ticket(ticket_der(1, m)) == Ok::<TicketModel, Error>(m),
{
    let f = ticket_fields_der(m);
    lemma_ticket_fields_read(m);
    let sd = der(0x30, f);
    assert(spec_der_single(sd) == Some((0x30u8, f)) && sd.len() <= f.len() + 6) by {
        lemma_der_tlv(0x30, f, Seq::empty());
        assert(sd + Seq::<u8>::empty() =~= sd);
    }
    let whole = der(0x61, sd);
    assert(spec_der_single(whole) == Some((0x61u8, sd))) by {
        lemma_der_tlv(0x61, sd, Seq::empty());
        assert(whole + Seq::<u8>::empty() =~= whole);
    }
    assert(ticket_der(1, m) == whole);
}

} // verus!
