//! DER (X.690) for the Kerberos v5 wire types (RFC 4120 §5.2): one-octet
//! tags, definite minimal lengths, and the primitive Kerberos types built on
//! them.
//!
//! A DER element read from octets is a `(tag, contents)` pair; the grammar is
//! `spec_der_tlv`, and the encoders are stated as octet strings.

use vstd::prelude::*;
use vstd::utf8::{valid_utf8, decode_utf8, encode_utf8};
use crate::digits::{be_value, be_digits, pw, lemma_pw_pos, lemma_be_value_digits, lemma_be_value_bound, lemma_be_digits_first};
use crate::ldap::ber::{spec_len_bytes, byte_len, encode_length, lemma_byte_len_bound, lemma_byte_len_le};
use crate::text::{str_from_utf8, chars_of, string_of_chars};
use crate::kerberos::error::Error;

verus! {

// ---------------------------------------------------------------------------
// The element grammar
// ---------------------------------------------------------------------------

/// The faults the DER layer reports.
pub open spec fn malformed() -> Error {
    Error::Asn1("malformed DER element")
}

/// A DER element read from octets: its tag octet and its contents.
#[derive(Debug, Clone, PartialEq, Eq)]
pub struct Tlv {
    /// The identifier octet.
    pub tag: u8,
    /// The contents octets.
    pub value: Vec<u8>,
}

impl View for Tlv {
    type V = (u8, Seq<u8>);

    open spec fn view(&self) -> (u8, Seq<u8>) {
        (self.tag, self.value@)
    }
}

/// The identifier and length octets at the start of `b`: the tag, the
/// number of header octets and the contents length. One-octet tags only; the
/// length is definite and minimal (short form below 128, else one to four
/// octets without a leading zero).
pub open spec fn spec_der_header(b: Seq<u8>) -> Option<(u8, nat, nat)> {
    if b.len() < 2 || b[0] % 32 == 31 {
        None
    } else if b[1] < 0x80 {
        Some((b[0], 2, b[1] as nat))
    } else {
        let k = (b[1] - 0x80) as nat;
        if k == 0 || k > 4 || b.len() < 2 + k {
            None
        } else {
            let v = be_value(b.subrange(2, 2 + k as int));
            if b[2] == 0 || v < 0x80 {
                None
            } else {
                Some((b[0], 2 + k, v))
            }
        }
    }
}

/// The element at the start of `b`: its tag, where its contents start, and
/// where it ends.
pub open spec fn spec_der_tlv(b: Seq<u8>) -> Option<(u8, nat, nat)> {
    match spec_der_header(b) {
        Some((t, h, l)) => if h + l <= b.len() {
            Some((t, h, h + l))
        } else {
            None
        },
        None => None,
    }
}

/// The element `b` consists of, exactly.
pub open spec fn spec_der_single(b: Seq<u8>) -> Option<(u8, Seq<u8>)> {
    match spec_der_tlv(b) {
        Some((t, h, n)) => if n == b.len() {
            Some((t, b.subrange(h as int, n as int)))
        } else {
            None
        },
        None => None,
    }
}

/// The elements `b` consists of, in order.
pub open spec fn spec_der_list(b: Seq<u8>) -> Option<Seq<(u8, Seq<u8>)>>
    decreases b.len(),
{
    if b.len() == 0 {
        Some(Seq::empty())
    } else {
        match spec_der_tlv(b) {
            Some((t, h, n)) => if n > 0 {
                match spec_der_list(b.subrange(n as int, b.len() as int)) {
                    Some(rest) => Some(seq![(t, b.subrange(h as int, n as int))] + rest),
                    None => None,
                }
            } else {
                None
            },
            None => None,
        }
    }
}

/// The views of some elements.
pub open spec fn tlvs_view(v: Seq<Tlv>) -> Seq<(u8, Seq<u8>)> {
    Seq::new(v.len(), |i: int| v[i]@)
}

/// Read the element at the start of `b`: its tag, the start of its contents
/// and its end.
pub(crate) fn read_tlv(b: &[u8]) -> (r: Result<(u8, usize, usize), Error>)
    ensures
        match spec_der_tlv(b@) {
            Some((t, h, n)) => r == Ok::<(u8, usize, usize), Error>((t, h as usize, n as usize)),
            None => r == Err::<(u8, usize, usize), Error>(malformed()),
        },
{
    if b.len() < 2 || b[0] % 32 == 31 {
        return Err(Error::Asn1("malformed DER element"));
    }
    let (h, l): (usize, usize) = if b[1] < 0x80 {
        (2, b[1] as usize)
    } else {
        let k = (b[1] - 0x80) as usize;
        if k == 0 || k > 4 || b.len() < 2 + k {
            return Err(Error::Asn1("malformed DER element"));
        }
        let mut v: u64 = 0;
        let mut i: usize = 0;
        while i < k
            invariant
                2 + k <= b.len(),
                k <= 4,
                i <= k,
                v == be_value(b@.subrange(2, 2 + i as int)),
                v < pw(256, i as nat),
            decreases k - i,
        {
            proof {
                assert(b@.subrange(2, 2 + i + 1).drop_last() =~= b@.subrange(2, 2 + i as int));
                assert(pw(256, (i + 1) as nat) == 256 * pw(256, i as nat));
                assert(pw(256, 4) == 0x1_0000_0000) by {
                    reveal_with_fuel(pw, 5);
                }
                crate::digits::lemma_pw_mono(256, i as nat, 3);
                assert(pw(256, 3) == 0x100_0000) by {
                    reveal_with_fuel(pw, 4);
                }
            }
            v = v * 256 + b[2 + i] as u64;
            i = i + 1;
        }
        proof {
            assert(pw(256, 4) == 0x1_0000_0000) by {
                reveal_with_fuel(pw, 5);
            }
            crate::digits::lemma_pw_mono(256, k as nat, 4);
        }
        if b[2] == 0 || v < 0x80 {
            return Err(Error::Asn1("malformed DER element"));
        }
        (2 + k, v as usize)
    };
    if l > b.len() - h {
        return Err(Error::Asn1("malformed DER element"));
    }
    Ok((b[0], h, h + l))
}

/// Split `b` into the elements it consists of.
pub(crate) fn read_list(b: &[u8]) -> (r: Result<Vec<Tlv>, Error>)
    ensures
        match spec_der_list(b@) {
            Some(l) => r matches Ok(v) && tlvs_view(v@) == l,
            None => r == Err::<Vec<Tlv>, Error>(malformed()),
        },
{
    let mut out: Vec<Tlv> = Vec::new();
    let mut p: usize = 0;
    assert(b@.subrange(0, b@.len() as int) =~= b@);
    assert(tlvs_view(out@) =~= Seq::<(u8, Seq<u8>)>::empty());
    proof {
        match spec_der_list(b@) {
            Some(l) => assert(tlvs_view(out@) + l =~= l),
            None => {},
        }
    }
    while p < b.len()
        invariant
            p <= b.len(),
            match spec_der_list(b@) {
                Some(l) => spec_der_list(b@.subrange(p as int, b@.len() as int)) matches Some(rest) && l
                    == tlvs_view(out@) + rest,
                None => spec_der_list(b@.subrange(p as int, b@.len() as int)) is None,
            },
        decreases b.len() - p,
    {
        let rest = &b[p..b.len()];
        proof {
            assert(rest@ == b@.subrange(p as int, b@.len() as int));
        }
        let (t, h, n) = match read_tlv(rest) {
            Ok(x) => x,
            Err(e) => return Err(e),
        };
        let value = vstd::slice::slice_to_vec(&rest[h..n]);
        let ghost before = out@;
        out.push(Tlv { tag: t, value });
        proof {
            let bb = b@.subrange(p as int, b@.len() as int);
            assert(bb.subrange(n as int, bb.len() as int) =~= b@.subrange(p + n, b@.len() as int));
            assert(tlvs_view(out@) =~= tlvs_view(before).push((t, bb.subrange(h as int, n as int))));
            match spec_der_list(b@) {
                Some(l) => {
                    let r2 = spec_der_list(bb.subrange(n as int, bb.len() as int))->Some_0;
                    assert(tlvs_view(before) + (seq![(t, bb.subrange(h as int, n as int))] + r2) =~= tlvs_view(
                        out@,
                    ) + r2);
                },
                None => {},
            }
        }
        p = p + n;
    }
    proof {
        assert(b@.subrange(p as int, b@.len() as int) =~= Seq::<u8>::empty());
        match spec_der_list(b@) {
            Some(l) => assert(tlvs_view(out@) + Seq::<(u8, Seq<u8>)>::empty() =~= tlvs_view(out@)),
            None => {},
        }
    }
    Ok(out)
}

/// Read the single element `b` consists of.
pub(crate) fn read_single(b: &[u8]) -> (r: Result<Tlv, Error>)
    ensures
        match spec_der_single(b@) {
            Some(x) => r matches Ok(v) && v@ == x,
            None => r == Err::<Tlv, Error>(malformed()),
        },
{
    let (t, h, n) = match read_tlv(b) {
        Ok(x) => x,
        Err(e) => return Err(e),
    };
    if n != b.len() {
        return Err(Error::Asn1("malformed DER element"));
    }
    Ok(Tlv { tag: t, value: vstd::slice::slice_to_vec(&b[h..n]) })
}

/// A cursor over DER octets that yields one element at a time.
pub struct Cursor<'a> {
    data: &'a [u8],
}

impl<'a> View for Cursor<'a> {
    type V = Seq<u8>;

    closed spec fn view(&self) -> Seq<u8> {
        self.data@
    }
}

impl<'a> Cursor<'a> {
    /// A cursor at the start of `data`.
    pub fn new(data: &'a [u8]) -> (c: Self)
        ensures
            c@ == data@,
    {
        Cursor { data }
    }

    /// Take the next element, advancing the cursor past it.
    pub fn take(&mut self) -> (r: Result<Tlv, Error>)
        ensures
            match spec_der_tlv(old(self)@) {
                Some((t, h, n)) => r matches Ok(x) && x@ == (t, old(self)@.subrange(h as int, n as int))
                    && final(self)@ == old(self)@.subrange(n as int, old(self)@.len() as int),
                None => r == Err::<Tlv, Error>(malformed()) && final(self)@ == old(self)@,
            },
    {
        let d = self.data;
        let dl = d.len();
        let (t, h, n) = match read_tlv(d) {
            Ok(x) => x,
            Err(e) => return Err(e),
        };
        proof {
            let x = spec_der_tlv(d@)->Some_0;
            assert(x.2 <= dl);
        }
        let value = vstd::slice::slice_to_vec(&d[h..n]);
        self.data = &d[n..d.len()];
        Ok(Tlv { tag: t, value })
    }

    /// The tag of the next element, if one can be read.
    pub fn peek_tag(&self) -> (r: Option<u8>)
        ensures
            r == match spec_der_tlv(self@) {
                Some((t, _, _)) => Some(t),
                None => None::<u8>,
            },
    {
        match read_tlv(self.data) {
            Ok((t, _, _)) => Some(t),
            Err(_) => None,
        }
    }

    /// No octets are left.
    pub fn at_end(&self) -> (b: bool)
        ensures
            b == (self@.len() == 0),
    {
        self.data.len() == 0
    }

    /// The octets not yet read.
    pub fn remaining(&self) -> (r: &'a [u8])
        ensures
            r@ == self@,
    {
        self.data
    }
}

// ---------------------------------------------------------------------------
// Encoders
// ---------------------------------------------------------------------------

/// The DER element with tag `tag` and contents `c`.
pub open spec fn der(tag: u8, c: Seq<u8>) -> Seq<u8> {
    seq![tag] + spec_len_bytes(c.len()) + c
}

/// Some octet strings one after another.
pub open spec fn concat(parts: Seq<Seq<u8>>) -> Seq<u8>
    decreases parts.len(),
{
    if parts.len() == 0 {
        Seq::empty()
    } else {
        concat(parts.drop_last()) + parts.last()
    }
}

/// The views of some octet vectors.
pub open spec fn parts_view(p: Seq<Vec<u8>>) -> Seq<Seq<u8>> {
    Seq::new(p.len(), |i: int| p[i]@)
}

/// A positive `n` is at least `256^(byte_len(n) - 1)`: its length octets
/// carry no leading zero.
proof fn lemma_byte_len_lower(n: nat)
    requires
        n >= 1,
    ensures
        byte_len(n) >= 1,
        pw(256, (byte_len(n) - 1) as nat) <= n,
    decreases n,
{
    reveal_with_fuel(pw, 2);
    if n >= 256 {
        lemma_byte_len_lower(n / 256);
        let k = byte_len(n / 256);
        assert(byte_len(n) == 1 + k);
        assert(pw(256, k) == 256 * pw(256, (k - 1) as nat));
        assert(256 * (n / 256) <= n) by {
            vstd::arithmetic::div_mod::lemma_fundamental_div_mod(n as int, 256);
        }
        vstd::arithmetic::mul::lemma_mul_inequality(pw(256, (k - 1) as nat) as int, (n / 256) as int, 256);
        vstd::arithmetic::mul::lemma_mul_is_commutative(pw(256, (k - 1) as nat) as int, 256);
        vstd::arithmetic::mul::lemma_mul_is_commutative((n / 256) as int, 256);
    }
}

/// The element `der(tag, c)` reads back from the front of any octets that
/// start with it, when its tag is one octet and its length fits the four
/// length octets the reader takes.
#[verifier::spinoff_prover]
pub proof fn lemma_der_tlv(tag: u8, c: Seq<u8>, rest: Seq<u8>)
    requires
        tag % 32 != 31,
        c.len() < 0x1_0000_0000,
    ensures
        ({
            let d = der(tag, c);
            let b = d + rest;
            let h = (d.len() - c.len()) as nat;
            &&& 2 <= h <= 6
            &&& d.len() == h + c.len()
            &&& spec_der_tlv(b) == Some((tag, h, d.len()))
            &&& b.subrange(h as int, d.len() as int) == c
            &&& b.subrange(d.len() as int, b.len() as int) == rest
        }),
{
    let d = der(tag, c);
    let b = d + rest;
    let l = c.len();
    let lb = spec_len_bytes(l);
    assert(d =~= seq![tag] + lb + c);
    if l < 128 {
        assert(b[1] == l as u8);
        assert(spec_der_header(b) == Some((tag, 2nat, l)));
    } else {
        let k = byte_len(l);
        lemma_byte_len_bound(l);
        assert(pw(256, 4) == 0x1_0000_0000) by {
            reveal_with_fuel(pw, 5);
        }
        lemma_byte_len_le(l, 4);
        lemma_byte_len_lower(l);
        lemma_be_value_digits(l, k);
        lemma_be_digits_first(l, k);
        lemma_pw_pos(256, (k - 1) as nat);
        assert(l / pw(256, (k - 1) as nat) >= 1) by {
            vstd::arithmetic::div_mod::lemma_div_is_ordered(
                pw(256, (k - 1) as nat) as int,
                l as int,
                pw(256, (k - 1) as nat) as int,
            );
            vstd::arithmetic::div_mod::lemma_div_by_self(pw(256, (k - 1) as nat) as int);
        }
        assert(lb =~= seq![(0x80 + k) as u8] + be_digits(l, k));
        assert(b[1] == (0x80 + k) as u8);
        assert(b.subrange(2, 2 + k as int) =~= be_digits(l, k));
        assert(b[2] == be_digits(l, k)[0]);
        assert(spec_der_header(b) == Some((tag, (2 + k) as nat, l)));
    }
    assert(b.subrange((d.len() - l) as int, d.len() as int) =~= c);
    assert(b.subrange(d.len() as int, b.len() as int) =~= rest);
}

/// An `Int32` element holds at most four content octets and reads back as
/// its value.
#[verifier::spinoff_prover]
pub proof fn lemma_int32_der(v: i32)
    ensures
        int32_der(v) == der(0x02, crate::ldap::ber::spec_int_bytes(v as int)),
        crate::ldap::ber::spec_int_bytes(v as int).len() <= 4,
        spec_signed(crate::ldap::ber::spec_int_bytes(v as int)) == v,
        v >= 0 ==> be_value(crate::ldap::ber::spec_int_bytes(v as int)) == v,
{
    let c = crate::ldap::ber::spec_int_bytes(v as int);
    crate::ldap::ber::lemma_int_bytes_roundtrip(v as i64);
    assert(pw(256, 3) == 0x100_0000) by {
        reveal_with_fuel(pw, 4);
    }
    assert(crate::ldap::ber::fits_signed(v as int, 4));
    lemma_signed_len_at_most(v as int, 1);
    let n = crate::ldap::ber::signed_len(v as int);
    crate::digits::lemma_be_digits_len((v as int % (pw(256, n) as int)) as nat, n);
    assert(c.len() <= 4);
    lemma_be_value_bound(c);
    crate::digits::lemma_pw_mono(256, c.len(), 4);
    assert(pw(256, 4) == 0x1_0000_0000) by {
        reveal_with_fuel(pw, 5);
    }
    assert(spec_signed(c) == crate::ldap::ber::signed_value(c));
}

/// The minimal length of a value that fits four octets is at most four.
proof fn lemma_signed_len_at_most(v: int, n: nat)
    requires
        1 <= n <= 4,
        crate::ldap::ber::fits_signed(v, 4),
    ensures
        crate::ldap::ber::signed_len_from(v, n) <= 4,
    decreases 4 - n,
{
    if n < 4 && !crate::ldap::ber::fits_signed(v, n) {
        lemma_signed_len_at_most(v, n + 1);
    }
}

/// Encode DER length octets (definite length, short/long form).
pub(crate) fn enc_len(n: usize) -> (r: Vec<u8>)
    ensures
        r@ == spec_len_bytes(n as nat),
{
    let mut out: Vec<u8> = Vec::new();
    encode_length(n, &mut out);
    assert(out@ =~= spec_len_bytes(n as nat));
    out
}

/// Encode a single-byte-tag element.
pub(crate) fn tlv(tag: u8, content: &[u8]) -> (r: Vec<u8>)
    ensures
        r@ == der(tag, content@),
{
    let mut out: Vec<u8> = Vec::new();
    out.push(tag);
    encode_length(content.len(), &mut out);
    out.extend_from_slice(content);
    assert(out@ =~= der(tag, content@));
    out
}

/// `[APPLICATION n]` constructed tag octet.
pub(crate) fn app_tag(n: u8) -> (r: u8)
    ensures
        r == 0x60 + n % 32,
{
    assert(0x60u8 | (n & 0x1Fu8) == 0x60 + n % 32) by (bit_vector);
    0x60 | (n & 0x1F)
}

/// `[n] EXPLICIT` context-tagged (constructed) wrapper.
pub(crate) fn ctx(n: u8, content: &[u8]) -> (r: Vec<u8>)
    ensures
        r@ == der((0xA0 + n % 32) as u8, content@),
{
    assert(0xA0u8 | (n & 0x1Fu8) == 0xA0 + n % 32) by (bit_vector);
    tlv(0xA0 | (n & 0x1F), content)
}

/// `[n] IMPLICIT OCTET STRING` (primitive context tag).
pub(crate) fn implicit_octet_string(n: u8, content: &[u8]) -> (r: Vec<u8>)
    ensures
        r@ == der((0x80 + n % 32) as u8, content@),
{
    assert(0x80u8 | (n & 0x1Fu8) == 0x80 + n % 32) by (bit_vector);
    tlv(0x80 | (n & 0x1F), content)
}

/// `[n] IMPLICIT INTEGER` (primitive context tag).
pub(crate) fn implicit_int(n: u8, content: &[u8]) -> (r: Vec<u8>)
    ensures
        r@ == der((0x80 + n % 32) as u8, content@),
{
    implicit_octet_string(n, content)
}

fn concat_parts(parts: &[Vec<u8>]) -> (r: Vec<u8>)
    ensures
        r@ == concat(parts_view(parts@)),
{
    let mut content: Vec<u8> = Vec::new();
    let mut i: usize = 0;
    while i < parts.len()
        invariant
            i <= parts@.len(),
            content@ == concat(parts_view(parts@).subrange(0, i as int)),
        decreases parts.len() - i,
    {
        proof {
            let pv = parts_view(parts@);
            assert(pv.subrange(0, i + 1).drop_last() =~= pv.subrange(0, i as int));
        }
        content.extend_from_slice(parts[i].as_slice());
        i = i + 1;
    }
    assert(parts_view(parts@).subrange(0, i as int) =~= parts_view(parts@));
    content
}

/// A `SEQUENCE` of already-encoded parts.
pub(crate) fn sequence(parts: &[Vec<u8>]) -> (r: Vec<u8>)
    ensures
        r@ == der(0x30, concat(parts_view(parts@))),
{
    let content = concat_parts(parts);
    tlv(0x30, content.as_slice())
}

/// `parts` with `x` inserted before the first part that sorts after it.
pub open spec fn insert_sorted(parts: Seq<Seq<u8>>, x: Seq<u8>) -> Seq<Seq<u8>>
    decreases parts.len(),
{
    if parts.len() == 0 {
        seq![x]
    } else if crate::text::lex_lt(x, parts[0]) {
        seq![x] + parts
    } else {
        seq![parts[0]] + insert_sorted(parts.drop_first(), x)
    }
}

/// `parts` in ascending (lexicographic) order, equal parts in their order.
pub open spec fn sorted_parts(parts: Seq<Seq<u8>>) -> Seq<Seq<u8>>
    decreases parts.len(),
{
    if parts.len() == 0 {
        Seq::empty()
    } else {
        insert_sorted(sorted_parts(parts.drop_last()), parts.last())
    }
}

fn insert_part(sorted: Vec<Vec<u8>>, x: Vec<u8>) -> (r: Vec<Vec<u8>>)
    ensures
        parts_view(r@) == insert_sorted(parts_view(sorted@), x@),
{
    let mut out: Vec<Vec<u8>> = Vec::new();
    let mut i: usize = 0;
    let n = sorted.len();
    assert(parts_view(sorted@).subrange(0, n as int) =~= parts_view(sorted@));
    assert(parts_view(out@) =~= Seq::<Seq<u8>>::empty());
    assert(parts_view(out@) + insert_sorted(parts_view(sorted@), x@) =~= insert_sorted(parts_view(sorted@), x@));
    while i < n && !crate::ldap::protocol::eval::lex_less(x.as_slice(), sorted[i].as_slice())
        invariant
            n == sorted@.len(),
            i <= n,
            parts_view(out@) == parts_view(sorted@).subrange(0, i as int),
            insert_sorted(parts_view(sorted@), x@) == parts_view(out@) + insert_sorted(
                parts_view(sorted@).subrange(i as int, n as int),
                x@,
            ),
        decreases n - i,
    {
        proof {
            let rest = parts_view(sorted@).subrange(i as int, n as int);
            assert(rest[0] == sorted@[i as int]@);
            assert(rest.drop_first() =~= parts_view(sorted@).subrange(i + 1, n as int));
            assert(parts_view(out@.push(sorted@[i as int])) =~= parts_view(out@).push(sorted@[i as int]@));
            assert(parts_view(out@) + (seq![rest[0]] + insert_sorted(rest.drop_first(), x@)) =~= parts_view(
                out@.push(sorted@[i as int]),
            ) + insert_sorted(rest.drop_first(), x@));
        }
        out.push(sorted[i].clone());
        i = i + 1;
    }
    let ghost before = out@;
    out.push(x);
    let mut j = i;
    proof {
        let rest = parts_view(sorted@).subrange(i as int, n as int);
        if rest.len() > 0 {
            assert(rest[0] == sorted@[i as int]@);
        }
        assert(insert_sorted(rest, x@) =~= seq![x@] + rest);
        assert(parts_view(out@) =~= parts_view(before).push(x@));
    }
    while j < n
        invariant
            n == sorted@.len(),
            i <= j <= n,
            parts_view(out@) == parts_view(sorted@).subrange(0, i as int) + seq![x@] + parts_view(sorted@).subrange(
                i as int,
                j as int,
            ),
        decreases n - j,
    {
        proof {
            assert(parts_view(out@.push(sorted@[j as int])) =~= parts_view(out@).push(sorted@[j as int]@));
            assert(parts_view(sorted@).subrange(i as int, j + 1) =~= parts_view(sorted@).subrange(i as int, j as int).push(
                sorted@[j as int]@,
            ));
        }
        out.push(sorted[j].clone());
        j = j + 1;
    }
    proof {
        let rest = parts_view(sorted@).subrange(i as int, n as int);
        assert(parts_view(out@) =~= parts_view(sorted@).subrange(0, i as int) + (seq![x@] + rest));
    }
    out
}

/// A `SET OF` the parts, which DER orders by their encodings.
pub(crate) fn set_of(parts: &[Vec<u8>]) -> (r: Vec<u8>)
    ensures
        r@ == der(0x31, concat(sorted_parts(parts_view(parts@)))),
{
    let mut sorted: Vec<Vec<u8>> = Vec::new();
    let mut i: usize = 0;
    while i < parts.len()
        invariant
            i <= parts@.len(),
            parts_view(sorted@) == sorted_parts(parts_view(parts@).subrange(0, i as int)),
        decreases parts.len() - i,
    {
        proof {
            let pv = parts_view(parts@);
            assert(pv.subrange(0, i + 1).drop_last() =~= pv.subrange(0, i as int));
            assert(pv.subrange(0, i + 1).last() == parts@[i as int]@);
        }
        sorted = insert_part(sorted, parts[i].clone());
        i = i + 1;
    }
    assert(parts_view(parts@).subrange(0, i as int) =~= parts_view(parts@));
    let content = concat_parts(sorted.as_slice());
    tlv(0x31, content.as_slice())
}

/// An `OCTET STRING`.
pub(crate) fn octet_string(data: &[u8]) -> (r: Vec<u8>)
    ensures
        r@ == der(0x04, data@),
{
    tlv(0x04, data)
}

// ---------------------------------------------------------------------------
// INTEGER
// ---------------------------------------------------------------------------

/// `s` without redundant leading zero octets (one octet stays).
pub open spec fn strip_lead(s: Seq<u8>) -> Seq<u8>
    decreases s.len(),
{
    if s.len() > 1 && s[0] == 0 {
        strip_lead(s.drop_first())
    } else {
        s
    }
}

/// The contents of the `INTEGER` written for big-endian octets `s`: leading
/// zeros stripped, and a zero octet put back when the top bit is set.
pub open spec fn int_content(s: Seq<u8>) -> Seq<u8> {
    let v = strip_lead(s);
    if v.len() > 0 && v[0] >= 0x80 {
        seq![0u8] + v
    } else {
        v
    }
}

/// The four big-endian octets of `v`.
pub open spec fn be4(v: u32) -> Seq<u8> {
    be_digits(v as nat, 4)
}

/// An `INTEGER` holding big-endian octets `bytes` (as an unsigned value).
pub(crate) fn integer_be(bytes: &[u8]) -> (r: Vec<u8>)
    ensures
        r@ == der(0x02, int_content(bytes@)),
{
    let mut k: usize = 0;
    assert(bytes@.skip(0) =~= bytes@);
    while bytes.len() > 1 && k < bytes.len() - 1 && bytes[k] == 0
        invariant
            k < bytes@.len() || bytes@.len() == 0 && k == 0,
            strip_lead(bytes@) == strip_lead(bytes@.skip(k as int)),
        decreases bytes.len() - k,
    {
        proof {
            assert(bytes@.skip(k as int).drop_first() =~= bytes@.skip(k + 1));
        }
        k = k + 1;
    }
    proof {
        assert(bytes@.skip(0) =~= bytes@);
    }
    let v = vstd::slice::slice_to_vec(&bytes[k..bytes.len()]);
    assert(v@ =~= bytes@.skip(k as int));
    assert(strip_lead(v@) == v@);
    if v.len() > 0 && v[0] >= 0x80 {
        let mut w: Vec<u8> = Vec::new();
        w.push(0);
        w.extend_from_slice(v.as_slice());
        assert(w@ =~= seq![0u8] + v@);
        tlv(0x02, w.as_slice())
    } else {
        tlv(0x02, v.as_slice())
    }
}

/// The four big-endian octets of `v`.
pub(crate) fn be4_bytes(v: u32) -> (r: Vec<u8>)
    ensures
        r@ == be4(v),
{
    let q1 = v / 256;
    let q2 = q1 / 256;
    let q3 = q2 / 256;
    let mut out: Vec<u8> = Vec::new();
    out.push((q3 % 256) as u8);
    out.push((q2 % 256) as u8);
    out.push((q1 % 256) as u8);
    out.push((v % 256) as u8);
    proof {
        reveal_with_fuel(be_digits, 5);
        assert(out@ =~= be4(v));
    }
    out
}

/// A signed 32-bit `INTEGER`: the minimal two's-complement octets of `v`.
pub(crate) fn integer_i32(v: i32) -> (r: Vec<u8>)
    ensures
        r@ == der(0x02, crate::ldap::ber::spec_int_bytes(v as int)),
{
    let b = crate::ldap::ber::int_to_bytes(v as i64);
    tlv(0x02, b.as_slice())
}

/// An unsigned 32-bit `INTEGER`.
pub(crate) fn integer_u32(v: u32) -> (r: Vec<u8>)
    ensures
        r@ == der(0x02, int_content(be4(v))),
{
    let b = be4_bytes(v);
    integer_be(b.as_slice())
}

/// The fault for an element of the wrong kind.
pub open spec fn unexpected_tag() -> Error {
    Error::Asn1("unexpected DER tag")
}

/// An error when `actual` is not `expected`.
pub(crate) fn ensure_tag(actual: u8, expected: u8) -> (r: Result<(), Error>)
    ensures
        r == if actual == expected {
            Ok::<(), Error>(())
        } else {
            Err::<(), Error>(unexpected_tag())
        },
{
    if actual == expected {
        Ok(())
    } else {
        Err(Error::Asn1("unexpected DER tag"))
    }
}

/// The element an `[n] EXPLICIT` wrapper holds (a context-specific
/// constructed element holds exactly one); any other element stands for
/// itself.
pub open spec fn spec_peel(x: (u8, Seq<u8>)) -> Result<(u8, Seq<u8>), Error> {
    if x.0 / 32 == 5 {
        match spec_der_single(x.1) {
            Some(y) => Ok(y),
            None => Err(malformed()),
        }
    } else {
        Ok(x)
    }
}

/// Remove an `[n] EXPLICIT` wrapper, if `any` is one.
pub(crate) fn peel_explicit(any: &Tlv) -> (r: Result<Tlv, Error>)
    ensures
        match spec_peel(any@) {
            Ok(y) => r matches Ok(v) && v@ == y,
            Err(e) => r == Err::<Tlv, Error>(e),
        },
{
    if any.tag / 32 == 5 {
        read_single(any.value.as_slice())
    } else {
        Ok(Tlv { tag: any.tag, value: any.value.clone() })
    }
}

/// The contents of an `INTEGER` element.
pub(crate) fn integer_value(any: &Tlv) -> (r: Result<Vec<u8>, Error>)
    ensures
        if any@.0 == 0x02 {
            r matches Ok(v) && v@ == any@.1
        } else {
            r == Err::<Vec<u8>, Error>(unexpected_tag())
        },
{
    match ensure_tag(any.tag, 0x02) {
        Ok(()) => {},
        Err(e) => return Err(e),
    }
    Ok(any.value.clone())
}

/// The value of two's-complement big-endian octets.
pub open spec fn spec_signed(c: Seq<u8>) -> int {
    if c.len() > 0 && c[0] >= 0x80 {
        be_value(c) - pw(256, c.len())
    } else {
        be_value(c) as int
    }
}

/// The `i32` an element (possibly `[n] EXPLICIT`-wrapped) holds.
pub open spec fn spec_int32(x: (u8, Seq<u8>)) -> Result<i32, Error> {
    match spec_peel(x) {
        Err(e) => Err(e),
        Ok((t, c)) => if t != 0x02 {
            Err(unexpected_tag())
        } else if c.len() > 4 {
            Err(Error::Range("INTEGER does not fit in i32"))
        } else {
            Ok(spec_signed(c) as i32)
        },
    }
}

/// The `u32` an element (possibly `[n] EXPLICIT`-wrapped) holds.
pub open spec fn spec_uint32(x: (u8, Seq<u8>)) -> Result<u32, Error> {
    match spec_peel(x) {
        Err(e) => Err(e),
        Ok((t, c)) => if t != 0x02 {
            Err(unexpected_tag())
        } else if c.len() > 4 {
            Err(Error::Range("INTEGER does not fit in u32"))
        } else {
            Ok(be_value(c) as u32)
        },
    }
}

pub(crate) fn be_value_small(c: &[u8]) -> (r: u64)
    requires
        c@.len() <= 4,
    ensures
        r == be_value(c@),
        r < pw(256, c@.len()),
{
    let mut v: u64 = 0;
    let mut i: usize = 0;
    proof {
        assert(pw(256, 4) == 0x1_0000_0000) by {
            reveal_with_fuel(pw, 5);
        }
    }
    while i < c.len()
        invariant
            c@.len() <= 4,
            i <= c@.len(),
            v == be_value(c@.subrange(0, i as int)),
            v < pw(256, i as nat),
            pw(256, 4) == 0x1_0000_0000,
        decreases c.len() - i,
    {
        proof {
            assert(c@.subrange(0, i + 1).drop_last() =~= c@.subrange(0, i as int));
            crate::digits::lemma_pw_mono(256, i as nat, 3);
            assert(pw(256, 3) == 0x100_0000) by {
                reveal_with_fuel(pw, 4);
            }
        }
        v = v * 256 + c[i] as u64;
        i = i + 1;
    }
    assert(c@.subrange(0, i as int) =~= c@);
    v
}

/// Decode an `INTEGER` (possibly `[n] EXPLICIT`-wrapped) into an `i32`.
pub(crate) fn decode_int32(any: &Tlv) -> (r: Result<i32, Error>)
    ensures
        r == spec_int32(any@),
{
    let inner = match peel_explicit(any) {
        Ok(x) => x,
        Err(e) => return Err(e),
    };
    let v = match integer_value(&inner) {
        Ok(x) => x,
        Err(e) => return Err(e),
    };
    if v.len() > 4 {
        return Err(Error::Range("INTEGER does not fit in i32"));
    }
    let u = be_value_small(v.as_slice());
    proof {
        crate::digits::lemma_pw_mono(256, v@.len() as nat, 4);
        assert(pw(256, 4) == 0x1_0000_0000) by {
            reveal_with_fuel(pw, 5);
        }
    }
    if v.len() > 0 && v[0] >= 0x80 {
        let p: u64 = if v.len() == 1 {
            256
        } else if v.len() == 2 {
            65536
        } else if v.len() == 3 {
            16777216
        } else {
            4294967296
        };
        proof {
            reveal_with_fuel(pw, 5);
            lemma_be_value_first_bound(v@);
        }
        Ok((u as i64 - p as i64) as i32)
    } else {
        proof {
            if v@.len() == 4 {
                lemma_be_value_first_bound(v@);
            } else if v@.len() > 0 {
                crate::digits::lemma_pw_mono(256, v@.len() as nat, 3);
                assert(pw(256, 3) == 0x100_0000) by {
                    reveal_with_fuel(pw, 4);
                }
            }
        }
        Ok(u as i32)
    }
}

/// A value whose top octet is at least `0x80` is at least half the range;
/// one whose top octet is below is below half of it.
proof fn lemma_be_value_first_bound(s: Seq<u8>)
    requires
        s.len() >= 1,
    ensures
        s[0] >= 0x80 ==> be_value(s) >= pw(256, s.len()) / 2,
        s[0] < 0x80 ==> be_value(s) < pw(256, s.len()) / 2,
        pw(256, s.len()) == 256 * pw(256, (s.len() - 1) as nat),
{
    crate::digits::lemma_be_value_first(s);
    lemma_be_value_bound(s);
    let p = pw(256, (s.len() - 1) as nat);
    lemma_pw_pos(256, (s.len() - 1) as nat);
    assert(pw(256, s.len()) == 256 * p);
    let v = be_value(s);
    vstd::arithmetic::div_mod::lemma_fundamental_div_mod(v as int, p as int);
    assert(v == p * (v / p) + v % p);
    assert(0 <= v % p < p) by {
        vstd::arithmetic::div_mod::lemma_mod_bound(v as int, p as int);
    }
    if s[0] >= 0x80 {
        assert(v / p >= 128);
        vstd::arithmetic::mul::lemma_mul_inequality(128, (v / p) as int, p as int);
        vstd::arithmetic::mul::lemma_mul_is_commutative(p as int, (v / p) as int);
    } else {
        assert(v / p <= 127);
        vstd::arithmetic::mul::lemma_mul_inequality((v / p) as int, 127, p as int);
        vstd::arithmetic::mul::lemma_mul_is_commutative(p as int, (v / p) as int);
    }
}

/// Decode an `INTEGER` (possibly `[n] EXPLICIT`-wrapped) into a `u32`.
pub(crate) fn decode_u32(any: &Tlv) -> (r: Result<u32, Error>)
    ensures
        r == spec_uint32(any@),
{
    let inner = match peel_explicit(any) {
        Ok(x) => x,
        Err(e) => return Err(e),
    };
    let v = match integer_value(&inner) {
        Ok(x) => x,
        Err(e) => return Err(e),
    };
    if v.len() > 4 {
        return Err(Error::Range("INTEGER does not fit in u32"));
    }
    let u = be_value_small(v.as_slice());
    proof {
        crate::digits::lemma_pw_mono(256, v@.len() as nat, 4);
        assert(pw(256, 4) == 0x1_0000_0000) by {
            reveal_with_fuel(pw, 5);
        }
    }
    Ok(u as u32)
}

// ---------------------------------------------------------------------------
// KerberosString
// ---------------------------------------------------------------------------

/// `KerberosString` — a GeneralString (RFC 4120 §5.2.1).
pub(crate) fn kerberos_string(s: &str) -> (r: Vec<u8>)
    ensures
        r@ == der(0x1B, encode_utf8(s@)),
{
    let b = s.as_bytes();
    tlv(0x1B, b)
}

/// The string a `KerberosString` element (possibly `[n] EXPLICIT`-wrapped)
/// holds.
pub open spec fn spec_kstring(x: (u8, Seq<u8>)) -> Result<Seq<char>, Error> {
    match spec_peel(x) {
        Err(e) => Err(e),
        Ok((t, c)) => if t != 0x1B {
            Err(Error::Unexpected("expected GeneralString (KerberosString)"))
        } else if !valid_utf8(c) {
            Err(Error::Unexpected("KerberosString is not valid UTF-8"))
        } else {
            Ok(decode_utf8(c))
        },
    }
}

/// Decode a `KerberosString` (GeneralString).
pub(crate) fn read_kerberos_string(any: &Tlv) -> (r: Result<String, Error>)
    ensures
        match spec_kstring(any@) {
            Ok(s) => r matches Ok(v) && v@ == s,
            Err(e) => r == Err::<String, Error>(e),
        },
{
    let inner = match peel_explicit(any) {
        Ok(x) => x,
        Err(e) => return Err(e),
    };
    if inner.tag != 0x1B {
        return Err(Error::Unexpected("expected GeneralString (KerberosString)"));
    }
    match str_from_utf8(inner.value.as_slice()) {
        Some(s) => Ok(s.to_owned()),
        None => Err(Error::Unexpected("KerberosString is not valid UTF-8")),
    }
}

/// `Realm` is simply a `KerberosString` (RFC 4120 §5.2.2).
pub(crate) fn realm(s: &str) -> (r: Vec<u8>)
    ensures
        r@ == der(0x1B, encode_utf8(s@)),
{
    kerberos_string(s)
}

/// `Int32` — a signed 32-bit INTEGER (RFC 4120 §5.2.4).
pub(crate) fn int32(v: i32) -> (r: Vec<u8>)
    ensures
        r@ == int32_der(v),
{
    integer_i32(v)
}

/// `UInt32` — an unsigned 32-bit INTEGER (RFC 4120 §5.2.5).
pub(crate) fn uint32(v: u32) -> (r: Vec<u8>)
    ensures
        r@ == der(0x02, int_content(be4(v))),
{
    integer_u32(v)
}

/// `Microseconds` — an unsigned 32-bit INTEGER (RFC 4120 §5.2.6).
pub(crate) fn microseconds(v: u32) -> (r: Vec<u8>)
    ensures
        r@ == der(0x02, int_content(be4(v))),
{
    integer_u32(v)
}

// ---------------------------------------------------------------------------
// KerberosTime
// ---------------------------------------------------------------------------

/// A Gregorian leap year.
pub open spec fn spec_is_leap(y: int) -> bool {
    (y % 4 == 0 && y % 100 != 0) || y % 400 == 0
}

/// The days of year `y`.
pub open spec fn year_days(y: int) -> nat {
    if spec_is_leap(y) {
        366
    } else {
        365
    }
}

/// The days from 1970-01-01 to the start of year `y` (none before 1970).
pub open spec fn days_before_year(y: int) -> nat
    decreases y - 1970,
{
    if y <= 1970 {
        0
    } else {
        days_before_year(y - 1) + year_days(y - 1)
    }
}

/// The days of month `m` (1..=12) in a common year.
pub open spec fn month_table(m: int) -> nat {
    if m == 2 {
        28
    } else if m == 4 || m == 6 || m == 9 || m == 11 {
        30
    } else if 1 <= m <= 12 {
        31
    } else {
        0
    }
}

/// The days of the months before month `m` in a common year.
pub open spec fn common_days_before(m: int) -> nat
    decreases m,
{
    if m <= 1 {
        0
    } else {
        common_days_before(m - 1) + month_table(m - 1)
    }
}

/// The days of the months of year `y` before month `m`.
pub open spec fn days_before_month(m: int, y: int) -> nat {
    common_days_before(m) + if m > 2 && spec_is_leap(y) {
        1nat
    } else {
        0nat
    }
}

/// The days since 1970-01-01 of a date; an error for a month outside 1..=12
/// or a day before the first.
pub open spec fn spec_ymd_to_days(year: u64, month: u64, day: u64) -> Result<u64, Error> {
    if !(1 <= month <= 12) || day < 1 {
        Err(Error::Unexpected("invalid date"))
    } else {
        Ok((days_before_year(year as int) + days_before_month(month as int, year as int) + day - 1) as u64)
    }
}

fn is_leap(y: u64) -> (b: bool)
    ensures
        b == spec_is_leap(y as int),
{
    (y % 4 == 0 && y % 100 != 0) || y % 400 == 0
}

proof fn lemma_days_before_year_bound(y: int)
    ensures
        days_before_year(y) <= 366 * (if y > 1970 { y - 1970 } else { 0 }),
    decreases y - 1970,
{
    if y > 1970 {
        lemma_days_before_year_bound(y - 1);
    }
}

proof fn lemma_common_days_before_bound(m: int)
    ensures
        common_days_before(m) <= 31 * (if m > 1 { m - 1 } else { 0 }),
    decreases m,
{
    if m > 1 {
        lemma_common_days_before_bound(m - 1);
    }
}

fn ymd_to_days(year: u64, month: u64, day: u64) -> (r: Result<u64, Error>)
    requires
        year < 10000,
        day < 100,
    ensures
        r == spec_ymd_to_days(year, month, day),
{
    if !(1 <= month && month <= 12) || day < 1 {
        return Err(Error::Unexpected("invalid date"));
    }
    let mut days: u64 = 0;
    let mut y: u64 = 1970;
    while y < year
        invariant
            1970 <= y,
            y <= year || year < 1970,
            year < 10000,
            days == days_before_year(y as int),
        decreases year - y,
    {
        proof {
            lemma_days_before_year_bound(y as int);
        }
        days = days + if is_leap(y) {
            366
        } else {
            365
        };
        y = y + 1;
    }
    proof {
        if year < 1970 {
            assert(days_before_year(year as int) == 0);
        }
        lemma_days_before_year_bound(year as int);
    }
    let mut md: u64 = 0;
    let mut m: u64 = 1;
    while m < month
        invariant
            1 <= m <= month,
            month <= 12,
            md == common_days_before(m as int),
        decreases month - m,
    {
        proof {
            lemma_common_days_before_bound(m as int);
        }
        md = md + if m == 2 {
            28
        } else if m == 4 || m == 6 || m == 9 || m == 11 {
            30
        } else {
            31
        };
        m = m + 1;
    }
    proof {
        lemma_common_days_before_bound(month as int);
    }
    if month > 2 && is_leap(year) {
        md = md + 1;
    }
    if year < 1970 {
        Ok(md + day - 1)
    } else {
        Ok(days + md + day - 1)
    }
}

/// The decimal digits of `v` as ASCII octets, without leading zeros.
pub open spec fn dec_bytes(v: nat) -> Seq<u8>
    decreases v,
{
    if v < 10 {
        seq![(48 + v) as u8]
    } else {
        dec_bytes(v / 10).push((48 + v % 10) as u8)
    }
}

/// The decimal digits of `v`, zero-padded on the left to at least `w` digits.
pub open spec fn dec_pad(v: nat, w: nat) -> Seq<u8> {
    let d = dec_bytes(v);
    if d.len() < w {
        Seq::new((w - d.len()) as nat, |i: int| 48u8) + d
    } else {
        d
    }
}

/// Year and day of year of the `d`-th day counted from the start of year `y`.
pub open spec fn civil_year(d: nat, y: int) -> (int, nat)
    decreases d,
{
    if d < year_days(y) {
        (y, d)
    } else {
        civil_year((d - year_days(y)) as nat, y + 1)
    }
}

/// The days of month `m` of year `y`.
pub open spec fn month_len(m: int, y: int) -> nat {
    month_table(m) + if m == 2 && spec_is_leap(y) {
        1nat
    } else {
        0nat
    }
}

/// Month and day of month (from 0) of the `r`-th day counted from the start
/// of month `m` of year `y`.
pub open spec fn civil_month(r: nat, m: int, y: int) -> (int, nat)
    decreases 12 - m,
{
    if m >= 12 || r < month_len(m, y) {
        (m, r)
    } else {
        civil_month((r - month_len(m, y)) as nat, m + 1, y)
    }
}

/// The `YYYYMMDDHHMMSSZ` text of a time given in seconds since the epoch.
pub open spec fn time_text(secs: nat) -> Seq<u8> {
    let days = secs / 86400;
    let rem = secs % 86400;
    let (y, yd) = civil_year(days, 1970);
    let (m, md) = civil_month(yd, 1, y);
    dec_pad(y as nat, 4) + dec_pad(m as nat, 2) + dec_pad(md + 1, 2) + dec_pad(rem / 3600, 2) + dec_pad(
        rem % 3600 / 60,
        2,
    ) + dec_pad(rem % 60, 2) + seq![0x5Au8]
}

fn push_dec_pad(out: &mut Vec<u8>, v: u64, w: usize)
    requires
        w <= 4,
    ensures
        final(out)@ == old(out)@ + dec_pad(v as nat, w as nat),
{
    let mut digits: Vec<u8> = Vec::new();
    let mut n = v;
    while n >= 10
        invariant
            dec_bytes(v as nat) == dec_bytes(n as nat) + digits@,
        decreases n,
    {
        let d = (n % 10) as u8 + 48;
        let ghost before = digits@;
        digits.insert(0, d);
        proof {
            assert(dec_bytes(n as nat) == dec_bytes((n / 10) as nat).push(d));
            assert(dec_bytes(n as nat) + before =~= dec_bytes((n / 10) as nat) + digits@);
        }
        n = n / 10;
    }
    let ghost before = digits@;
    digits.insert(0, n as u8 + 48);
    assert(digits@ =~= dec_bytes(n as nat) + before);
    let mut k = digits.len();
    assert(out@ =~= old(out)@ + Seq::new((k - digits@.len()) as nat, |i: int| 48u8));
    while k < w
        invariant
            k <= w || k == digits@.len(),
            digits@ == dec_bytes(v as nat),
            out@ == old(out)@ + Seq::new((k - digits@.len()) as nat, |i: int| 48u8),
            digits@.len() <= k,
        decreases w - k,
    {
        let ghost before = out@;
        out.push(48);
        assert(out@ =~= old(out)@ + Seq::new((k + 1 - digits@.len()) as nat, |i: int| 48u8));
        k = k + 1;
    }
    out.extend_from_slice(digits.as_slice());
    assert(out@ =~= old(out)@ + dec_pad(v as nat, w as nat));
}

fn year_len(y: u64) -> (r: u64)
    ensures
        r == year_days(y as int),
{
    if is_leap(y) {
        366
    } else {
        365
    }
}

fn month_len_exec(m: u64, y: u64) -> (r: u64)
    ensures
        r == month_len(m as int, y as int),
{
    if m == 2 {
        if is_leap(y) {
            29
        } else {
            28
        }
    } else if m == 4 || m == 6 || m == 9 || m == 11 {
        30
    } else if 1 <= m && m <= 12 {
        31
    } else {
        0
    }
}

/// `KerberosTime` — a `GeneralizedTime` (`YYYYMMDDHHMMSSZ`, tag `0x18`) of a
/// time given in seconds since the Unix epoch (RFC 4120 §5.2.3).
pub(crate) fn kerberos_time(epoch_secs: u64) -> (r: Vec<u8>)
    ensures
        r@ == der(0x18, time_text(epoch_secs as nat)),
{
    let days = epoch_secs / 86400;
    let rem = epoch_secs % 86400;
    let mut y: u64 = 1970;
    let mut d: u64 = days;
    while d >= year_len(y)
        invariant
            civil_year(days as nat, 1970) == civil_year(d as nat, y as int),
            1970 <= y,
            (y - 1970) * 365 + d <= days,
            days == epoch_secs / 86400,
        decreases d,
    {
        d = d - year_len(y);
        y = y + 1;
    }
    let mut m: u64 = 1;
    let ghost yd = d;
    while m < 12 && d >= month_len_exec(m, y)
        invariant
            1 <= m <= 12,
            d < 366,
            civil_month(yd as nat, 1, y as int) == civil_month(d as nat, m as int, y as int),
        decreases 12 - m,
    {
        d = d - month_len_exec(m, y);
        m = m + 1;
    }
    let mut text: Vec<u8> = Vec::new();
    push_dec_pad(&mut text, y, 4);
    push_dec_pad(&mut text, m, 2);
    push_dec_pad(&mut text, d + 1, 2);
    push_dec_pad(&mut text, rem / 3600, 2);
    push_dec_pad(&mut text, rem % 3600 / 60, 2);
    push_dec_pad(&mut text, rem % 60, 2);
    text.push(0x5A);
    assert(text@ =~= time_text(epoch_secs as nat));
    tlv(0x18, text.as_slice())
}

/// The decimal value of ASCII digits.
pub open spec fn dec_value(d: Seq<u8>) -> nat
    decreases d.len(),
{
    if d.len() == 0 {
        0
    } else {
        dec_value(d.drop_last()) * 10 + (d.last() - 48) as nat
    }
}

/// `u64::from_str` of a short ASCII field: an optional `+` and one or more
/// digits.
pub open spec fn spec_field(b: Seq<u8>) -> Option<u64> {
    let d = field_digits(b);
    if d.len() > 0 && all_ascii_digits(d) {
        Some(dec_value(d) as u64)
    } else {
        None
    }
}

/// A field without its leading `+`, if it has one.
pub open spec fn field_digits(b: Seq<u8>) -> Seq<u8> {
    if b.len() > 0 && b[0] == 0x2B {
        b.drop_first()
    } else {
        b
    }
}

/// Every octet is an ASCII digit.
pub open spec fn all_ascii_digits(d: Seq<u8>) -> bool {
    forall|i: int| 0 <= i < d.len() ==> 0x30 <= #[trigger] d[i] <= 0x39
}

proof fn lemma_dec_value_bound(d: Seq<u8>)
    requires
        forall|i: int| 0 <= i < d.len() ==> 0x30 <= #[trigger] d[i] <= 0x39,
    ensures
        dec_value(d) < pw(10, d.len()),
    decreases d.len(),
{
    if d.len() > 0 {
        let t = d.drop_last();
        assert forall|i: int| 0 <= i < t.len() implies 0x30 <= #[trigger] t[i] <= 0x39 by {
            assert(t[i] == d[i]);
        }
        lemma_dec_value_bound(t);
        assert(0x30 <= d[d.len() - 1] <= 0x39);
        assert(pw(10, d.len()) == 10 * pw(10, t.len()));
    }
}

fn parse_field(b: &[u8]) -> (r: Option<u64>)
    requires
        b@.len() <= 4,
    ensures
        r == spec_field(b@),
        r matches Some(v) ==> v < 10000 && v < pw(10, b@.len()),
{
    let start: usize = if b.len() > 0 && b[0] == 0x2B {
        1
    } else {
        0
    };
    let d = &b[start..b.len()];
    proof {
        if start == 1 {
            assert(d@ =~= b@.drop_first());
        } else {
            assert(d@ =~= b@);
        }
        assert(d@ == field_digits(b@));
    }
    if d.len() == 0 {
        return None;
    }
    let mut v: u64 = 0;
    let mut i: usize = 0;
    while i < d.len()
        invariant
            d@.len() <= 4,
            d@ == field_digits(b@),
            i <= d@.len(),
            forall|j: int| 0 <= j < i ==> 0x30 <= #[trigger] d@[j] <= 0x39,
            v == dec_value(d@.subrange(0, i as int)),
            v < pw(10, i as nat),
        decreases d.len() - i,
    {
        if d[i] < 0x30 || d[i] > 0x39 {
            assert(!(0x30 <= d@[i as int] <= 0x39));
            return None;
        }
        proof {
            assert(d@.subrange(0, i + 1).drop_last() =~= d@.subrange(0, i as int));
            assert(pw(10, (i + 1) as nat) == 10 * pw(10, i as nat));
            assert(pw(10, 4) == 10000) by {
                reveal_with_fuel(pw, 5);
            }
            crate::digits::lemma_pw_mono(10, (i + 1) as nat, 4);
        }
        v = v * 10 + (d[i] - 0x30) as u64;
        i = i + 1;
    }
    assert(d@.subrange(0, i as int) =~= d@);
    proof {
        assert(pw(10, 4) == 10000) by {
            reveal_with_fuel(pw, 5);
        }
        crate::digits::lemma_pw_mono(10, d@.len() as nat, 4);
        crate::digits::lemma_pw_mono(10, d@.len() as nat, b@.len() as nat);
    }
    Some(v)
}

/// The field `b[i..j]` of a time text, or the fault `msg`.
pub open spec fn time_field(b: Seq<u8>, i: int, j: int) -> Option<u64> {
    spec_field(b.subrange(i, j))
}

/// The time (seconds since the epoch) a `KerberosTime` element (possibly
/// `[n] EXPLICIT`-wrapped) holds: a `YYYYMMDDHHMMSSZ` text read as a date
/// after 1970-01-01.
pub open spec fn spec_ktime(x: (u8, Seq<u8>)) -> Result<u64, Error> {
    match spec_peel(x) {
        Err(e) => Err(e),
        Ok((t, c)) => if t != 0x18 {
            Err(Error::Unexpected("expected GeneralizedTime (KerberosTime)"))
        } else if !valid_utf8(c) {
            Err(Error::Unexpected("KerberosTime not UTF-8"))
        } else if c.len() != 15 || c[14] != 0x5A {
            Err(Error::Unexpected("bad KerberosTime format"))
        } else {
            match time_field(c, 0, 4) {
                None => Err(Error::Unexpected("bad year")),
                Some(year) => match time_field(c, 4, 6) {
                    None => Err(Error::Unexpected("bad month")),
                    Some(month) => match time_field(c, 6, 8) {
                        None => Err(Error::Unexpected("bad day")),
                        Some(day) => match time_field(c, 8, 10) {
                            None => Err(Error::Unexpected("bad hour")),
                            Some(hour) => match time_field(c, 10, 12) {
                                None => Err(Error::Unexpected("bad min")),
                                Some(min) => match time_field(c, 12, 14) {
                                    None => Err(Error::Unexpected("bad sec")),
                                    Some(sec) => match spec_ymd_to_days(year, month, day) {
                                        Err(e) => Err(e),
                                        Ok(days) => Ok((days * 86400 + hour * 3600 + min * 60 + sec) as u64),
                                    },
                                },
                            },
                        },
                    },
                },
            }
        },
    }
}

/// Decode a `KerberosTime` into seconds since the Unix epoch.
pub(crate) fn read_kerberos_time(any: &Tlv) -> (r: Result<u64, Error>)
    ensures
        r == spec_ktime(any@),
{
    let inner = match peel_explicit(any) {
        Ok(x) => x,
        Err(e) => return Err(e),
    };
    if inner.tag != 0x18 {
        return Err(Error::Unexpected("expected GeneralizedTime (KerberosTime)"));
    }
    let c = inner.value.as_slice();
    match str_from_utf8(c) {
        Some(_) => {},
        None => return Err(Error::Unexpected("KerberosTime not UTF-8")),
    }
    if c.len() != 15 || c[14] != 0x5A {
        return Err(Error::Unexpected("bad KerberosTime format"));
    }
    let year = match parse_field(&c[0..4]) {
        Some(v) => v,
        None => return Err(Error::Unexpected("bad year")),
    };
    let month = match parse_field(&c[4..6]) {
        Some(v) => v,
        None => return Err(Error::Unexpected("bad month")),
    };
    let day = match parse_field(&c[6..8]) {
        Some(v) => v,
        None => return Err(Error::Unexpected("bad day")),
    };
    let hour = match parse_field(&c[8..10]) {
        Some(v) => v,
        None => return Err(Error::Unexpected("bad hour")),
    };
    let min = match parse_field(&c[10..12]) {
        Some(v) => v,
        None => return Err(Error::Unexpected("bad min")),
    };
    let sec = match parse_field(&c[12..14]) {
        Some(v) => v,
        None => return Err(Error::Unexpected("bad sec")),
    };
    proof {
        assert(pw(10, 2) == 100) by {
            reveal_with_fuel(pw, 3);
        }
    }
    let days = match ymd_to_days(year, month, day) {
        Ok(v) => v,
        Err(e) => return Err(e),
    };
    proof {
        lemma_days_before_year_bound(year as int);
        lemma_common_days_before_bound(month as int);
    }
    Ok(days * 86400 + hour * 3600 + min * 60 + sec)
}

// ---------------------------------------------------------------------------
// Element lists and concatenation
// ---------------------------------------------------------------------------

pub proof fn lemma_concat_push(parts: Seq<Seq<u8>>, x: Seq<u8>)
    ensures
        concat(parts.push(x)) == concat(parts) + x,
{
    assert(parts.push(x).drop_last() =~= parts);
}

pub proof fn lemma_concat2(a: Seq<u8>, b: Seq<u8>)
    ensures
        concat(seq![a, b]) == a + b,
{
    assert(seq![a, b].drop_last() =~= seq![a]);
    assert(seq![a].drop_last() =~= Seq::<Seq<u8>>::empty());
    assert(Seq::<u8>::empty() + a =~= a);
    assert(concat(Seq::<Seq<u8>>::empty()) == Seq::<u8>::empty());
    assert(concat(seq![a]) == concat(Seq::<Seq<u8>>::empty()) + seq![a].last());
    assert(concat(seq![a]) == a);
    assert(concat(seq![a, b]) == concat(seq![a]) + seq![a, b].last());
}

/// The fault for a missing element.
pub open spec fn missing() -> Error {
    Error::Asn1("missing DER element")
}

/// The element at `i` of the elements of `v`.
pub(crate) fn nth(v: &Vec<Tlv>, i: usize) -> (r: Result<&Tlv, Error>)
    ensures
        if i < v@.len() {
            r matches Ok(x) && x@ == tlvs_view(v@)[i as int]
        } else {
            r == Err::<&Tlv, Error>(missing())
        },
{
    if i < v.len() {
        Ok(&v[i])
    } else {
        Err(Error::Asn1("missing DER element"))
    }
}

// ---------------------------------------------------------------------------
// PrincipalName / Principal
// ---------------------------------------------------------------------------

/// The views of some strings.
pub open spec fn str_seq_view(v: Seq<String>) -> Seq<Seq<char>> {
    Seq::new(v.len(), |i: int| v[i]@)
}

/// `PrincipalName` — SEQUENCE `{ name-type INTEGER, name-string SEQUENCE OF
/// KerberosString }` (RFC 4120 §5.2.2).
#[derive(Debug, Clone, PartialEq, Eq)]
pub struct PrincipalName {
    /// The name type.
    pub name_type: i32,
    /// The name components.
    pub name_string: Vec<String>,
}

/// The value of a principal name.
pub struct PrincipalNameModel {
    pub name_type: i32,
    pub name_string: Seq<Seq<char>>,
}

impl View for PrincipalName {
    type V = PrincipalNameModel;

    open spec fn view(&self) -> PrincipalNameModel {
        PrincipalNameModel { name_type: self.name_type, name_string: str_seq_view(self.name_string@) }
    }
}

/// The element of a `KerberosString`.
pub open spec fn kstring_der(s: Seq<char>) -> Seq<u8> {
    der(0x1B, encode_utf8(s))
}

/// The element of an `Int32`.
pub open spec fn int32_der(v: i32) -> Seq<u8> {
    der(0x02, crate::ldap::ber::spec_int_bytes(v as int))
}

/// The element of a `UInt32`.
pub open spec fn uint32_der(v: u32) -> Seq<u8> {
    der(0x02, int_content(be4(v)))
}

/// The elements of some `KerberosString`s.
pub open spec fn kstrings_der(v: Seq<Seq<char>>) -> Seq<Seq<u8>> {
    Seq::new(v.len(), |i: int| kstring_der(v[i]))
}

/// The encoding of a principal name.
pub open spec fn principal_name_der(m: PrincipalNameModel) -> Seq<u8> {
    der(0x30, int32_der(m.name_type) + der(0x30, concat(kstrings_der(m.name_string))))
}

/// The strings some `KerberosString` elements hold (the first fault, if any).
pub open spec fn spec_kstrings(l: Seq<(u8, Seq<u8>)>) -> Result<Seq<Seq<char>>, Error>
    decreases l.len(),
{
    if l.len() == 0 {
        Ok(Seq::empty())
    } else {
        match spec_kstring(l[0]) {
            Err(e) => Err(e),
            Ok(s) => match spec_kstrings(l.drop_first()) {
                Err(e) => Err(e),
                Ok(rest) => Ok(seq![s] + rest),
            },
        }
    }
}

/// The principal name a `SEQUENCE` element holds.
pub open spec fn spec_principal_name_of(x: (u8, Seq<u8>)) -> Result<PrincipalNameModel, Error> {
    if x.0 != 0x30 {
        Err(unexpected_tag())
    } else {
        match spec_der_list(x.1) {
            None => Err(malformed()),
            Some(fs) => if fs.len() < 1 {
                Err(missing())
            } else {
                match spec_int32(fs[0]) {
                    Err(e) => Err(e),
                    Ok(nt) => if fs.len() < 2 {
                        Err(missing())
                    } else if fs[1].0 != 0x30 {
                        Err(unexpected_tag())
                    } else {
                        match spec_der_list(fs[1].1) {
                            None => Err(malformed()),
                            Some(ss) => match spec_kstrings(ss) {
                                Err(e) => Err(e),
                                Ok(names) => Ok(PrincipalNameModel { name_type: nt, name_string: names }),
                            },
                        }
                    },
                }
            },
        }
    }
}

/// What reading an element from cursor octets `b` with `f` gives.
pub open spec fn from_cursor<T>(b: Seq<u8>, r: Result<T, Error>, after: Seq<u8>, f: Result<T, Error>) -> bool {
    match spec_der_tlv(b) {
        None => r == Err::<T, Error>(malformed()),
        Some((t, h, n)) => r == f && (f is Ok ==> after == b.subrange(n as int, b.len() as int)),
    }
}

/// The element at the start of `b`.
pub open spec fn first_elem(b: Seq<u8>) -> (u8, Seq<u8>) {
    let (t, h, n) = spec_der_tlv(b)->Some_0;
    (t, b.subrange(h as int, n as int))
}

/// Read some `KerberosString` elements.
pub(crate) fn read_kerberos_strings(l: &Vec<Tlv>) -> (r: Result<Vec<String>, Error>)
    ensures
        match spec_kstrings(tlvs_view(l@)) {
            Ok(v) => r matches Ok(x) && str_seq_view(x@) == v,
            Err(e) => r == Err::<Vec<String>, Error>(e),
        },
{
    let mut out: Vec<String> = Vec::new();
    let mut i: usize = 0;
    proof {
        assert(tlvs_view(l@).skip(0) =~= tlvs_view(l@));
        assert(str_seq_view(out@) =~= Seq::<Seq<char>>::empty());
        match spec_kstrings(tlvs_view(l@)) {
            Ok(rest) => assert(str_seq_view(out@) + rest =~= rest),
            Err(_) => {},
        }
    }
    while i < l.len()
        invariant
            i <= l@.len(),
            spec_kstrings(tlvs_view(l@)) == match spec_kstrings(tlvs_view(l@).skip(i as int)) {
                Ok(rest) => Ok(str_seq_view(out@) + rest),
                Err(e) => Err::<Seq<Seq<char>>, Error>(e),
            },
        decreases l.len() - i,
    {
        let s = match read_kerberos_string(&l[i]) {
            Ok(s) => s,
            Err(e) => {
                proof {
                    assert(tlvs_view(l@).skip(i as int)[0] == l@[i as int]@);
                }
                return Err(e);
            },
        };
        proof {
            let tv = tlvs_view(l@).skip(i as int);
            assert(tv[0] == l@[i as int]@);
            assert(tv.drop_first() =~= tlvs_view(l@).skip(i + 1));
            match spec_kstrings(tlvs_view(l@).skip(i + 1)) {
                Ok(rest) => {
                    assert(str_seq_view(out@.push(s)) =~= str_seq_view(out@).push(s@));
                    assert(str_seq_view(out@) + (seq![s@] + rest) =~= str_seq_view(out@.push(s)) + rest);
                },
                Err(_) => {},
            }
        }
        out.push(s);
        i = i + 1;
    }
    proof {
        assert(tlvs_view(l@).skip(i as int) =~= Seq::<(u8, Seq<u8>)>::empty());
        assert(str_seq_view(out@) + Seq::<Seq<char>>::empty() =~= str_seq_view(out@));
    }
    Ok(out)
}

impl PrincipalName {
    /// The DER encoding of this name.
    pub fn encode(&self) -> (r: Vec<u8>)
        ensures
            r@ == principal_name_der(self@),
    {
        let mut strs: Vec<Vec<u8>> = Vec::new();
        let mut i: usize = 0;
        while i < self.name_string.len()
            invariant
                i <= self.name_string@.len(),
                parts_view(strs@) == kstrings_der(self@.name_string).subrange(0, i as int),
            decreases self.name_string.len() - i,
        {
            let k = kerberos_string(self.name_string[i].as_str());
            proof {
                assert(parts_view(strs@.push(k)) =~= parts_view(strs@).push(k@));
                assert(kstrings_der(self@.name_string).subrange(0, i + 1) =~= kstrings_der(self@.name_string).subrange(
                    0,
                    i as int,
                ).push(k@));
            }
            strs.push(k);
            i = i + 1;
        }
        assert(kstrings_der(self@.name_string).subrange(0, i as int) =~= kstrings_der(self@.name_string));
        let name_string = sequence(strs.as_slice());
        let nt = int32(self.name_type);
        let parts = vec![nt, name_string];
        proof {
            assert(parts_view(parts@) =~= seq![parts@[0]@, parts@[1]@]);
            lemma_concat2(parts@[0]@, parts@[1]@);
        }
        sequence(parts.as_slice())
    }

    /// Read a principal name from the next element of `cursor`.
    pub fn decode(cursor: &mut Cursor<'_>) -> (r: Result<Self, Error>)
        ensures
            match spec_der_tlv(old(cursor)@) {
                None => r == Err::<PrincipalName, Error>(malformed()),
                Some((t, h, n)) => final(cursor)@ == old(cursor)@.subrange(n as int, old(cursor)@.len() as int)
                    && match spec_principal_name_of(first_elem(old(cursor)@)) {
                    Ok(m) => r matches Ok(x) && x@ == m,
                    Err(e) => r == Err::<PrincipalName, Error>(e),
                },
            },
    {
        let seq = match cursor.take() {
            Ok(x) => x,
            Err(e) => return Err(e),
        };
        Self::from_tlv(&seq)
    }

    /// The principal name a `SEQUENCE` element holds.
    pub(crate) fn from_tlv(seq: &Tlv) -> (r: Result<Self, Error>)
        ensures
            match spec_principal_name_of(seq@) {
                Ok(m) => r matches Ok(x) && x@ == m,
                Err(e) => r == Err::<PrincipalName, Error>(e),
            },
    {
        match ensure_tag(seq.tag, 0x30) {
            Ok(()) => {},
            Err(e) => return Err(e),
        }
        let fs = match read_list(seq.value.as_slice()) {
            Ok(v) => v,
            Err(e) => return Err(e),
        };
        let nt_el = match nth(&fs, 0) {
            Ok(x) => x,
            Err(e) => return Err(e),
        };
        let name_type = match decode_int32(nt_el) {
            Ok(v) => v,
            Err(e) => return Err(e),
        };
        let ns = match nth(&fs, 1) {
            Ok(x) => x,
            Err(e) => return Err(e),
        };
        match ensure_tag(ns.tag, 0x30) {
            Ok(()) => {},
            Err(e) => return Err(e),
        }
        let ss = match read_list(ns.value.as_slice()) {
            Ok(v) => v,
            Err(e) => return Err(e),
        };
        let strs = match read_kerberos_strings(&ss) {
            Ok(v) => v,
            Err(e) => return Err(e),
        };
        Ok(PrincipalName { name_type, name_string: strs })
    }
}

/// Concatenating a part in front of some parts.
pub proof fn lemma_concat_cons(a: Seq<u8>, rest: Seq<Seq<u8>>)
    ensures
        concat(seq![a] + rest) == a + concat(rest),
    decreases rest.len(),
{
    if rest.len() == 0 {
        assert(seq![a] + rest =~= seq![a]);
        assert(seq![a].drop_last() =~= Seq::<Seq<u8>>::empty());
        assert(concat(seq![a]) == concat(Seq::<Seq<u8>>::empty()) + a);
        assert(Seq::<u8>::empty() + a =~= a);
        assert(concat(rest) == Seq::<u8>::empty());
        assert(a + Seq::<u8>::empty() =~= a);
    } else {
        lemma_concat_cons(a, rest.drop_last());
        assert((seq![a] + rest).drop_last() =~= seq![a] + rest.drop_last());
        assert((seq![a] + rest).last() == rest.last());
        assert(concat(seq![a] + rest) == concat(seq![a] + rest.drop_last()) + rest.last());
        assert(concat(rest) == concat(rest.drop_last()) + rest.last());
        assert(a + concat(rest.drop_last()) + rest.last() =~= a + (concat(rest.drop_last()) + rest.last()));
    }
}

/// A `KerberosString` element reads back as its string.
pub proof fn lemma_kstring_read(s: Seq<char>)
    ensures
        spec_kstring((0x1Bu8, encode_utf8(s))) == Ok::<Seq<char>, Error>(s),
{
    vstd::utf8::encode_utf8_valid_utf8(s);
    vstd::utf8::encode_utf8_decode_utf8(s);
}

/// The `KerberosString` elements written one after another read back as the
/// strings they were written from.
#[verifier::spinoff_prover]
proof fn lemma_kstrings_read(names: Seq<Seq<char>>)
    requires
        concat(kstrings_der(names)).len() < 0x1_0000_0000,
    ensures
        spec_der_list(concat(kstrings_der(names))) matches Some(l) && spec_kstrings(l) == Ok::<
            Seq<Seq<char>>,
            Error,
        >(names),
    decreases names.len(),
{
    let ks = kstrings_der(names);
    if names.len() == 0 {
        assert(ks =~= Seq::<Seq<u8>>::empty());
        assert(names =~= Seq::<Seq<char>>::empty());
        assert(spec_kstrings(Seq::<(u8, Seq<u8>)>::empty()) == Ok::<Seq<Seq<char>>, Error>(names));
    } else {
        let tail = names.drop_first();
        assert(ks =~= seq![kstring_der(names[0])] + kstrings_der(tail));
        lemma_concat_cons(kstring_der(names[0]), kstrings_der(tail));
        let b = concat(ks);
        let rest = concat(kstrings_der(tail));
        assert(b == kstring_der(names[0]) + rest);
        let enc = encode_utf8(names[0]);
        lemma_der_tlv(0x1B, enc, rest);
        lemma_kstrings_read(tail);
        lemma_kstring_read(names[0]);
        let l_rest = spec_der_list(rest)->Some_0;
        assert(spec_der_list(b) == Some(seq![(0x1Bu8, enc)] + l_rest));
        let l = seq![(0x1Bu8, enc)] + l_rest;
        assert(l[0] == (0x1Bu8, enc));
        assert(l.drop_first() =~= l_rest);
        assert(seq![names[0]] + tail =~= names);
    }
}

/// A principal name reads back from what it is encoded as, when the encoding
/// fits.
#[verifier::spinoff_prover]
pub proof fn lemma_principal_name_round_trip(m: PrincipalNameModel)
    requires
        principal_name_der(m).len() < 0x1_0000_0000,
    ensures
        spec_der_single(principal_name_der(m)) == Some((0x30u8, int32_der(m.name_type) + der(0x30, concat(kstrings_der(m.name_string))))),
        spec_principal_name_of((0x30u8, int32_der(m.name_type) + der(0x30, concat(kstrings_der(m.name_string))))) == Ok::<
            PrincipalNameModel,
            Error,
        >(m),
{
    let names = concat(kstrings_der(m.name_string));
    let nd = der(0x30, names);
    let ce = crate::ldap::ber::spec_int_bytes(m.name_type as int);
    lemma_int32_der(m.name_type);
    let inner = int32_der(m.name_type) + nd;
    lemma_der_tlv(0x30, inner, Seq::empty());
    assert(principal_name_der(m) + Seq::<u8>::empty() =~= principal_name_der(m));
    lemma_der_tlv(0x30, names, Seq::empty());
    assert(nd + Seq::<u8>::empty() =~= nd);
    lemma_der_tlv(0x02, ce, nd);
    lemma_der_tlv(0x30, names, Seq::empty());
    let rest = inner.subrange(int32_der(m.name_type).len() as int, inner.len() as int);
    assert(rest == nd);
    assert(rest.subrange(nd.len() as int, nd.len() as int) =~= Seq::<u8>::empty());
    assert(spec_der_list(Seq::<u8>::empty()) == Some(Seq::<(u8, Seq<u8>)>::empty()));
    assert(spec_der_list(nd) == Some(seq![(0x30u8, names)] + Seq::<(u8, Seq<u8>)>::empty()));
    assert(spec_der_list(inner) == Some(seq![(0x02u8, ce)] + seq![(0x30u8, names)]));
    lemma_kstrings_read(m.name_string);
    assert(spec_int32((0x02u8, ce)) == Ok::<i32, Error>(m.name_type));
    let fs = seq![(0x02u8, ce)] + seq![(0x30u8, names)];
    assert(fs[0] == (0x02u8, ce));
    assert(fs[1] == (0x30u8, names));
}

/// A fully-qualified principal `name@realm`.
#[derive(Debug, Clone, PartialEq, Eq)]
pub struct Principal {
    /// The principal's name.
    pub name: PrincipalName,
    /// The principal's realm.
    pub realm: String,
}

/// The value of a principal.
pub struct PrincipalModel {
    pub name: PrincipalNameModel,
    pub realm: Seq<char>,
}

impl View for Principal {
    type V = PrincipalModel;

    open spec fn view(&self) -> PrincipalModel {
        PrincipalModel { name: self.name@, realm: self.realm@ }
    }
}

/// The pieces of `s` between the separators `sep` (as `str::split` gives
/// them: one more piece than separators).
pub open spec fn split_on(s: Seq<char>, sep: char) -> Seq<Seq<char>>
    decreases s.len(),
{
    if s.len() == 0 {
        seq![Seq::empty()]
    } else {
        let rest = split_on(s.drop_last(), sep);
        if s.last() == sep {
            rest.push(Seq::empty())
        } else {
            rest.update(rest.len() - 1, rest.last().push(s.last()))
        }
    }
}

/// The pieces joined with `sep` between them (as `slice::join` gives them).
pub open spec fn join_on(parts: Seq<Seq<char>>, sep: char) -> Seq<char>
    decreases parts.len(),
{
    if parts.len() == 0 {
        Seq::empty()
    } else if parts.len() == 1 {
        parts[0]
    } else {
        join_on(parts.drop_last(), sep) + seq![sep] + parts.last()
    }
}

/// The position of the last `c` among the first `i` characters of `s`.
pub open spec fn last_at(s: Seq<char>, c: char, i: int) -> Option<int>
    decreases i,
{
    if i <= 0 {
        None
    } else if s[i - 1] == c {
        Some(i - 1)
    } else {
        last_at(s, c, i - 1)
    }
}

/// The principal `user@REALM` or `service/host@REALM` names: the components
/// before the last `@` split at `/` (one component names a user, more a
/// service instance) and the realm after it.
pub open spec fn spec_parse_principal(s: Seq<char>) -> Option<PrincipalModel> {
    match last_at(s, '@', s.len() as int) {
        None => None,
        Some(k) => {
            let comps = split_on(s.subrange(0, k), '/');
            Some(
                PrincipalModel {
                    name: PrincipalNameModel { name_type: if comps.len() == 1 { 1 } else { 2 }, name_string: comps },
                    realm: s.subrange(k + 1, s.len() as int),
                },
            )
        },
    }
}

/// The text of a principal: `components@realm`, components joined by `/`.
pub open spec fn principal_text(m: PrincipalModel) -> Seq<char> {
    let j = join_on(m.name.name_string, '/');
    if j.len() == 0 {
        seq!['@'] + m.realm
    } else {
        j + seq!['@'] + m.realm
    }
}

proof fn lemma_last_at(s: Seq<char>, c: char, i: int)
    requires
        i <= s.len(),
    ensures
        last_at(s, c, i) matches Some(k) ==> 0 <= k < i && s[k] == c,
    decreases i,
{
    if i > 0 && s[i - 1] != c {
        lemma_last_at(s, c, i - 1);
    }
}

proof fn lemma_join_split(s: Seq<char>, sep: char)
    ensures
        join_on(split_on(s, sep), sep) == s,
    decreases s.len(),
{
    if s.len() > 0 {
        let rest = split_on(s.drop_last(), sep);
        lemma_join_split(s.drop_last(), sep);
        lemma_split_len(s.drop_last(), sep);
        let parts = split_on(s, sep);
        if s.last() == sep {
            assert(parts.drop_last() =~= rest);
            assert(join_on(rest, sep) + seq![sep] + parts.last() =~= s);
        } else if rest.len() == 1 {
            assert(parts[0] =~= s);
        } else {
            assert(parts.drop_last() =~= rest.drop_last());
            assert(parts.last() == rest.last().push(s.last()));
            assert(join_on(rest, sep) == join_on(rest.drop_last(), sep) + seq![sep] + rest.last());
            assert(s =~= s.drop_last().push(s.last()));
            assert(join_on(rest.drop_last(), sep) + seq![sep] + parts.last() =~= (join_on(rest.drop_last(), sep)
                + seq![sep] + rest.last()).push(s.last()));
        }
    }
}

/// Printing a parsed principal gives back the text it was parsed from.
pub proof fn lemma_principal_round_trip(s: Seq<char>)
    requires
        spec_parse_principal(s) is Some,
    ensures
        principal_text(spec_parse_principal(s)->Some_0) == s,
{
    lemma_last_at(s, '@', s.len() as int);
    let k = last_at(s, '@', s.len() as int)->Some_0;
    lemma_join_split(s.subrange(0, k), '/');
    let j = join_on(split_on(s.subrange(0, k), '/'), '/');
    if j.len() == 0 {
        assert(seq!['@'] + s.subrange(k + 1, s.len() as int) =~= s);
    } else {
        assert(j + seq!['@'] + s.subrange(k + 1, s.len() as int) =~= s);
    }
}

proof fn lemma_split_len(s: Seq<char>, sep: char)
    ensures
        split_on(s, sep).len() >= 1,
    decreases s.len(),
{
    if s.len() > 0 {
        lemma_split_len(s.drop_last(), sep);
    }
}

/// The pieces of characters `cs` between the separators `sep`.
pub(crate) fn split_chars(cs: &[char], sep: char) -> (r: Vec<String>)
    ensures
        str_seq_view(r@) == split_on(cs@, sep),
{
    let mut pieces: Vec<String> = Vec::new();
    let mut cur: Vec<char> = Vec::new();
    let mut i: usize = 0;
    assert(cs@.subrange(0, 0) =~= Seq::<char>::empty());
    assert(str_seq_view(pieces@).push(cur@) =~= seq![Seq::<char>::empty()]);
    while i < cs.len()
        invariant
            i <= cs@.len(),
            split_on(cs@.subrange(0, i as int), sep) == str_seq_view(pieces@).push(cur@),
        decreases cs.len() - i,
    {
        let ghost pre = cs@.subrange(0, i as int);
        proof {
            assert(cs@.subrange(0, i + 1).drop_last() =~= pre);
            assert(cs@.subrange(0, i + 1).last() == cs@[i as int]);
        }
        if cs[i] == sep {
            let p = string_of_chars(cur.as_slice());
            proof {
                assert(str_seq_view(pieces@.push(p)) =~= str_seq_view(pieces@).push(cur@));
            }
            pieces.push(p);
            cur = Vec::new();
            assert(str_seq_view(pieces@).push(cur@) =~= split_on(cs@.subrange(0, i + 1), sep));
        } else {
            cur.push(cs[i]);
            assert(str_seq_view(pieces@).push(cur@) =~= split_on(cs@.subrange(0, i + 1), sep));
        }
        i = i + 1;
    }
    assert(cs@.subrange(0, i as int) =~= cs@);
    let p = string_of_chars(cur.as_slice());
    proof {
        assert(str_seq_view(pieces@.push(p)) =~= str_seq_view(pieces@).push(cur@));
    }
    pieces.push(p);
    pieces
}

/// The strings joined with `sep` between them.
pub(crate) fn join_strings(parts: &Vec<String>, sep: char) -> (r: String)
    ensures
        r@ == join_on(str_seq_view(parts@), sep),
{
    let mut out: Vec<char> = Vec::new();
    let mut i: usize = 0;
    while i < parts.len()
        invariant
            i <= parts@.len(),
            out@ == join_on(str_seq_view(parts@).subrange(0, i as int), sep),
        decreases parts.len() - i,
    {
        let ghost pre = str_seq_view(parts@).subrange(0, i as int);
        proof {
            assert(str_seq_view(parts@).subrange(0, i + 1).drop_last() =~= pre);
        }
        if i > 0 {
            out.push(sep);
        }
        let cs = chars_of(parts[i].as_str());
        out.extend_from_slice(cs.as_slice());
        proof {
            if i == 0 {
                assert(out@ =~= join_on(str_seq_view(parts@).subrange(0, 1), sep));
            } else {
                assert(out@ =~= join_on(str_seq_view(parts@).subrange(0, i + 1), sep));
            }
        }
        i = i + 1;
    }
    assert(str_seq_view(parts@).subrange(0, i as int) =~= str_seq_view(parts@));
    string_of_chars(out.as_slice())
}

impl Principal {
    /// Build a `principal@realm` from components.
    pub fn new(components: &[&str], realm: &str, name_type: i32) -> (p: Self)
        ensures
            p@.name.name_type == name_type,
            p@.name.name_string == Seq::new(components@.len(), |i: int| components@[i]@),
            p@.realm == realm@,
    {
        let mut names: Vec<String> = Vec::new();
        let mut i: usize = 0;
        while i < components.len()
            invariant
                i <= components@.len(),
                str_seq_view(names@) == Seq::new(i as nat, |j: int| components@[j]@),
            decreases components.len() - i,
        {
            let s = components[i].to_owned();
            proof {
                assert(s@ == components@[i as int]@);
                assert(str_seq_view(names@.push(s)) =~= str_seq_view(names@).push(s@));
                assert(str_seq_view(names@.push(s)) =~= Seq::new((i + 1) as nat, |j: int| components@[j]@));
            }
            names.push(s);
            i = i + 1;
        }
        Principal { name: PrincipalName { name_type, name_string: names }, realm: realm.to_owned() }
    }

    /// Parse `user@REALM` or `service/host@REALM`.
    pub fn parse(s: &str) -> (r: Result<Self, Error>)
        ensures
            match spec_parse_principal(s@) {
                Some(m) => r matches Ok(p) && p@ == m,
                None => r matches Err(Error::Principal(msg)) && msg@ == "missing realm in '"@ + s@ + "'"@,
            },
    {
        let cs = chars_of(s);
        let mut i: usize = cs.len();
        while i > 0 && cs[i - 1] != '@'
            invariant
                i <= cs@.len(),
                cs@ == s@,
                last_at(s@, '@', s@.len() as int) == last_at(s@, '@', i as int),
            decreases i,
        {
            i = i - 1;
        }
        if i == 0 {
            return Err(Error::Principal(crate::netconf::message::joined3("missing realm in '", s, "'")));
        }
        let k = i - 1;
        let comps = split_chars(&cs.as_slice()[0..k], '/');
        proof {
            lemma_split_len(s@.subrange(0, k as int), '/');
            assert(cs@.subrange(0, k as int) == s@.subrange(0, k as int));
        }
        let name_type: i32 = if comps.len() == 1 {
            1
        } else {
            2
        };
        let realm = string_of_chars(&cs.as_slice()[k + 1..cs.len()]);
        Ok(Principal { name: PrincipalName { name_type, name_string: comps }, realm })
    }

    /// The text `components@realm`.
    pub fn to_string(&self) -> (r: String)
        ensures
            r@ == principal_text(self@),
    {
        let joined = join_strings(&self.name.name_string, '/');
        proof {
            reveal_strlit("");
            reveal_strlit("@");
        }
        if chars_of(joined.as_str()).len() == 0 {
            crate::netconf::message::joined3("", "@", self.realm.as_str())
        } else {
            crate::netconf::message::joined3(joined.as_str(), "@", self.realm.as_str())
        }
    }
}

/// Encode an optional field as an `[n]` context-tagged wrapper of `content`.
pub(crate) fn opt_ctx(n: u8, present: bool, content: Vec<u8>) -> (r: Option<Vec<u8>>)
    ensures
        present ==> (r matches Some(v) && v@ == der((0xA0 + n % 32) as u8, content@)),
        !present ==> r is None,
{
    if present {
        Some(ctx(n, content.as_slice()))
    } else {
        None
    }
}

} // verus!
