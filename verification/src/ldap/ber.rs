//! A BER (Basic Encoding Rules, ITU-T X.690) codec for LDAP. Definite and
//! indefinite lengths are accepted on input; output always uses the definite
//! form.

pub mod universal;
pub mod round_trip;

use vstd::prelude::*;
use vstd::arithmetic::div_mod::*;
use vstd::arithmetic::mul::*;
use vstd::utf8::{valid_utf8, decode_utf8};
use crate::text::str_from_utf8;
use crate::digits::{pw, be_digits, be_value, lemma_pw_pos, lemma_pw_mono, lemma_be_value_digits, lemma_be_digits_first, lemma_be_value_bound, lemma_be_value_first};

verus! {

/// Universal (ASN.1 built-in) tags.
pub const CLASS_UNIVERSAL: u8 = 0;

/// Application-specific tags (protocol-defined).
pub const CLASS_APPLICATION: u8 = 1;

/// Context-specific tags (field discrimination within a sequence).
pub const CLASS_CONTEXT: u8 = 2;

/// Private tags.
pub const CLASS_PRIVATE: u8 = 3;

/// A BER identifier (tag).
#[derive(Debug, Clone, Copy, PartialEq, Eq, Structural)]
pub struct Tag {
    /// 0 = universal, 1 = application, 2 = context-specific, 3 = private.
    pub class: u8,
    /// `true` for constructed (has nested elements), `false` for primitive.
    pub constructed: bool,
    /// The tag number (low 5 bits of the identifier octet, or the high-tag form).
    pub number: u32,
}

impl Tag {
    /// A primitive universal tag.
    pub fn universal(number: u32) -> (t: Self)
        ensures
            t == (Tag { class: CLASS_UNIVERSAL, constructed: false, number }),
    {
        Tag { class: CLASS_UNIVERSAL, constructed: false, number }
    }

    /// A primitive application tag.
    pub fn application(number: u32) -> (t: Self)
        ensures
            t == (Tag { class: CLASS_APPLICATION, constructed: false, number }),
    {
        Tag { class: CLASS_APPLICATION, constructed: false, number }
    }

    /// A primitive context-specific tag.
    pub fn context(number: u32) -> (t: Self)
        ensures
            t == (Tag { class: CLASS_CONTEXT, constructed: false, number }),
    {
        Tag { class: CLASS_CONTEXT, constructed: false, number }
    }

    /// A primitive private tag.
    pub fn private(number: u32) -> (t: Self)
        ensures
            t == (Tag { class: CLASS_PRIVATE, constructed: false, number }),
    {
        Tag { class: CLASS_PRIVATE, constructed: false, number }
    }

    /// Mark this tag as constructed (contains nested elements).
    pub fn constructed(self) -> (t: Self)
        ensures
            t == (Tag { constructed: true, ..self }),
    {
        let mut t = self;
        t.constructed = true;
        t
    }

    fn first_byte(&self) -> (b: u8)
        ensures
            b == spec_first_byte(*self),
    {
        let class_bits = self.class << 6;
        let pc_bit: u8 = if self.constructed { 0x20 } else { 0 };
        let mut b = class_bits | pc_bit;
        if self.number < 31 {
            b = b | (self.number as u8);
        } else {
            b = b | 0x1F;
        }
        b
    }
}

/// The identifier octet of `t`: class bits, the constructed bit, and either the
/// tag number or the high-tag-number marker `0x1F`.
pub open spec fn spec_first_byte(t: Tag) -> u8 {
    let b = (t.class << 6u8) | (if t.constructed { 0x20u8 } else { 0u8 });
    if t.number < 31 {
        b | (t.number as u8)
    } else {
        b | 0x1Fu8
    }
}

/// Errors raised while decoding BER.
#[derive(Debug, Clone, Copy, PartialEq, Eq, Structural)]
pub enum BerError {
    /// Not enough bytes to form a complete element.
    Truncated,
    /// The identifier octet could not be parsed.
    BadTag,
    /// The length octets could not be parsed.
    BadLength,
    /// Indefinite length used on a primitive element (forbidden by X.690).
    IndefinitePrimitive,
    /// An integer did not fit in the expected range.
    IntegerRange,
    /// A required field was missing or of the wrong type.
    Unexpected,
}

/// The text describing a decoding fault.
pub open spec fn ber_error_text(e: BerError) -> Seq<char> {
    match e {
        BerError::Truncated => "unexpected end of BER input"@,
        BerError::BadTag => "invalid BER tag"@,
        BerError::BadLength => "invalid BER length"@,
        BerError::IndefinitePrimitive => "indefinite length on a primitive element"@,
        BerError::IntegerRange => "integer out of range"@,
        BerError::Unexpected => "unexpected BER element"@,
    }
}

impl BerError {
    /// The human-readable description of the error.
    pub fn message(&self) -> (s: &'static str)
        ensures
            s@ == ber_error_text(*self),
    {
        match self {
            BerError::Truncated => "unexpected end of BER input",
            BerError::BadTag => "invalid BER tag",
            BerError::BadLength => "invalid BER length",
            BerError::IndefinitePrimitive => "indefinite length on a primitive element",
            BerError::IntegerRange => "integer out of range",
            BerError::Unexpected => "unexpected BER element",
        }
    }
}

/// The content of a decoded BER element.
#[derive(Debug, PartialEq, Eq)]
pub enum BerContent {
    /// Primitive content: the raw value bytes.
    Primitive(Vec<u8>),
    /// Constructed content: the nested elements.
    Constructed(Vec<BerElement>),
}

/// A single decoded BER element (tag + content).
#[derive(Debug, PartialEq, Eq)]
pub struct BerElement {
    /// The element's tag.
    pub tag: Tag,
    /// The element's content.
    pub content: BerContent,
}

// ---------------------------------------------------------------------------
// Two's-complement INTEGER contents
// ---------------------------------------------------------------------------

/// `v` is representable in `n` octets of two's complement.
pub open spec fn fits_signed(v: int, n: nat) -> bool {
    n >= 1 && -(128 * pw(256, (n - 1) as nat)) <= v < 128 * pw(256, (n - 1) as nat)
}

/// The least `m >= n` (capped at 8) for which `v` fits in `m` octets.
pub open spec fn signed_len_from(v: int, n: nat) -> nat
    decreases 8 - n,
{
    if n >= 8 || fits_signed(v, n) {
        n
    } else {
        signed_len_from(v, n + 1)
    }
}

/// The number of octets in the minimal two's complement encoding of `v`.
pub open spec fn signed_len(v: int) -> nat {
    signed_len_from(v, 1)
}

/// The minimal big-endian two's complement encoding of `v` (X.690 §8.3).
pub open spec fn spec_int_bytes(v: int) -> Seq<u8> {
    let n = signed_len(v);
    be_digits((v % (pw(256, n) as int)) as nat, n)
}

/// The integer denoted by big-endian two's complement octets.
pub open spec fn signed_value(s: Seq<u8>) -> int {
    if s.len() > 0 && s[0] >= 128 {
        be_value(s) - pw(256, s.len())
    } else {
        be_value(s) as int
    }
}

/// Decoding of INTEGER contents into an `i64`.
pub open spec fn spec_bytes_to_int(s: Seq<u8>) -> Result<i64, BerError> {
    if s.len() == 0 {
        Err(BerError::BadLength)
    } else if s.len() > 8 {
        Err(BerError::IntegerRange)
    } else {
        Ok(signed_value(s) as i64)
    }
}

proof fn lemma_pw_256_small()
    ensures
        pw(256, 0) == 1,
        pw(256, 1) == 256,
        pw(256, 7) == 0x100_0000_0000_0000,
        pw(256, 8) == 0x1_0000_0000_0000_0000,
{
    reveal_with_fuel(pw, 9);
}

proof fn lemma_signed_len_fits(v: int, n: nat)
    requires
        1 <= n <= 8,
        fits_signed(v, 8),
    ensures
        fits_signed(v, signed_len_from(v, n)),
        n <= signed_len_from(v, n) <= 8,
    decreases 8 - n,
{
    if n < 8 && !fits_signed(v, n) {
        lemma_signed_len_fits(v, n + 1);
    }
}

proof fn lemma_i64_fits(v: i64)
    ensures
        fits_signed(v as int, 8),
        fits_signed(v as int, signed_len(v as int)),
        1 <= signed_len(v as int) <= 8,
{
    lemma_pw_256_small();
    lemma_signed_len_fits(v as int, 1);
}

/// Decoding the minimal encoding of any `i64` gives it back.
pub proof fn lemma_int_bytes_roundtrip(v: i64)
    ensures
        spec_bytes_to_int(spec_int_bytes(v as int)) == Ok::<i64, BerError>(v),
        1 <= spec_int_bytes(v as int).len() <= 8,
{
    lemma_i64_fits(v);
    let n = signed_len(v as int);
    let p = pw(256, n);
    let q = pw(256, (n - 1) as nat);
    lemma_pw_pos(256, n);
    lemma_pw_pos(256, (n - 1) as nat);
    assert(p == 256 * q);
    let u = v as int % (p as int);
    lemma_mod_bound(v as int, p as int);
    if v >= 0 {
        lemma_small_mod(v as nat, p);
    } else {
        lemma_fundamental_div_mod_converse(v as int, p as int, -1, v + p);
    }
    let s = be_digits(u as nat, n);
    lemma_be_value_digits(u as nat, n);
    lemma_be_digits_first(u as nat, n);
    if v >= 0 {
        assert(s[0] < 128) by {
            lemma_div_is_ordered(u, 128 * q - 1, q as int);
            lemma_fundamental_div_mod_converse(128 * q - 1, q as int, 127, q - 1);
        }
    } else {
        assert(s[0] >= 128) by {
            lemma_div_is_ordered((128 * q) as int, u, q as int);
            lemma_div_multiples_vanish(128, q as int);
            lemma_mul_is_commutative(128, q as int);
        }
    }
}

pub(crate) fn int_to_bytes(value: i64) -> (r: Vec<u8>)
    ensures
        r@ == spec_int_bytes(value as int),
        1 <= r@.len() <= 8,
{
    proof {
        lemma_i64_fits(value);
        lemma_pw_256_small();
    }
    let v = value as i128;
    let mut n: usize = 1;
    let mut half: i128 = 128;
    while n < 8 && !(-half <= v && v < half)
        invariant
            1 <= n <= 8,
            v == value,
            half == 128 * pw(256, (n - 1) as nat),
            signed_len(v as int) == signed_len_from(v as int, n as nat),
            fits_signed(v as int, 8),
            pw(256, 7) == 0x100_0000_0000_0000,
        decreases 8 - n,
    {
        proof {
            lemma_pw_mono(256, n as nat, 7);
            assert(pw(256, n as nat) == 256 * pw(256, (n - 1) as nat));
        }
        n = n + 1;
        half = half * 256;
    }
    let ghost len = n as nat;
    assert(signed_len(v as int) == len);
    proof {
        lemma_pw_mono(256, (n - 1) as nat, 7);
    }
    let modulus: i128 = half * 2;
    assert(modulus == pw(256, len)) by {
        assert(pw(256, len) == 256 * pw(256, (len - 1) as nat));
    }
    proof {
        lemma_pw_pos(256, len);
        lemma_pw_pos(256, (len - 1) as nat);
        lemma_signed_len_fits(v as int, 1);
    }
    let u: i128 = if v < 0 { v + modulus } else { v };
    assert(u == v as int % (modulus as int)) by {
        if v >= 0 {
            lemma_small_mod(v as nat, modulus as nat);
        } else {
            lemma_fundamental_div_mod_converse(v as int, modulus as int, -1, u as int);
        }
    }
    let mut out: Vec<u8> = Vec::new();
    let mut i: usize = n;
    let mut p: i128 = half / 128;
    assert(u as int / (pw(256, len) as int) == 0) by {
        lemma_basic_div(u as int, modulus as int);
    }
    while i > 0
        invariant
            i <= n,
            n as nat == len,
            0 <= u < modulus,
            modulus as int == pw(256, len),
            i > 0 ==> p as int == pw(256, (i - 1) as nat),
            out@ == be_digits((u as int / (pw(256, i as nat) as int)) as nat, (n - i) as nat),
        decreases i,
    {
        proof {
            lemma_pw_pos(256, (i - 1) as nat);
            lemma_pw_pos(256, i as nat);
            lemma_div_pos_is_pos(u as int, p as int);
        }
        let d = ((u / p) % 256) as u8;
        proof {
            let x = u as int / (p as int);
            lemma_div_denominator(u as int, p as int, 256);
            lemma_mul_is_commutative(p as int, 256);
            assert(pw(256, i as nat) == 256 * pw(256, (i - 1) as nat));
            assert(x / 256 == u as int / (pw(256, i as nat) as int));
            assert(be_digits(x as nat, (n - i + 1) as nat) == be_digits((x / 256) as nat, (n - i) as nat).push((x % 256) as u8));
        }
        out.push(d);
        i = i - 1;
        if i > 0 {
            proof {
                assert(pw(256, (i + 1 - 1) as nat) == 256 * pw(256, (i - 1) as nat));
                lemma_pw_pos(256, (i - 1) as nat);
                lemma_div_multiples_vanish(pw(256, (i - 1) as nat) as int, 256);
                lemma_mul_is_commutative(pw(256, (i - 1) as nat) as int, 256);
            }
            p = p / 256;
        }
    }
    assert(u as int / (pw(256, 0) as int) == u);
    proof {
        crate::digits::lemma_be_digits_len(u as nat, len);
    }
    out
}

fn bytes_to_int(bytes: &[u8]) -> (r: Result<i64, BerError>)
    ensures
        r == spec_bytes_to_int(bytes@),
{
    if bytes.len() == 0 {
        return Err(BerError::BadLength);
    }
    if bytes.len() > 8 {
        return Err(BerError::IntegerRange);
    }
    proof {
        lemma_pw_256_small();
    }
    let mut val: i128 = 0;
    let mut modulus: i128 = 1;
    let mut i: usize = 0;
    while i < bytes.len()
        invariant
            i <= bytes@.len() <= 8,
            val as int == be_value(bytes@.subrange(0, i as int)),
            modulus as int == pw(256, i as nat),
            pw(256, 8) == 0x1_0000_0000_0000_0000,
        decreases bytes.len() - i,
    {
        proof {
            lemma_be_value_bound(bytes@.subrange(0, i as int));
            lemma_pw_mono(256, i as nat, 7);
            lemma_pw_256_small();
            assert(bytes@.subrange(0, i + 1).drop_last() =~= bytes@.subrange(0, i as int));
        }
        val = val * 256 + bytes[i] as i128;
        modulus = modulus * 256;
        i = i + 1;
    }
    let ghost s = bytes@;
    assert(bytes@.subrange(0, i as int) =~= s);
    proof {
        lemma_be_value_first(s);
        lemma_be_value_bound(s);
        let q = pw(256, (s.len() - 1) as nat);
        lemma_pw_pos(256, (s.len() - 1) as nat);
        lemma_pw_mono(256, (s.len() - 1) as nat, 7);
        lemma_fundamental_div_mod(be_value(s) as int, q as int);
        lemma_mod_bound(be_value(s) as int, q as int);
        assert(pw(256, s.len()) == 256 * q);
        if s[0] >= 128 {
            lemma_mul_inequality(128, s[0] as int, q as int);
        } else {
            lemma_mul_inequality(s[0] as int + 1, 128, q as int);
        }
        lemma_mul_inequality(q as int, 0x100_0000_0000_0000, 128);
    }
    if bytes[0] >= 0x80 {
        val = val - modulus;
    }
    Ok(val as i64)
}


// ---------------------------------------------------------------------------
// Identifier and length octets
// ---------------------------------------------------------------------------

/// The number of base-128 digits of `n` (at least one).
pub open spec fn b128_len(n: nat) -> nat
    decreases n,
{
    if n < 128 {
        1
    } else {
        1 + b128_len(n / 128)
    }
}

/// The `k` least significant base-128 digits of `n`, most significant first,
/// each with the continuation bit set.
pub open spec fn b128_cont(n: nat, k: nat) -> Seq<u8>
    decreases k,
{
    if k == 0 {
        Seq::empty()
    } else {
        b128_cont(n / 128, (k - 1) as nat).push((n % 128 + 128) as u8)
    }
}

/// The subsequent identifier octets of a tag number `n >= 31` (X.690 §8.1.2.4).
pub open spec fn spec_high_tag(n: nat) -> Seq<u8> {
    b128_cont(n / 128, (b128_len(n) - 1) as nat).push((n % 128) as u8)
}

/// The identifier octets of `t`.
pub open spec fn spec_tag_bytes(t: Tag) -> Seq<u8> {
    if t.number >= 31 {
        seq![spec_first_byte(t)] + spec_high_tag(t.number as nat)
    } else {
        seq![spec_first_byte(t)]
    }
}

/// The number of base-256 digits of `n` (at least one).
pub open spec fn byte_len(n: nat) -> nat
    decreases n,
{
    if n < 256 {
        1
    } else {
        1 + byte_len(n / 256)
    }
}

/// The definite-form length octets for a content length `len` (X.690 §8.1.3).
pub open spec fn spec_len_bytes(len: nat) -> Seq<u8> {
    if len < 128 {
        seq![len as u8]
    } else {
        seq![(0x80 + byte_len(len)) as u8] + be_digits(len, byte_len(len))
    }
}

/// A complete definite-length TLV.
pub open spec fn spec_tlv(t: Tag, content: Seq<u8>) -> Seq<u8> {
    spec_tag_bytes(t) + spec_len_bytes(content.len()) + content
}

pub(crate) proof fn lemma_byte_len_bound(n: nat)
    ensures
        n < pw(256, byte_len(n)),
        byte_len(n) >= 1,
    decreases n,
{
    reveal_with_fuel(pw, 2);
    if n >= 256 {
        lemma_byte_len_bound(n / 256);
        lemma_fundamental_div_mod(n as int, 256);
        lemma_mul_inequality(n as int / 256 + 1, pw(256, byte_len(n / 256)) as int, 256);
        lemma_mul_is_commutative(pw(256, byte_len(n / 256)) as int, 256);
    }
}

pub(crate) proof fn lemma_byte_len_le(n: nat, j: nat)
    requires
        j >= 1,
        n < pw(256, j),
    ensures
        byte_len(n) <= j,
    decreases j,
{
    reveal_with_fuel(pw, 2);
    if n >= 256 {
        if j == 1 {
            assert(false);
        }
        lemma_pw_pos(256, (j - 1) as nat);
        assert(pw(256, j) == 256 * pw(256, (j - 1) as nat));
        lemma_div_is_ordered(n as int, (256 * pw(256, (j - 1) as nat) - 1) as int, 256);
        lemma_fundamental_div_mod_converse(
            (256 * pw(256, (j - 1) as nat) - 1) as int,
            256,
            (pw(256, (j - 1) as nat) - 1) as int,
            255,
        );
        lemma_byte_len_le(n / 256, (j - 1) as nat);
    }
}

/// Append the high-tag-number octets of `number` (which is at least 31).
fn push_high_tag(out: &mut Vec<u8>, number: u32)
    ensures
        final(out)@ == old(out)@ + spec_high_tag(number as nat),
{
    let n = number as u64;
    // Count the base-128 digits.
    let mut k: u64 = 1;
    let mut t: u64 = n;
    let mut p: u64 = 1;
    assert(pw(128, 0) == 1);
    assert(n as nat / 1 == n as nat);
    while t >= 128
        invariant
            b128_len(n as nat) == k - 1 + b128_len(t as nat),
            t as nat == n as nat / pw(128, (k - 1) as nat),
            p as nat == pw(128, (k - 1) as nat),
            1 <= k <= 5,
            k >= 2 ==> n >= p,
            n < 0x1_0000_0000,
        decreases t,
    {
        proof {
            lemma_pw_pos(128, (k - 1) as nat);
            lemma_div_denominator(n as int, pw(128, (k - 1) as nat) as int, 128);
            lemma_mul_is_commutative(pw(128, (k - 1) as nat) as int, 128);
            assert(pw(128, k as nat) == 128 * pw(128, (k - 1) as nat));
            lemma_pw_pos(128, (k - 1) as nat);
            lemma_fundamental_div_mod(n as int, pw(128, (k - 1) as nat) as int);
            lemma_mod_bound(n as int, pw(128, (k - 1) as nat) as int);
            assert(n as int >= (t as int) * (p as int)) by {
                lemma_mul_is_commutative(t as int, p as int);
            }
            lemma_mul_inequality(128, t as int, p as int);
            if k >= 5 {
                assert(p as int >= 0x1000_0000) by {
                    reveal_with_fuel(pw, 5);
                    assert(pw(128, 4) == 0x1000_0000);
                }
                assert(false);
            }
        }
        t = t / 128;
        p = p * 128;
        k = k + 1;
    }
    // Emit the continuation digits of n / 128, most significant first.
    let m = n / 128;
    let mut i: u64 = k - 1;
    let mut q: u64 = if i > 0 { p / 128 } else { 1 };
    let ghost start = out@;
    proof {
        lemma_pw_pos(128, (k - 1) as nat);
        assert(b128_len(t as nat) == 1);
        if k >= 2 {
            assert(pw(128, (k - 1) as nat) == 128 * pw(128, (k - 2) as nat));
            lemma_div_multiples_vanish(pw(128, (k - 2) as nat) as int, 128);
            lemma_mul_is_commutative(pw(128, (k - 2) as nat) as int, 128);
        }
        // m / 128^(k-1) == n / 128^k < 128 ... only the low k-1 digits matter
    }
    while i > 0
        invariant
            i <= k - 1,
            k <= 5,
            i > 0 ==> q as nat == pw(128, (i - 1) as nat),
            out@ == start + b128_cont(m as nat / pw(128, i as nat), (k - 1 - i) as nat),
        decreases i,
    {
        proof {
            lemma_pw_pos(128, (i - 1) as nat);
            let x = m as nat / pw(128, (i - 1) as nat);
            lemma_div_denominator(m as int, pw(128, (i - 1) as nat) as int, 128);
            lemma_mul_is_commutative(pw(128, (i - 1) as nat) as int, 128);
            assert(pw(128, i as nat) == 128 * pw(128, (i - 1) as nat));
            assert(b128_cont(x, (k - i) as nat) == b128_cont(x / 128, (k - 1 - i) as nat).push((x % 128 + 128) as u8));
        }
        let d = ((m / q) % 128 + 128) as u8;
        out.push(d);
        i = i - 1;
        if i > 0 {
            proof {
                assert(pw(128, (i + 1 - 1) as nat) == 128 * pw(128, (i - 1) as nat));
                lemma_pw_pos(128, (i - 1) as nat);
                lemma_div_multiples_vanish(pw(128, (i - 1) as nat) as int, 128);
                lemma_mul_is_commutative(pw(128, (i - 1) as nat) as int, 128);
            }
            q = q / 128;
        }
    }
    assert(m as nat / pw(128, 0) == m as nat);
    out.push((n % 128) as u8);
}

/// Append the definite-form length octets for `len`.
pub(crate) fn encode_length(len: usize, out: &mut Vec<u8>)
    ensures
        final(out)@ == old(out)@ + spec_len_bytes(len as nat),
{
    if len < 128 {
        out.push(len as u8);
    } else {
        proof {
            lemma_byte_len_bound(len as nat);
            lemma_pw_256_small();
            lemma_byte_len_le(len as nat, 8);
        }
        // Count the base-256 digits.
        let n = len as u128;
        let mut k: u128 = 1;
        let mut t: u128 = n;
        let mut p: u128 = 1;
        while t >= 256
            invariant
                byte_len(n as nat) == k - 1 + byte_len(t as nat),
                t as nat == n as nat / pw(256, (k - 1) as nat),
                p as nat == pw(256, (k - 1) as nat),
                1 <= k <= 8,
                byte_len(n as nat) <= 8,
                pw(256, 7) == 0x100_0000_0000_0000,
            decreases t,
        {
            proof {
                lemma_pw_pos(256, (k - 1) as nat);
                lemma_byte_len_bound(t as nat);
                lemma_byte_len_bound(t as nat / 256);
                lemma_div_denominator(n as int, pw(256, (k - 1) as nat) as int, 256);
                lemma_mul_is_commutative(pw(256, (k - 1) as nat) as int, 256);
                assert(pw(256, k as nat) == 256 * pw(256, (k - 1) as nat));
                lemma_pw_mono(256, k as nat, 7);
            }
            t = t / 256;
            p = p * 256;
            k = k + 1;
        }
        assert(byte_len(t as nat) == 1);
        let ghost nb = byte_len(len as nat);
        out.push((0x80 + k) as u8);
        let ghost start = out@;
        let mut i: u128 = k;
        let mut q: u128 = p;
        proof {
            lemma_pw_pos(256, (k - 1) as nat);
            lemma_div_basics_2(n as int);
        }
        assert(n as nat / pw(256, k as nat) == 0) by {
            lemma_small_div_converse_nat(n as nat, pw(256, k as nat));
        }
        while i > 0
            invariant
                i <= k,
                k <= 8,
                k == nb,
                i > 0 ==> q as nat == pw(256, (i - 1) as nat),
                out@ == start + be_digits(n as nat / pw(256, i as nat), (k - i) as nat),
            decreases i,
        {
            proof {
                lemma_pw_pos(256, (i - 1) as nat);
                let x = n as nat / pw(256, (i - 1) as nat);
                lemma_div_denominator(n as int, pw(256, (i - 1) as nat) as int, 256);
                lemma_mul_is_commutative(pw(256, (i - 1) as nat) as int, 256);
                assert(pw(256, i as nat) == 256 * pw(256, (i - 1) as nat));
                assert(be_digits(x, (k - i + 1) as nat) == be_digits(x / 256, (k - i) as nat).push((x % 256) as u8));
            }
            let d = ((n / q) % 256) as u8;
            out.push(d);
            i = i - 1;
            if i > 0 {
                proof {
                    assert(pw(256, (i + 1 - 1) as nat) == 256 * pw(256, (i - 1) as nat));
                    lemma_pw_pos(256, (i - 1) as nat);
                    lemma_div_multiples_vanish(pw(256, (i - 1) as nat) as int, 256);
                    lemma_mul_is_commutative(pw(256, (i - 1) as nat) as int, 256);
                }
                q = q / 256;
            }
        }
        assert(n as nat / pw(256, 0) == n as nat);
        assert(out@ =~= old(out)@ + spec_len_bytes(len as nat));
    }
}

proof fn lemma_small_div_converse_nat(x: nat, d: nat)
    requires
        x < d,
    ensures
        x / d == 0,
{
    lemma_basic_div(x as int, d as int);
}

pub(crate) fn encode_tlv(tag: Tag, content: &[u8]) -> (out: Vec<u8>)
    ensures
        out@ == spec_tlv(tag, content@),
{
    let mut out: Vec<u8> = Vec::new();
    out.push(tag.first_byte());
    if tag.number >= 31 {
        push_high_tag(&mut out, tag.number);
    }
    assert(out@ == spec_tag_bytes(tag));
    encode_length(content.len(), &mut out);
    out.extend_from_slice(content);
    assert(out@ =~= spec_tlv(tag, content@));
    out
}


// ---------------------------------------------------------------------------
// Element model and encoding
// ---------------------------------------------------------------------------

/// The definite-length encoding of `e` (X.690 §8.1).
pub open spec fn spec_encode(e: BerElement) -> Seq<u8>
    decreases e, 1nat,
{
    match e.content {
        BerContent::Primitive(bytes) => spec_tlv(e.tag, bytes@),
        BerContent::Constructed(children) => {
            proof {
                assert(decreases_to!(e => e.content));
                assert(decreases_to!(e.content => children));
                vstd::std_specs::vec::axiom_vec_decreases_to_view(children);
            }
            spec_tlv(e.tag, spec_encode_all(children@))
        },
    }
}

/// The concatenated encodings of a sequence of elements.
pub open spec fn spec_encode_all(s: Seq<BerElement>) -> Seq<u8>
    decreases s, 0nat,
{
    if s.len() == 0 {
        Seq::empty()
    } else {
        spec_encode_all(s.drop_last()) + spec_encode(s.last())
    }
}

impl BerElement {
    /// An INTEGER/ENUMERATED value (universal tag 2).
    pub fn integer(value: i64) -> (e: Self)
        ensures
            e.tag == Tag::spec_universal(universal::INTEGER),
            e.content matches BerContent::Primitive(b) && b@ == spec_int_bytes(value as int),
    {
        BerElement { tag: Tag::universal(universal::INTEGER), content: BerContent::Primitive(int_to_bytes(value)) }
    }

    /// An ENUMERATED value (universal tag 10). Encoded identically to INTEGER.
    pub fn enumerated(value: i64) -> (e: Self)
        ensures
            e.tag == Tag::spec_universal(universal::ENUMERATED),
            e.content matches BerContent::Primitive(b) && b@ == spec_int_bytes(value as int),
    {
        BerElement { tag: Tag::universal(universal::ENUMERATED), content: BerContent::Primitive(int_to_bytes(value)) }
    }

    /// A BOOLEAN value (universal tag 1).
    pub fn boolean(value: bool) -> (e: Self)
        ensures
            e.tag == Tag::spec_universal(universal::BOOLEAN),
            e.content matches BerContent::Primitive(b) && b@ == seq![if value { 0xFFu8 } else { 0x00u8 }],
    {
        let mut v: Vec<u8> = Vec::new();
        v.push(if value { 0xFF } else { 0x00 });
        BerElement { tag: Tag::universal(universal::BOOLEAN), content: BerContent::Primitive(v) }
    }

    /// An OCTET STRING value (universal tag 4).
    pub fn octet_string(data: &[u8]) -> (e: Self)
        ensures
            e.tag == Tag::spec_universal(universal::OCTET_STRING),
            e.content matches BerContent::Primitive(b) && b@ == data@,
    {
        BerElement { tag: Tag::universal(universal::OCTET_STRING), content: BerContent::Primitive(vstd::slice::slice_to_vec(data)) }
    }

    /// A NULL value (universal tag 5).
    pub fn null() -> (e: Self)
        ensures
            e.tag == Tag::spec_universal(universal::NULL),
            e.content matches BerContent::Primitive(b) && b@ == Seq::<u8>::empty(),
    {
        BerElement { tag: Tag::universal(universal::NULL), content: BerContent::Primitive(Vec::new()) }
    }

    /// A constructed SEQUENCE (universal tag 16).
    pub fn sequence(children: Vec<BerElement>) -> (e: Self)
        ensures
            e.tag == Tag::spec_universal(universal::SEQUENCE).spec_constructed(),
            e.content == BerContent::Constructed(children),
    {
        BerElement { tag: Tag::universal(universal::SEQUENCE).constructed(), content: BerContent::Constructed(children) }
    }

    /// A constructed SET (universal tag 17).
    pub fn set(children: Vec<BerElement>) -> (e: Self)
        ensures
            e.tag == Tag::spec_universal(universal::SET).spec_constructed(),
            e.content == BerContent::Constructed(children),
    {
        BerElement { tag: Tag::universal(universal::SET).constructed(), content: BerContent::Constructed(children) }
    }

    /// A constructed application-tagged SEQUENCE.
    pub fn application_sequence(tag: u32, children: Vec<BerElement>) -> (e: Self)
        ensures
            e.tag == Tag::spec_application(tag).spec_constructed(),
            e.content == BerContent::Constructed(children),
    {
        BerElement { tag: Tag::application(tag).constructed(), content: BerContent::Constructed(children) }
    }

    /// A constructed context-tagged SEQUENCE.
    pub fn context_sequence(tag: u32, children: Vec<BerElement>) -> (e: Self)
        ensures
            e.tag == Tag::spec_context(tag).spec_constructed(),
            e.content == BerContent::Constructed(children),
    {
        BerElement { tag: Tag::context(tag).constructed(), content: BerContent::Constructed(children) }
    }

    /// A primitive context-tagged value.
    pub fn context_primitive(tag: u32, data: &[u8]) -> (e: Self)
        ensures
            e.tag == Tag::spec_context(tag),
            e.content matches BerContent::Primitive(b) && b@ == data@,
    {
        BerElement { tag: Tag::context(tag), content: BerContent::Primitive(vstd::slice::slice_to_vec(data)) }
    }

    /// A primitive application-tagged value.
    pub fn application_primitive(tag: u32, data: &[u8]) -> (e: Self)
        ensures
            e.tag == Tag::spec_application(tag),
            e.content matches BerContent::Primitive(b) && b@ == data@,
    {
        BerElement { tag: Tag::application(tag), content: BerContent::Primitive(vstd::slice::slice_to_vec(data)) }
    }

    /// `true` if this is the end-of-contents marker (universal tag 0, empty).
    pub open spec fn spec_is_eoc(&self) -> bool {
        &&& self.tag == Tag::spec_universal(0)
        &&& self.content matches BerContent::Primitive(p) && p@.len() == 0
    }

    /// `true` if this is the end-of-contents marker (universal tag 0, empty).
    pub fn is_eoc(&self) -> (b: bool)
        ensures
            b == self.spec_is_eoc(),
    {
        let u = Tag::universal(0);
        if self.tag.class == u.class && self.tag.constructed == u.constructed && self.tag.number == u.number
            && !self.tag.constructed {
            match &self.content {
                BerContent::Primitive(p) => p.len() == 0,
                BerContent::Constructed(_) => false,
            }
        } else {
            false
        }
    }

    /// Borrow the primitive value bytes, if this element is primitive.
    pub fn as_bytes(&self) -> (r: Option<&[u8]>)
        ensures
            match self.content {
                BerContent::Primitive(p) => r matches Some(b) && b@ == p@,
                BerContent::Constructed(_) => r is None,
            },
    {
        match &self.content {
            BerContent::Primitive(p) => Some(p.as_slice()),
            BerContent::Constructed(_) => None,
        }
    }

    /// Borrow the nested elements, if this element is constructed.
    pub fn as_children(&self) -> (r: Option<&[BerElement]>)
        ensures
            match self.content {
                BerContent::Constructed(c) => r matches Some(b) && b@ == c@,
                BerContent::Primitive(_) => r is None,
            },
    {
        match &self.content {
            BerContent::Constructed(c) => Some(c.as_slice()),
            BerContent::Primitive(_) => None,
        }
    }

    /// Decode an INTEGER/ENUMERATED value into `i64`.
    pub fn as_int(&self) -> (r: Result<i64, BerError>)
        ensures
            match self.content {
                BerContent::Primitive(p) => r == spec_bytes_to_int(p@),
                BerContent::Constructed(_) => r == Err::<i64, BerError>(BerError::Unexpected),
            },
    {
        match self.as_bytes() {
            Some(bytes) => bytes_to_int(bytes),
            None => Err(BerError::Unexpected),
        }
    }

    /// Decode a BOOLEAN value.
    pub fn as_bool(&self) -> (r: Result<bool, BerError>)
        ensures
            match self.content {
                BerContent::Primitive(p) => if p@.len() == 1 {
                    r == Ok::<bool, BerError>(p@[0] != 0)
                } else {
                    r == Err::<bool, BerError>(BerError::BadLength)
                },
                BerContent::Constructed(_) => r == Err::<bool, BerError>(BerError::Unexpected),
            },
    {
        match self.as_bytes() {
            Some(bytes) => {
                if bytes.len() != 1 {
                    return Err(BerError::BadLength);
                }
                Ok(bytes[0] != 0x00)
            },
            None => Err(BerError::Unexpected),
        }
    }

    /// The string an OCTET STRING element spells, when its octets are UTF-8.
    pub open spec fn spec_as_str(&self) -> Option<Seq<char>> {
        match self.content {
            BerContent::Primitive(p) => if valid_utf8(p@) {
                Some(decode_utf8(p@))
            } else {
                None
            },
            BerContent::Constructed(_) => None,
        }
    }

    /// Decode an OCTET STRING as a UTF-8 string (used for LDAPDN, LDAPString).
    pub fn as_str(&self) -> (r: Result<&str, BerError>)
        ensures
            match r {
                Ok(s) => self.spec_as_str() == Some(s@),
                Err(e) => self.spec_as_str() is None && e == BerError::Unexpected,
            },
    {
        match self.as_bytes() {
            Some(bytes) => match str_from_utf8(bytes) {
                Some(s) => Ok(s),
                None => Err(BerError::Unexpected),
            },
            None => Err(BerError::Unexpected),
        }
    }

    /// Serialize this element back to BER (definite length form).
    pub fn encode(&self) -> (r: Vec<u8>)
        ensures
            r@ == spec_encode(*self),
        decreases self,
    {
        match &self.content {
            BerContent::Primitive(bytes) => encode_tlv(self.tag, bytes.as_slice()),
            BerContent::Constructed(children) => {
                let mut inner: Vec<u8> = Vec::new();
                let mut i: usize = 0;
                while i < children.len()
                    invariant
                        i <= children@.len(),
                        self.content == BerContent::Constructed(*children),
                        inner@ == spec_encode_all(children@.subrange(0, i as int)),
                    decreases children.len() - i,
                {
                    proof {
                        vstd::std_specs::vec::axiom_vec_index_decreases(*children, i as int);
                        assert(decreases_to!(*self => self.content));
                        assert(decreases_to!(self.content => self.content->Constructed_0));
                        assert(decreases_to!(*self => self.content->Constructed_0@[i as int]));
                    }
                    let c = children[i].encode();
                    inner.extend_from_slice(c.as_slice());
                    proof {
                        let s = children@.subrange(0, i + 1);
                        assert(s.drop_last() =~= children@.subrange(0, i as int));
                    }
                    i = i + 1;
                }
                assert(children@.subrange(0, i as int) =~= children@);
                encode_tlv(self.tag, inner.as_slice())
            },
        }
    }
}

impl Tag {
    pub open spec fn spec_universal(number: u32) -> Tag {
        Tag { class: CLASS_UNIVERSAL, constructed: false, number }
    }

    pub open spec fn spec_application(number: u32) -> Tag {
        Tag { class: CLASS_APPLICATION, constructed: false, number }
    }

    pub open spec fn spec_context(number: u32) -> Tag {
        Tag { class: CLASS_CONTEXT, constructed: false, number }
    }

    pub open spec fn spec_constructed(self) -> Tag {
        Tag { constructed: true, ..self }
    }
}


// ---------------------------------------------------------------------------
// Decoding: the grammar, stated over byte positions
// ---------------------------------------------------------------------------

/// Reading the subsequent octets of a high tag number at `pos`, having
/// accumulated `number` so far (`shift` bits already read).
pub open spec fn spec_read_high(buf: Seq<u8>, pos: int, number: u32, shift: u32) -> Result<(u32, int), BerError>
    decreases 28 - shift,
{
    if pos < 0 || pos >= buf.len() {
        Err(BerError::Truncated)
    } else {
        let n = buf[pos];
        let num2 = ((number as int * 128 + (n % 128)) % 0x1_0000_0000) as u32;
        if n < 128 {
            Ok((num2, pos + 1))
        } else if shift + 7 > 28 {
            Err(BerError::BadTag)
        } else {
            spec_read_high(buf, pos + 1, num2, (shift + 7) as u32)
        }
    }
}

/// Reading identifier octets at `pos`: the tag and the position after it.
pub open spec fn spec_read_tag(buf: Seq<u8>, pos: int) -> Result<(Tag, int), BerError> {
    if pos < 0 || pos >= buf.len() {
        Err(BerError::Truncated)
    } else {
        let b = buf[pos];
        let class = (b / 64) as u8;
        let constructed = (b / 32) % 2 == 1;
        let low = b % 32;
        if low != 31 {
            Ok((Tag { class, constructed, number: low as u32 }, pos + 1))
        } else {
            match spec_read_high(buf, pos + 1, 0, 0) {
                Ok((number, p)) => Ok((Tag { class, constructed, number }, p)),
                Err(e) => Err(e),
            }
        }
    }
}

/// Reading length octets at `pos`: the length, whether it is the indefinite
/// form, and the position after the octets.
pub open spec fn spec_read_length(buf: Seq<u8>, pos: int) -> Result<(int, bool, int), BerError> {
    if pos < 0 || pos >= buf.len() {
        Err(BerError::Truncated)
    } else {
        let b = buf[pos];
        if b == 0x80 {
            Ok((0, true, pos + 1))
        } else if b < 128 {
            Ok((b as int, false, pos + 1))
        } else {
            let k = b - 128;
            if k > 8 {
                Err(BerError::BadLength)
            } else if pos + 1 + k > buf.len() {
                Err(BerError::Truncated)
            } else {
                Ok((
                    be_value(buf.subrange(pos + 1, pos + 1 + k)) as int % (usize::MAX as int + 1),
                    false,
                    pos + 1 + k,
                ))
            }
        }
    }
}

/// Identifier and length octets at `pos`: tag, length, indefinite flag, and
/// the position where the contents begin.
pub open spec fn spec_header(buf: Seq<u8>, pos: int) -> Result<(Tag, int, bool, int), BerError> {
    match spec_read_tag(buf, pos) {
        Err(e) => Err(e),
        Ok((t, p1)) => match spec_read_length(buf, p1) {
            Err(e) => Err(e),
            Ok((len, indef, p2)) => Ok((t, len, indef, p2)),
        },
    }
}

/// The element at `p` is the end-of-contents marker.
pub open spec fn spec_is_eoc_at(buf: Seq<u8>, p: int) -> bool {
    match spec_header(buf, p) {
        Ok((t, len, indef, _)) => t == Tag::spec_universal(0) && !indef && len == 0,
        Err(_) => false,
    }
}

/// Where the element starting at `pos` ends, or the error decoding it reports.
pub open spec fn spec_elem_end(buf: Seq<u8>, pos: int) -> Result<int, BerError>
    decreases buf.len() - pos, 0int,
{
    match spec_header(buf, pos) {
        Err(e) => Err(e),
        Ok((t, len, indef, p2)) => {
            if !(pos < p2 <= buf.len()) {
                Err(BerError::BadTag)
            } else if indef {
                if !t.constructed {
                    Err(BerError::IndefinitePrimitive)
                } else {
                    spec_indef_end(buf, p2)
                }
            } else {
                let end = p2 + len;
                if end > usize::MAX {
                    Err(BerError::BadLength)
                } else if end > buf.len() {
                    Err(BerError::Truncated)
                } else if t.constructed {
                    match spec_def_children(buf, p2, end) {
                        Ok(_) => Ok(end),
                        Err(e) => Err(e),
                    }
                } else {
                    Ok(end)
                }
            }
        },
    }
}

/// Decoding the children of a definite-length constructed element, starting
/// at `cpos`, until a child ends at or past `end`.
pub open spec fn spec_def_children(buf: Seq<u8>, cpos: int, end: int) -> Result<(), BerError>
    decreases buf.len() - cpos, 1int,
{
    if cpos >= end {
        Ok(())
    } else if cpos >= buf.len() {
        Err(BerError::Truncated)
    } else {
        match spec_elem_end(buf, cpos) {
            Err(e) => Err(e),
            Ok(c2) => if cpos < c2 <= buf.len() {
                spec_def_children(buf, c2, end)
            } else {
                Err(BerError::BadTag)
            },
        }
    }
}

/// Decoding the children of an indefinite-length element from `p` through the
/// end-of-contents marker; the position after the marker.
pub open spec fn spec_indef_end(buf: Seq<u8>, p: int) -> Result<int, BerError>
    decreases buf.len() - p, 1int,
{
    if p >= buf.len() {
        Err(BerError::Truncated)
    } else {
        match spec_elem_end(buf, p) {
            Err(e) => Err(e),
            Ok(c2) => if spec_is_eoc_at(buf, p) {
                Ok(c2)
            } else if p < c2 <= buf.len() {
                spec_indef_end(buf, c2)
            } else {
                Err(BerError::BadTag)
            },
        }
    }
}

/// `e` is the element decoded from the octets at `pos`.
pub open spec fn spec_elem_at(buf: Seq<u8>, pos: int, e: BerElement) -> bool
    decreases e, 1nat,
{
    match spec_header(buf, pos) {
        Err(_) => false,
        Ok((t, len, indef, p2)) => {
            &&& e.tag == t
            &&& spec_elem_end(buf, pos) is Ok
            &&& match e.content {
                BerContent::Primitive(b) => !indef && !t.constructed && b@ == buf.subrange(p2, p2 + len),
                BerContent::Constructed(cs) => {
                    proof {
                        assert(decreases_to!(e => e.content));
                        assert(decreases_to!(e.content => cs));
                        vstd::std_specs::vec::axiom_vec_decreases_to_view(cs);
                    }
                    t.constructed && if indef {
                        spec_indef_children_at(buf, p2, cs@)
                    } else {
                        spec_def_children_at(buf, p2, p2 + len, cs@)
                    }
                },
            }
        },
    }
}

/// `cs` are the children of a definite-length element decoded from `cpos`
/// up to `end`.
pub open spec fn spec_def_children_at(buf: Seq<u8>, cpos: int, end: int, cs: Seq<BerElement>) -> bool
    decreases cs, 0nat,
{
    if cs.len() == 0 {
        cpos >= end
    } else {
        &&& cpos < end
        &&& spec_elem_at(buf, cpos, cs[0])
        &&& match spec_elem_end(buf, cpos) {
            Ok(c2) => spec_def_children_at(buf, c2, end, cs.drop_first()),
            Err(_) => false,
        }
    }
}

/// `cs` are the children of an indefinite-length element decoded from `p`
/// up to the end-of-contents marker.
pub open spec fn spec_indef_children_at(buf: Seq<u8>, p: int, cs: Seq<BerElement>) -> bool
    decreases cs, 0nat,
{
    if cs.len() == 0 {
        spec_is_eoc_at(buf, p) && spec_elem_end(buf, p) is Ok
    } else {
        &&& !spec_is_eoc_at(buf, p)
        &&& spec_elem_at(buf, p, cs[0])
        &&& match spec_elem_end(buf, p) {
            Ok(c2) => spec_indef_children_at(buf, c2, cs.drop_first()),
            Err(_) => false,
        }
    }
}

/// The outcome of decoding one element from the start of `buf`: the element
/// and the number of octets it spans, or the error.
pub open spec fn spec_decoded(buf: Seq<u8>, r: Result<(BerElement, usize), BerError>) -> bool {
    match r {
        Ok((e, n)) => spec_elem_end(buf, 0) == Ok::<int, BerError>(n as int) && spec_elem_at(buf, 0, e),
        Err(k) => spec_elem_end(buf, 0) == Err::<int, BerError>(k),
    }
}


/// The first `cs.len()` children of a definite-length element decoded from
/// `p0` lead to position `p`.
pub open spec fn spec_def_prefix(buf: Seq<u8>, p0: int, cs: Seq<BerElement>, p: int, end: int) -> bool
    decreases cs.len(),
{
    if cs.len() == 0 {
        p0 == p
    } else {
        &&& p0 < end
        &&& spec_elem_at(buf, p0, cs[0])
        &&& match spec_elem_end(buf, p0) {
            Ok(c2) => spec_def_prefix(buf, c2, cs.drop_first(), p, end),
            Err(_) => false,
        }
    }
}

/// The first `cs.len()` children of an indefinite-length element decoded from
/// `p0` lead to position `p`.
pub open spec fn spec_indef_prefix(buf: Seq<u8>, p0: int, cs: Seq<BerElement>, p: int) -> bool
    decreases cs.len(),
{
    if cs.len() == 0 {
        p0 == p
    } else {
        &&& !spec_is_eoc_at(buf, p0)
        &&& spec_elem_at(buf, p0, cs[0])
        &&& match spec_elem_end(buf, p0) {
            Ok(c2) => spec_indef_prefix(buf, c2, cs.drop_first(), p),
            Err(_) => false,
        }
    }
}

/// A decoded element ends after the position it starts at, within the buffer.
pub proof fn lemma_elem_end_progress(buf: Seq<u8>, pos: int)
    ensures
        spec_elem_end(buf, pos) matches Ok(q) ==> pos < q <= buf.len(),
    decreases buf.len() - pos, 0int,
{
    match spec_header(buf, pos) {
        Err(_) => {},
        Ok((t, len, indef, p2)) => {
            if pos < p2 <= buf.len() && indef && t.constructed {
                lemma_indef_end_progress(buf, p2);
            }
        },
    }
}

proof fn lemma_indef_end_progress(buf: Seq<u8>, p: int)
    ensures
        spec_indef_end(buf, p) matches Ok(q) ==> p < q <= buf.len(),
    decreases buf.len() - p, 1int,
{
    if p < buf.len() {
        lemma_elem_end_progress(buf, p);
        if let Ok(c2) = spec_elem_end(buf, p) {
            if !spec_is_eoc_at(buf, p) && p < c2 <= buf.len() {
                lemma_indef_end_progress(buf, c2);
            }
        }
    }
}

proof fn lemma_def_prefix_extend(buf: Seq<u8>, p0: int, cs: Seq<BerElement>, p: int, end: int, c: BerElement, q: int)
    requires
        spec_def_prefix(buf, p0, cs, p, end),
        p < end,
        spec_elem_at(buf, p, c),
        spec_elem_end(buf, p) == Ok::<int, BerError>(q),
    ensures
        spec_def_prefix(buf, p0, cs.push(c), q, end),
    decreases cs.len(),
{
    reveal_with_fuel(spec_def_prefix, 2);
    reveal_with_fuel(spec_indef_prefix, 2);
    if cs.len() > 0 {
        let c2 = spec_elem_end(buf, p0)->Ok_0;
        lemma_def_prefix_extend(buf, c2, cs.drop_first(), p, end, c, q);
        assert(cs.push(c).drop_first() =~= cs.drop_first().push(c));
        assert(cs.push(c)[0] == cs[0]);
    } else {
        assert(cs.push(c)[0] == c);
        assert(cs.push(c).drop_first() =~= Seq::<BerElement>::empty());
    }
}

proof fn lemma_def_prefix_close(buf: Seq<u8>, p0: int, cs: Seq<BerElement>, p: int, end: int)
    requires
        spec_def_prefix(buf, p0, cs, p, end),
        p >= end,
    ensures
        spec_def_children_at(buf, p0, end, cs),
    decreases cs.len(),
{
    if cs.len() > 0 {
        let c2 = spec_elem_end(buf, p0)->Ok_0;
        lemma_def_prefix_close(buf, c2, cs.drop_first(), p, end);
    }
}

proof fn lemma_def_prefix_result(buf: Seq<u8>, p0: int, cs: Seq<BerElement>, p: int, end: int)
    requires
        spec_def_prefix(buf, p0, cs, p, end),
        end <= buf.len(),
    ensures
        spec_def_children(buf, p0, end) == spec_def_children(buf, p, end),
    decreases cs.len(),
{
    if cs.len() > 0 {
        let c2 = spec_elem_end(buf, p0)->Ok_0;
        lemma_elem_end_progress(buf, p0);
        lemma_def_prefix_result(buf, c2, cs.drop_first(), p, end);
    }
}

proof fn lemma_indef_prefix_extend(buf: Seq<u8>, p0: int, cs: Seq<BerElement>, p: int, c: BerElement, q: int)
    requires
        spec_indef_prefix(buf, p0, cs, p),
        !spec_is_eoc_at(buf, p),
        spec_elem_at(buf, p, c),
        spec_elem_end(buf, p) == Ok::<int, BerError>(q),
    ensures
        spec_indef_prefix(buf, p0, cs.push(c), q),
    decreases cs.len(),
{
    reveal_with_fuel(spec_def_prefix, 2);
    reveal_with_fuel(spec_indef_prefix, 2);
    if cs.len() > 0 {
        let c2 = spec_elem_end(buf, p0)->Ok_0;
        lemma_indef_prefix_extend(buf, c2, cs.drop_first(), p, c, q);
        assert(cs.push(c).drop_first() =~= cs.drop_first().push(c));
        assert(cs.push(c)[0] == cs[0]);
    } else {
        assert(cs.push(c)[0] == c);
        assert(cs.push(c).drop_first() =~= Seq::<BerElement>::empty());
    }
}

proof fn lemma_indef_prefix_close(buf: Seq<u8>, p0: int, cs: Seq<BerElement>, p: int)
    requires
        spec_indef_prefix(buf, p0, cs, p),
        spec_is_eoc_at(buf, p),
        spec_elem_end(buf, p) is Ok,
    ensures
        spec_indef_children_at(buf, p0, cs),
    decreases cs.len(),
{
    if cs.len() > 0 {
        let c2 = spec_elem_end(buf, p0)->Ok_0;
        lemma_indef_prefix_close(buf, c2, cs.drop_first(), p);
    }
}

proof fn lemma_indef_prefix_result(buf: Seq<u8>, p0: int, cs: Seq<BerElement>, p: int)
    requires
        spec_indef_prefix(buf, p0, cs, p),
    ensures
        spec_indef_end(buf, p0) == spec_indef_end(buf, p),
    decreases cs.len(),
{
    if cs.len() > 0 {
        let c2 = spec_elem_end(buf, p0)->Ok_0;
        lemma_elem_end_progress(buf, p0);
        lemma_indef_prefix_result(buf, c2, cs.drop_first(), p);
    }
}

// ---------------------------------------------------------------------------
// Decoding: the implementation
// ---------------------------------------------------------------------------

fn read_high(buf: &[u8], pos: usize, number: u32, shift: u32) -> (r: Result<(u32, usize), BerError>)
    requires
        shift <= 28,
    ensures
        match r {
            Ok((n, p)) => spec_read_high(buf@, pos as int, number, shift) == Ok::<(u32, int), BerError>((n, p as int)),
            Err(e) => spec_read_high(buf@, pos as int, number, shift) == Err::<(u32, int), BerError>(e),
        },
    decreases 28 - shift,
{
    if pos >= buf.len() {
        return Err(BerError::Truncated);
    }
    let n = buf[pos];
    let num2 = ((number as u64 * 128 + (n % 128) as u64) % 0x1_0000_0000) as u32;
    if n < 128 {
        Ok((num2, pos + 1))
    } else if shift + 7 > 28 {
        Err(BerError::BadTag)
    } else {
        read_high(buf, pos + 1, num2, shift + 7)
    }
}

fn read_tag(buf: &[u8], pos: usize) -> (r: Result<(Tag, usize), BerError>)
    ensures
        match r {
            Ok((t, p)) => spec_read_tag(buf@, pos as int) == Ok::<(Tag, int), BerError>((t, p as int)),
            Err(e) => spec_read_tag(buf@, pos as int) == Err::<(Tag, int), BerError>(e),
        },
{
    if pos >= buf.len() {
        return Err(BerError::Truncated);
    }
    let b = buf[pos];
    let class = b / 64;
    let constructed = (b / 32) % 2 == 1;
    let low = b % 32;
    if low != 31 {
        Ok((Tag { class, constructed, number: low as u32 }, pos + 1))
    } else {
        match read_high(buf, pos + 1, 0, 0) {
            Ok((number, p)) => Ok((Tag { class, constructed, number }, p)),
            Err(e) => Err(e),
        }
    }
}

fn read_length(buf: &[u8], pos: usize) -> (r: Result<(usize, bool, usize), BerError>)
    ensures
        match r {
            Ok((len, indef, p)) => spec_read_length(buf@, pos as int) == Ok::<(int, bool, int), BerError>((len as int, indef, p as int)),
            Err(e) => spec_read_length(buf@, pos as int) == Err::<(int, bool, int), BerError>(e),
        },
{
    if pos >= buf.len() {
        return Err(BerError::Truncated);
    }
    let b = buf[pos];
    if b == 0x80 {
        return Ok((0, true, pos + 1));
    }
    if b < 128 {
        return Ok((b as usize, false, pos + 1));
    }
    let k = (b - 128) as usize;
    if k > 8 {
        return Err(BerError::BadLength);
    }
    if k > buf.len() - (pos + 1) {
        return Err(BerError::Truncated);
    }
    proof {
        lemma_pw_256_small();
    }
    let start = pos + 1;
    let mut val: u128 = 0;
    let mut i: usize = 0;
    while i < k
        invariant
            k <= 8,
            start + k <= buf@.len(),
            start + k <= buf.len(),
            i <= k,
            val as int == be_value(buf@.subrange(start as int, start + i)),
            pw(256, 8) == 0x1_0000_0000_0000_0000,
        decreases k - i,
    {
        proof {
            lemma_be_value_bound(buf@.subrange(start as int, start + i));
            lemma_pw_mono(256, i as nat, 8);
            assert(buf@.subrange(start as int, start + i + 1).drop_last() =~= buf@.subrange(start as int, start + i));
        }
        val = val * 256 + buf[start + i] as u128;
        i = i + 1;
    }
    let len = (val % (usize::MAX as u128 + 1)) as usize;
    Ok((len, false, start + k))
}

fn read_header(buf: &[u8], pos: usize) -> (r: Result<(Tag, usize, bool, usize), BerError>)
    ensures
        match r {
            Ok((t, len, indef, p)) => spec_header(buf@, pos as int) == Ok::<(Tag, int, bool, int), BerError>((t, len as int, indef, p as int)),
            Err(e) => spec_header(buf@, pos as int) == Err::<(Tag, int, bool, int), BerError>(e),
        },
{
    let (tag, p1) = read_tag(buf, pos)?;
    let (len, indef, p2) = read_length(buf, p1)?;
    Ok((tag, len, indef, p2))
}

proof fn lemma_header_progress(buf: Seq<u8>, pos: int)
    ensures
        spec_header(buf, pos) matches Ok((_, _, _, p2)) ==> pos < p2 <= buf.len(),
{
    if pos >= 0 && pos < buf.len() && buf[pos] % 32 == 31 {
        lemma_read_high_progress(buf, pos + 1, 0, 0);
    }
}

proof fn lemma_read_high_progress(buf: Seq<u8>, pos: int, number: u32, shift: u32)
    ensures
        spec_read_high(buf, pos, number, shift) matches Ok((_, p)) ==> pos < p <= buf.len(),
    decreases 28 - shift,
{
    if 0 <= pos < buf.len() && buf[pos] >= 128 && shift + 7 <= 28 {
        let n = buf[pos];
        let num2 = ((number as int * 128 + (n % 128)) % 0x1_0000_0000) as u32;
        lemma_read_high_progress(buf, pos + 1, num2, (shift + 7) as u32);
    }
}

fn read_element(buf: &[u8], pos: usize) -> (r: Result<(BerElement, usize), BerError>)
    ensures
        match r {
            Ok((e, q)) => spec_elem_end(buf@, pos as int) == Ok::<int, BerError>(q as int) && spec_elem_at(buf@, pos as int, e),
            Err(k) => spec_elem_end(buf@, pos as int) == Err::<int, BerError>(k),
        },
    decreases buf.len() - pos,
{
    proof {
        lemma_header_progress(buf@, pos as int);
    }
    let (tag, len, indef, p2) = read_header(buf, pos)?;
    if indef {
        if !tag.constructed {
            return Err(BerError::IndefinitePrimitive);
        }
        let mut children: Vec<BerElement> = Vec::new();
        let mut p: usize = p2;
        assert(spec_elem_end(buf@, pos as int) == spec_indef_end(buf@, p2 as int));
        loop
            invariant
                pos < p2 <= p <= buf.len(),
                spec_header(buf@, pos as int) == Ok::<(Tag, int, bool, int), BerError>((tag, len as int, indef, p2 as int)),
                indef && tag.constructed,
                spec_indef_prefix(buf@, p2 as int, children@, p as int),
            decreases buf.len() - p,
        {
            proof {
                lemma_indef_prefix_result(buf@, p2 as int, children@, p as int);
            }
            let (child, q) = match read_element(buf, p) {
                Ok(x) => x,
                Err(k) => {
                    assert(spec_indef_end(buf@, p as int) == Err::<int, BerError>(k));
                    assert(spec_indef_end(buf@, p2 as int) == Err::<int, BerError>(k));
                    return Err(k);
                },
            };
            proof {
                lemma_elem_end_progress(buf@, p as int);
            }
            if child.is_eoc() {
                proof {
                    assert(spec_is_eoc_at(buf@, p as int)) by {
                        reveal_with_fuel(spec_elem_at, 1);
                    }
                    lemma_indef_prefix_close(buf@, p2 as int, children@, p as int);
                }
                return Ok((BerElement { tag, content: BerContent::Constructed(children) }, q));
            }
            proof {
                assert(!spec_is_eoc_at(buf@, p as int));
                lemma_indef_prefix_extend(buf@, p2 as int, children@, p as int, child, q as int);
            }
            children.push(child);
            p = q;
        }
    } else {
        let content_end = match p2.checked_add(len) {
            Some(e) => e,
            None => {
                return Err(BerError::BadLength);
            },
        };
        if content_end > buf.len() {
            return Err(BerError::Truncated);
        }
        if tag.constructed {
            let mut children: Vec<BerElement> = Vec::new();
            let mut cpos: usize = p2;
            while cpos < content_end
                invariant
                    pos < p2 <= content_end <= buf.len(),
                    content_end == p2 + len,
                    p2 <= cpos <= buf.len(),
                    spec_def_prefix(buf@, p2 as int, children@, cpos as int, content_end as int),
                    spec_header(buf@, pos as int) == Ok::<(Tag, int, bool, int), BerError>((tag, len as int, indef, p2 as int)),
                    !indef && tag.constructed,
                decreases buf.len() - cpos,
            {
                proof {
                    lemma_def_prefix_result(buf@, p2 as int, children@, cpos as int, content_end as int);
                }
                let (child, q) = match read_element(buf, cpos) {
                    Ok(x) => x,
                    Err(k) => {
                        assert(spec_def_children(buf@, cpos as int, content_end as int) == Err::<(), BerError>(k));
                        assert(spec_def_children(buf@, p2 as int, content_end as int) == Err::<(), BerError>(k));
                        return Err(k);
                    },
                };
                proof {
                    lemma_elem_end_progress(buf@, cpos as int);
                    lemma_def_prefix_extend(buf@, p2 as int, children@, cpos as int, content_end as int, child, q as int);
                }
                children.push(child);
                cpos = q;
            }
            proof {
                lemma_def_prefix_result(buf@, p2 as int, children@, cpos as int, content_end as int);
                lemma_def_prefix_close(buf@, p2 as int, children@, cpos as int, content_end as int);
            }
            Ok((BerElement { tag, content: BerContent::Constructed(children) }, content_end))
        } else {
            let content = vstd::slice::slice_to_vec(vstd::slice::slice_subrange(buf, p2, content_end));
            Ok((BerElement { tag, content: BerContent::Primitive(content) }, content_end))
        }
    }
}

impl BerElement {
    /// Decode a single complete top-level element from `buf`, returning the
    /// element and the number of bytes it consumed.
    pub fn decode_partial(buf: &[u8]) -> (r: Result<(BerElement, usize), BerError>)
        ensures
            spec_decoded(buf@, r),
            r matches Ok((_, n)) ==> n <= buf@.len(),
    {
        proof {
            lemma_elem_end_progress(buf@, 0);
        }
        read_element(buf, 0)
    }
}

} // verus!
