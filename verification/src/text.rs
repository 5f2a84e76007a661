//! Byte- and string-level helpers shared by the protocol modules: UTF-8
//! decoding and ASCII case-insensitive comparison.

use vstd::prelude::*;
use vstd::utf8::{valid_utf8, decode_utf8, encode_utf8, is_scalar};

verus! {

/// The UTF-8 octets of a string value.
pub open spec fn utf8(s: Seq<char>) -> Seq<u8> {
    encode_utf8(s)
}

/// `std::str::from_utf8`: the string the octets spell when they are valid
/// UTF-8, and nothing otherwise (the std documentation states both).
#[verifier::external_body]
pub(crate) fn str_from_utf8(bytes: &[u8]) -> (r: Option<&str>)
    ensures
        r is Some <==> valid_utf8(bytes@),
        r matches Some(s) ==> s@ == decode_utf8(bytes@),
{
    std::str::from_utf8(bytes).ok()
}

/// The string `String::from_utf8_lossy` makes of some octets.
pub uninterp spec fn lossy_utf8(b: Seq<u8>) -> Seq<char>;

/// `String::from_utf8_lossy` (std) as an owned string: the octets decoded as
/// UTF-8, invalid sequences replaced by U+FFFD; valid UTF-8 is decoded as it
/// stands (the std documentation states both).
#[verifier::external_body]
pub(crate) fn lossy_string(bytes: &[u8]) -> (r: String)
    ensures
        r@ == lossy_utf8(bytes@),
        valid_utf8(bytes@) ==> r@ == decode_utf8(bytes@),
{
    String::from_utf8_lossy(bytes).to_string()
}

/// The `Debug` rendering of a string: quoted, with quotes, backslashes and
/// control characters escaped.
pub uninterp spec fn debug_quoted(s: Seq<char>) -> Seq<char>;

/// `format!("{:?}", s)` (std): the `Debug` rendering of a string.
#[verifier::external_body]
pub(crate) fn debug_string(s: &str) -> (r: String)
    ensures
        r@ == debug_quoted(s@),
{
    format!("{:?}", s)
}

/// `str::chars`, collected: the characters of a string, in order.
#[verifier::external_body]
pub(crate) fn chars_of(s: &str) -> (r: Vec<char>)
    ensures
        r@ == s@,
{
    s.chars().collect()
}

/// A `String` collected from characters, in order.
#[verifier::external_body]
pub(crate) fn string_of_chars(v: &[char]) -> (r: String)
    ensures
        r@ == v@,
{
    v.iter().collect()
}

/// `char::from_u32`: the character whose value is `v`, when `v` is a Unicode
/// scalar value, and nothing otherwise (as the std documentation states).
#[verifier::external_body]
pub(crate) fn char_from_u32(v: u32) -> (r: Option<char>)
    ensures
        r is Some <==> is_scalar(v),
        r matches Some(c) ==> c as u32 == v,
{
    char::from_u32(v)
}

/// The ASCII digit for `d` (below ten).
pub open spec fn digit_char(d: nat) -> char {
    (48 + d) as char
}

/// The decimal representation of `v`, without leading zeros.
pub open spec fn dec_digits(v: nat) -> Seq<char>
    decreases v,
{
    if v < 10 {
        seq![digit_char(v)]
    } else {
        dec_digits(v / 10).push(digit_char(v % 10))
    }
}

/// The decimal representation of a `u32` (what `to_string` gives).
pub fn u32_decimal(v: u32) -> (r: String)
    ensures
        r@ == dec_digits(v as nat),
{
    let mut out: Vec<char> = Vec::new();
    let mut n = v;
    while n >= 10
        invariant
            dec_digits(v as nat) == dec_digits(n as nat) + out@,
        decreases n,
    {
        let d = ((n % 10) as u8 + 48) as char;
        let ghost before = out@;
        out.insert(0, d);
        proof {
            assert(d == digit_char((n % 10) as nat));
            assert(dec_digits(n as nat) == dec_digits((n / 10) as nat).push(d));
            assert(dec_digits(n as nat) + before =~= dec_digits((n / 10) as nat) + out@);
        }
        n = n / 10;
    }
    let d = (n as u8 + 48) as char;
    let ghost before = out@;
    out.insert(0, d);
    assert(d == digit_char(n as nat));
    assert(out@ =~= dec_digits(n as nat) + before);
    string_of_chars(out.as_slice())
}

/// The characters with the Unicode `White_Space` property.
pub open spec fn is_white_space(c: char) -> bool {
    let u = c as u32;
    ||| 0x9 <= u <= 0xD
    ||| u == 0x20
    ||| u == 0x85
    ||| u == 0xA0
    ||| u == 0x1680
    ||| 0x2000 <= u <= 0x200A
    ||| u == 0x2028
    ||| u == 0x2029
    ||| u == 0x202F
    ||| u == 0x205F
    ||| u == 0x3000
}

/// `s` without its leading `White_Space` characters.
pub open spec fn trim_ws(s: Seq<char>) -> Seq<char>
    decreases s.len(),
{
    if s.len() > 0 && is_white_space(s[0]) {
        trim_ws(s.drop_first())
    } else {
        s
    }
}

/// `s` without its trailing `White_Space` characters.
pub open spec fn trim_end_ws(s: Seq<char>) -> Seq<char>
    decreases s.len(),
{
    if s.len() > 0 && is_white_space(s.last()) {
        trim_end_ws(s.drop_last())
    } else {
        s
    }
}

/// `str::trim`: the string with its leading and trailing whitespace removed,
/// where whitespace is the Unicode `White_Space` property (as the std
/// documentation defines it).
#[verifier::external_body]
pub(crate) fn trim_both_ws(s: &str) -> (r: &str)
    ensures
        r@ == trim_end_ws(trim_ws(s@)),
{
    s.trim()
}

/// `str::trim_start`: the string with its leading whitespace removed, where
/// whitespace is the Unicode `White_Space` property (as the std
/// documentation defines it).
#[verifier::external_body]
pub(crate) fn trim_start_ws(s: &str) -> (r: &str)
    ensures
        r@ == trim_ws(s@),
{
    s.trim_start()
}

/// ASCII lower-casing of one octet (other octets are unchanged).
pub open spec fn ascii_lower(b: u8) -> u8 {
    if 65 <= b <= 90 {
        (b + 32) as u8
    } else {
        b
    }
}

/// Equality of two octet strings ignoring ASCII case.
pub open spec fn eq_ic(a: Seq<u8>, b: Seq<u8>) -> bool {
    &&& a.len() == b.len()
    &&& forall|i: int| 0 <= i < a.len() ==> #[trigger] ascii_lower(a[i]) == ascii_lower(b[i])
}

/// ASCII lower-casing of an octet string.
pub open spec fn lower(a: Seq<u8>) -> Seq<u8> {
    Seq::new(a.len(), |i: int| ascii_lower(a[i]))
}

pub proof fn lemma_eq_ic_lower(a: Seq<u8>, b: Seq<u8>)
    ensures
        eq_ic(a, b) <==> lower(a) == lower(b),
{
    if lower(a) == lower(b) {
        assert(a.len() == lower(a).len() && b.len() == lower(b).len());
        assert forall|i: int| 0 <= i < a.len() implies #[trigger] ascii_lower(a[i]) == ascii_lower(b[i]) by {
            assert(lower(a)[i] == lower(b)[i]);
        }
    }
    if eq_ic(a, b) {
        assert(lower(a) =~= lower(b));
    }
}

fn ascii_lower_byte(b: u8) -> (r: u8)
    ensures
        r == ascii_lower(b),
{
    if 65 <= b && b <= 90 {
        b + 32
    } else {
        b
    }
}

/// ASCII case-insensitive equality of two octet strings.
pub fn bytes_eq_ignore_ascii_case(a: &[u8], b: &[u8]) -> (r: bool)
    ensures
        r == eq_ic(a@, b@),
{
    if a.len() != b.len() {
        return false;
    }
    let mut i: usize = 0;
    while i < a.len()
        invariant
            a@.len() == b@.len(),
            i <= a@.len(),
            forall|j: int| 0 <= j < i ==> #[trigger] ascii_lower(a@[j]) == ascii_lower(b@[j]),
        decreases a.len() - i,
    {
        if ascii_lower_byte(a[i]) != ascii_lower_byte(b[i]) {
            return false;
        }
        i = i + 1;
    }
    true
}

/// ASCII case-insensitive equality of two strings (as `str::eq_ignore_ascii_case`).
pub fn str_eq_ignore_ascii_case(a: &str, b: &str) -> (r: bool)
    ensures
        r == eq_ic(utf8(a@), utf8(b@)),
{
    bytes_eq_ignore_ascii_case(a.as_bytes(), b.as_bytes())
}

/// ASCII lower-casing of an octet string.
pub fn lower_bytes(a: &[u8]) -> (r: Vec<u8>)
    ensures
        r@ == lower(a@),
{
    let mut out: Vec<u8> = Vec::new();
    let mut i: usize = 0;
    while i < a.len()
        invariant
            i <= a@.len(),
            out@ =~= lower(a@).subrange(0, i as int),
        decreases a.len() - i,
    {
        out.push(ascii_lower_byte(a[i]));
        i = i + 1;
    }
    assert(out@ =~= lower(a@));
    out
}

/// Equality of two octet strings.
pub fn bytes_eq(a: &[u8], b: &[u8]) -> (r: bool)
    ensures
        r == (a@ == b@),
{
    if a.len() != b.len() {
        return false;
    }
    let mut i: usize = 0;
    while i < a.len()
        invariant
            a@.len() == b@.len(),
            i <= a@.len(),
            forall|j: int| 0 <= j < i ==> a@[j] == b@[j],
        decreases a.len() - i,
    {
        if a[i] != b[i] {
            return false;
        }
        i = i + 1;
    }
    assert(a@ =~= b@);
    true
}

/// An owned copy of an octet string.
pub fn copy_bytes(a: &[u8]) -> (r: Vec<u8>)
    ensures
        r@ == a@,
{
    vstd::slice::slice_to_vec(a)
}

/// Strings are determined by their UTF-8 octets.
pub proof fn lemma_utf8_injective(a: Seq<char>, b: Seq<char>)
    requires
        utf8(a) == utf8(b),
    ensures
        a == b,
{
    vstd::utf8::encode_utf8_decode_utf8(a);
    vstd::utf8::encode_utf8_decode_utf8(b);
}


/// Lexicographic order on octet strings: `a` sorts strictly before `b`.
pub open spec fn lex_lt(a: Seq<u8>, b: Seq<u8>) -> bool
    decreases a.len(),
{
    if a.len() == 0 {
        b.len() > 0
    } else if b.len() == 0 {
        false
    } else if a[0] != b[0] {
        a[0] < b[0]
    } else {
        lex_lt(a.drop_first(), b.drop_first())
    }
}

/// No octet string sorts before itself.
pub proof fn lemma_lex_irreflexive(a: Seq<u8>)
    ensures
        !lex_lt(a, a),
    decreases a.len(),
{
    if a.len() > 0 {
        lemma_lex_irreflexive(a.drop_first());
    }
}

/// The order on octet strings is transitive.
pub proof fn lemma_lex_transitive(a: Seq<u8>, b: Seq<u8>, c: Seq<u8>)
    requires
        lex_lt(a, b),
        lex_lt(b, c),
    ensures
        lex_lt(a, c),
    decreases a.len(),
{
    if a.len() > 0 && b.len() > 0 && c.len() > 0 && a[0] == b[0] && b[0] == c[0] {
        lemma_lex_transitive(a.drop_first(), b.drop_first(), c.drop_first());
    }
}

/// Any two distinct octet strings are ordered one way or the other.
pub proof fn lemma_lex_total(a: Seq<u8>, b: Seq<u8>)
    ensures
        a == b || lex_lt(a, b) || lex_lt(b, a),
    decreases a.len(),
{
    if a.len() > 0 && b.len() > 0 && a[0] == b[0] {
        lemma_lex_total(a.drop_first(), b.drop_first());
        if a.drop_first() == b.drop_first() {
            assert(a =~= seq![a[0]] + a.drop_first());
            assert(b =~= seq![b[0]] + b.drop_first());
        }
    } else if a.len() == 0 && b.len() == 0 {
        assert(a =~= b);
    }
}

/// The order on octet strings is asymmetric.
pub proof fn lemma_lex_asymmetric(a: Seq<u8>, b: Seq<u8>)
    requires
        lex_lt(a, b),
    ensures
        !lex_lt(b, a),
    decreases a.len(),
{
    if a.len() > 0 && b.len() > 0 && a[0] == b[0] {
        lemma_lex_asymmetric(a.drop_first(), b.drop_first());
    }
}

} // verus!
