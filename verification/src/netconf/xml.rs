//! A small XML DOM for NETCONF messages: elements with attributes, text
//! content and nested elements, a parser for that subset and a serializer.
//!
//! The parser's behaviour is stated as a grammar over the document's octets
//! (`spec_element`, `spec_content`, ...): each exec function returns what the
//! grammar gives at its position.

pub mod round_trip;

use vstd::prelude::*;
use vstd::utf8::{valid_utf8, decode_utf8};
use vstd::string::{StringExecFns, StringSliceAdditionalSpecFns};
use vstd::utf8::is_scalar;
use crate::text::{str_from_utf8, bytes_eq, trim_both_ws, trim_end_ws, trim_ws, chars_of, string_of_chars, char_from_u32};
use crate::netconf::error::NetconfError;

verus! {

// ---------------------------------------------------------------------------
// The tree and its model
// ---------------------------------------------------------------------------

/// A single XML element (or, when it has no element children, a leaf carrying
/// `text`).
#[derive(Debug, PartialEq, Eq, Default)]
pub struct Xml {
    /// Qualified element name (e.g. `rpc` or `nc:rpc`).
    pub name: String,
    /// Attribute `(name, value)` pairs.
    pub attributes: Vec<(String, String)>,
    /// Child elements.
    pub children: Vec<Xml>,
    /// Text content (for leaf elements).
    pub text: String,
}

/// The mathematical value of an element.
pub struct XmlModel {
    pub name: Seq<char>,
    pub attributes: Seq<(Seq<char>, Seq<char>)>,
    pub children: Seq<XmlModel>,
    pub text: Seq<char>,
}

/// The attribute pairs of `x` as character sequences.
pub open spec fn attrs_view(a: Seq<(String, String)>) -> Seq<(Seq<char>, Seq<char>)> {
    Seq::new(a.len(), |i: int| (a[i].0@, a[i].1@))
}

/// The model of an element tree.
pub open spec fn xml_view(x: Xml) -> XmlModel
    decreases x,
{
    XmlModel {
        name: x.name@,
        attributes: attrs_view(x.attributes@),
        children: Seq::new(
            x.children@.len(),
            |i: int|
                {
                    if 0 <= i < x.children@.len() {
                        proof {
                            assert(decreases_to!(x => x.children));
                            vstd::std_specs::vec::axiom_vec_decreases_to_view(x.children);
                        }
                        xml_view(x.children@[i])
                    } else {
                        XmlModel {
                            name: Seq::empty(),
                            attributes: Seq::empty(),
                            children: Seq::empty(),
                            text: Seq::empty(),
                        }
                    }
                },
        ),
        text: x.text@,
    }
}

/// The models of a list of elements.
pub open spec fn xml_views(s: Seq<Xml>) -> Seq<XmlModel> {
    Seq::new(s.len(), |i: int| xml_view(s[i]))
}

/// An element with a name and nothing else.
pub open spec fn bare(name: Seq<char>) -> XmlModel {
    XmlModel { name, attributes: Seq::empty(), children: Seq::empty(), text: Seq::empty() }
}

// ---------------------------------------------------------------------------
// Faults
// ---------------------------------------------------------------------------

/// Errors produced while parsing XML.
#[derive(Debug, PartialEq, Eq)]
pub enum XmlError {
    /// The input ended unexpectedly while parsing.
    UnexpectedEof,
    /// A malformed token was encountered.
    Malformed(String),
}

/// What the grammar says of a document that it does not accept: an early
/// end, a malformed token (with its description), or markup the reader
/// cannot step over (a `<!` in content that opens neither a comment nor a
/// CDATA section, or a CDATA section whose opening runs past the input).
pub enum XmlFault {
    Eof,
    Malformed(Seq<char>),
    Undefined,
}

/// `e` reports the fault `f`.
pub open spec fn error_is(e: XmlError, f: XmlFault) -> bool {
    match f {
        XmlFault::Eof => e is UnexpectedEof,
        XmlFault::Malformed(m) => e matches XmlError::Malformed(s) && s@ == m,
        XmlFault::Undefined => e matches XmlError::Malformed(s) && s@ == undefined_text(),
    }
}

/// What is reported of a document the grammar leaves undefined: a `<!` in
/// content that opens neither a comment nor a CDATA section, or a CDATA
/// section whose opening runs past the input.
pub open spec fn undefined_text() -> Seq<char> {
    "unsupported or unterminated markup"@
}

/// The human-readable text of a fault.
pub open spec fn fault_text(f: XmlFault) -> Seq<char> {
    match f {
        XmlFault::Eof => "unexpected end of input"@,
        XmlFault::Malformed(m) => "malformed xml: "@ + m,
        XmlFault::Undefined => "malformed xml: "@ + undefined_text(),
    }
}

impl XmlError {
    /// The human-readable text of the error.
    pub fn message(&self) -> (r: String)
        ensures
            forall|f: XmlFault| error_is(*self, f) ==> r@ == fault_text(f),
    {
        match self {
            XmlError::UnexpectedEof => String::from_str("unexpected end of input"),
            XmlError::Malformed(m) => {
                let mut s = String::from_str("malformed xml: ");
                s.append(m.as_str());
                s
            },
        }
    }
}

// ---------------------------------------------------------------------------
// Scanning
// ---------------------------------------------------------------------------

/// The octet at `p`, if there is one.
pub open spec fn at(b: Seq<u8>, p: int) -> Option<u8> {
    if 0 <= p < b.len() {
        Some(b[p])
    } else {
        None
    }
}

/// Space, tab, carriage return, line feed.
pub open spec fn is_ws_byte(c: u8) -> bool {
    c == 0x20 || c == 0x09 || c == 0x0D || c == 0x0A
}

/// ASCII letters and digits, `_`, `-`, `:` and `.`.
pub open spec fn is_name_byte(c: u8) -> bool {
    ||| 0x30 <= c <= 0x39
    ||| 0x41 <= c <= 0x5A
    ||| 0x61 <= c <= 0x7A
    ||| c == 0x5F
    ||| c == 0x2D
    ||| c == 0x3A
    ||| c == 0x2E
}

/// The first position at or after `p` that does not hold whitespace.
pub open spec fn skip_ws(b: Seq<u8>, p: int) -> int
    decreases b.len() - p,
{
    if 0 <= p < b.len() && is_ws_byte(b[p]) {
        skip_ws(b, p + 1)
    } else {
        p
    }
}

/// The first position at or after `p` that does not hold a name octet.
pub open spec fn name_end(b: Seq<u8>, p: int) -> int
    decreases b.len() - p,
{
    if 0 <= p < b.len() && is_name_byte(b[p]) {
        name_end(b, p + 1)
    } else {
        p
    }
}

/// The first position at or after `p` where `needle` starts, or the end of
/// the input when there is none.
pub open spec fn skip_until(b: Seq<u8>, p: int, needle: Seq<u8>) -> int
    decreases b.len() + 1 - p,
{
    if 0 <= p && p + needle.len() <= b.len() {
        if b.subrange(p, p + needle.len()) == needle {
            p
        } else {
            skip_until(b, p + 1, needle)
        }
    } else {
        b.len() as int
    }
}

/// The first position at or after `p` that holds `<`, or `p` at the end.
pub open spec fn text_end(b: Seq<u8>, p: int) -> int
    decreases b.len() - p,
{
    if 0 <= p < b.len() && b[p] != 0x3C {
        text_end(b, p + 1)
    } else {
        p
    }
}

/// The first position at or after `p` that holds `q`, or the end.
pub open spec fn quote_end(b: Seq<u8>, p: int, q: u8) -> int
    decreases b.len() - p,
{
    if 0 <= p < b.len() && b[p] != q {
        quote_end(b, p + 1, q)
    } else {
        p
    }
}

pub open spec fn pi_close() -> Seq<u8> {
    seq![0x3Fu8, 0x3E]
}

pub open spec fn comment_close() -> Seq<u8> {
    seq![0x2Du8, 0x2D, 0x3E]
}

pub open spec fn cdata_open() -> Seq<u8> {
    seq![0x43u8, 0x44, 0x41, 0x54, 0x41, 0x5B]
}

pub open spec fn cdata_close() -> Seq<u8> {
    seq![0x5Du8, 0x5D, 0x3E]
}

/// Whitespace, XML declarations / processing instructions and comments
/// skipped from `p` on.
pub open spec fn skip_markup(b: Seq<u8>, p: int) -> int
    decreases b.len() + 4 - p,
{
    let q = skip_ws(b, p);
    if at(b, q) == Some(0x3Cu8) && at(b, q + 1) == Some(0x3Fu8) {
        let r = skip_until(b, q, pi_close()) + 2;
        if p < r <= b.len() + 3 {
            skip_markup(b, r)
        } else {
            q
        }
    } else if at(b, q) == Some(0x3Cu8) && at(b, q + 1) == Some(0x21u8) && at(b, q + 2) == Some(0x2Du8)
        && at(b, q + 3) == Some(0x2Du8) {
        let r = skip_until(b, q, comment_close()) + 3;
        if p < r <= b.len() + 3 {
            skip_markup(b, r)
        } else {
            q
        }
    } else {
        q
    }
}

proof fn lemma_skip_ws(b: Seq<u8>, p: int)
    requires
        0 <= p,
    ensures
        p <= skip_ws(b, p),
        p <= b.len() ==> skip_ws(b, p) <= b.len(),
        forall|i: int| p <= i < skip_ws(b, p) ==> is_ws_byte(#[trigger] b[i]),
        skip_ws(b, p) < b.len() ==> !is_ws_byte(b[skip_ws(b, p)]),
    decreases b.len() - p,
{
    if 0 <= p < b.len() && is_ws_byte(b[p]) {
        lemma_skip_ws(b, p + 1);
    }
}

proof fn lemma_skip_until(b: Seq<u8>, p: int, needle: Seq<u8>)
    requires
        0 <= p,
    ensures
        p <= b.len() ==> p <= skip_until(b, p, needle),
        skip_until(b, p, needle) <= b.len(),
    decreases b.len() + 1 - p,
{
    if 0 <= p && p + needle.len() <= b.len() {
        if b.subrange(p, p + needle.len()) != needle {
            lemma_skip_until(b, p + 1, needle);
        }
    }
}

proof fn lemma_skip_markup(b: Seq<u8>, p: int)
    requires
        0 <= p,
    ensures
        p <= skip_markup(b, p),
        p <= b.len() + 3 ==> skip_markup(b, p) <= b.len() + 3,
    decreases b.len() + 4 - p,
{
    lemma_skip_ws(b, p);
    let q = skip_ws(b, p);
    if at(b, q) == Some(0x3Cu8) && at(b, q + 1) == Some(0x3Fu8) {
        lemma_skip_until(b, q, pi_close());
        let r = skip_until(b, q, pi_close()) + 2;
        if p < r <= b.len() + 3 {
            lemma_skip_markup(b, r);
        }
    } else if at(b, q) == Some(0x3Cu8) && at(b, q + 1) == Some(0x21u8) && at(b, q + 2) == Some(0x2Du8)
        && at(b, q + 3) == Some(0x2Du8) {
        lemma_skip_until(b, q, comment_close());
        let r = skip_until(b, q, comment_close()) + 3;
        if p < r <= b.len() + 3 {
            lemma_skip_markup(b, r);
        }
    }
}

fn byte_at(b: &[u8], p: usize) -> (r: Option<u8>)
    ensures
        r == at(b@, p as int),
{
    if p < b.len() {
        Some(b[p])
    } else {
        None
    }
}

fn skip_ws_exec(b: &[u8], p: usize) -> (r: usize)
    requires
        b.len() + 32 < usize::MAX,
    ensures
        r == skip_ws(b@, p as int),
{
    let mut q = p;
    while q < b.len() && (b[q] == 0x20 || b[q] == 0x09 || b[q] == 0x0D || b[q] == 0x0A)
        invariant
            p <= q,
            skip_ws(b@, p as int) == skip_ws(b@, q as int),
        decreases b.len() - q,
    {
        q = q + 1;
    }
    q
}

fn skip_until_exec(b: &[u8], p: usize, needle: &[u8]) -> (r: usize)
    requires
        b.len() + 32 < usize::MAX,
        p <= b.len() + 8,
        needle.len() <= 8,
    ensures
        r == skip_until(b@, p as int, needle@),
{
    let mut q = p;
    while q + needle.len() <= b.len()
        invariant
            b.len() + 32 < usize::MAX,
            needle.len() <= 8,
            q <= b.len() + 8,
            skip_until(b@, p as int, needle@) == skip_until(b@, q as int, needle@),
        decreases b.len() + 1 - q,
    {
        if bytes_eq(vstd::slice::slice_subrange(b, q, q + needle.len()), needle) {
            return q;
        }
        q = q + 1;
    }
    b.len()
}

fn name_end_exec(b: &[u8], p: usize) -> (r: usize)
    ensures
        r == name_end(b@, p as int),
{
    let mut q = p;
    while q < b.len() && is_name_byte_exec(b[q])
        invariant
            p <= q,
            name_end(b@, p as int) == name_end(b@, q as int),
        decreases b.len() - q,
    {
        q = q + 1;
    }
    q
}

fn is_name_byte_exec(c: u8) -> (r: bool)
    ensures
        r == is_name_byte(c),
{
    (0x30 <= c && c <= 0x39) || (0x41 <= c && c <= 0x5A) || (0x61 <= c && c <= 0x7A) || c == 0x5F
        || c == 0x2D || c == 0x3A || c == 0x2E
}

fn skip_markup_exec(b: &[u8], p: usize) -> (r: usize)
    requires
        b.len() + 32 < usize::MAX,
        p <= b.len() + 3,
    ensures
        r == skip_markup(b@, p as int),
{
    let mut q = p;
    loop
        invariant
            b.len() + 32 < usize::MAX,
            p <= q <= b.len() + 3,
            skip_markup(b@, p as int) == skip_markup(b@, q as int),
        decreases b.len() + 4 - q,
    {
        let w = skip_ws_exec(b, q);
        proof {
            lemma_skip_ws(b@, q as int);
        }
        if byte_at(b, w) == Some(0x3Cu8) && byte_at(b, w + 1) == Some(0x3Fu8) {
            let u = skip_until_exec(b, w, &[0x3Fu8, 0x3E]);
            proof {
                assert(seq![0x3Fu8, 0x3E] =~= pi_close());
                lemma_skip_until(b@, w as int, pi_close());
            }
            q = u + 2;
        } else if byte_at(b, w) == Some(0x3Cu8) && byte_at(b, w + 1) == Some(0x21u8) && byte_at(b, w + 2)
            == Some(0x2Du8) && byte_at(b, w + 3) == Some(0x2Du8) {
            let u = skip_until_exec(b, w, &[0x2Du8, 0x2D, 0x3E]);
            proof {
                assert(seq![0x2Du8, 0x2D, 0x3E] =~= comment_close());
                lemma_skip_until(b@, w as int, comment_close());
            }
            q = u + 3;
        } else {
            return w;
        }
    }
}

// ---------------------------------------------------------------------------
// Character references
// ---------------------------------------------------------------------------

/// The decimal value of a digit string.
pub open spec fn digits_value(t: Seq<char>) -> int
    decreases t.len(),
{
    if t.len() == 0 {
        0
    } else {
        digits_value(t.drop_last()) * 10 + (t.last() as int - 48)
    }
}

/// Every character of `t` is an ASCII digit.
pub open spec fn all_digits(t: Seq<char>) -> bool {
    forall|i: int| 0 <= i < t.len() ==> '0' <= #[trigger] t[i] <= '9'
}

/// `u32::from_str` (decimal): an optional `+`, then one or more digits whose
/// value fits in 32 bits.
pub open spec fn parse_dec_u32(t: Seq<char>) -> Option<u32> {
    let d = if t.len() > 0 && t[0] == '+' { t.drop_first() } else { t };
    if d.len() > 0 && all_digits(d) && digits_value(d) <= u32::MAX {
        Some(digits_value(d) as u32)
    } else {
        None
    }
}

/// The value of a hexadecimal digit (`0-9`, `a-f`, `A-F`).
pub open spec fn hex_char_value(c: char) -> int {
    if '0' <= c <= '9' {
        c as int - 48
    } else if 'a' <= c <= 'f' {
        c as int - 87
    } else {
        c as int - 55
    }
}

/// `c` is a hexadecimal digit.
pub open spec fn is_hex_char(c: char) -> bool {
    ('0' <= c <= '9') || ('a' <= c <= 'f') || ('A' <= c <= 'F')
}

/// The value of a hexadecimal digit string.
pub open spec fn hex_digits_value(t: Seq<char>) -> int
    decreases t.len(),
{
    if t.len() == 0 {
        0
    } else {
        hex_digits_value(t.drop_last()) * 16 + hex_char_value(t.last())
    }
}

/// Every character of `t` is a hexadecimal digit.
pub open spec fn all_hex_digits(t: Seq<char>) -> bool {
    forall|i: int| 0 <= i < t.len() ==> is_hex_char(#[trigger] t[i])
}

/// `u32::from_str_radix(t, 16)`: an optional `+`, then one or more
/// hexadecimal digits whose value fits in 32 bits.
pub open spec fn parse_hex_u32(t: Seq<char>) -> Option<u32> {
    let d = if t.len() > 0 && t[0] == '+' { t.drop_first() } else { t };
    if d.len() > 0 && all_hex_digits(d) && hex_digits_value(d) <= u32::MAX {
        Some(hex_digits_value(d) as u32)
    } else {
        None
    }
}

/// The code point a character reference `#...` names: hexadecimal after
/// `#x`, else decimal.
#[verifier::opaque]
pub open spec fn char_ref_value(ent: Seq<char>) -> Option<u32> {
    if ent.len() > 1 && ent[1] == 'x' {
        parse_hex_u32(ent.subrange(2, ent.len() as int))
    } else {
        parse_dec_u32(ent.drop_first())
    }
}

/// What the entity `&ent;` stands for: the five predefined entities, a
/// character reference (`&#65;`, `&#x41;`; nothing when it names no
/// character), and `&` alone for anything else.
pub open spec fn entity_value(ent: Seq<char>) -> Seq<char> {
    if ent == seq!['a', 'm', 'p'] {
        seq!['&']
    } else if ent == seq!['l', 't'] {
        seq!['<']
    } else if ent == seq!['g', 't'] {
        seq!['>']
    } else if ent == seq!['q', 'u', 'o', 't'] {
        seq!['"']
    } else if ent == seq!['a', 'p', 'o', 's'] {
        seq!['\'']
    } else if ent.len() > 0 && ent[0] == '#' {
        match char_ref_value(ent) {
            Some(v) => if is_scalar(v) { seq![v as char] } else { Seq::empty() },
            None => Seq::empty(),
        }
    } else {
        seq!['&']
    }
}

/// The first position at or after `i` that holds `;`, or the end.
pub open spec fn semi_end(s: Seq<char>, i: int) -> int
    decreases s.len() - i,
{
    if 0 <= i < s.len() && s[i] != ';' {
        semi_end(s, i + 1)
    } else {
        i
    }
}

/// The characters from `i` on with their entities replaced.
pub open spec fn entities_from(s: Seq<char>, i: int) -> Seq<char>
    decreases s.len() - i,
{
    if i < 0 || i >= s.len() {
        Seq::empty()
    } else if s[i] == '&' {
        let k = semi_end(s, i + 1);
        let rest = if i + 1 <= k < s.len() { entities_from(s, k + 1) } else { Seq::empty() };
        entity_value(s.subrange(i + 1, k)) + rest
    } else {
        seq![s[i]] + entities_from(s, i + 1)
    }
}

/// The text that some content octets stand for: their characters with the
/// entities replaced, and nothing when they are not valid UTF-8.
pub open spec fn decode_text(b: Seq<u8>) -> Seq<char> {
    if valid_utf8(b) {
        entities_from(decode_utf8(b), 0)
    } else {
        Seq::empty()
    }
}

proof fn lemma_semi_end(s: Seq<char>, i: int)
    requires
        0 <= i <= s.len(),
    ensures
        i <= semi_end(s, i) <= s.len(),
        forall|j: int| i <= j < semi_end(s, i) ==> #[trigger] s[j] != ';',
        semi_end(s, i) < s.len() ==> s[semi_end(s, i)] == ';',
    decreases s.len() - i,
{
    if i < s.len() && s[i] != ';' {
        lemma_semi_end(s, i + 1);
    }
}

proof fn lemma_digits_value_bound(t: Seq<char>, i: int)
    requires
        all_digits(t),
        0 <= i <= t.len(),
    ensures
        0 <= digits_value(t.subrange(0, i)) <= digits_value(t),
    decreases t.len(),
{
    if t.len() > 0 {
        assert(t.drop_last().len() < t.len());
        assert('0' <= t[t.len() - 1] <= '9');
        if i == t.len() {
            assert(t.subrange(0, i) =~= t);
            lemma_digits_value_bound(t.drop_last(), t.drop_last().len() as int);
            assert(t.drop_last().subrange(0, t.len() - 1) =~= t.drop_last());
        } else {
            lemma_digits_value_bound(t.drop_last(), i);
            assert(t.drop_last().subrange(0, i) =~= t.subrange(0, i));
            lemma_digits_value_bound(t.drop_last(), t.drop_last().len() as int);
            assert(t.drop_last().subrange(0, t.len() - 1) =~= t.drop_last());
        }
    } else {
        assert(t.subrange(0, i) =~= t);
    }
}

pub(crate) fn parse_dec_u32_exec(t: &[char]) -> (r: Option<u32>)
    ensures
        r == parse_dec_u32(t@),
{
    let start: usize = if t.len() > 0 && t[0] == '+' { 1 } else { 0 };
    let ghost d = if t@.len() > 0 && t@[0] == '+' { t@.drop_first() } else { t@ };
    assert(d =~= t@.subrange(start as int, t@.len() as int));
    assert(parse_dec_u32(t@) == (if d.len() > 0 && all_digits(d) && digits_value(d) <= u32::MAX {
        Some(digits_value(d) as u32)
    } else {
        None::<u32>
    }));
    if start >= t.len() {
        return None;
    }
    let mut acc: u64 = 0;
    let mut i: usize = start;
    while i < t.len()
        invariant
            start <= i <= t@.len(),
            d =~= t@.subrange(start as int, t@.len() as int),
            d.len() > 0,
            parse_dec_u32(t@) == (if all_digits(d) && digits_value(d) <= u32::MAX {
                Some(digits_value(d) as u32)
            } else {
                None::<u32>
            }),
            acc == digits_value(d.subrange(0, i - start)),
            acc <= u32::MAX,
            forall|j: int| 0 <= j < i - start ==> '0' <= #[trigger] d[j] <= '9',
        decreases t.len() - i,
    {
        let c = t[i];
        if !('0' <= c && c <= '9') {
            assert(d[i - start] == c);
            assert(!all_digits(d));
            return None;
        }
        proof {
            let pre = d.subrange(0, i - start + 1);
            assert(pre.drop_last() =~= d.subrange(0, i - start));
            assert(pre.last() == c);
        }
        let v: u64 = acc * 10 + ((c as u32) - 48) as u64;
        assert(v == digits_value(d.subrange(0, i - start + 1)));
        if v > 0xFFFF_FFFF {
            proof {
                if all_digits(d) {
                    lemma_digits_value_bound(d, i - start + 1);
                }
            }
            assert(parse_dec_u32(t@) is None);
            return None;
        }
        acc = v;
        i = i + 1;
    }
    assert(d.subrange(0, i - start) =~= d);
    Some(acc as u32)
}

proof fn lemma_hex_value_bound(t: Seq<char>, i: int)
    requires
        all_hex_digits(t),
        0 <= i <= t.len(),
    ensures
        0 <= hex_digits_value(t.subrange(0, i)) <= hex_digits_value(t),
    decreases t.len(),
{
    if t.len() > 0 {
        assert(is_hex_char(t[t.len() - 1]));
        assert forall|j: int| 0 <= j < t.drop_last().len() implies is_hex_char(#[trigger] t.drop_last()[j]) by {
            assert(is_hex_char(t[j]));
        }
        if i == t.len() {
            assert(t.subrange(0, i) =~= t);
            lemma_hex_value_bound(t.drop_last(), t.drop_last().len() as int);
            assert(t.drop_last().subrange(0, t.len() - 1) =~= t.drop_last());
        } else {
            lemma_hex_value_bound(t.drop_last(), i);
            assert(t.drop_last().subrange(0, i) =~= t.subrange(0, i));
            lemma_hex_value_bound(t.drop_last(), t.drop_last().len() as int);
            assert(t.drop_last().subrange(0, t.len() - 1) =~= t.drop_last());
        }
    } else {
        assert(t.subrange(0, i) =~= t);
    }
}

pub(crate) fn parse_hex_u32_exec(t: &[char]) -> (r: Option<u32>)
    ensures
        r == parse_hex_u32(t@),
{
    let start: usize = if t.len() > 0 && t[0] == '+' { 1 } else { 0 };
    let ghost d = if t@.len() > 0 && t@[0] == '+' { t@.drop_first() } else { t@ };
    assert(d =~= t@.subrange(start as int, t@.len() as int));
    if start >= t.len() {
        return None;
    }
    let mut acc: u64 = 0;
    let mut i: usize = start;
    while i < t.len()
        invariant
            start <= i <= t@.len(),
            d =~= t@.subrange(start as int, t@.len() as int),
            d.len() > 0,
            parse_hex_u32(t@) == (if all_hex_digits(d) && hex_digits_value(d) <= u32::MAX {
                Some(hex_digits_value(d) as u32)
            } else {
                None::<u32>
            }),
            acc == hex_digits_value(d.subrange(0, i - start)),
            acc <= u32::MAX,
            forall|j: int| 0 <= j < i - start ==> is_hex_char(#[trigger] d[j]),
        decreases t.len() - i,
    {
        let c = t[i];
        let dv: u64 = if '0' <= c && c <= '9' {
            (c as u32 - 48) as u64
        } else if 'a' <= c && c <= 'f' {
            (c as u32 - 87) as u64
        } else if 'A' <= c && c <= 'F' {
            (c as u32 - 55) as u64
        } else {
            assert(d[i - start] == c);
            assert(!all_hex_digits(d));
            return None;
        };
        proof {
            let pre = d.subrange(0, i - start + 1);
            assert(pre.drop_last() =~= d.subrange(0, i - start));
            assert(pre.last() == c);
        }
        let v: u64 = acc * 16 + dv;
        assert(v == hex_digits_value(d.subrange(0, i - start + 1)));
        if v > 0xFFFF_FFFF {
            proof {
                if all_hex_digits(d) {
                    lemma_hex_value_bound(d, i - start + 1);
                }
            }
            assert(parse_hex_u32(t@) is None);
            return None;
        }
        acc = v;
        i = i + 1;
    }
    assert(d.subrange(0, i - start) =~= d);
    Some(acc as u32)
}

fn is_word(t: &[char], w: &[char]) -> (r: bool)
    ensures
        r == (t@ == w@),
{
    if t.len() != w.len() {
        return false;
    }
    let mut i: usize = 0;
    while i < t.len()
        invariant
            t@.len() == w@.len(),
            i <= t@.len(),
            forall|j: int| 0 <= j < i ==> t@[j] == w@[j],
        decreases t.len() - i,
    {
        if t[i] != w[i] {
            return false;
        }
        i = i + 1;
    }
    assert(t@ =~= w@);
    true
}

fn entity_value_exec(ent: &[char], out: &mut Vec<char>)
    ensures
        final(out)@ == old(out)@ + entity_value(ent@),
{
    let amp = ['a', 'm', 'p'];
    let lt = ['l', 't'];
    let gt = ['g', 't'];
    let quot = ['q', 'u', 'o', 't'];
    let apos = ['a', 'p', 'o', 's'];
    assert(amp@ =~= seq!['a', 'm', 'p']);
    assert(lt@ =~= seq!['l', 't']);
    assert(gt@ =~= seq!['g', 't']);
    assert(quot@ =~= seq!['q', 'u', 'o', 't']);
    assert(apos@ =~= seq!['a', 'p', 'o', 's']);
    if is_word(ent, amp.as_slice()) {
        out.push('&');
    } else if is_word(ent, lt.as_slice()) {
        out.push('<');
    } else if is_word(ent, gt.as_slice()) {
        out.push('>');
    } else if is_word(ent, quot.as_slice()) {
        out.push('"');
    } else if is_word(ent, apos.as_slice()) {
        out.push('\'');
    } else if ent.len() > 0 && ent[0] == '#' {
        let code = if ent.len() > 1 && ent[1] == 'x' {
            let digits = vstd::slice::slice_subrange(ent, 2, ent.len());
            parse_hex_u32_exec(digits)
        } else {
            let digits = vstd::slice::slice_subrange(ent, 1, ent.len());
            assert(digits@ =~= ent@.drop_first());
            parse_dec_u32_exec(digits)
        };
        assert(code == char_ref_value(ent@)) by {
            reveal(char_ref_value);
        }
        match code {
            Some(v) => match char_from_u32(v) {
                Some(c) => {
                    proof {
                        vstd::utf8::char_u32_cast(c, v);
                    }
                    out.push(c);
                },
                None => {},
            },
            None => {},
        }
    } else {
        out.push('&');
    }
    assert(final(out)@ =~= old(out)@ + entity_value(ent@));
}

fn decode_entities_chars(s: &[char]) -> (r: Vec<char>)
    ensures
        r@ == entities_from(s@, 0),
{
    let mut out: Vec<char> = Vec::new();
    let mut i: usize = 0;
    while i < s.len()
        invariant
            i <= s@.len(),
            entities_from(s@, 0) == out@ + entities_from(s@, i as int),
        decreases s.len() - i,
    {
        if s[i] == '&' {
            let mut k: usize = i + 1;
            while k < s.len() && s[k] != ';'
                invariant
                    i + 1 <= k <= s@.len(),
                    semi_end(s@, (i + 1) as int) == semi_end(s@, k as int),
                decreases s.len() - k,
            {
                k = k + 1;
            }
            let ghost before = out@;
            entity_value_exec(vstd::slice::slice_subrange(s, i + 1, k), &mut out);
            proof {
                assert(out@ == before + entity_value(s@.subrange(i + 1, k as int)));
            }
            if k < s.len() {
                i = k + 1;
            } else {
                assert(entities_from(s@, i as int) == entity_value(s@.subrange(i + 1, k as int)));
                i = s.len();
                assert(entities_from(s@, i as int) =~= Seq::<char>::empty());
            }
        } else {
            out.push(s[i]);
            i = i + 1;
        }
    }
    assert(entities_from(s@, i as int) =~= Seq::<char>::empty());
    assert(out@ =~= entities_from(s@, 0));
    out
}

fn decode_text_exec(b: &[u8]) -> (r: String)
    ensures
        r@ == decode_text(b@),
{
    match str_from_utf8(b) {
        None => String::new(),
        Some(s) => {
            let cs = chars_of(s);
            let out = decode_entities_chars(cs.as_slice());
            string_of_chars(out.as_slice())
        },
    }
}

// ---------------------------------------------------------------------------
// The grammar
// ---------------------------------------------------------------------------

/// A name read at `p` (after whitespace): the octet range it spans.
pub open spec fn read_name(b: Seq<u8>, p: int) -> Result<(int, int), XmlFault> {
    let q = skip_ws(b, p);
    let e = name_end(b, q);
    if e == q {
        Err(XmlFault::Malformed("empty element name"@))
    } else if !valid_utf8(b.subrange(q, e)) {
        Err(XmlFault::Malformed("non-utf8 name"@))
    } else {
        Ok((q, e))
    }
}

/// The attributes read from `p` on, up to the `>` or `/` that ends them,
/// and the position of that octet.
pub open spec fn spec_attributes(b: Seq<u8>, p: int) -> Result<(Seq<(Seq<char>, Seq<char>)>, int), XmlFault>
    decreases b.len() + 1 - p,
{
    let q = skip_ws(b, p);
    match at(b, q) {
        None => Err(XmlFault::Eof),
        Some(c) => if c == 0x3Eu8 || c == 0x2Fu8 {
            Ok((Seq::empty(), q))
        } else {
            match read_name(b, q) {
                Err(f) => Err(f),
                Ok((ns, ne)) => {
                    let r = skip_ws(b, ne);
                    if at(b, r) != Some(0x3Du8) {
                        Err(XmlFault::Malformed("expected `=` in attribute"@))
                    } else {
                        let s = skip_ws(b, r + 1);
                        match at(b, s) {
                            None => Err(XmlFault::Eof),
                            Some(quote) => if quote != 0x22u8 && quote != 0x27u8 {
                                Err(XmlFault::Malformed("expected quote in attribute"@))
                            } else {
                                let v1 = quote_end(b, s + 1, quote);
                                if v1 >= b.len() {
                                    Err(XmlFault::Eof)
                                } else if p < v1 + 1 {
                                    let pair = (decode_utf8(b.subrange(ns, ne)), decode_text(b.subrange(s + 1, v1)));
                                    match spec_attributes(b, v1 + 1) {
                                        Err(f) => Err(f),
                                        Ok((rest, e)) => Ok((seq![pair] + rest, e)),
                                    }
                                } else {
                                    Err(XmlFault::Undefined)
                                }
                            },
                        }
                    }
                },
            }
        },
    }
}

/// `acc` put in front of the attributes an outcome reports.
pub open spec fn prepend_attrs(
    acc: Seq<(Seq<char>, Seq<char>)>,
    r: Result<(Seq<(Seq<char>, Seq<char>)>, int), XmlFault>,
) -> Result<(Seq<(Seq<char>, Seq<char>)>, int), XmlFault> {
    match r {
        Ok((rest, e)) => Ok((acc + rest, e)),
        Err(f) => Err(f),
    }
}

/// The text of the message reporting a closing tag `close` for `open`.
pub open spec fn mismatch_text(close: Seq<char>, open: Seq<char>) -> Seq<char> {
    "mismatched closing tag </"@ + close + "> for <"@ + open + ">"@
}

/// The element that starts at `p` (with its `<`), and the position after it.
pub open spec fn spec_element(b: Seq<u8>, p: int) -> Result<(XmlModel, int), XmlFault>
    decreases b.len() + 4 - p, 0int,
{
    if at(b, p) != Some(0x3Cu8) {
        Err(XmlFault::Malformed("expected `<`"@))
    } else if at(b, p + 1) == Some(0x21u8) && at(b, p + 2) == Some(0x5Bu8) {
        let s0 = skip_until(b, p + 3, cdata_open()) + 6;
        let e = skip_until(b, s0, cdata_close());
        if s0 > e {
            Err(XmlFault::Undefined)
        } else {
            Ok((
                XmlModel {
                    name: "#cdata"@,
                    attributes: Seq::empty(),
                    children: Seq::empty(),
                    text: decode_text(b.subrange(s0, e)),
                },
                e + 3,
            ))
        }
    } else {
        match read_name(b, p + 1) {
            Err(f) => Err(f),
            Ok((ns, ne)) => {
                let name = decode_utf8(b.subrange(ns, ne));
                match spec_attributes(b, ne) {
                    Err(f) => Err(f),
                    Ok((attrs, q)) => {
                        let r = skip_ws(b, q);
                        if at(b, r) == Some(0x2Fu8) && at(b, r + 1) == Some(0x3Eu8) {
                            Ok((XmlModel { name, attributes: attrs, children: Seq::empty(), text: Seq::empty() }, r + 2))
                        } else if at(b, r) != Some(0x3Eu8) {
                            Err(XmlFault::Malformed("expected `>` after attributes"@))
                        } else if p < r + 1 <= b.len() {
                            match spec_content(b, r + 1, name, Seq::empty(), Seq::empty()) {
                                Err(f) => Err(f),
                                Ok((kids, text, e)) => Ok((XmlModel { name, attributes: attrs, children: kids, text }, e)),
                            }
                        } else {
                            Err(XmlFault::Undefined)
                        }
                    },
                }
            },
        }
    }
}

/// The content of the element `name` from `p` on, through its closing tag,
/// having read the children `kids` and the text `acc` so far: all the
/// children, the (trimmed) text and the position after the closing tag.
/// Comments and processing instructions are skipped; a CDATA section is read
/// as a `#cdata` child.
pub open spec fn spec_content(b: Seq<u8>, p: int, name: Seq<char>, kids: Seq<XmlModel>, acc: Seq<char>) -> Result<
    (Seq<XmlModel>, Seq<char>, int),
    XmlFault,
>
    decreases b.len() + 4 - p, 1int,
{
    let i = text_end(b, p);
    let acc2 = if i > p { acc + decode_text(b.subrange(p, i)) } else { acc };
    if !(0 <= p <= i) {
        Err(XmlFault::Undefined)
    } else if at(b, i) is None {
        Err(XmlFault::Eof)
    } else if at(b, i + 1) == Some(0x2Fu8) {
        match read_name(b, i + 2) {
            Err(f) => Err(f),
            Ok((cs, ce)) => {
                let r = skip_ws(b, ce);
                let close = decode_utf8(b.subrange(cs, ce));
                if at(b, r) != Some(0x3Eu8) {
                    Err(XmlFault::Malformed("expected `>` in closing tag"@))
                } else if close != name {
                    Err(XmlFault::Malformed(mismatch_text(close, name)))
                } else {
                    Ok((kids, trim_end_ws(trim_ws(acc2)), r + 1))
                }
            },
        }
    } else if (at(b, i + 1) == Some(0x21u8) && at(b, i + 2) != Some(0x5Bu8)) || at(b, i + 1) == Some(0x3Fu8) {
        let q = skip_markup(b, i);
        if i < q <= b.len() + 3 {
            spec_content(b, q, name, kids, acc2)
        } else {
            Err(XmlFault::Undefined)
        }
    } else {
        match spec_element(b, i) {
            Err(f) => Err(f),
            Ok((c, q)) => if i < q <= b.len() + 3 {
                spec_content(b, q, name, kids.push(c), acc2)
            } else {
                Err(XmlFault::Undefined)
            },
        }
    }
}

/// The root element of a document: markup and whitespace skipped, then one
/// element (what follows it is not read).
pub open spec fn spec_root(b: Seq<u8>) -> Result<(XmlModel, int), XmlFault> {
    spec_element(b, skip_markup(b, 0))
}

/// The parser has a defined outcome on `b`: it is not left at a `<!` inside
/// content that opens neither a comment nor a CDATA section (where no reader
/// makes progress), nor at a CDATA section whose opening runs past the input.
pub open spec fn parse_defined(b: Seq<u8>) -> bool {
    !(spec_root(b) matches Err(XmlFault::Undefined))
}

// ---------------------------------------------------------------------------
// The parser
// ---------------------------------------------------------------------------

proof fn lemma_text_end(b: Seq<u8>, p: int)
    requires
        0 <= p,
    ensures
        p <= text_end(b, p),
        text_end(b, p) > p ==> text_end(b, p) <= b.len(),
    decreases b.len() - p,
{
    if 0 <= p < b.len() && b[p] != 0x3C {
        lemma_text_end(b, p + 1);
    }
}

proof fn lemma_quote_end(b: Seq<u8>, p: int, q: u8)
    requires
        0 <= p,
    ensures
        p <= quote_end(b, p, q),
        quote_end(b, p, q) > p ==> quote_end(b, p, q) <= b.len(),
    decreases b.len() - p,
{
    if 0 <= p < b.len() && b[p] != q {
        lemma_quote_end(b, p + 1, q);
    }
}

fn text_end_exec(b: &[u8], p: usize) -> (r: usize)
    ensures
        r == text_end(b@, p as int),
{
    let mut q = p;
    while q < b.len() && b[q] != 0x3C
        invariant
            p <= q,
            text_end(b@, p as int) == text_end(b@, q as int),
        decreases b.len() - q,
    {
        q = q + 1;
    }
    q
}

fn quote_end_exec(b: &[u8], p: usize, quote: u8) -> (r: usize)
    ensures
        r == quote_end(b@, p as int, quote),
{
    let mut q = p;
    while q < b.len() && b[q] != quote
        invariant
            p <= q,
            quote_end(b@, p as int, quote) == quote_end(b@, q as int, quote),
        decreases b.len() - q,
    {
        q = q + 1;
    }
    q
}

fn undefined_error() -> (e: XmlError)
    ensures
        error_is(e, XmlFault::Undefined),
{
    proof {
        reveal_strlit("unsupported or unterminated markup");
    }
    XmlError::Malformed(String::from_str("unsupported or unterminated markup"))
}

fn malformed(msg: &str) -> (e: XmlError)
    ensures
        e matches XmlError::Malformed(s) && s@ == msg@,
{
    XmlError::Malformed(String::from_str(msg))
}

fn read_name_exec(b: &[u8], p: usize) -> (r: Result<(String, usize), XmlError>)
    requires
        b.len() + 32 < usize::MAX,
    ensures
        match r {
            Ok((n, e)) => read_name(b@, p as int) matches Ok((ns, ne)) && ne == e && n@ == decode_utf8(
                b@.subrange(ns, ne),
            ) && ne <= b.len(),
            Err(x) => read_name(b@, p as int) matches Err(f) && error_is(x, f),
        },
{
    let q = skip_ws_exec(b, p);
    let e = name_end_exec(b, q);
    if e == q {
        return Err(malformed("empty element name"));
    }
    proof {
        lemma_name_end(b@, q as int);
    }
    match str_from_utf8(vstd::slice::slice_subrange(b, q, e)) {
        None => Err(malformed("non-utf8 name")),
        Some(s) => Ok((s.to_owned(), e)),
    }
}

proof fn lemma_name_end(b: Seq<u8>, p: int)
    requires
        0 <= p,
    ensures
        p <= name_end(b, p),
        p <= b.len() ==> name_end(b, p) <= b.len(),
        name_end(b, p) > p ==> name_end(b, p) <= b.len(),
    decreases b.len() - p,
{
    if 0 <= p < b.len() && is_name_byte(b[p]) {
        lemma_name_end(b, p + 1);
    }
}

fn parse_attributes_exec(b: &[u8], p: usize) -> (r: Result<(Vec<(String, String)>, usize), XmlError>)
    requires
        b.len() + 32 < usize::MAX,
        p <= b.len() + 3,
    ensures
        match r {
            Ok((a, q)) => spec_attributes(b@, p as int) == Ok::<(Seq<(Seq<char>, Seq<char>)>, int), XmlFault>(
                (attrs_view(a@), q as int),
            ) && q <= b.len(),
            Err(e) => spec_attributes(b@, p as int) matches Err(f) && error_is(e, f),
        },
{
    let mut attrs: Vec<(String, String)> = Vec::new();
    let mut pos = p;
    assert(attrs_view(attrs@) =~= Seq::<(Seq<char>, Seq<char>)>::empty());
    assert(prepend_attrs(attrs_view(attrs@), spec_attributes(b@, p as int)) =~= spec_attributes(b@, p as int)) by {
        match spec_attributes(b@, p as int) {
            Ok((rest, e)) => {
                assert(Seq::<(Seq<char>, Seq<char>)>::empty() + rest =~= rest);
            },
            Err(_) => {},
        }
    }
    loop
        invariant
            b.len() + 32 < usize::MAX,
            pos <= b.len() + 3,
            spec_attributes(b@, p as int) == prepend_attrs(attrs_view(attrs@), spec_attributes(b@, pos as int)),
        decreases b.len() + 1 - pos,
    {
        let q = skip_ws_exec(b, pos);
        proof {
            lemma_skip_ws(b@, pos as int);
        }
        let c = match byte_at(b, q) {
            None => {
                return Err(XmlError::UnexpectedEof);
            },
            Some(c) => c,
        };
        if c == 0x3E || c == 0x2F {
            proof {
                assert(attrs_view(attrs@) + Seq::<(Seq<char>, Seq<char>)>::empty() =~= attrs_view(attrs@));
            }
            return Ok((attrs, q));
        }
        let (name, ne) = match read_name_exec(b, q) {
            Ok(x) => x,
            Err(e) => {
                return Err(e);
            },
        };
        let r = skip_ws_exec(b, ne);
        if byte_at(b, r) != Some(0x3Du8) {
            return Err(malformed("expected `=` in attribute"));
        }
        proof {
            lemma_skip_ws(b@, ne as int);
        }
        let s = skip_ws_exec(b, r + 1);
        proof {
            lemma_skip_ws(b@, (r + 1) as int);
        }
        let quote = match byte_at(b, s) {
            None => {
                return Err(XmlError::UnexpectedEof);
            },
            Some(x) => x,
        };
        if quote != 0x22 && quote != 0x27 {
            return Err(malformed("expected quote in attribute"));
        }
        let v1 = quote_end_exec(b, s + 1, quote);
        proof {
            lemma_quote_end(b@, (s + 1) as int, quote);
        }
        if v1 >= b.len() {
            return Err(XmlError::UnexpectedEof);
        }
        if v1 + 1 <= pos {
            return Err(undefined_error());
        }
        let value = decode_text_exec(vstd::slice::slice_subrange(b, s + 1, v1));
        let ghost before = attrs@;
        attrs.push((name, value));
        proof {
            let pair = (decode_utf8(b@.subrange(read_name(b@, q as int)->Ok_0.0, ne as int)), decode_text(b@.subrange(s + 1, v1 as int)));
            assert(attrs_view(attrs@) =~= attrs_view(before).push(pair));
            match spec_attributes(b@, (v1 + 1) as int) {
                Ok((rest, e)) => {
                    assert(attrs_view(before) + (seq![pair] + rest) =~= attrs_view(attrs@) + rest);
                },
                Err(_) => {},
            }
        }
        pos = v1 + 1;
    }
}

fn parse_element(b: &[u8], p: usize) -> (r: Result<(Xml, usize), XmlError>)
    requires
        b.len() + 32 < usize::MAX,
        p <= b.len() + 3,
    ensures
        match r {
            Ok((x, q)) => spec_element(b@, p as int) == Ok::<(XmlModel, int), XmlFault>((xml_view(x), q as int))
                && q <= b.len() + 3,
            Err(e) => spec_element(b@, p as int) matches Err(f) && error_is(e, f),
        },
    decreases b.len() + 4 - p, 0int,
{
    if byte_at(b, p) != Some(0x3Cu8) {
        return Err(malformed("expected `<`"));
    }
    if byte_at(b, p + 1) == Some(0x21u8) && byte_at(b, p + 2) == Some(0x5Bu8) {
        let u = skip_until_exec(b, p + 3, &[0x43u8, 0x44, 0x41, 0x54, 0x41, 0x5B]);
        proof {
            assert(seq![0x43u8, 0x44, 0x41, 0x54, 0x41, 0x5B] =~= cdata_open());
            lemma_skip_until(b@, (p + 3) as int, cdata_open());
        }
        let s0 = u + 6;
        let e = skip_until_exec(b, s0, &[0x5Du8, 0x5D, 0x3E]);
        proof {
            assert(seq![0x5Du8, 0x5D, 0x3E] =~= cdata_close());
            lemma_skip_until(b@, s0 as int, cdata_close());
        }
        if s0 > e {
            return Err(undefined_error());
        }
        let text = decode_text_exec(vstd::slice::slice_subrange(b, s0, e));
        let x = Xml { name: String::from_str("#cdata"), attributes: Vec::new(), children: Vec::new(), text };
        proof {
            assert(attrs_view(x.attributes@) =~= Seq::<(Seq<char>, Seq<char>)>::empty());
            assert(xml_view(x).children =~= Seq::<XmlModel>::empty());
        }
        return Ok((x, e + 3));
    }
    let (name, ne) = match read_name_exec(b, p + 1) {
        Ok(x) => x,
        Err(e) => {
            return Err(e);
        },
    };
    let (attrs, q) = match parse_attributes_exec(b, ne) {
        Ok(x) => x,
        Err(e) => {
            return Err(e);
        },
    };
    let r = skip_ws_exec(b, q);
    proof {
        lemma_skip_ws(b@, q as int);
    }
    if byte_at(b, r) == Some(0x2Fu8) && byte_at(b, r + 1) == Some(0x3Eu8) {
        let x = Xml { name, attributes: attrs, children: Vec::new(), text: String::new() };
        proof {
            assert(xml_view(x).children =~= Seq::<XmlModel>::empty());
        }
        return Ok((x, r + 2));
    }
    if byte_at(b, r) != Some(0x3Eu8) {
        return Err(malformed("expected `>` after attributes"));
    }
    if !(p < r + 1 && r + 1 <= b.len()) {
        return Err(undefined_error());
    }
    let (kids, text, e) = match parse_content(b, r + 1, &name) {
        Ok(x) => x,
        Err(e) => {
            return Err(e);
        },
    };
    let x = Xml { name, attributes: attrs, children: kids, text };
    proof {
        assert(xml_view(x).children =~= xml_views(kids@));
    }
    Ok((x, e))
}

fn parse_content(b: &[u8], p: usize, name: &String) -> (r: Result<(Vec<Xml>, String, usize), XmlError>)
    requires
        b.len() + 32 < usize::MAX,
        p <= b.len() + 3,
    ensures
        match r {
            Ok((kids, text, q)) => spec_content(b@, p as int, name@, Seq::empty(), Seq::empty()) == Ok::<
                (Seq<XmlModel>, Seq<char>, int),
                XmlFault,
            >((xml_views(kids@), text@, q as int)) && q <= b.len() + 3,
            Err(e) => spec_content(b@, p as int, name@, Seq::empty(), Seq::empty()) matches Err(f) && error_is(e, f),
        },
    decreases b.len() + 4 - p, 1int,
{
    let mut kids: Vec<Xml> = Vec::new();
    let mut text_buf = String::new();
    let mut pos = p;
    assert(xml_views(kids@) =~= Seq::<XmlModel>::empty());
    loop
        invariant
            b.len() + 32 < usize::MAX,
            p <= pos <= b.len() + 3,
            spec_content(b@, p as int, name@, Seq::empty(), Seq::empty()) == spec_content(
                b@,
                pos as int,
                name@,
                xml_views(kids@),
                text_buf@,
            ),
        decreases b.len() + 4 - pos,
    {
        let i = text_end_exec(b, pos);
        proof {
            lemma_text_end(b@, pos as int);
        }
        if i > pos {
            let t = decode_text_exec(vstd::slice::slice_subrange(b, pos, i));
            text_buf.append(t.as_str());
        }
        if byte_at(b, i).is_none() {
            return Err(XmlError::UnexpectedEof);
        }
        if byte_at(b, i + 1) == Some(0x2Fu8) {
            let (close, ce) = match read_name_exec(b, i + 2) {
                Ok(x) => x,
                Err(e) => {
                    return Err(e);
                },
            };
            let r = skip_ws_exec(b, ce);
            proof {
                lemma_skip_ws(b@, ce as int);
            }
            if byte_at(b, r) != Some(0x3Eu8) {
                return Err(malformed("expected `>` in closing tag"));
            }
            if close != *name {
                let mut m = String::from_str("mismatched closing tag </");
                m.append(close.as_str());
                m.append("> for <");
                m.append(name.as_str());
                m.append(">");
                return Err(XmlError::Malformed(m));
            }
            let t = trim_both_ws(text_buf.as_str()).to_owned();
            return Ok((kids, t, r + 1));
        } else if (byte_at(b, i + 1) == Some(0x21u8) && byte_at(b, i + 2) != Some(0x5Bu8)) || byte_at(b, i + 1)
            == Some(0x3Fu8) {
            let q = skip_markup_exec(b, i);
            if !(i < q && q <= b.len() + 3) {
                return Err(undefined_error());
            }
            pos = q;
        } else {
            let (c, q) = match parse_element(b, i) {
                Ok(x) => x,
                Err(e) => {
                    return Err(e);
                },
            };
            if !(i < q) {
                return Err(undefined_error());
            }
            let ghost before = kids@;
            kids.push(c);
            proof {
                assert(xml_views(kids@) =~= xml_views(before).push(xml_view(c)));
            }
            pos = q;
        }
    }
}

/// Parse the first (root) XML element from `input`: markup and whitespace
/// before it are skipped, and what follows it is not read.
pub fn parse_root(input: &str) -> (r: Result<Xml, NetconfError>)
    requires
        input.spec_bytes().len() + 32 < usize::MAX,
    ensures
        match r {
            Ok(x) => spec_root(input.spec_bytes()) matches Ok((m, _)) && xml_view(x) == m,
            Err(e) => spec_root(input.spec_bytes()) matches Err(f) && e matches NetconfError::XmlParse(s) && s@
                == fault_text(f),
        },
{
    let b = input.as_bytes();
    let q = skip_markup_exec(b, 0);
    proof {
        lemma_skip_markup(b@, 0);
    }
    match parse_element(b, q) {
        Ok((x, _)) => Ok(x),
        Err(e) => Err(NetconfError::XmlParse(e.message())),
    }
}

// ---------------------------------------------------------------------------
// Building and reading trees
// ---------------------------------------------------------------------------

/// The part of a qualified name after its last `:`.
pub open spec fn local_part(s: Seq<char>) -> Seq<char> {
    s.subrange(last_colon_end(s, s.len() as int), s.len() as int)
}

/// The position after the last `:` among the first `i` characters, or 0.
pub open spec fn last_colon_end(s: Seq<char>, i: int) -> int
    decreases i,
{
    if i <= 0 {
        0
    } else if s[i - 1] == ':' {
        i
    } else {
        last_colon_end(s, i - 1)
    }
}

proof fn lemma_last_colon_end(s: Seq<char>, i: int)
    requires
        0 <= i <= s.len(),
    ensures
        0 <= last_colon_end(s, i) <= i,
    decreases i,
{
    if i > 0 && s[i - 1] != ':' {
        lemma_last_colon_end(s, i - 1);
    }
}

fn local_name_of(name: &str) -> (r: &str)
    ensures
        r@ == local_part(name@),
{
    let cs = chars_of(name);
    let mut i: usize = cs.len();
    while i > 0 && cs[i - 1] != ':'
        invariant
            i <= cs@.len(),
            cs@ == name@,
            last_colon_end(name@, name@.len() as int) == last_colon_end(name@, i as int),
        decreases i,
    {
        i = i - 1;
    }
    proof {
        lemma_last_colon_end(name@, i as int);
    }
    name.substring_char(i, cs.len())
}

/// The value of the first attribute whose local name is `name`.
pub open spec fn find_attr(a: Seq<(Seq<char>, Seq<char>)>, name: Seq<char>) -> Option<Seq<char>>
    decreases a.len(),
{
    if a.len() == 0 {
        None
    } else if local_part(a[0].0) == name {
        Some(a[0].1)
    } else {
        find_attr(a.drop_first(), name)
    }
}

/// The index of the first element of `kids` whose local name is `name`, or
/// the length of `kids`.
pub open spec fn first_named(kids: Seq<XmlModel>, name: Seq<char>, i: int) -> int
    decreases kids.len() - i,
{
    if i < 0 || i >= kids.len() {
        kids.len() as int
    } else if local_part(kids[i].name) == name {
        i
    } else {
        first_named(kids, name, i + 1)
    }
}

/// The indices of the elements of `kids` (from `i` on) whose local name is
/// `name`, in order.
pub open spec fn all_named(kids: Seq<XmlModel>, name: Seq<char>, i: int) -> Seq<int>
    decreases kids.len() - i,
{
    if i < 0 || i >= kids.len() {
        Seq::empty()
    } else if local_part(kids[i].name) == name {
        seq![i] + all_named(kids, name, i + 1)
    } else {
        all_named(kids, name, i + 1)
    }
}

impl Xml {
    /// Create a new element with the given name and no attributes/children.
    pub fn new(name: &str) -> (x: Xml)
        ensures
            xml_view(x) == bare(name@),
    {
        let x = Xml { name: String::from_str(name), attributes: Vec::new(), children: Vec::new(), text: String::new() };
        proof {
            assert(attrs_view(x.attributes@) =~= Seq::<(Seq<char>, Seq<char>)>::empty());
            assert(xml_view(x).children =~= Seq::<XmlModel>::empty());
        }
        x
    }

    /// Add an attribute and return `self` for chaining.
    pub fn attr(self, name: &str, value: &str) -> (x: Xml)
        ensures
            xml_view(x) == (XmlModel {
                attributes: xml_view(self).attributes.push((name@, value@)),
                ..xml_view(self)
            }),
    {
        let mut x = self;
        let ghost before = x.attributes@;
        x.attributes.push((String::from_str(name), String::from_str(value)));
        proof {
            assert(attrs_view(x.attributes@) =~= attrs_view(before).push((name@, value@)));
            assert(xml_view(x).children =~= xml_view(self).children);
        }
        x
    }

    /// Add a child element and return `self` for chaining.
    pub fn child(self, child: Xml) -> (x: Xml)
        ensures
            xml_view(x) == (XmlModel { children: xml_view(self).children.push(xml_view(child)), ..xml_view(self) }),
    {
        let mut x = self;
        x.children.push(child);
        proof {
            assert(xml_view(x).children =~= xml_view(self).children.push(xml_view(child)));
        }
        x
    }

    /// Set the text content and return `self` for chaining.
    pub fn text(self, text: &str) -> (x: Xml)
        ensures
            xml_view(x) == (XmlModel { text: text@, ..xml_view(self) }),
    {
        let mut x = self;
        x.text = String::from_str(text);
        proof {
            assert(xml_view(x).children =~= xml_view(self).children);
        }
        x
    }

    /// The local part of `name` (everything after the last `:`).
    pub fn local_name(&self) -> (r: &str)
        ensures
            r@ == local_part(self.name@),
    {
        local_name_of(self.name.as_str())
    }

    /// Look up an attribute by (local) name.
    pub fn attribute(&self, name: &str) -> (r: Option<&str>)
        ensures
            match r {
                Some(v) => find_attr(attrs_view(self.attributes@), name@) == Some(v@),
                None => find_attr(attrs_view(self.attributes@), name@) is None,
            },
    {
        let mut i: usize = 0;
        assert(attrs_view(self.attributes@).subrange(0, self.attributes@.len() as int) =~= attrs_view(self.attributes@));
        while i < self.attributes.len()
            invariant
                i <= self.attributes@.len(),
                find_attr(attrs_view(self.attributes@), name@) == find_attr(
                    attrs_view(self.attributes@).subrange(i as int, self.attributes@.len() as int),
                    name@,
                ),
            decreases self.attributes.len() - i,
        {
            let (k, v) = &self.attributes[i];
            let ghost rest = attrs_view(self.attributes@).subrange(i as int, self.attributes@.len() as int);
            proof {
                assert(rest[0] == (k@, v@));
                assert(rest.drop_first() =~= attrs_view(self.attributes@).subrange(
                    i + 1,
                    self.attributes@.len() as int,
                ));
            }
            if str_eq(local_name_of(k.as_str()), name) {
                return Some(v.as_str());
            }
            i = i + 1;
        }
        proof {
            assert(attrs_view(self.attributes@).subrange(i as int, self.attributes@.len() as int).len() == 0);
        }
        None
    }

    /// Return the first child element whose local name matches `name`.
    pub fn child_named(&self, name: &str) -> (r: Option<&Xml>)
        ensures
            match r {
                Some(c) => first_named(xml_view(*self).children, name@, 0) < self.children@.len() && *c
                    == self.children@[first_named(xml_view(*self).children, name@, 0)],
                None => first_named(xml_view(*self).children, name@, 0) == self.children@.len(),
            },
    {
        let ghost kids = xml_view(*self).children;
        let mut i: usize = 0;
        while i < self.children.len()
            invariant
                i <= self.children@.len(),
                kids == xml_view(*self).children,
                kids.len() == self.children@.len(),
                first_named(kids, name@, 0) == first_named(kids, name@, i as int),
            decreases self.children.len() - i,
        {
            let c = &self.children[i];
            proof {
                assert(kids[i as int] == xml_view(*c));
            }
            if str_eq(c.local_name(), name) {
                return Some(c);
            }
            i = i + 1;
        }
        None
    }

    /// Return all child elements whose local name matches `name`.
    pub fn children_named(&self, name: &str) -> (r: Vec<&Xml>)
        ensures
            r@.len() == all_named(xml_view(*self).children, name@, 0).len(),
            forall|j: int|
                0 <= j < r@.len() ==> *r@[j] == self.children@[#[trigger] all_named(
                    xml_view(*self).children,
                    name@,
                    0,
                )[j]],
    {
        let ghost kids = xml_view(*self).children;
        let mut out: Vec<&Xml> = Vec::new();
        let mut i: usize = 0;
        while i < self.children.len()
            invariant
                i <= self.children@.len(),
                kids == xml_view(*self).children,
                kids.len() == self.children@.len(),
                out@.len() + all_named(kids, name@, i as int).len() == all_named(kids, name@, 0).len(),
                forall|j: int| 0 <= j < out@.len() ==> *out@[j] == self.children@[#[trigger] all_named(kids, name@, 0)[j]],
                forall|j: int|
                    0 <= j < all_named(kids, name@, i as int).len() ==> #[trigger] all_named(kids, name@, i as int)[j]
                        == all_named(kids, name@, 0)[out@.len() + j],
            decreases self.children.len() - i,
        {
            let c = &self.children[i];
            proof {
                assert(kids[i as int] == xml_view(*c));
            }
            if str_eq(c.local_name(), name) {
                proof {
                    let rest = all_named(kids, name@, i as int);
                    assert(rest == seq![i as int] + all_named(kids, name@, i + 1));
                    assert(rest[0] == i);
                    assert forall|j: int| 0 <= j < all_named(kids, name@, i + 1).len() implies #[trigger] all_named(
                        kids,
                        name@,
                        i + 1,
                    )[j] == all_named(kids, name@, 0)[out@.len() + 1 + j] by {
                        assert(rest[j + 1] == all_named(kids, name@, i + 1)[j]);
                    }
                }
                out.push(c);
            }
            i = i + 1;
        }
        out
    }

    /// The text content of this element, if it is a leaf.
    pub fn text_content(&self) -> (r: &str)
        ensures
            r@ == self.text@,
    {
        self.text.as_str()
    }
}

pub(crate) fn str_eq(a: &str, b: &str) -> (r: bool)
    ensures
        r == (a@ == b@),
{
    let x = chars_of(a);
    let y = chars_of(b);
    if x.len() != y.len() {
        return false;
    }
    let mut i: usize = 0;
    while i < x.len()
        invariant
            x@ == a@,
            y@ == b@,
            x@.len() == y@.len(),
            i <= x@.len(),
            forall|j: int| 0 <= j < i ==> x@[j] == y@[j],
        decreases x.len() - i,
    {
        if x[i] != y[i] {
            return false;
        }
        i = i + 1;
    }
    assert(x@ =~= y@);
    true
}

// ---------------------------------------------------------------------------
// Serializing
// ---------------------------------------------------------------------------

/// Two spaces per level of indentation.
pub open spec fn pad(n: nat) -> Seq<char>
    decreases n,
{
    if n == 0 {
        Seq::empty()
    } else {
        pad((n - 1) as nat) + seq![' ', ' ']
    }
}

/// A character of text content, escaped.
pub open spec fn escape_char(c: char) -> Seq<char> {
    if c == '&' {
        seq!['&', 'a', 'm', 'p', ';']
    } else if c == '<' {
        seq!['&', 'l', 't', ';']
    } else if c == '>' {
        seq!['&', 'g', 't', ';']
    } else {
        seq![c]
    }
}

/// A character of an attribute value, escaped.
pub open spec fn escape_attr_char(c: char) -> Seq<char> {
    if c == '"' {
        seq!['&', 'q', 'u', 'o', 't', ';']
    } else {
        escape_char(c)
    }
}

/// Text content with `&`, `<` and `>` escaped (or, for an attribute value,
/// also `"`).
pub open spec fn escape(s: Seq<char>, attr: bool) -> Seq<char>
    decreases s.len(),
{
    if s.len() == 0 {
        Seq::empty()
    } else {
        escape(s.drop_last(), attr) + if attr { escape_attr_char(s.last()) } else { escape_char(s.last()) }
    }
}

/// The attribute list of a start tag: ` name="value"` for each attribute.
pub open spec fn attrs_text(a: Seq<(Seq<char>, Seq<char>)>) -> Seq<char>
    decreases a.len(),
{
    if a.len() == 0 {
        Seq::empty()
    } else {
        attrs_text(a.drop_last()) + seq![' '] + a.last().0 + seq!['=', '"'] + escape(a.last().1, true) + seq!['"']
    }
}

/// The number of levels of elements below `m`.
pub open spec fn xml_height(m: XmlModel) -> nat
    decreases m, 1nat,
{
    if m.children.len() == 0 {
        0
    } else {
        1 + max_height(m.children)
    }
}

/// The largest height among `kids`.
pub open spec fn max_height(kids: Seq<XmlModel>) -> nat
    decreases kids, 0nat,
{
    if kids.len() == 0 {
        0
    } else {
        let h = xml_height(kids.last());
        let r = max_height(kids.drop_last());
        if h > r { h } else { r }
    }
}

/// The start tag of `m` without its closing `>`: `<`, the name and the
/// attributes.
pub open spec fn start_tag(m: XmlModel) -> Seq<char> {
    seq!['<'] + m.name + attrs_text(m.attributes)
}

/// The end tag `</name>`.
pub open spec fn end_tag(name: Seq<char>) -> Seq<char> {
    seq!['<', '/'] + name + seq!['>']
}

/// `m` written from its start tag through its end tag, children on lines
/// of their own at depth `indent + 1`.
pub open spec fn elem_text(m: XmlModel, indent: nat) -> Seq<char>
    decreases m, 1nat,
{
    if m.children.len() == 0 {
        if m.text.len() == 0 {
            start_tag(m) + seq!['/', '>']
        } else {
            start_tag(m) + seq!['>'] + escape(m.text, false) + end_tag(m.name)
        }
    } else {
        start_tag(m) + seq!['>', '\n'] + spec_write_all(m.children, indent + 1) + pad(indent) + end_tag(m.name)
    }
}

/// `m` written as indented lines at depth `indent`.
pub open spec fn spec_write(m: XmlModel, indent: nat) -> Seq<char>
    decreases m, 2nat,
{
    pad(indent) + elem_text(m, indent) + seq!['\n']
}

/// The elements of `kids` written one after the other at depth `indent`.
pub open spec fn spec_write_all(kids: Seq<XmlModel>, indent: nat) -> Seq<char>
    decreases kids, 0nat,
{
    if kids.len() == 0 {
        Seq::empty()
    } else {
        spec_write_all(kids.drop_last(), indent) + spec_write(kids.last(), indent)
    }
}

/// The XML declaration that starts a document, with its line end.
pub open spec fn xml_declaration() -> Seq<char> {
    seq![
        '<', '?', 'x', 'm', 'l', ' ', 'v', 'e', 'r', 's', 'i', 'o', 'n', '=', '"', '1', '.', '0', '"', ' ', 'e',
        'n', 'c', 'o', 'd', 'i', 'n', 'g', '=', '"', 'U', 'T', 'F', '-', '8', '"', '?', '>', '\n',
    ]
}

/// The document text of a tree: an XML declaration, then the tree.
pub open spec fn spec_to_string(m: XmlModel) -> Seq<char> {
    xml_declaration() + spec_write(m, 0)
}

proof fn lemma_max_height(kids: Seq<XmlModel>, i: int)
    requires
        0 <= i < kids.len(),
    ensures
        xml_height(kids[i]) <= max_height(kids),
    decreases kids.len(),
{
    if i < kids.len() - 1 {
        lemma_max_height(kids.drop_last(), i);
    }
}

fn escaped(s: &str, attr: bool) -> (r: String)
    ensures
        r@ == escape(s@, attr),
{
    let cs = chars_of(s);
    let mut out: Vec<char> = Vec::new();
    let mut i: usize = 0;
    while i < cs.len()
        invariant
            cs@ == s@,
            i <= cs@.len(),
            out@ == escape(cs@.subrange(0, i as int), attr),
        decreases cs.len() - i,
    {
        let c = cs[i];
        let ghost before = out@;
        if c == '&' {
            out.push('&');
            out.push('a');
            out.push('m');
            out.push('p');
            out.push(';');
        } else if c == '<' {
            out.push('&');
            out.push('l');
            out.push('t');
            out.push(';');
        } else if c == '>' {
            out.push('&');
            out.push('g');
            out.push('t');
            out.push(';');
        } else if attr && c == '"' {
            out.push('&');
            out.push('q');
            out.push('u');
            out.push('o');
            out.push('t');
            out.push(';');
        } else {
            out.push(c);
        }
        proof {
            let pre = cs@.subrange(0, i + 1);
            assert(pre.drop_last() =~= cs@.subrange(0, i as int));
            assert(pre.last() == c);
            let e = if attr { escape_attr_char(c) } else { escape_char(c) };
            assert(out@ =~= before + e);
        }
        i = i + 1;
    }
    assert(cs@.subrange(0, i as int) =~= s@);
    string_of_chars(out.as_slice())
}

fn write_attrs(a: &Vec<(String, String)>, out: &mut String)
    ensures
        final(out)@ == old(out)@ + attrs_text(attrs_view(a@)),
{
    let ghost start = out@;
    let mut i: usize = 0;
    while i < a.len()
        invariant
            i <= a@.len(),
            out@ == start + attrs_text(attrs_view(a@).subrange(0, i as int)),
        decreases a.len() - i,
    {
        let (k, v) = &a[i];
        let ghost before = out@;
        out.append(" ");
        out.append(k.as_str());
        out.append("=\"");
        let e = escaped(v.as_str(), true);
        out.append(e.as_str());
        out.append("\"");
        proof {
            reveal_strlit(" ");
            reveal_strlit("=\"");
            reveal_strlit("\"");
            let pre = attrs_view(a@).subrange(0, i + 1);
            assert(pre.drop_last() =~= attrs_view(a@).subrange(0, i as int));
            assert(pre.last() == (k@, v@));
            assert(out@ =~= before + seq![' '] + k@ + seq!['=', '"'] + escape(v@, true) + seq!['"']);
        }
        i = i + 1;
    }
    assert(attrs_view(a@).subrange(0, i as int) =~= attrs_view(a@));
}

fn write_pad(indent: usize, out: &mut String)
    ensures
        final(out)@ == old(out)@ + pad(indent as nat),
{
    let ghost start = out@;
    let mut i: usize = 0;
    while i < indent
        invariant
            i <= indent,
            out@ == start + pad(i as nat),
        decreases indent - i,
    {
        out.append("  ");
        proof {
            reveal_strlit("  ");
            assert(pad((i + 1) as nat) == pad(i as nat) + seq![' ', ' ']);
        }
        i = i + 1;
    }
}

fn write_element(el: &Xml, indent: usize, out: &mut String)
    requires
        indent + xml_height(xml_view(*el)) < usize::MAX,
    ensures
        final(out)@ == old(out)@ + spec_write(xml_view(*el), indent as nat),
    decreases el,
{
    proof {
        reveal_strlit("<");
        reveal_strlit(">");
        reveal_strlit("/>");
        reveal_strlit("</");
        reveal_strlit("\n");
        reveal_strlit(">\n");
    }
    let ghost m = xml_view(*el);
    let ghost start = out@;
    write_pad(indent, out);
    out.append("<");
    out.append(el.name.as_str());
    write_attrs(&el.attributes, out);
    let ghost open = pad(indent as nat) + start_tag(m);
    assert(out@ =~= start + open);
    if el.children.len() == 0 {
        if el.text.as_str().is_empty() {
            out.append("/>");
            out.append("\n");
            assert(out@ =~= start + (pad(indent as nat) + (start_tag(m) + seq!['/', '>']) + seq!['\n']));
        } else {
            out.append(">");
            let e = escaped(el.text.as_str(), false);
            out.append(e.as_str());
            out.append("</");
            out.append(el.name.as_str());
            out.append(">");
            out.append("\n");
            assert(out@ =~= start + (pad(indent as nat) + (start_tag(m) + seq!['>'] + escape(m.text, false) + end_tag(
                m.name,
            )) + seq!['\n']));
        }
    } else {
        out.append(">\n");
        let ghost mid = out@;
        let mut i: usize = 0;
        while i < el.children.len()
            invariant
                i <= el.children@.len(),
                m == xml_view(*el),
                m.children.len() == el.children@.len(),
                indent + 1 + max_height(m.children) < usize::MAX,
                out@ == mid + spec_write_all(m.children.subrange(0, i as int), (indent + 1) as nat),
            decreases el.children.len() - i,
        {
            proof {
                vstd::std_specs::vec::axiom_vec_index_decreases(el.children, i as int);
                assert(decreases_to!(*el => el.children));
                assert(decreases_to!(*el => el.children@[i as int]));
                assert(m.children[i as int] == xml_view(el.children@[i as int]));
                lemma_max_height(m.children, i as int);
            }
            write_element(&el.children[i], indent + 1, out);
            proof {
                let pre = m.children.subrange(0, i + 1);
                assert(pre.drop_last() =~= m.children.subrange(0, i as int));
                assert(pre.last() == m.children[i as int]);
            }
            i = i + 1;
        }
        assert(m.children.subrange(0, i as int) =~= m.children);
        write_pad(indent, out);
        out.append("</");
        out.append(el.name.as_str());
        out.append(">");
        out.append("\n");
        assert(out@ =~= start + (pad(indent as nat) + (start_tag(m) + seq!['>', '\n'] + spec_write_all(
            m.children,
            (indent + 1) as nat,
        ) + pad(indent as nat) + end_tag(m.name)) + seq!['\n']));
    }
}

/// Pretty-print an [`Xml`] tree as an indented XML document.
pub fn to_string(root: &Xml) -> (r: String)
    requires
        xml_height(xml_view(*root)) < usize::MAX,
    ensures
        r@ == spec_to_string(xml_view(*root)),
{
    let mut out = String::from_str("<?xml version=\"1.0\" encoding=\"UTF-8\"?>\n");
    proof {
        reveal_strlit("<?xml version=\"1.0\" encoding=\"UTF-8\"?>\n");
        assert(out@ =~= xml_declaration());
    }
    write_element(root, 0, &mut out);
    out
}

fn clone_attrs(a: &Vec<(String, String)>) -> (r: Vec<(String, String)>)
    ensures
        attrs_view(r@) == attrs_view(a@),
{
    let mut out: Vec<(String, String)> = Vec::new();
    let mut i: usize = 0;
    while i < a.len()
        invariant
            i <= a@.len(),
            attrs_view(out@) == attrs_view(a@).subrange(0, i as int),
        decreases a.len() - i,
    {
        let (k, v) = &a[i];
        let ghost before = out@;
        out.push((k.clone(), v.clone()));
        proof {
            assert(attrs_view(out@) =~= attrs_view(before).push((k@, v@)));
            assert(attrs_view(a@).subrange(0, i + 1) =~= attrs_view(a@).subrange(0, i as int).push((k@, v@)));
        }
        i = i + 1;
    }
    assert(attrs_view(a@).subrange(0, i as int) =~= attrs_view(a@));
    out
}

impl Clone for Xml {
    /// A deep copy of the tree.
    fn clone(&self) -> (r: Xml)
        ensures
            xml_view(r) == xml_view(*self),
        decreases self,
    {
        let mut kids: Vec<Xml> = Vec::new();
        let mut i: usize = 0;
        while i < self.children.len()
            invariant
                i <= self.children@.len(),
                xml_views(kids@) == xml_view(*self).children.subrange(0, i as int),
            decreases self.children.len() - i,
        {
            proof {
                vstd::std_specs::vec::axiom_vec_index_decreases(self.children, i as int);
                assert(decreases_to!(*self => self.children));
                assert(decreases_to!(*self => self.children@[i as int]));
            }
            let c = self.children[i].clone();
            let ghost before = kids@;
            kids.push(c);
            proof {
                assert(xml_views(kids@) =~= xml_views(before).push(xml_view(c)));
                assert(xml_view(*self).children.subrange(0, i + 1) =~= xml_view(*self).children.subrange(
                    0,
                    i as int,
                ).push(xml_view(self.children@[i as int])));
            }
            i = i + 1;
        }
        let x = Xml { name: self.name.clone(), attributes: clone_attrs(&self.attributes), children: kids, text: self.text.clone() };
        proof {
            assert(xml_view(*self).children.subrange(0, i as int) =~= xml_view(*self).children);
            assert(xml_view(x).children =~= xml_views(kids@));
        }
        x
    }
}

} // verus!
