//! What the parser makes of the serializer's output: a tree whose names are
//! names, whose texts carry no surrounding whitespace, and whose elements hold
//! either children or text, is read back from its document text unchanged.

use vstd::prelude::*;
use vstd::utf8::{encode_utf8, encode_scalar, decode_utf8, valid_utf8, is_ascii_chars};
use crate::text::{trim_ws, trim_end_ws, is_white_space};
use super::{
    XmlModel, at, is_ws_byte, is_name_byte, skip_ws, name_end, skip_until, text_end, quote_end, skip_markup,
    pi_close, comment_close, read_name, spec_attributes, spec_element, spec_content, spec_root, parse_defined,
    entity_value, semi_end, entities_from, decode_text, pad, escape_char, escape_attr_char, escape, attrs_text,
    start_tag, end_tag, elem_text, spec_write, spec_write_all, xml_declaration, spec_to_string,
};

verus! {

// ---------------------------------------------------------------------------
// Octets of a text
// ---------------------------------------------------------------------------

/// `s` stands in `b` from position `p` on.
pub open spec fn bytes_at(b: Seq<u8>, p: int, s: Seq<u8>) -> bool {
    &&& 0 <= p
    &&& p + s.len() <= b.len()
    &&& forall|i: int| 0 <= i < s.len() ==> #[trigger] b[p + i] == s[i]
}

proof fn lemma_bytes_at_split(b: Seq<u8>, p: int, x: Seq<u8>, y: Seq<u8>)
    requires
        bytes_at(b, p, x + y),
    ensures
        bytes_at(b, p, x),
        bytes_at(b, p + x.len(), y),
{
    assert forall|i: int| 0 <= i < x.len() implies #[trigger] b[p + i] == x[i] by {
        assert(b[p + i] == (x + y)[i]);
    }
    assert forall|i: int| 0 <= i < y.len() implies #[trigger] b[p + x.len() + i] == y[i] by {
        assert(b[p + (x.len() + i)] == (x + y)[x.len() + i]);
    }
}

proof fn lemma_bytes_at_subrange(b: Seq<u8>, p: int, s: Seq<u8>)
    requires
        bytes_at(b, p, s),
    ensures
        b.subrange(p, p + s.len()) == s,
{
    assert forall|i: int| 0 <= i < s.len() implies #[trigger] b.subrange(p, p + s.len())[i] == s[i] by {
        assert(b[p + i] == s[i]);
    }
    assert(b.subrange(p, p + s.len()) =~= s);
}

proof fn lemma_encode_concat(a: Seq<char>, c: Seq<char>)
    ensures
        encode_utf8(a + c) == encode_utf8(a) + encode_utf8(c),
    decreases a.len(),
{
    if a.len() == 0 {
        assert(a + c =~= c);
        assert(encode_utf8(a) =~= Seq::<u8>::empty());
        assert(encode_utf8(a) + encode_utf8(c) =~= encode_utf8(c));
    } else {
        assert((a + c)[0] == a[0]);
        assert((a + c).drop_first() =~= a.drop_first() + c);
        lemma_encode_concat(a.drop_first(), c);
        assert(encode_utf8(a + c) =~= encode_utf8(a) + encode_utf8(c));
    }
}

proof fn lemma_high_bytes(y: u8)
    by (bit_vector)
    ensures
        (0xC0u8 | y) >= 0x80,
        (0xE0u8 | y) >= 0x80,
        (0xF0u8 | y) >= 0x80,
        (0x80u8 | y) >= 0x80,
{
}

proof fn lemma_low_byte(c: u32)
    by (bit_vector)
    requires
        c <= 0x7F,
    ensures
        (c & 0x7F) as u8 == c as u8,
        (c as u8) as u32 == c,
{
}

/// The octets of one character: the character itself when it is ASCII,
/// octets at or above 0x80 otherwise.
proof fn lemma_encode_scalar_bytes(c: char)
    ensures
        encode_scalar(c as u32).len() >= 1,
        (c as u32) < 0x80 ==> encode_scalar(c as u32) == seq![c as u8] && (c as u8) as u32 == c as u32,
        (c as u32) >= 0x80 ==> forall|j: int|
            0 <= j < encode_scalar(c as u32).len() ==> #[trigger] encode_scalar(c as u32)[j] >= 0x80,
{
    let v = c as u32;
    vstd::utf8::char_is_scalar(c);
    if v <= 0x7F {
        lemma_low_byte(v);
    } else {
        lemma_high_bytes(((v >> 6) & 0x1F) as u8);
        lemma_high_bytes(((v >> 12) & 0x0F) as u8);
        lemma_high_bytes(((v >> 18) & 0x7) as u8);
        lemma_high_bytes((v & 0x3F) as u8);
        lemma_high_bytes(((v >> 6) & 0x3F) as u8);
        lemma_high_bytes(((v >> 12) & 0x3F) as u8);
    }
}

/// No character of `s` is `x` (an ASCII character).
pub open spec fn avoids(s: Seq<char>, x: char) -> bool {
    forall|i: int| 0 <= i < s.len() ==> #[trigger] s[i] != x
}

/// The octets of a text with no `x` (ASCII) hold no octet `x`.
proof fn lemma_encode_avoids(s: Seq<char>, x: char)
    requires
        (x as u32) < 0x80,
        avoids(s, x),
    ensures
        forall|j: int| 0 <= j < encode_utf8(s).len() ==> #[trigger] encode_utf8(s)[j] != x as u8,
    decreases s.len(),
{
    if s.len() > 0 {
        let t = s.drop_first();
        assert(avoids(t, x)) by {
            assert forall|i: int| 0 <= i < t.len() implies #[trigger] t[i] != x by {
                assert(s[i + 1] != x);
            }
        }
        lemma_encode_avoids(t, x);
        lemma_encode_scalar_bytes(s[0]);
        lemma_encode_scalar_bytes(x);
        assert(s[0] != x);
        let e = encode_scalar(s[0] as u32);
        assert(encode_utf8(s) == e + encode_utf8(t));
        assert((x as u8) as u32 == x as u32);
        if (s[0] as u32) < 0x80 {
            vstd::utf8::char_u32_cast(s[0], s[0] as u32);
            vstd::utf8::char_u32_cast(x, x as u32);
            assert(s[0] as u8 != x as u8);
        }
        assert forall|j: int| 0 <= j < encode_utf8(s).len() implies #[trigger] encode_utf8(s)[j] != x as u8 by {
            if j < e.len() {
                assert(encode_utf8(s)[j] == e[j]);
            } else {
                assert(encode_utf8(s)[j] == encode_utf8(t)[j - e.len()]);
            }
        }
    }
}

/// The octets of an ASCII text are its characters.
proof fn lemma_encode_ascii(s: Seq<char>)
    requires
        forall|i: int| 0 <= i < s.len() ==> (#[trigger] s[i] as u32) < 0x80,
    ensures
        encode_utf8(s).len() == s.len(),
        forall|i: int| 0 <= i < s.len() ==> #[trigger] encode_utf8(s)[i] == s[i] as u8,
        forall|i: int| 0 <= i < s.len() ==> (#[trigger] encode_utf8(s)[i]) as u32 == s[i] as u32,
    decreases s.len(),
{
    if s.len() > 0 {
        let t = s.drop_first();
        assert forall|i: int| 0 <= i < t.len() implies (#[trigger] t[i] as u32) < 0x80 by {
            assert(s[i + 1] == t[i]);
        }
        lemma_encode_ascii(t);
        lemma_encode_scalar_bytes(s[0]);
        assert forall|i: int| 0 <= i < s.len() implies #[trigger] encode_utf8(s)[i] == s[i] as u8 by {
            if i > 0 {
                assert(encode_utf8(s)[i] == encode_utf8(t)[i - 1]);
                assert(t[i - 1] == s[i]);
            }
        }
        assert forall|i: int| 0 <= i < s.len() implies (#[trigger] encode_utf8(s)[i]) as u32 == s[i] as u32 by {
            lemma_encode_scalar_bytes(s[i]);
        }
    }
}

// ---------------------------------------------------------------------------
// Scanning over known octets
// ---------------------------------------------------------------------------

proof fn lemma_text_end_at(b: Seq<u8>, q: int, n: int)
    requires
        0 <= q,
        0 <= n,
        q + n < b.len(),
        forall|j: int| q <= j < q + n ==> #[trigger] b[j] != 0x3C,
        b[q + n] == 0x3C,
    ensures
        text_end(b, q) == q + n,
    decreases n,
{
    if n > 0 {
        lemma_text_end_at(b, q + 1, n - 1);
    }
}

proof fn lemma_quote_end_at(b: Seq<u8>, q: int, n: int, x: u8)
    requires
        0 <= q,
        0 <= n,
        q + n < b.len(),
        forall|j: int| q <= j < q + n ==> #[trigger] b[j] != x,
        b[q + n] == x,
    ensures
        quote_end(b, q, x) == q + n,
    decreases n,
{
    if n > 0 {
        lemma_quote_end_at(b, q + 1, n - 1, x);
    }
}

proof fn lemma_name_end_at(b: Seq<u8>, q: int, n: int)
    requires
        0 <= q,
        0 <= n,
        q + n < b.len(),
        forall|j: int| q <= j < q + n ==> is_name_byte(#[trigger] b[j]),
        !is_name_byte(b[q + n]),
    ensures
        name_end(b, q) == q + n,
    decreases n,
{
    if n > 0 {
        lemma_name_end_at(b, q + 1, n - 1);
    }
}

proof fn lemma_skip_until_at(b: Seq<u8>, p: int, k: int, needle: Seq<u8>)
    requires
        0 <= p <= k,
        k + needle.len() <= b.len(),
        b.subrange(k, k + needle.len()) == needle,
        forall|j: int| p <= j < k ==> #[trigger] b.subrange(j, j + needle.len()) != needle,
    ensures
        skip_until(b, p, needle) == k,
    decreases k - p,
{
    if p < k {
        assert(b.subrange(p, p + needle.len()) != needle);
        lemma_skip_until_at(b, p + 1, k, needle);
    }
}

// ---------------------------------------------------------------------------
// Escaping and entity replacement undo each other
// ---------------------------------------------------------------------------

proof fn lemma_semi_shift(e: Seq<char>, t: Seq<char>, j: int)
    requires
        0 <= j <= t.len(),
    ensures
        semi_end(e + t, e.len() + j) == e.len() + semi_end(t, j),
    decreases t.len() - j,
{
    if j < t.len() {
        assert((e + t)[e.len() + j] == t[j]);
        if t[j] != ';' {
            lemma_semi_shift(e, t, j + 1);
        }
    }
}

proof fn lemma_semi_bound(s: Seq<char>, i: int)
    requires
        0 <= i <= s.len(),
    ensures
        i <= semi_end(s, i) <= s.len(),
    decreases s.len() - i,
{
    if i < s.len() && s[i] != ';' {
        lemma_semi_bound(s, i + 1);
    }
}

proof fn lemma_entities_shift(e: Seq<char>, t: Seq<char>, j: int)
    requires
        0 <= j,
    ensures
        entities_from(e + t, e.len() + j) == entities_from(t, j),
    decreases t.len() - j,
{
    let s = e + t;
    let i = e.len() + j;
    if j < t.len() {
        assert(s[i] == t[j]);
        if t[j] == '&' {
            lemma_semi_shift(e, t, j + 1);
            lemma_semi_bound(t, j + 1);
            let k = semi_end(s, i + 1);
            let kt = semi_end(t, j + 1);
            assert(s.subrange(i + 1, k) =~= t.subrange(j + 1, kt));
            if kt < t.len() {
                lemma_entities_shift(e, t, kt + 1);
                assert(e.len() + (kt + 1) == k + 1);
            }
        } else {
            lemma_entities_shift(e, t, j + 1);
        }
    }
}

/// The replacement text of one escaped character.
pub open spec fn esc(c: char, attr: bool) -> Seq<char> {
    if attr {
        escape_attr_char(c)
    } else {
        escape_char(c)
    }
}

proof fn lemma_entities_unit(c: char, t: Seq<char>, attr: bool)
    ensures
        entities_from(esc(c, attr) + t, 0) == seq![c] + entities_from(t, 0),
{
    let e = esc(c, attr);
    let s = e + t;
    lemma_entities_shift(e, t, 0);
    if e.len() == 1 {
        assert(e == seq![c]);
        assert(s[0] == c);
        assert(c != '&');
    } else {
        assert(s[0] == '&');
        if c == '&' {
            assert(s[1] == 'a' && s[2] == 'm' && s[3] == 'p' && s[4] == ';');
            assert(semi_end(s, 4) == 4);
            assert(semi_end(s, 3) == 4);
            assert(semi_end(s, 2) == 4);
            assert(semi_end(s, 1) == 4);
            assert(s.subrange(1, 4) =~= seq!['a', 'm', 'p']);
        } else if c == '<' {
            assert(s[1] == 'l' && s[2] == 't' && s[3] == ';');
            assert(semi_end(s, 3) == 3);
            assert(semi_end(s, 2) == 3);
            assert(semi_end(s, 1) == 3);
            assert(s.subrange(1, 3) =~= seq!['l', 't']);
        } else if c == '>' {
            assert(s[1] == 'g' && s[2] == 't' && s[3] == ';');
            assert(semi_end(s, 3) == 3);
            assert(semi_end(s, 2) == 3);
            assert(semi_end(s, 1) == 3);
            assert(s.subrange(1, 3) =~= seq!['g', 't']);
        } else {
            assert(attr && c == '"');
            assert(s[1] == 'q' && s[2] == 'u' && s[3] == 'o' && s[4] == 't' && s[5] == ';');
            assert(semi_end(s, 5) == 5);
            assert(semi_end(s, 4) == 5);
            assert(semi_end(s, 3) == 5);
            assert(semi_end(s, 2) == 5);
            assert(semi_end(s, 1) == 5);
            assert(s.subrange(1, 5) =~= seq!['q', 'u', 'o', 't']);
        }
    }
}

proof fn lemma_escape_front(v: Seq<char>, attr: bool)
    requires
        v.len() >= 1,
    ensures
        escape(v, attr) == esc(v[0], attr) + escape(v.drop_first(), attr),
    decreases v.len(),
{
    if v.len() == 1 {
        assert(v.drop_last().len() == 0);
        assert(v.drop_first().len() == 0);
        assert(escape(v.drop_last(), attr) =~= Seq::<char>::empty());
        assert(escape(v.drop_first(), attr) =~= Seq::<char>::empty());
        assert(v.last() == v[0]);
        assert(escape(v, attr) == escape(v.drop_last(), attr) + esc(v.last(), attr));
        assert(escape(v, attr) =~= esc(v[0], attr) + escape(v.drop_first(), attr));
    } else {
        lemma_escape_front(v.drop_last(), attr);
        assert(v.drop_last().drop_first() =~= v.drop_first().drop_last());
        assert(v.drop_first().last() == v.last());
        assert(v.drop_last()[0] == v[0]);
        let w = v.drop_first();
        assert(escape(w, attr) == escape(w.drop_last(), attr) + esc(w.last(), attr));
        assert(escape(v, attr) == escape(v.drop_last(), attr) + esc(v.last(), attr));
        assert(escape(v, attr) =~= esc(v[0], attr) + escape(v.drop_first(), attr));
    }
}

/// Replacing the entities of an escaped text gives the text back.
proof fn lemma_entities_escape(v: Seq<char>, attr: bool)
    ensures
        entities_from(escape(v, attr), 0) == v,
    decreases v.len(),
{
    if v.len() == 0 {
        assert(escape(v, attr).len() == 0);
    } else {
        lemma_escape_front(v, attr);
        lemma_entities_unit(v[0], escape(v.drop_first(), attr), attr);
        lemma_entities_escape(v.drop_first(), attr);
        assert(seq![v[0]] + v.drop_first() =~= v);
    }
}

/// An escaped text holds no `<`, and an escaped attribute value no `"`.
proof fn lemma_escape_avoids(v: Seq<char>, attr: bool)
    ensures
        avoids(escape(v, attr), '<'),
        attr ==> avoids(escape(v, attr), '"'),
        v.len() > 0 ==> escape(v, attr).len() > 0,
    decreases v.len(),
{
    if v.len() > 0 {
        lemma_escape_avoids(v.drop_last(), attr);
        let a = escape(v.drop_last(), attr);
        let e = esc(v.last(), attr);
        assert(escape(v, attr) == a + e);
        assert forall|i: int| 0 <= i < (a + e).len() implies #[trigger] (a + e)[i] != '<' by {
            if i >= a.len() {
                assert((a + e)[i] == e[i - a.len()]);
            }
        }
        if attr {
            assert forall|i: int| 0 <= i < (a + e).len() implies #[trigger] (a + e)[i] != '"' by {
                if i >= a.len() {
                    assert((a + e)[i] == e[i - a.len()]);
                }
            }
        }
    }
}

// ---------------------------------------------------------------------------
// Trees the serializer writes faithfully
// ---------------------------------------------------------------------------

/// ASCII letters and digits, `_`, `-`, `:` and `.`.
pub open spec fn is_name_char(c: char) -> bool {
    (c as u32) < 0x80 && is_name_byte(c as u8)
}

/// A non-empty string of name characters.
pub open spec fn name_ok(s: Seq<char>) -> bool {
    s.len() > 0 && forall|i: int| 0 <= i < s.len() ==> is_name_char(#[trigger] s[i])
}

/// A tree the parser reads back from its document text: element and
/// attribute names are names, an element holds either children or text, and
/// no text begins or ends with whitespace.
pub open spec fn well_formed(m: XmlModel) -> bool
    decreases m, 1nat,
{
    &&& name_ok(m.name)
    &&& forall|i: int| 0 <= i < m.attributes.len() ==> name_ok(#[trigger] m.attributes[i].0)
    &&& (m.children.len() > 0 ==> m.text.len() == 0)
    &&& trim_end_ws(trim_ws(m.text)) == m.text
    &&& all_well_formed(m.children)
}

/// Every tree of `kids` is well-formed.
pub open spec fn all_well_formed(kids: Seq<XmlModel>) -> bool
    decreases kids, 0nat,
{
    if kids.len() == 0 {
        true
    } else {
        well_formed(kids[0]) && all_well_formed(kids.drop_first())
    }
}

/// One attribute as written: ` name="value"`.
pub open spec fn attr_piece(k: Seq<char>, v: Seq<char>) -> Seq<char> {
    seq![' '] + k + seq!['=', '"'] + escape(v, true) + seq!['"']
}

proof fn lemma_attrs_front(a: Seq<(Seq<char>, Seq<char>)>)
    requires
        a.len() >= 1,
    ensures
        attrs_text(a) == attr_piece(a[0].0, a[0].1) + attrs_text(a.drop_first()),
    decreases a.len(),
{
    if a.len() == 1 {
        assert(a.drop_last().len() == 0);
        assert(a.drop_first().len() == 0);
        assert(attrs_text(a.drop_last()) =~= Seq::<char>::empty());
        assert(attrs_text(a.drop_first()) =~= Seq::<char>::empty());
        assert(a.last() == a[0]);
        assert(attrs_text(a) =~= attr_piece(a[0].0, a[0].1) + attrs_text(a.drop_first()));
    } else {
        lemma_attrs_front(a.drop_last());
        assert(a.drop_last().drop_first() =~= a.drop_first().drop_last());
        assert(a.drop_first().last() == a.last());
        assert(a.drop_last()[0] == a[0]);
        let w = a.drop_first();
        assert(attrs_text(w) == attrs_text(w.drop_last()) + seq![' '] + w.last().0 + seq!['=', '"'] + escape(
            w.last().1,
            true,
        ) + seq!['"']);
        assert(attrs_text(a) =~= attr_piece(a[0].0, a[0].1) + attrs_text(a.drop_first()));
    }
}

proof fn lemma_encode_one(c: char)
    requires
        (c as u32) < 0x80,
    ensures
        encode_utf8(seq![c]) == seq![c as u8],
        (c as u8) as u32 == c as u32,
{
    lemma_encode_scalar_bytes(c);
    assert(seq![c].drop_first() =~= Seq::<char>::empty());
    assert(seq![c][0] == c);
    assert(encode_utf8(Seq::<char>::empty()) =~= Seq::<u8>::empty());
    assert(encode_utf8(seq![c]) == encode_scalar(c as u32) + encode_utf8(seq![c].drop_first()));
    assert(encode_utf8(seq![c]) =~= seq![c as u8]);
}

/// Decoding the octets of a text gives the text.
proof fn lemma_decode_encode(s: Seq<char>)
    ensures
        valid_utf8(encode_utf8(s)),
        decode_utf8(encode_utf8(s)) == s,
{
    vstd::utf8::encode_utf8_valid_utf8(s);
    vstd::utf8::encode_utf8_decode_utf8(s);
}

proof fn lemma_name_bytes(b: Seq<u8>, p: int, k: Seq<char>)
    requires
        name_ok(k),
        bytes_at(b, p, encode_utf8(k)),
    ensures
        encode_utf8(k).len() == k.len(),
        forall|j: int| p <= j < p + k.len() ==> is_name_byte(#[trigger] b[j]),
        b.subrange(p, p + k.len()) == encode_utf8(k),
        decode_utf8(b.subrange(p, p + k.len())) == k,
        valid_utf8(b.subrange(p, p + k.len())),
{
    assert forall|i: int| 0 <= i < k.len() implies (#[trigger] k[i] as u32) < 0x80 by {
        assert(is_name_char(k[i]));
    }
    lemma_encode_ascii(k);
    assert forall|j: int| p <= j < p + k.len() implies is_name_byte(#[trigger] b[j]) by {
        assert(b[p + (j - p)] == encode_utf8(k)[j - p]);
        assert(is_name_char(k[j - p]));
    }
    lemma_bytes_at_subrange(b, p, encode_utf8(k));
    lemma_decode_encode(k);
}

/// The attribute list written for `a`, found at `q` and followed by `>` or
/// `/`, is read back as `a`.
proof fn lemma_attrs_parse(b: Seq<u8>, q: int, a: Seq<(Seq<char>, Seq<char>)>)
    requires
        forall|i: int| 0 <= i < a.len() ==> name_ok(#[trigger] a[i].0),
        bytes_at(b, q, encode_utf8(attrs_text(a))),
        q + encode_utf8(attrs_text(a)).len() < b.len(),
        b[q + encode_utf8(attrs_text(a)).len()] == 0x3E || b[q + encode_utf8(attrs_text(a)).len()] == 0x2F,
    ensures
        spec_attributes(b, q) == Ok::<(Seq<(Seq<char>, Seq<char>)>, int), super::XmlFault>(
            (a, q + encode_utf8(attrs_text(a)).len()),
        ),
    decreases a.len(),
{
    if a.len() == 0 {
        assert(attrs_text(a) =~= Seq::<char>::empty());
        assert(encode_utf8(attrs_text(a)).len() == 0);
        assert(a =~= Seq::<(Seq<char>, Seq<char>)>::empty());
    } else {
        let k = a[0].0;
        let v = a[0].1;
        let rest = a.drop_first();
        assert(name_ok(k));
        lemma_attrs_front(a);
        let ev = escape(v, true);
        let sp = seq![' '];
        let eq = seq!['=', '"'];
        let qt = seq!['"'];
        let tail = attrs_text(rest);
        assert(attrs_text(a) == sp + k + eq + ev + qt + tail);
        lemma_encode_concat(sp + k + eq + ev + qt, tail);
        lemma_encode_concat(sp + k + eq + ev, qt);
        lemma_encode_concat(sp + k + eq, ev);
        lemma_encode_concat(sp + k, eq);
        lemma_encode_concat(sp, k);
        lemma_encode_one(' ');
        lemma_encode_one('"');
        lemma_encode_ascii(eq);
        let bk = encode_utf8(k);
        let bv = encode_utf8(ev);
        let n = encode_utf8(attrs_text(a)).len();
        assert(encode_utf8(attrs_text(a)) == seq![0x20u8] + bk + encode_utf8(eq) + bv + seq![0x22u8] + encode_utf8(tail));
        let x1 = seq![0x20u8];
        lemma_bytes_at_split(b, q, x1 + bk + encode_utf8(eq) + bv + seq![0x22u8], encode_utf8(tail));
        lemma_bytes_at_split(b, q, x1 + bk + encode_utf8(eq) + bv, seq![0x22u8]);
        lemma_bytes_at_split(b, q, x1 + bk + encode_utf8(eq), bv);
        lemma_bytes_at_split(b, q, x1 + bk, encode_utf8(eq));
        lemma_bytes_at_split(b, q, x1, bk);
        lemma_name_bytes(b, q + 1, k);
        let ne = q + 1 + k.len();
        let vs = ne + 2;
        let v1 = vs + bv.len();
        assert(b[q + 0] == 0x20u8);
        assert(b[ne + 0] == 0x3Du8);
        assert(b[ne + 1] == 0x22u8);
        assert(b[v1 + 0] == 0x22u8);
        // whitespace, then the name
        assert(skip_ws(b, q + 1) == q + 1);
        assert(skip_ws(b, q) == q + 1);
        assert(b[q + 1] == bk[0]);
        lemma_name_end_at(b, q + 1, k.len() as int);
        assert(read_name(b, q + 1) == Ok::<(int, int), super::XmlFault>((q + 1, ne)));
        assert(skip_ws(b, ne) == ne);
        assert(skip_ws(b, ne + 1) == ne + 1);
        // the value, up to its closing quote
        lemma_escape_avoids(v, true);
        lemma_encode_avoids(ev, '"');
        assert forall|j: int| vs <= j < v1 implies #[trigger] b[j] != 0x22u8 by {
            assert(b[vs + (j - vs)] == bv[j - vs]);
        }
        lemma_quote_end_at(b, vs, bv.len() as int, 0x22u8);
        lemma_bytes_at_subrange(b, vs, bv);
        lemma_decode_encode(ev);
        lemma_entities_escape(v, true);
        assert(decode_text(b.subrange(vs, v1)) == v);
        // the rest of the list
        assert(forall|i: int| 0 <= i < rest.len() ==> name_ok(#[trigger] rest[i].0)) by {
            assert forall|i: int| 0 <= i < rest.len() implies name_ok(#[trigger] rest[i].0) by {
                assert(rest[i] == a[i + 1]);
            }
        }
        assert(v1 + 1 + encode_utf8(tail).len() == q + n);
        lemma_attrs_parse(b, v1 + 1, rest);
        assert(seq![(k, v)] + rest =~= a);
    }
}

// ---------------------------------------------------------------------------
// Elements and their content
// ---------------------------------------------------------------------------

/// Spaces and line feeds only.
pub open spec fn ws_only(s: Seq<char>) -> bool {
    forall|i: int| 0 <= i < s.len() ==> #[trigger] s[i] == ' ' || s[i] == '\n'
}

proof fn lemma_pad_ws(n: nat)
    ensures
        ws_only(pad(n)),
    decreases n,
{
    if n > 0 {
        lemma_pad_ws((n - 1) as nat);
        let a = pad((n - 1) as nat);
        assert forall|i: int| 0 <= i < pad(n).len() implies #[trigger] pad(n)[i] == ' ' || pad(n)[i] == '\n' by {
            if i < a.len() {
                assert(pad(n)[i] == a[i]);
            }
        }
    }
}

proof fn lemma_ws_concat(x: Seq<char>, y: Seq<char>)
    requires
        ws_only(x),
        ws_only(y),
    ensures
        ws_only(x + y),
{
    assert forall|i: int| 0 <= i < (x + y).len() implies #[trigger] (x + y)[i] == ' ' || (x + y)[i] == '\n' by {
        if i < x.len() {
            assert((x + y)[i] == x[i]);
        } else {
            assert((x + y)[i] == y[i - x.len()]);
        }
    }
}

proof fn lemma_trim_ws_only(s: Seq<char>)
    requires
        ws_only(s),
    ensures
        trim_end_ws(trim_ws(s)) == Seq::<char>::empty(),
    decreases s.len(),
{
    if s.len() > 0 {
        assert(is_white_space(s[0]));
        assert(ws_only(s.drop_first())) by {
            assert forall|i: int| 0 <= i < s.drop_first().len() implies #[trigger] s.drop_first()[i] == ' '
                || s.drop_first()[i] == '\n' by {
                assert(s.drop_first()[i] == s[i + 1]);
            }
        }
        lemma_trim_ws_only(s.drop_first());
    }
}

proof fn lemma_entities_plain(s: Seq<char>, i: int)
    requires
        0 <= i <= s.len(),
        avoids(s, '&'),
    ensures
        entities_from(s, i) == s.subrange(i, s.len() as int),
    decreases s.len() - i,
{
    if i < s.len() {
        lemma_entities_plain(s, i + 1);
        assert(s[i] != '&');
        assert(s.subrange(i, s.len() as int) =~= seq![s[i]] + s.subrange(i + 1, s.len() as int));
    } else {
        assert(s.subrange(i, s.len() as int) =~= Seq::<char>::empty());
    }
}

proof fn lemma_ws_facts(w: Seq<char>)
    requires
        ws_only(w),
    ensures
        avoids(w, '<'),
        avoids(w, '&'),
        entities_from(w, 0) == w,
        forall|i: int| 0 <= i < w.len() ==> (#[trigger] w[i] as u32) < 0x80,
{
    assert forall|i: int| 0 <= i < w.len() implies #[trigger] w[i] != '<' by {
        assert(w[i] == ' ' || w[i] == '\n');
    }
    assert forall|i: int| 0 <= i < w.len() implies #[trigger] w[i] != '&' by {
        assert(w[i] == ' ' || w[i] == '\n');
    }
    lemma_entities_plain(w, 0);
    assert(w.subrange(0, w.len() as int) =~= w);
    assert forall|i: int| 0 <= i < w.len() implies (#[trigger] w[i] as u32) < 0x80 by {
        assert(w[i] == ' ' || w[i] == '\n');
    }
}

proof fn lemma_write_all_front(kids: Seq<XmlModel>, ind: nat)
    requires
        kids.len() >= 1,
    ensures
        spec_write_all(kids, ind) == spec_write(kids[0], ind) + spec_write_all(kids.drop_first(), ind),
    decreases kids.len(),
{
    if kids.len() == 1 {
        assert(kids.drop_last().len() == 0);
        assert(kids.drop_first().len() == 0);
        assert(spec_write_all(kids.drop_last(), ind) =~= Seq::<char>::empty());
        assert(spec_write_all(kids.drop_first(), ind) =~= Seq::<char>::empty());
        assert(kids.last() == kids[0]);
        assert(spec_write_all(kids, ind) =~= spec_write(kids[0], ind) + spec_write_all(kids.drop_first(), ind));
    } else {
        lemma_write_all_front(kids.drop_last(), ind);
        assert(kids.drop_last().drop_first() =~= kids.drop_first().drop_last());
        assert(kids.drop_first().last() == kids.last());
        assert(kids.drop_last()[0] == kids[0]);
        let w = kids.drop_first();
        assert(spec_write_all(w, ind) == spec_write_all(w.drop_last(), ind) + spec_write(w.last(), ind));
        assert(spec_write_all(kids, ind) =~= spec_write(kids[0], ind) + spec_write_all(kids.drop_first(), ind));
    }
}

/// Text `t` (with no `<`), then the end tag of `name`, found at `q`, close the
/// content: the children read so far, the accumulated text with `t`'s
/// entities replaced, trimmed.
proof fn lemma_content_close(
    b: Seq<u8>,
    q: int,
    name: Seq<char>,
    done: Seq<XmlModel>,
    acc: Seq<char>,
    t: Seq<char>,
)
    requires
        name_ok(name),
        t.len() > 0,
        avoids(t, '<'),
        bytes_at(b, q, encode_utf8(t + end_tag(name))),
    ensures
        spec_content(b, q, name, done, acc) == Ok::<(Seq<XmlModel>, Seq<char>, int), super::XmlFault>(
            (done, trim_end_ws(trim_ws(acc + entities_from(t, 0))), q + encode_utf8(t + end_tag(name)).len()),
        ),
{
    let bt = encode_utf8(t);
    let lt = seq!['<', '/'];
    let gt = seq!['>'];
    assert(end_tag(name) == lt + name + gt);
    lemma_encode_concat(t, end_tag(name));
    lemma_encode_concat(lt + name, gt);
    lemma_encode_concat(lt, name);
    lemma_encode_ascii(lt);
    lemma_encode_one('>');
    let bn = encode_utf8(name);
    assert(encode_utf8(t + end_tag(name)) == bt + encode_utf8(lt) + bn + seq![0x3Eu8]);
    lemma_bytes_at_split(b, q, bt + encode_utf8(lt) + bn, seq![0x3Eu8]);
    lemma_bytes_at_split(b, q, bt + encode_utf8(lt), bn);
    lemma_bytes_at_split(b, q, bt, encode_utf8(lt));
    let i = q + bt.len();
    lemma_encode_avoids(t, '<');
    assert forall|j: int| q <= j < i implies #[trigger] b[j] != 0x3C by {
        assert(b[q + (j - q)] == bt[j - q]);
    }
    assert(b[i + 0] == 0x3Cu8);
    assert(b[i + 1] == 0x2Fu8);
    lemma_text_end_at(b, q, bt.len() as int);
    lemma_decode_encode(t);
    assert(bt.len() > 0) by {
        lemma_encode_scalar_bytes(t[0]);
        assert(bt == encode_scalar(t[0] as u32) + encode_utf8(t.drop_first()));
    }
    lemma_bytes_at_subrange(b, q, bt);
    assert(decode_text(b.subrange(q, i)) == entities_from(t, 0));
    lemma_name_bytes(b, i + 2, name);
    let ce = i + 2 + name.len();
    assert(b[ce + 0] == 0x3Eu8);
    assert(b[i + 2] == bn[0]);
    assert(skip_ws(b, i + 2) == i + 2);
    lemma_name_end_at(b, i + 2, name.len() as int);
    assert(read_name(b, i + 2) == Ok::<(int, int), super::XmlFault>((i + 2, ce)));
    assert(skip_ws(b, ce) == ce);
}

/// The written text of a well-formed element, found at `p`, is read as that
/// element, ending where the text ends.
#[verifier::spinoff_prover]
#[verifier::rlimit(100)]
proof fn lemma_elem_parse(b: Seq<u8>, p: int, m: XmlModel, ind: nat)
    requires
        well_formed(m),
        bytes_at(b, p, encode_utf8(elem_text(m, ind))),
    ensures
        spec_element(b, p) == Ok::<(XmlModel, int), super::XmlFault>((m, p + encode_utf8(elem_text(m, ind)).len())),
    decreases m, 1nat,
{
    let st = start_tag(m);
    let at_ = attrs_text(m.attributes);
    let tail = if m.children.len() == 0 {
        if m.text.len() == 0 {
            seq!['/', '>']
        } else {
            seq!['>'] + escape(m.text, false) + end_tag(m.name)
        }
    } else {
        seq!['>', '\n'] + spec_write_all(m.children, ind + 1) + pad(ind) + end_tag(m.name)
    };
    assert(elem_text(m, ind) == st + tail);
    assert(st == seq!['<'] + m.name + at_);
    lemma_encode_concat(st, tail);
    lemma_encode_concat(seq!['<'] + m.name, at_);
    lemma_encode_concat(seq!['<'], m.name);
    lemma_encode_one('<');
    let bn = encode_utf8(m.name);
    let ba = encode_utf8(at_);
    let btail = encode_utf8(tail);
    assert(encode_utf8(elem_text(m, ind)) == seq![0x3Cu8] + bn + ba + btail);
    lemma_bytes_at_split(b, p, seq![0x3Cu8] + bn + ba, btail);
    lemma_bytes_at_split(b, p, seq![0x3Cu8] + bn, ba);
    lemma_bytes_at_split(b, p, seq![0x3Cu8], bn);
    lemma_name_bytes(b, p + 1, m.name);
    let ne = p + 1 + m.name.len();
    let q = ne + ba.len();
    assert(b[p + 0] == 0x3Cu8);
    assert(b[p + 1] == bn[0]);
    assert(is_name_char(m.name[0]));
    assert(b[p + 1] != 0x21u8);
    // the first octet of the tail
    assert(tail[0] == '/' || tail[0] == '>');
    lemma_encode_scalar_bytes(tail[0]);
    assert(btail == encode_scalar(tail[0] as u32) + encode_utf8(tail.drop_first()));
    assert(b[q + 0] == btail[0]);
    assert(b[q] == 0x2Fu8 || b[q] == 0x3Eu8);
    // the byte after the name is the first of the attributes or of the tail
    if m.attributes.len() > 0 {
        lemma_attrs_front(m.attributes);
        lemma_encode_concat(seq![' '], m.name.subrange(0, 0));
        let piece = attr_piece(m.attributes[0].0, m.attributes[0].1);
        lemma_encode_concat(piece, attrs_text(m.attributes.drop_first()));
        assert(piece == seq![' '] + (m.attributes[0].0 + seq!['=', '"'] + escape(m.attributes[0].1, true) + seq!['"']));
        lemma_encode_concat(seq![' '], m.attributes[0].0 + seq!['=', '"'] + escape(m.attributes[0].1, true) + seq!['"']);
        lemma_encode_one(' ');
        assert(ba[0] == 0x20u8);
        assert(b[ne + 0] == ba[0]);
    } else {
        assert(at_ =~= Seq::<char>::empty());
        assert(ba.len() == 0);
    }
    assert(!is_name_byte(b[ne]));
    lemma_name_end_at(b, p + 1, m.name.len() as int);
    assert(skip_ws(b, p + 1) == p + 1);
    assert(read_name(b, p + 1) == Ok::<(int, int), super::XmlFault>((p + 1, ne)));
    lemma_attrs_parse(b, ne, m.attributes);
    assert(skip_ws(b, q) == q);
    let end = p + encode_utf8(elem_text(m, ind)).len();
    if m.children.len() == 0 {
        if m.text.len() == 0 {
            lemma_encode_ascii(tail);
            assert(b[q + 1] == btail[1]);
            assert(m.children =~= Seq::<XmlModel>::empty());
            assert(m.text =~= Seq::<char>::empty());
            assert(m == XmlModel { name: m.name, attributes: m.attributes, children: Seq::empty(), text: Seq::empty() });
        } else {
            let et = escape(m.text, false);
            lemma_encode_concat(seq!['>'], et + end_tag(m.name));
            assert(tail == seq!['>'] + (et + end_tag(m.name)));
            lemma_encode_one('>');
            lemma_bytes_at_split(b, q, seq![0x3Eu8], encode_utf8(et + end_tag(m.name)));
            lemma_escape_avoids(m.text, false);
            lemma_content_close(b, q + 1, m.name, Seq::empty(), Seq::empty(), et);
            lemma_entities_escape(m.text, false);
            assert(Seq::<char>::empty() + m.text =~= m.text);
            assert(m.children =~= Seq::<XmlModel>::empty());
            assert(m == XmlModel { name: m.name, attributes: m.attributes, children: Seq::empty(), text: m.text });
        }
    } else {
        let rest = seq!['\n'] + spec_write_all(m.children, ind + 1) + pad(ind) + end_tag(m.name);
        assert(tail =~= seq!['>'] + rest);
        lemma_encode_concat(seq!['>'], rest);
        lemma_encode_one('>');
        lemma_bytes_at_split(b, q, seq![0x3Eu8], encode_utf8(rest));
        assert(seq!['\n'] + spec_write_all(m.children, ind + 1) + pad(ind) + end_tag(m.name) == rest);
        assert(ws_only(seq!['\n']));
        assert(ws_only(Seq::<char>::empty()));
        assert(decreases_to!(m => m.children));
        lemma_content_parse(b, q + 1, m.name, ind, m.children, Seq::empty(), Seq::empty(), seq!['\n']);
        assert(Seq::<XmlModel>::empty() + m.children =~= m.children);
        assert(m.text =~= Seq::<char>::empty());
        assert(m == XmlModel { name: m.name, attributes: m.attributes, children: m.children, text: Seq::empty() });
    }
}

/// The written children of an element at depth `ind + 1`, then its end tag at
/// depth `ind`, found at `q` after whitespace `ws0`, are read as those
/// children, with no text.
#[verifier::spinoff_prover]
#[verifier::rlimit(60)]
proof fn lemma_content_parse(
    b: Seq<u8>,
    q: int,
    name: Seq<char>,
    ind: nat,
    kids: Seq<XmlModel>,
    done: Seq<XmlModel>,
    acc: Seq<char>,
    ws0: Seq<char>,
)
    requires
        name_ok(name),
        all_well_formed(kids),
        ws_only(acc),
        ws_only(ws0),
        ws0.len() > 0,
        bytes_at(b, q, encode_utf8(ws0 + spec_write_all(kids, ind + 1) + pad(ind) + end_tag(name))),
    ensures
        spec_content(b, q, name, done, acc) == Ok::<(Seq<XmlModel>, Seq<char>, int), super::XmlFault>(
            (done + kids, Seq::empty(), q + encode_utf8(ws0 + spec_write_all(kids, ind + 1) + pad(ind) + end_tag(name)).len()),
        ),
    decreases kids, 0nat,
{
    let doc = ws0 + spec_write_all(kids, ind + 1) + pad(ind) + end_tag(name);
    lemma_pad_ws(ind);
    lemma_pad_ws(ind + 1);
    if kids.len() == 0 {
        let w = ws0 + pad(ind);
        lemma_ws_concat(ws0, pad(ind));
        assert(spec_write_all(kids, ind + 1) =~= Seq::<char>::empty());
        assert(doc =~= w + end_tag(name));
        lemma_ws_facts(w);
        lemma_content_close(b, q, name, done, acc, w);
        lemma_ws_concat(acc, w);
        lemma_trim_ws_only(acc + w);
        assert(done + kids =~= done);
    } else {
        let k0 = kids[0];
        let restk = kids.drop_first();
        lemma_write_all_front(kids, ind + 1);
        let w = ws0 + pad(ind + 1);
        lemma_ws_concat(ws0, pad(ind + 1));
        lemma_ws_facts(w);
        let e0 = elem_text(k0, ind + 1);
        assert(well_formed(k0));
        assert(name_ok(k0.name));
        let after = seq!['\n'] + spec_write_all(restk, ind + 1) + pad(ind) + end_tag(name);
        assert(spec_write(k0, ind + 1) == pad(ind + 1) + e0 + seq!['\n']);
        assert(doc =~= w + e0 + after);
        lemma_encode_concat(w + e0, after);
        lemma_encode_concat(w, e0);
        let bw = encode_utf8(w);
        let be = encode_utf8(e0);
        lemma_bytes_at_split(b, q, bw + be, encode_utf8(after));
        lemma_bytes_at_split(b, q, bw, be);
        let i = q + bw.len();
        // the whitespace before the child is text
        lemma_encode_avoids(w, '<');
        assert forall|j: int| q <= j < i implies #[trigger] b[j] != 0x3C by {
            assert(b[q + (j - q)] == bw[j - q]);
        }
        assert(e0 == start_tag(k0) + (e0.subrange(start_tag(k0).len() as int, e0.len() as int))) by {
            assert(e0 =~= start_tag(k0) + e0.subrange(start_tag(k0).len() as int, e0.len() as int));
        }
        assert(e0[0] == '<');
        assert(e0[1] == k0.name[0]);
        lemma_encode_scalar_bytes(e0[0]);
        assert(be == encode_scalar(e0[0] as u32) + encode_utf8(e0.drop_first()));
        assert(e0.drop_first()[0] == k0.name[0]);
        lemma_encode_scalar_bytes(k0.name[0]);
        assert(encode_utf8(e0.drop_first()) == encode_scalar(k0.name[0] as u32) + encode_utf8(
            e0.drop_first().drop_first(),
        ));
        assert(b[i + 0] == be[0]);
        assert(b[i + 1] == be[1]);
        assert(b[i] == 0x3Cu8);
        assert(is_name_char(k0.name[0]));
        assert(b[i + 1] != 0x21u8 && b[i + 1] != 0x3Fu8 && b[i + 1] != 0x2Fu8);
        lemma_text_end_at(b, q, bw.len() as int);
        lemma_decode_encode(w);
        lemma_bytes_at_subrange(b, q, bw);
        assert(bw.len() > 0) by {
            lemma_encode_scalar_bytes(w[0]);
            assert(bw == encode_scalar(w[0] as u32) + encode_utf8(w.drop_first()));
        }
        assert(decode_text(b.subrange(q, i)) == w);
        // the child itself
        assert(well_formed(k0));
        lemma_elem_parse(b, i, k0, ind + 1);
        let q2 = i + be.len();
        // and the rest
        assert(ws_only(seq!['\n']));
        lemma_ws_concat(acc, w);
        lemma_content_parse(b, q2, name, ind, restk, done.push(k0), acc + w, seq!['\n']);
        assert(done.push(k0) + restk =~= done + kids);
    }
}

// ---------------------------------------------------------------------------
// Documents
// ---------------------------------------------------------------------------

/// No `?>` starts before position `n` of `s`.
pub open spec fn no_pi_close_before(s: Seq<char>, n: nat) -> bool
    decreases n,
{
    if n == 0 {
        true
    } else {
        no_pi_close_before(s, (n - 1) as nat) && !(s[n - 1] == '?' && s[n as int] == '>')
    }
}

proof fn lemma_no_pi_close(s: Seq<char>, n: nat, j: int)
    requires
        no_pi_close_before(s, n),
        0 <= j < n,
    ensures
        !(s[j] == '?' && s[j + 1] == '>'),
    decreases n,
{
    if j < n - 1 {
        lemma_no_pi_close(s, (n - 1) as nat, j);
    }
}

/// The document text of a well-formed tree is read back as that tree.
pub proof fn lemma_to_string_round_trip(m: XmlModel)
    requires
        well_formed(m),
    ensures
        spec_root(encode_utf8(spec_to_string(m))) matches Ok((m2, _)) && m2 == m,
        parse_defined(encode_utf8(spec_to_string(m))),
{
    let decl = xml_declaration();
    let e = elem_text(m, 0);
    let nl = seq!['\n'];
    assert(pad(0) =~= Seq::<char>::empty());
    assert(spec_to_string(m) =~= decl + e + nl);
    lemma_encode_concat(decl + e, nl);
    lemma_encode_concat(decl, e);
    let b = encode_utf8(spec_to_string(m));
    let bd = encode_utf8(decl);
    let be = encode_utf8(e);
    assert(b == bd + be + encode_utf8(nl));
    assert(bytes_at(b, 0, bd + be + encode_utf8(nl))) by {
        assert forall|i: int| 0 <= i < b.len() implies #[trigger] b[0 + i] == (bd + be + encode_utf8(nl))[i] by {}
    }
    lemma_bytes_at_split(b, 0, bd + be, encode_utf8(nl));
    lemma_bytes_at_split(b, 0, bd, be);
    // the declaration's octets
    assert(decl.len() == 39);
    assert forall|i: int| 0 <= i < decl.len() implies (#[trigger] decl[i] as u32) < 0x80 by {}
    lemma_encode_ascii(decl);
    assert(no_pi_close_before(decl, 36)) by {
        reveal_with_fuel(no_pi_close_before, 37);
    }
    assert forall|j: int| 0 <= j < 36 implies #[trigger] b.subrange(j, j + 2) != pi_close() by {
        lemma_no_pi_close(decl, 36, j);
        if b.subrange(j, j + 2) == pi_close() {
            assert(b.subrange(j, j + 2)[0] == b[j]);
            assert(b.subrange(j, j + 2)[1] == b[j + 1]);
            assert(b[0 + j] == bd[j]);
            assert(b[0 + (j + 1)] == bd[j + 1]);
            vstd::utf8::char_u32_cast(decl[j], decl[j] as u32);
            vstd::utf8::char_u32_cast(decl[j + 1], decl[j + 1] as u32);
            assert(decl[j] == '?');
        }
    }
    assert(b[0int + 36] == bd[36]);
    assert(b[0int + 37] == bd[37]);
    assert(b.subrange(36, 38) =~= pi_close());
    lemma_skip_until_at(b, 0, 36, pi_close());
    assert(b[0int + 0] == bd[0]);
    assert(b[0int + 1] == bd[1]);
    assert(b[0int + 38] == bd[38]);
    assert(skip_ws(b, 0) == 0);
    // the element starts after the declaration
    assert(name_ok(m.name));
    assert(e[0] == '<');
    assert(e[1] == m.name[0]);
    lemma_encode_scalar_bytes(e[0]);
    assert(be == encode_scalar(e[0] as u32) + encode_utf8(e.drop_first()));
    assert(e.drop_first()[0] == m.name[0]);
    lemma_encode_scalar_bytes(m.name[0]);
    assert(encode_utf8(e.drop_first()) == encode_scalar(m.name[0] as u32) + encode_utf8(e.drop_first().drop_first()));
    assert(b[39int + 0] == be[0]);
    assert(b[39int + 1] == be[1]);
    assert(is_name_char(m.name[0]));
    assert(skip_ws(b, 39) == 39);
    assert(skip_ws(b, 38) == 39);
    assert(skip_markup(b, 38) == 39);
    assert(skip_markup(b, 0) == 39);
    lemma_elem_parse(b, 39, m, 0);
}

} // verus!
