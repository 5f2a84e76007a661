//! What the decoder makes of the encoder's output: decoding the definite-length
//! encoding of a well-formed element gives that element back, and the decoding
//! grammar determines the element it accepts.

use vstd::prelude::*;
use vstd::arithmetic::div_mod::*;
use vstd::arithmetic::mul::*;
use crate::digits::{pw, be_digits, be_value, lemma_pw_pos, lemma_be_value_digits};
use super::{
    Tag, BerElement, BerContent, spec_first_byte, b128_len, b128_cont, spec_high_tag,
    spec_tag_bytes, byte_len, spec_len_bytes, spec_read_high, spec_read_tag, spec_read_length,
    spec_tlv, spec_encode, spec_encode_all, spec_header, spec_elem_end, spec_elem_at,
    spec_def_children, spec_def_children_at, spec_indef_children_at, spec_is_eoc_at, spec_decoded,
    BerError, lemma_byte_len_bound, lemma_byte_len_le, lemma_pw_256_small,
};

verus! {

/// `s` stands in `buf` from position `p` on.
pub open spec fn occurs_at(buf: Seq<u8>, p: int, s: Seq<u8>) -> bool {
    &&& 0 <= p
    &&& p + s.len() <= buf.len()
    &&& forall|i: int| 0 <= i < s.len() ==> #[trigger] buf[p + i] == s[i]
}

proof fn lemma_occurs_split(buf: Seq<u8>, p: int, a: Seq<u8>, b: Seq<u8>)
    requires
        occurs_at(buf, p, a + b),
    ensures
        occurs_at(buf, p, a),
        occurs_at(buf, p + a.len(), b),
{
    assert forall|i: int| 0 <= i < a.len() implies #[trigger] buf[p + i] == a[i] by {
        assert(buf[p + i] == (a + b)[i]);
    }
    assert forall|i: int| 0 <= i < b.len() implies #[trigger] buf[p + a.len() + i] == b[i] by {
        assert(buf[p + (a.len() + i)] == (a + b)[a.len() + i]);
    }
}

proof fn lemma_occurs_subrange(buf: Seq<u8>, p: int, s: Seq<u8>)
    requires
        occurs_at(buf, p, s),
    ensures
        buf.subrange(p, p + s.len()) == s,
{
    assert forall|i: int| 0 <= i < s.len() implies #[trigger] buf.subrange(p, p + s.len())[i] == s[i] by {
        assert(buf[p + i] == s[i]);
    }
    assert(buf.subrange(p, p + s.len()) =~= s);
}

// ---------------------------------------------------------------------------
// Identifier octets
// ---------------------------------------------------------------------------

proof fn lemma_first_byte_fields(c: u8, k: u8, n: u8)
    by (bit_vector)
    requires
        c <= 3,
        k == 0 || k == 0x20,
        n < 32,
    ensures
        ((c << 6u8) | k | n) / 64 == c,
        (((c << 6u8) | k | n) / 32) % 2 == (if k == 0x20 { 1u8 } else { 0u8 }),
        ((c << 6u8) | k | n) % 32 == n,
{
}

/// The value of base-128 digits read most significant first onto `acc`.
pub open spec fn b128_horner(acc: nat, s: Seq<u8>) -> nat
    decreases s.len(),
{
    if s.len() == 0 {
        acc
    } else {
        b128_horner(acc * 128 + (s[0] % 128) as nat, s.drop_first())
    }
}

proof fn lemma_horner_ge(acc: nat, s: Seq<u8>)
    ensures
        b128_horner(acc, s) >= acc,
    decreases s.len(),
{
    if s.len() > 0 {
        lemma_horner_ge(acc * 128 + (s[0] % 128) as nat, s.drop_first());
    }
}

proof fn lemma_horner_push(acc: nat, s: Seq<u8>, x: u8)
    ensures
        b128_horner(acc, s.push(x)) == b128_horner(acc, s) * 128 + (x % 128) as nat,
    decreases s.len(),
{
    if s.len() == 0 {
        assert(s.push(x).drop_first() =~= Seq::<u8>::empty());
        assert(b128_horner(acc * 128 + (x % 128) as nat, Seq::<u8>::empty()) == acc * 128 + (x % 128) as nat);
    } else {
        assert(s.push(x)[0] == s[0]);
        assert(s.push(x).drop_first() =~= s.drop_first().push(x));
        lemma_horner_push(acc * 128 + (s[0] % 128) as nat, s.drop_first(), x);
    }
}

proof fn lemma_b128_cont_len(m: nat, k: nat)
    ensures
        b128_cont(m, k).len() == k,
        forall|i: int| 0 <= i < k ==> #[trigger] b128_cont(m, k)[i] >= 128,
    decreases k,
{
    if k > 0 {
        lemma_b128_cont_len(m / 128, (k - 1) as nat);
        let s = b128_cont(m, k);
        assert forall|i: int| 0 <= i < k implies #[trigger] s[i] >= 128 by {
            if i < k - 1 {
                assert(s[i] == b128_cont(m / 128, (k - 1) as nat)[i]);
            }
        }
    }
}

proof fn lemma_horner_cont(m: nat, k: nat)
    ensures
        b128_horner(0, b128_cont(m, k)) == m % pw(128, k),
    decreases k,
{
    if k == 0 {
        assert(m % 1 == 0) by {
            lemma_mod_self_0(1);
            lemma_small_mod(0, 1);
            lemma_mod_multiples_basic(m as int, 1);
        }
    } else {
        let d = ((m % 128 + 128) as u8);
        lemma_horner_cont(m / 128, (k - 1) as nat);
        lemma_horner_push(0, b128_cont(m / 128, (k - 1) as nat), d);
        assert(d % 128 == m % 128) by {
            lemma_mod_add_multiples_vanish((m % 128) as int, 128);
            lemma_mod_bound(m as int, 128);
            lemma_small_mod((m % 128) as nat, 128);
        }
        lemma_pw_pos(128, (k - 1) as nat);
        lemma_mod_breakdown(m as int, 128, pw(128, (k - 1) as nat) as int);
        lemma_mul_is_commutative(128, ((m / 128) % pw(128, (k - 1) as nat)) as int);
    }
}

proof fn lemma_b128_len_bound(n: nat)
    ensures
        n < pw(128, b128_len(n)),
        b128_len(n) >= 1,
    decreases n,
{
    reveal_with_fuel(pw, 2);
    if n >= 128 {
        lemma_b128_len_bound(n / 128);
        lemma_fundamental_div_mod(n as int, 128);
        lemma_mul_inequality(n as int / 128 + 1, pw(128, b128_len(n / 128)) as int, 128);
        lemma_mul_is_commutative(pw(128, b128_len(n / 128)) as int, 128);
    }
}

proof fn lemma_b128_len_le(n: nat, j: nat)
    requires
        j >= 1,
        n < pw(128, j),
    ensures
        b128_len(n) <= j,
    decreases j,
{
    reveal_with_fuel(pw, 2);
    if n >= 128 {
        if j == 1 {
            assert(false);
        }
        lemma_pw_pos(128, (j - 1) as nat);
        assert(pw(128, j) == 128 * pw(128, (j - 1) as nat));
        lemma_div_is_ordered(n as int, (128 * pw(128, (j - 1) as nat) - 1) as int, 128);
        lemma_fundamental_div_mod_converse(
            (128 * pw(128, (j - 1) as nat) - 1) as int,
            128,
            (pw(128, (j - 1) as nat) - 1) as int,
            127,
        );
        lemma_b128_len_le(n / 128, (j - 1) as nat);
    }
}

/// The high-tag-number octets of `n`: their count, their continuation bits,
/// and the number they spell.
proof fn lemma_high_tag_shape(n: nat)
    ensures
        spec_high_tag(n).len() == b128_len(n),
        forall|i: int| 0 <= i < b128_len(n) - 1 ==> #[trigger] spec_high_tag(n)[i] >= 128,
        spec_high_tag(n)[b128_len(n) - 1] < 128,
        b128_horner(0, spec_high_tag(n)) == n,
{
    let l = b128_len(n);
    lemma_b128_len_bound(n);
    let c = b128_cont(n / 128, (l - 1) as nat);
    lemma_b128_cont_len(n / 128, (l - 1) as nat);
    assert forall|i: int| 0 <= i < l - 1 implies #[trigger] spec_high_tag(n)[i] >= 128 by {
        assert(spec_high_tag(n)[i] == c[i]);
    }
    lemma_horner_cont(n / 128, (l - 1) as nat);
    lemma_horner_push(0, c, (n % 128) as u8);
    lemma_pw_pos(128, (l - 1) as nat);
    lemma_mod_breakdown(n as int, 128, pw(128, (l - 1) as nat) as int);
    lemma_mul_is_commutative(128, ((n / 128) % pw(128, (l - 1) as nat)) as int);
    assert(pw(128, l) == 128 * pw(128, (l - 1) as nat));
    lemma_small_mod(n, pw(128, l));
}

proof fn lemma_read_high_digits(buf: Seq<u8>, p: int, acc: u32, shift: u32, s: Seq<u8>)
    requires
        occurs_at(buf, p, s),
        s.len() >= 1,
        forall|i: int| 0 <= i < s.len() - 1 ==> #[trigger] s[i] >= 128,
        s[s.len() - 1] < 128,
        b128_horner(acc as nat, s) < 0x1_0000_0000,
        shift + 7 * (s.len() - 1) <= 28,
    ensures
        spec_read_high(buf, p, acc, shift) == Ok::<(u32, int), BerError>(
            (b128_horner(acc as nat, s) as u32, p + s.len()),
        ),
    decreases s.len(),
{
    assert(buf[p + 0] == s[0]);
    let x = s[0];
    let next = acc as nat * 128 + (x % 128) as nat;
    lemma_horner_ge(next, s.drop_first());
    lemma_small_mod(next, 0x1_0000_0000);
    if s.len() > 1 {
        let t = s.drop_first();
        assert forall|i: int| 0 <= i < t.len() implies #[trigger] buf[p + 1 + i] == t[i] by {
            assert(buf[p + (1 + i)] == s[1 + i]);
        }
        assert forall|i: int| 0 <= i < t.len() - 1 implies #[trigger] t[i] >= 128 by {
            assert(s[1 + i] >= 128);
        }
        lemma_read_high_digits(buf, p + 1, next as u32, (shift + 7) as u32, t);
    }
}

/// The identifier octets of `t` read back as `t`.
proof fn lemma_read_tag_bytes(buf: Seq<u8>, pos: int, t: Tag)
    requires
        t.class <= 3,
        occurs_at(buf, pos, spec_tag_bytes(t)),
    ensures
        spec_read_tag(buf, pos) == Ok::<(Tag, int), BerError>((t, pos + spec_tag_bytes(t).len())),
{
    let k: u8 = if t.constructed { 0x20 } else { 0 };
    let n: u8 = if t.number < 31 { t.number as u8 } else { 0x1F };
    lemma_first_byte_fields(t.class, k, n);
    assert(buf[pos + 0] == spec_tag_bytes(t)[0]);
    assert(spec_first_byte(t) == (t.class << 6u8) | k | n);
    if t.number >= 31 {
        let h = spec_high_tag(t.number as nat);
        lemma_high_tag_shape(t.number as nat);
        lemma_pw_pos(128, 4);
        assert(pw(128, 5) == 0x8_0000_0000) by {
            reveal_with_fuel(pw, 6);
        }
        lemma_b128_len_le(t.number as nat, 5);
        lemma_occurs_split(buf, pos, seq![spec_first_byte(t)], h);
        lemma_read_high_digits(buf, pos + 1, 0, 0, h);
    }
}

// ---------------------------------------------------------------------------
// Length octets
// ---------------------------------------------------------------------------

/// The definite-form length octets of `len` read back as `len`.
proof fn lemma_read_len_bytes(buf: Seq<u8>, p: int, len: nat)
    requires
        len <= usize::MAX,
        occurs_at(buf, p, spec_len_bytes(len)),
    ensures
        spec_read_length(buf, p) == Ok::<(int, bool, int), BerError>(
            (len as int, false, p + spec_len_bytes(len).len()),
        ),
{
    assert(buf[p + 0] == spec_len_bytes(len)[0]);
    if len >= 128 {
        let k = byte_len(len);
        lemma_byte_len_bound(len);
        lemma_pw_256_small();
        lemma_byte_len_le(len, 8);
        lemma_be_value_digits(len, k);
        let d = be_digits(len, k);
        lemma_occurs_split(buf, p, seq![(0x80 + k) as u8], d);
        lemma_occurs_subrange(buf, p + 1, d);
        lemma_small_mod(len, (usize::MAX as nat + 1) as nat);
    }
}

// ---------------------------------------------------------------------------
// Elements
// ---------------------------------------------------------------------------

/// An element that its own encoding describes: every tag's class fits in two
/// bits, and a tag is marked constructed exactly when its content is a list
/// of elements, themselves well-formed.
pub open spec fn spec_well_formed(e: BerElement) -> bool
    decreases e, 1nat,
{
    &&& e.tag.class <= 3
    &&& match e.content {
        BerContent::Primitive(_) => !e.tag.constructed,
        BerContent::Constructed(children) => {
            proof {
                assert(decreases_to!(e => e.content));
                assert(decreases_to!(e.content => children));
                vstd::std_specs::vec::axiom_vec_decreases_to_view(children);
            }
            e.tag.constructed && spec_all_well_formed(children@)
        },
    }
}

/// Every element of `s` is well-formed.
pub open spec fn spec_all_well_formed(s: Seq<BerElement>) -> bool
    decreases s, 0nat,
{
    if s.len() == 0 {
        true
    } else {
        spec_well_formed(s[0]) && spec_all_well_formed(s.drop_first())
    }
}

proof fn lemma_encode_all_first(s: Seq<BerElement>)
    requires
        s.len() >= 1,
    ensures
        spec_encode_all(s) == spec_encode(s[0]) + spec_encode_all(s.drop_first()),
    decreases s.len(),
{
    if s.len() == 1 {
        assert(s.drop_last().len() == 0);
        assert(s.drop_first().len() == 0);
        assert(spec_encode_all(s.drop_first()) == Seq::<u8>::empty());
        assert(spec_encode_all(s.drop_last()) == Seq::<u8>::empty());
        assert(s.last() == s[0]);
        assert(spec_encode_all(s) == spec_encode_all(s.drop_last()) + spec_encode(s.last()));
        assert(spec_encode_all(s) =~= spec_encode(s[0]) + spec_encode_all(s.drop_first()));
    } else {
        let t = s.drop_last();
        lemma_encode_all_first(t);
        assert(t.drop_first() =~= s.drop_first().drop_last());
        assert(s.drop_first().last() == s.last());
        assert(t[0] == s[0]);
        let u = s.drop_first();
        assert(spec_encode_all(u) == spec_encode_all(u.drop_last()) + spec_encode(u.last()));
        assert(spec_encode_all(s) == spec_encode_all(t) + spec_encode(s.last()));
        assert(spec_encode_all(s) =~= spec_encode(s[0]) + spec_encode_all(s.drop_first()));
    }
}

proof fn lemma_encode_nonempty(e: BerElement)
    ensures
        spec_encode(e).len() >= 1,
{
    assert(spec_tag_bytes(e.tag).len() >= 1);
}

/// The encoding of a well-formed element, found at `pos`, decodes as that
/// element and ends where the encoding ends.
proof fn lemma_encoding_decodes(buf: Seq<u8>, pos: int, e: BerElement)
    requires
        spec_well_formed(e),
        occurs_at(buf, pos, spec_encode(e)),
        pos + spec_encode(e).len() <= usize::MAX,
    ensures
        spec_elem_end(buf, pos) == Ok::<int, BerError>(pos + spec_encode(e).len()),
        spec_elem_at(buf, pos, e),
    decreases e, 1nat,
{
    let content = match e.content {
        BerContent::Primitive(b) => b@,
        BerContent::Constructed(cs) => spec_encode_all(cs@),
    };
    let tb = spec_tag_bytes(e.tag);
    let lb = spec_len_bytes(content.len());
    assert(spec_encode(e) == spec_tlv(e.tag, content));
    assert(spec_encode(e) =~= tb + (lb + content));
    lemma_occurs_split(buf, pos, tb, lb + content);
    lemma_occurs_split(buf, pos + tb.len(), lb, content);
    lemma_read_tag_bytes(buf, pos, e.tag);
    lemma_read_len_bytes(buf, pos + tb.len(), content.len());
    let p2 = pos + tb.len() + lb.len();
    assert(spec_header(buf, pos) == Ok::<(Tag, int, bool, int), BerError>(
        (e.tag, content.len() as int, false, p2),
    ));
    match e.content {
        BerContent::Primitive(b) => {
            lemma_occurs_subrange(buf, p2, b@);
        },
        BerContent::Constructed(cs) => {
            assert(decreases_to!(e => e.content));
            assert(decreases_to!(e.content => cs));
            vstd::std_specs::vec::axiom_vec_decreases_to_view(cs);
            lemma_children_decode(buf, p2, cs@);
        },
    }
}

/// The concatenated encodings of well-formed elements, found at `p`, decode
/// as the children of a definite-length element.
proof fn lemma_children_decode(buf: Seq<u8>, p: int, cs: Seq<BerElement>)
    requires
        spec_all_well_formed(cs),
        occurs_at(buf, p, spec_encode_all(cs)),
        p + spec_encode_all(cs).len() <= usize::MAX,
    ensures
        spec_def_children(buf, p, p + spec_encode_all(cs).len()) == Ok::<(), BerError>(()),
        spec_def_children_at(buf, p, p + spec_encode_all(cs).len(), cs),
    decreases cs, 0nat,
{
    let end = p + spec_encode_all(cs).len();
    if cs.len() > 0 {
        let c = cs[0];
        let rest = cs.drop_first();
        lemma_encode_all_first(cs);
        lemma_encode_nonempty(c);
        lemma_occurs_split(buf, p, spec_encode(c), spec_encode_all(rest));
        lemma_encoding_decodes(buf, p, c);
        lemma_children_decode(buf, p + spec_encode(c).len(), rest);
    }
}

/// Decoding the definite-length encoding of a well-formed element, followed by
/// any further octets, yields that element and consumes exactly its encoding.
pub proof fn lemma_decode_of_encode(e: BerElement, rest: Seq<u8>)
    requires
        spec_well_formed(e),
        spec_encode(e).len() + rest.len() <= usize::MAX,
    ensures
        spec_elem_end(spec_encode(e) + rest, 0) == Ok::<int, BerError>(spec_encode(e).len() as int),
        spec_elem_at(spec_encode(e) + rest, 0, e),
{
    let buf = spec_encode(e) + rest;
    assert forall|i: int| 0 <= i < spec_encode(e).len() implies #[trigger] buf[0 + i] == spec_encode(e)[i] by {
        assert(buf[i] == spec_encode(e)[i]);
    }
    lemma_encoding_decodes(buf, 0, e);
}

// ---------------------------------------------------------------------------
// The grammar determines the element
// ---------------------------------------------------------------------------

/// `a` and `b` hold the same tags and octets, level by level.
pub open spec fn spec_agree(a: BerElement, b: BerElement) -> bool
    decreases a, 1nat,
{
    &&& a.tag == b.tag
    &&& match a.content {
        BerContent::Primitive(x) => match b.content {
            BerContent::Primitive(y) => x@ == y@,
            BerContent::Constructed(_) => false,
        },
        BerContent::Constructed(xs) => {
            proof {
                assert(decreases_to!(a => a.content));
                assert(decreases_to!(a.content => xs));
                vstd::std_specs::vec::axiom_vec_decreases_to_view(xs);
            }
            match b.content {
                BerContent::Primitive(_) => false,
                BerContent::Constructed(ys) => spec_all_agree(xs@, ys@),
            }
        },
    }
}

/// `xs` and `ys` agree element by element.
pub open spec fn spec_all_agree(xs: Seq<BerElement>, ys: Seq<BerElement>) -> bool
    decreases xs, 0nat,
{
    if xs.len() == 0 {
        ys.len() == 0
    } else {
        &&& ys.len() == xs.len()
        &&& spec_agree(xs[0], ys[0])
        &&& spec_all_agree(xs.drop_first(), ys.drop_first())
    }
}

/// Two elements that the grammar reads at one position agree.
pub proof fn lemma_elem_at_agree(buf: Seq<u8>, pos: int, a: BerElement, b: BerElement)
    requires
        spec_elem_at(buf, pos, a),
        spec_elem_at(buf, pos, b),
    ensures
        spec_agree(a, b),
    decreases a, 1nat,
{
    if let Ok((t, len, indef, p2)) = spec_header(buf, pos) {
        match a.content {
            BerContent::Primitive(x) => {},
            BerContent::Constructed(xs) => {
                assert(decreases_to!(a => a.content));
                assert(decreases_to!(a.content => xs));
                vstd::std_specs::vec::axiom_vec_decreases_to_view(xs);
                if let BerContent::Constructed(ys) = b.content {
                    if indef {
                        lemma_indef_children_agree(buf, p2, xs@, ys@);
                    } else {
                        lemma_def_children_agree(buf, p2, p2 + len, xs@, ys@);
                    }
                }
            },
        }
    }
}

proof fn lemma_def_children_agree(buf: Seq<u8>, p: int, end: int, xs: Seq<BerElement>, ys: Seq<BerElement>)
    requires
        spec_def_children_at(buf, p, end, xs),
        spec_def_children_at(buf, p, end, ys),
    ensures
        spec_all_agree(xs, ys),
    decreases xs, 0nat,
{
    if xs.len() > 0 && ys.len() > 0 {
        lemma_elem_at_agree(buf, p, xs[0], ys[0]);
        if let Ok(c2) = spec_elem_end(buf, p) {
            lemma_def_children_agree(buf, c2, end, xs.drop_first(), ys.drop_first());
        }
    }
}

proof fn lemma_indef_children_agree(buf: Seq<u8>, p: int, xs: Seq<BerElement>, ys: Seq<BerElement>)
    requires
        spec_indef_children_at(buf, p, xs),
        spec_indef_children_at(buf, p, ys),
    ensures
        spec_all_agree(xs, ys),
    decreases xs, 0nat,
{
    if xs.len() > 0 && ys.len() > 0 {
        lemma_elem_at_agree(buf, p, xs[0], ys[0]);
        if let Ok(c2) = spec_elem_end(buf, p) {
            lemma_indef_children_agree(buf, c2, xs.drop_first(), ys.drop_first());
        }
    }
}

/// Whatever the decoder reports for the encoding of a well-formed element,
/// followed by any further octets, is that element (up to agreement) and the
/// length of its encoding.
pub proof fn lemma_decode_partial_of_encode(
    e: BerElement,
    rest: Seq<u8>,
    r: Result<(BerElement, usize), BerError>,
)
    requires
        spec_well_formed(e),
        spec_encode(e).len() + rest.len() <= usize::MAX,
        spec_decoded(spec_encode(e) + rest, r),
    ensures
        match r {
            Ok((d, n)) => n == spec_encode(e).len() && spec_agree(d, e),
            Err(_) => false,
        },
{
    lemma_decode_of_encode(e, rest);
    if let Ok((d, n)) = r {
        lemma_elem_at_agree(spec_encode(e) + rest, 0, d, e);
    }
}

// ---------------------------------------------------------------------------
// Proper prefixes
// ---------------------------------------------------------------------------

/// High-tag-number octets cut before their last one read as truncated.
proof fn lemma_read_high_cut(buf: Seq<u8>, p: int, acc: u32, shift: u32, s: Seq<u8>)
    requires
        0 <= p,
        p <= buf.len() < p + s.len(),
        occurs_at(buf, p, s.subrange(0, buf.len() - p)),
        forall|i: int| 0 <= i < s.len() - 1 ==> #[trigger] s[i] >= 128,
        shift + 7 * (s.len() - 1) <= 28,
    ensures
        spec_read_high(buf, p, acc, shift) == Err::<(u32, int), BerError>(BerError::Truncated),
    decreases s.len(),
{
    if p < buf.len() {
        assert(buf[p + 0] == s.subrange(0, buf.len() - p)[0]);
        assert(s[0] >= 128);
        let x = s[0];
        let next = ((acc as int * 128 + (x % 128)) % 0x1_0000_0000) as u32;
        let t = s.drop_first();
        assert forall|i: int| 0 <= i < buf.len() - (p + 1) implies #[trigger] buf[p + 1 + i] == t.subrange(
            0,
            buf.len() - (p + 1),
        )[i] by {
            assert(buf[p + (1 + i)] == s.subrange(0, buf.len() - p)[1 + i]);
        }
        assert forall|i: int| 0 <= i < t.len() - 1 implies #[trigger] t[i] >= 128 by {
            assert(s[1 + i] >= 128);
        }
        lemma_read_high_cut(buf, p + 1, next, (shift + 7) as u32, t);
    }
}

/// Decoding a proper prefix of the definite-length encoding of a well-formed
/// element reports it truncated.
pub proof fn lemma_prefix_truncated(e: BerElement, k: int)
    requires
        spec_well_formed(e),
        spec_encode(e).len() <= usize::MAX,
        0 <= k < spec_encode(e).len(),
    ensures
        spec_elem_end(spec_encode(e).subrange(0, k), 0) == Err::<int, BerError>(BerError::Truncated),
        forall|r: Result<(BerElement, usize), BerError>|
            #[trigger] spec_decoded(spec_encode(e).subrange(0, k), r) ==> r == Err::<(BerElement, usize), BerError>(
                BerError::Truncated,
            ),
{
    let t = e.tag;
    let c = match e.content {
        BerContent::Primitive(b) => b@,
        BerContent::Constructed(cs) => spec_encode_all(cs@),
    };
    let tb = spec_tag_bytes(t);
    let lb = spec_len_bytes(c.len());
    let full = spec_encode(e);
    assert(full == tb + lb + c);
    let buf = full.subrange(0, k);
    if k < tb.len() {
        if k > 0 {
            let kk: u8 = if t.constructed { 0x20 } else { 0 };
            lemma_first_byte_fields(t.class, kk, 0x1F);
            assert(t.number >= 31);
            assert(buf[0] == tb[0]);
            let h = spec_high_tag(t.number as nat);
            lemma_high_tag_shape(t.number as nat);
            lemma_pw_pos(128, 4);
            assert(pw(128, 5) == 0x8_0000_0000) by {
                reveal_with_fuel(pw, 6);
            }
            lemma_b128_len_le(t.number as nat, 5);
            assert forall|i: int| 0 <= i < buf.len() - 1 implies #[trigger] buf[1 + i] == h.subrange(
                0,
                buf.len() - 1,
            )[i] by {
                assert(buf[1 + i] == tb[1 + i]);
            }
            lemma_read_high_cut(buf, 1, 0, 0, h);
        }
    } else {
        assert forall|i: int| 0 <= i < tb.len() implies #[trigger] buf[0 + i] == tb[i] by {
            assert(buf[i] == full[i]);
        }
        lemma_read_tag_bytes(buf, 0, t);
        let p1 = tb.len() as int;
        if k < p1 + lb.len() {
            if k > p1 {
                assert(buf[p1] == lb[0]);
                assert(c.len() >= 128);
                lemma_byte_len_bound(c.len());
                lemma_pw_256_small();
                lemma_byte_len_le(c.len(), 8);
                crate::digits::lemma_be_digits_len(c.len(), byte_len(c.len()));
            }
        } else {
            assert forall|i: int| 0 <= i < lb.len() implies #[trigger] buf[p1 + i] == lb[i] by {
                assert(buf[p1 + i] == full[p1 + i]);
            }
            lemma_read_len_bytes(buf, p1, c.len());
        }
    }
}

} // verus!
