//! Search-filter evaluation, DN scope tests and search-result shaping
//! (RFC 4511 §4.5).

use vstd::prelude::*;
use vstd::utf8::{decode_utf8, encode_utf8, valid_utf8, is_char_boundary};
use vstd::string::StringSliceAdditionalSpecFns;
use crate::text::{lex_lt, utf8, eq_ic, lower, lower_bytes, bytes_eq, str_eq_ignore_ascii_case, copy_bytes, trim_ws, trim_start_ws, chars_of};
use crate::ldap::backend::{Attribute, Entry, find_attr, has_attr, find_attr_index};
use crate::ldap::protocol::{Filter, PartialAttribute, Scope, SearchResultEntry, Substring, SubstringKind};

verus! {

// ---------------------------------------------------------------------------
// Byte-string order and substring matching
// ---------------------------------------------------------------------------

pub(crate) fn lex_less(a: &[u8], b: &[u8]) -> (r: bool)
    ensures
        r == lex_lt(a@, b@),
{
    let mut i: usize = 0;
    assert(a@.skip(0) =~= a@);
    assert(b@.skip(0) =~= b@);
    while i < a.len() && i < b.len()
        invariant
            i <= a@.len(),
            i <= b@.len(),
            lex_lt(a@, b@) == lex_lt(a@.skip(i as int), b@.skip(i as int)),
        decreases a.len() - i,
    {
        if a[i] != b[i] {
            return a[i] < b[i];
        }
        proof {
            assert(a@.skip(i as int).drop_first() =~= a@.skip(i + 1));
            assert(b@.skip(i as int).drop_first() =~= b@.skip(i + 1));
        }
        i = i + 1;
    }
    i < b.len()
}

/// The first position at or after `p` where `needle` occurs in `hay`.
pub open spec fn first_pos_from(hay: Seq<u8>, needle: Seq<u8>, p: int) -> Option<int>
    decreases hay.len() + 1 - p,
{
    if p < 0 || p + needle.len() > hay.len() {
        None
    } else if hay.subrange(p, p + needle.len()) == needle {
        Some(p)
    } else {
        first_pos_from(hay, needle, p + 1)
    }
}

proof fn lemma_first_pos_bound(hay: Seq<u8>, needle: Seq<u8>, p: int)
    ensures
        first_pos_from(hay, needle, p) matches Some(q) ==> p <= q && q + needle.len() <= hay.len(),
    decreases hay.len() + 1 - p,
{
    if !(p < 0 || p + needle.len() > hay.len()) && hay.subrange(p, p + needle.len()) != needle {
        lemma_first_pos_bound(hay, needle, p + 1);
    }
}

fn find_window(hay: &[u8], needle: &[u8]) -> (r: Option<usize>)
    requires
        needle@.len() > 0,
    ensures
        match first_pos_from(hay@, needle@, 0) {
            Some(q) => r == Some(q as usize),
            None => r is None,
        },
{
    let mut p: usize = 0;
    while needle.len() <= hay.len() && p <= hay.len() - needle.len()
        invariant
            needle@.len() > 0,
            first_pos_from(hay@, needle@, 0) == first_pos_from(hay@, needle@, p as int),
        decreases hay.len() + 1 - p,
    {
        if bytes_eq(&hay[p..p + needle.len()], needle) {
            return Some(p);
        }
        p = p + 1;
    }
    None
}

/// The substring components `subs` match `v` from octet `cur` on.
pub open spec fn substr_from(v: Seq<u8>, subs: Seq<Substring>, cur: int) -> bool
    decreases subs.len(),
{
    if subs.len() == 0 {
        true
    } else {
        let x = subs[0].value@;
        let rem = v.subrange(cur, v.len() as int);
        match subs[0].kind {
            SubstringKind::Initial => x.len() <= rem.len() && rem.subrange(0, x.len() as int) == x && substr_from(
                v,
                subs.drop_first(),
                cur + x.len(),
            ),
            SubstringKind::Any => 0 < x.len() <= rem.len() && match first_pos_from(rem, x, 0) {
                Some(p) => substr_from(v, subs.drop_first(), cur + p + x.len()),
                None => false,
            },
            SubstringKind::Final => x.len() <= rem.len() && rem.subrange(rem.len() - x.len(), rem.len() as int)
                == x && substr_from(v, subs.drop_first(), cur),
        }
    }
}

/// No `any` component of the list is empty.
pub open spec fn no_empty_any_subs(subs: Seq<Substring>) -> bool {
    forall|i: int| 0 <= i < subs.len() && #[trigger] subs[i].kind == SubstringKind::Any ==> subs[i].value@.len() > 0
}

fn substring_match(value: &[u8], subs: &[Substring]) -> (r: bool)
    ensures
        r == substr_from(value@, subs@, 0),
{
    let mut cursor: usize = 0;
    let mut j: usize = 0;
    assert(subs@.skip(0) =~= subs@);
    while j < subs.len()
        invariant
            j <= subs@.len(),
            cursor <= value@.len(),
            substr_from(value@, subs@, 0) == substr_from(value@, subs@.skip(j as int), cursor as int),
        decreases subs.len() - j,
    {
        let s = &subs[j];
        let n = s.value.len();
        let ghost rest = subs@.skip(j as int);
        proof {
            assert(rest[0] == subs@[j as int]);
            assert(rest.drop_first() =~= subs@.skip(j + 1));
        }
        let remaining = &value[cursor..value.len()];
        assert(remaining@ =~= value@.subrange(cursor as int, value@.len() as int));
        match s.kind {
            SubstringKind::Initial => {
                if n > remaining.len() || !bytes_eq(&remaining[0..n], s.value.as_slice()) {
                    return false;
                }
                cursor = cursor + n;
            },
            SubstringKind::Any => {
                if n == 0 || n > remaining.len() {
                    return false;
                }
                match find_window(remaining, s.value.as_slice()) {
                    Some(pos) => {
                        proof {
                            lemma_first_pos_bound(remaining@, s.value@, 0);
                        }
                        cursor = cursor + pos + n;
                    },
                    None => {
                        return false;
                    },
                }
            },
            SubstringKind::Final => {
                if n > remaining.len() || !bytes_eq(&remaining[remaining.len() - n..remaining.len()], s.value.as_slice()) {
                    return false;
                }
            },
        }
        j = j + 1;
    }
    true
}

// ---------------------------------------------------------------------------
// Filter evaluation
// ---------------------------------------------------------------------------

/// The attribute of `e` named `name` (first match, ignoring ASCII case).
pub open spec fn attr_of(e: Entry, name: Seq<char>) -> Option<Attribute> {
    match find_attr(e.attributes@, utf8(name)) {
        Some(k) => Some(e.attributes@[k]),
        None => None,
    }
}

/// Some value of the attribute is `x`.
pub open spec fn has_value(a: Attribute, x: Seq<u8>) -> bool {
    exists|i: int| 0 <= i < a.values@.len() && #[trigger] a.values@[i]@ == x
}

/// Some value of the attribute sorts at or after `x`.
pub open spec fn has_value_ge(a: Attribute, x: Seq<u8>) -> bool {
    exists|i: int| 0 <= i < a.values@.len() && !lex_lt(#[trigger] a.values@[i]@, x)
}

/// Some value of the attribute sorts at or before `x`.
pub open spec fn has_value_le(a: Attribute, x: Seq<u8>) -> bool {
    exists|i: int| 0 <= i < a.values@.len() && !lex_lt(x, #[trigger] a.values@[i]@)
}

/// Some value of the attribute matches the substring components.
pub open spec fn has_value_substr(a: Attribute, subs: Seq<Substring>) -> bool {
    exists|i: int| 0 <= i < a.values@.len() && substr_from(#[trigger] a.values@[i]@, subs, 0)
}

/// `e` satisfies the filter `f` (RFC 4511 §4.5.1; approximate match is
/// equality, extensible match never holds).
pub open spec fn filter_holds(f: Filter, e: Entry) -> bool
    decreases f, 1nat,
{
    match f {
        Filter::And(v) => {
            proof {
                vstd::std_specs::vec::axiom_vec_decreases_to_view(v);
            }
            all_hold(v@, e)
        },
        Filter::Or(v) => {
            proof {
                vstd::std_specs::vec::axiom_vec_decreases_to_view(v);
            }
            any_holds(v@, e)
        },
        Filter::Not(b) => !filter_holds(*b, e),
        Filter::Equality(a) => attr_of(e, a.attribute_desc@) matches Some(at) && has_value(at, a.assertion_value@),
        Filter::ApproxMatch(a) => attr_of(e, a.attribute_desc@) matches Some(at) && has_value(at, a.assertion_value@),
        Filter::GreaterOrEqual(a) => attr_of(e, a.attribute_desc@) matches Some(at) && has_value_ge(
            at,
            a.assertion_value@,
        ),
        Filter::LessOrEqual(a) => attr_of(e, a.attribute_desc@) matches Some(at) && has_value_le(
            at,
            a.assertion_value@,
        ),
        Filter::Present(n) => has_attr(e.attributes@, utf8(n@)),
        Filter::Substrings(sf) => attr_of(e, sf.attr_type@) matches Some(at) && has_value_substr(
            at,
            sf.substrings@,
        ),
        Filter::ExtensibleMatch(_) => false,
    }
}

/// Every filter of the list holds.
pub open spec fn all_hold(fs: Seq<Filter>, e: Entry) -> bool
    decreases fs, 0nat,
{
    if fs.len() == 0 {
        true
    } else {
        all_hold(fs.drop_last(), e) && filter_holds(fs.last(), e)
    }
}

/// Some filter of the list holds.
pub open spec fn any_holds(fs: Seq<Filter>, e: Entry) -> bool
    decreases fs, 0nat,
{
    if fs.len() == 0 {
        false
    } else {
        any_holds(fs.drop_last(), e) || filter_holds(fs.last(), e)
    }
}

/// No substring filter inside `f` has an empty `any` component (a session
/// refuses a search whose filter holds one).
pub open spec fn filter_evaluable(f: Filter) -> bool
    decreases f, 1nat,
{
    match f {
        Filter::And(v) => {
            proof {
                vstd::std_specs::vec::axiom_vec_decreases_to_view(v);
            }
            all_evaluable(v@)
        },
        Filter::Or(v) => {
            proof {
                vstd::std_specs::vec::axiom_vec_decreases_to_view(v);
            }
            all_evaluable(v@)
        },
        Filter::Not(b) => filter_evaluable(*b),
        Filter::Substrings(sf) => no_empty_any_subs(sf.substrings@),
        _ => true,
    }
}

/// Every filter of the list is evaluable.
pub open spec fn all_evaluable(fs: Seq<Filter>) -> bool
    decreases fs, 0nat,
{
    if fs.len() == 0 {
        true
    } else {
        all_evaluable(fs.drop_last()) && filter_evaluable(fs.last())
    }
}

proof fn lemma_all_evaluable_at(fs: Seq<Filter>, i: int)
    requires
        all_evaluable(fs),
        0 <= i < fs.len(),
    ensures
        filter_evaluable(fs[i]),
    decreases fs.len(),
{
    if i < fs.len() - 1 {
        lemma_all_evaluable_at(fs.drop_last(), i);
    }
}

proof fn lemma_all_hold_prefix(fs: Seq<Filter>, e: Entry, i: int)
    requires
        0 <= i <= fs.len(),
        all_hold(fs, e),
    ensures
        all_hold(fs.subrange(0, i), e),
    decreases fs.len() - i,
{
    if i < fs.len() {
        lemma_all_hold_prefix(fs, e, i + 1);
        assert(fs.subrange(0, i + 1).drop_last() =~= fs.subrange(0, i));
    } else {
        assert(fs.subrange(0, i) =~= fs);
    }
}

proof fn lemma_any_holds_prefix(fs: Seq<Filter>, e: Entry, i: int)
    requires
        0 <= i <= fs.len(),
        any_holds(fs.subrange(0, i), e),
    ensures
        any_holds(fs, e),
    decreases fs.len() - i,
{
    if i < fs.len() {
        assert(fs.subrange(0, i + 1).drop_last() =~= fs.subrange(0, i));
        lemma_any_holds_prefix(fs, e, i + 1);
    } else {
        assert(fs.subrange(0, i) =~= fs);
    }
}

fn any_value_eq(a: &Attribute, x: &[u8]) -> (r: bool)
    ensures
        r == has_value(*a, x@),
{
    let mut i: usize = 0;
    while i < a.values.len()
        invariant
            i <= a.values@.len(),
            forall|j: int| 0 <= j < i ==> a.values@[j]@ != x@,
        decreases a.values.len() - i,
    {
        if bytes_eq(a.values[i].as_slice(), x) {
            return true;
        }
        i = i + 1;
    }
    false
}

fn any_value_ge(a: &Attribute, x: &[u8]) -> (r: bool)
    ensures
        r == has_value_ge(*a, x@),
{
    let mut i: usize = 0;
    while i < a.values.len()
        invariant
            i <= a.values@.len(),
            forall|j: int| 0 <= j < i ==> lex_lt(#[trigger] a.values@[j]@, x@),
        decreases a.values.len() - i,
    {
        if !lex_less(a.values[i].as_slice(), x) {
            return true;
        }
        i = i + 1;
    }
    false
}

fn any_value_le(a: &Attribute, x: &[u8]) -> (r: bool)
    ensures
        r == has_value_le(*a, x@),
{
    let mut i: usize = 0;
    while i < a.values.len()
        invariant
            i <= a.values@.len(),
            forall|j: int| 0 <= j < i ==> lex_lt(x@, #[trigger] a.values@[j]@),
        decreases a.values.len() - i,
    {
        if !lex_less(x, a.values[i].as_slice()) {
            return true;
        }
        i = i + 1;
    }
    false
}

fn any_value_substr(a: &Attribute, subs: &Vec<Substring>) -> (r: bool)
    requires
    ensures
        r == has_value_substr(*a, subs@),
{
    let mut i: usize = 0;
    while i < a.values.len()
        invariant
            i <= a.values@.len(),
            forall|j: int| 0 <= j < i ==> !substr_from(#[trigger] a.values@[j]@, subs@, 0),
        decreases a.values.len() - i,
    {
        if substring_match(a.values[i].as_slice(), subs.as_slice()) {
            return true;
        }
        i = i + 1;
    }
    false
}

fn any_attr_named(attrs: &Vec<Attribute>, name: &str) -> (r: bool)
    ensures
        r == has_attr(attrs@, utf8(name@)),
{
    let mut i: usize = 0;
    while i < attrs.len()
        invariant
            i <= attrs@.len(),
            forall|j: int| 0 <= j < i ==> !eq_ic(#[trigger] utf8(attrs@[j].name@), utf8(name@)),
        decreases attrs.len() - i,
    {
        if str_eq_ignore_ascii_case(attrs[i].name.as_str(), name) {
            return true;
        }
        i = i + 1;
    }
    false
}

/// `true` if `entry` satisfies `filter` (RFC 4511 §4.5.1).
pub fn filter_matches(filter: &Filter, entry: &Entry) -> (r: bool)
    ensures
        r == filter_holds(*filter, *entry),
    decreases filter,
{
    match filter {
        Filter::And(subs) => {
            let mut i: usize = 0;
            while i < subs.len()
                invariant
                    i <= subs@.len(),
                    *filter == Filter::And(*subs),
                    all_hold(subs@.subrange(0, i as int), *entry),
                decreases subs.len() - i,
            {
                proof {
                    vstd::std_specs::vec::axiom_vec_index_decreases(*subs, i as int);
                    assert(decreases_to!(*filter => filter->And_0));
                    assert(subs@.subrange(0, i + 1).drop_last() =~= subs@.subrange(0, i as int));
                }
                if !filter_matches(&subs[i], entry) {
                    proof {
                        if all_hold(subs@, *entry) {
                            lemma_all_hold_prefix(subs@, *entry, i + 1);
                        }
                    }
                    return false;
                }
                i = i + 1;
            }
            assert(subs@.subrange(0, i as int) =~= subs@);
            true
        },
        Filter::Or(subs) => {
            let mut i: usize = 0;
            while i < subs.len()
                invariant
                    i <= subs@.len(),
                    *filter == Filter::Or(*subs),
                    !any_holds(subs@.subrange(0, i as int), *entry),
                decreases subs.len() - i,
            {
                proof {
                    vstd::std_specs::vec::axiom_vec_index_decreases(*subs, i as int);
                    assert(decreases_to!(*filter => filter->Or_0));
                    assert(subs@.subrange(0, i + 1).drop_last() =~= subs@.subrange(0, i as int));
                }
                if filter_matches(&subs[i], entry) {
                    proof {
                        lemma_any_holds_prefix(subs@, *entry, i + 1);
                    }
                    return true;
                }
                i = i + 1;
            }
            assert(subs@.subrange(0, i as int) =~= subs@);
            false
        },
        Filter::Not(f) => !filter_matches(f, entry),
        Filter::Equality(ava) | Filter::ApproxMatch(ava) => match entry.attribute(ava.attribute_desc.as_str()) {
            Some(a) => any_value_eq(a, ava.assertion_value.as_slice()),
            None => false,
        },
        Filter::GreaterOrEqual(ava) => match entry.attribute(ava.attribute_desc.as_str()) {
            Some(a) => any_value_ge(a, ava.assertion_value.as_slice()),
            None => false,
        },
        Filter::LessOrEqual(ava) => match entry.attribute(ava.attribute_desc.as_str()) {
            Some(a) => any_value_le(a, ava.assertion_value.as_slice()),
            None => false,
        },
        Filter::Present(name) => any_attr_named(&entry.attributes, name.as_str()),
        Filter::Substrings(sf) => match entry.attribute(sf.attr_type.as_str()) {
            Some(a) => any_value_substr(a, &sf.substrings),
            None => false,
        },
        Filter::ExtensibleMatch(_) => false,
    }
}

fn check_all_evaluable(subs: &Vec<Filter>) -> (r: bool)
    ensures
        r == all_evaluable(subs@),
    decreases subs,
{
    let mut i: usize = 0;
    while i < subs.len()
        invariant
            i <= subs@.len(),
            all_evaluable(subs@.subrange(0, i as int)),
        decreases subs.len() - i,
    {
        proof {
            vstd::std_specs::vec::axiom_vec_index_decreases(*subs, i as int);
            assert(subs@.subrange(0, i + 1).drop_last() =~= subs@.subrange(0, i as int));
        }
        if !check_filter_evaluable(&subs[i]) {
            proof {
                if all_evaluable(subs@) {
                    lemma_all_evaluable_at(subs@, i as int);
                }
            }
            return false;
        }
        i = i + 1;
    }
    assert(subs@.subrange(0, i as int) =~= subs@);
    true
}

/// Whether a filter can be evaluated: see [`filter_evaluable`].
pub fn check_filter_evaluable(filter: &Filter) -> (r: bool)
    ensures
        r == filter_evaluable(*filter),
    decreases filter,
{
    match filter {
        Filter::And(subs) => check_all_evaluable(subs),
        Filter::Or(subs) => check_all_evaluable(subs),
        Filter::Not(f) => check_filter_evaluable(f),
        Filter::Substrings(sf) => {
            let mut i: usize = 0;
            while i < sf.substrings.len()
                invariant
                    i <= sf.substrings@.len(),
                    *filter == Filter::Substrings(*sf),
                    forall|j: int|
                        0 <= j < i && #[trigger] sf.substrings@[j].kind == SubstringKind::Any
                            ==> sf.substrings@[j].value@.len() > 0,
                decreases sf.substrings.len() - i,
            {
                let s = &sf.substrings[i];
                match s.kind {
                    SubstringKind::Any => {
                        if s.value.len() == 0 {
                            assert(sf.substrings@[i as int].kind == SubstringKind::Any);
                            return false;
                        }
                    },
                    _ => {},
                }
                i = i + 1;
            }
            true
        },
        _ => true,
    }
}


// ---------------------------------------------------------------------------
// Distinguished names and scope
// ---------------------------------------------------------------------------

/// The position of the first unescaped `,` in `b` at or after `i` (a `\`
/// escapes the octet after it).
pub open spec fn dn_split_from(b: Seq<u8>, i: int) -> Option<int>
    decreases b.len() + 1 - i,
{
    if i < 0 || i >= b.len() {
        None
    } else if b[i] == 0x5Cu8 {
        dn_split_from(b, i + 2)
    } else if b[i] == 0x2Cu8 {
        Some(i)
    } else {
        dn_split_from(b, i + 1)
    }
}

proof fn lemma_dn_split_bound(b: Seq<u8>, i: int)
    ensures
        dn_split_from(b, i) matches Some(k) ==> i <= k < b.len() && b[k] == 0x2Cu8,
    decreases b.len() + 1 - i,
{
    if 0 <= i < b.len() {
        if b[i] == 0x5Cu8 {
            lemma_dn_split_bound(b, i + 2);
        } else if b[i] != 0x2Cu8 {
            lemma_dn_split_bound(b, i + 1);
        }
    }
}

/// The parent of a DN: what follows its first unescaped `,`, without leading
/// whitespace; `None` for a DN with a single RDN.
pub open spec fn spec_dn_parent(dn: Seq<char>) -> Option<Seq<char>> {
    let b = utf8(dn);
    match dn_split_from(b, 0) {
        Some(i) => Some(trim_ws(decode_utf8(b.subrange(i + 1, b.len() as int)))),
        None => None,
    }
}

/// Returns the parent DN of `dn`, or `None` if it is a top-level DN.
///
/// Honors backslash escapes (so an escaped comma is not treated as a separator).
/// Quoting is not specially handled.
pub fn dn_parent(dn: &str) -> (r: Option<String>)
    ensures
        match spec_dn_parent(dn@) {
            Some(p) => r matches Some(s) && s@ == p,
            None => r is None,
        },
{
    let bytes = dn.as_bytes();
    let ghost b = utf8(dn@);
    let mut i: usize = 0;
    while i < bytes.len()
        invariant
            bytes@ == b,
            b == utf8(dn@),
            i <= bytes@.len(),
            dn_split_from(b, 0) == dn_split_from(b, i as int),
        decreases bytes.len() - i,
    {
        if bytes[i] == 0x5C {
            if bytes.len() - i <= 2 {
                assert(dn_split_from(b, i + 2) is None);
                return None;
            }
            i = i + 2;
        } else if bytes[i] == 0x2C {
            proof {
                vstd::utf8::encode_utf8_valid_utf8(dn@);
                vstd::utf8::is_char_boundary_iff_not_is_continuation_byte(b, i as int);
            }
            let (_, rest) = dn.split_at(i);
            let ghost rb = rest.spec_bytes();
            proof {
                vstd::utf8::valid_utf8_split(b, i as int);
                assert(rb =~= b.subrange(i as int, b.len() as int));
                assert(rb[0] == 0x2Cu8);
                if rb.len() == 1 {
                    vstd::utf8::is_char_boundary_start_end_of_seq(rb);
                } else {
                    vstd::utf8::is_char_boundary_iff_not_is_continuation_byte(rb, 0);
                    reveal_with_fuel(is_char_boundary, 2);
                }
            }
            let (_, tail) = rest.split_at(1);
            proof {
                assert(tail.spec_bytes() =~= b.subrange(i + 1, b.len() as int));
                vstd::utf8::encode_utf8_decode_utf8(tail@);
            }
            let t = trim_start_ws(tail);
            return Some(t.to_owned());
        } else {
            i = i + 1;
        }
    }
    None
}

proof fn lemma_trim_ws_len(s: Seq<char>)
    ensures
        trim_ws(s).len() <= s.len(),
    decreases s.len(),
{
    if s.len() > 0 && crate::text::is_white_space(s[0]) {
        lemma_trim_ws_len(s.drop_first());
    }
}

/// Decoding what follows a character boundary past the start gives fewer
/// characters than decoding the whole.
proof fn lemma_decode_suffix_shorter(b: Seq<u8>, j: int)
    requires
        vstd::utf8::valid_utf8(b),
        vstd::utf8::is_char_boundary(b, j),
        0 < j <= b.len(),
    ensures
        vstd::utf8::valid_utf8(b.subrange(j, b.len() as int)),
        decode_utf8(b.subrange(j, b.len() as int)).len() < decode_utf8(b).len(),
    decreases b.len(),
{
    vstd::utf8::valid_utf8_split(b, j);
    let l1 = vstd::utf8::length_of_first_scalar(b);
    let tail = vstd::utf8::pop_first_scalar(b);
    assert(b.len() > 0);
    assert(1 <= l1 <= b.len());
    assert(decode_utf8(b).len() == 1 + decode_utf8(tail).len());
    if j == l1 {
        assert(tail =~= b.subrange(j, b.len() as int));
    } else {
        assert(vstd::utf8::is_char_boundary(tail, j - l1));
        assert(j - l1 > 0);
        lemma_decode_suffix_shorter(tail, j - l1);
        assert(tail.subrange(j - l1, tail.len() as int) =~= b.subrange(j, b.len() as int));
    }
}

/// The parent of a DN is shorter than the DN.
proof fn lemma_parent_shorter(dn: Seq<char>)
    ensures
        spec_dn_parent(dn) matches Some(p) ==> p.len() < dn.len(),
{
    let b = utf8(dn);
    lemma_dn_split_bound(b, 0);
    if let Some(k) = dn_split_from(b, 0) {
        vstd::utf8::encode_utf8_valid_utf8(dn);
        vstd::utf8::encode_utf8_decode_utf8(dn);
        vstd::utf8::is_char_boundary_iff_not_is_continuation_byte(b, k);
        vstd::utf8::valid_utf8_split(b, k);
        let rb = b.subrange(k, b.len() as int);
        assert(rb[0] == 0x2Cu8);
        if rb.len() == 1 {
            vstd::utf8::is_char_boundary_start_end_of_seq(rb);
        } else {
            vstd::utf8::is_char_boundary_iff_not_is_continuation_byte(rb, 0);
            reveal_with_fuel(vstd::utf8::is_char_boundary, 2);
        }
        lemma_decode_suffix_shorter(rb, 1);
        assert(rb.subrange(1, rb.len() as int) =~= b.subrange(k + 1, b.len() as int));
        if k > 0 {
            lemma_decode_suffix_shorter(b, k);
        } else {
            assert(rb =~= b);
        }
        lemma_trim_ws_len(decode_utf8(b.subrange(k + 1, b.len() as int)));
    }
}

/// Search scopes nest: the base entry and the entries one level below it are
/// in its whole subtree.
pub proof fn lemma_scopes_nest(base: Seq<char>, dn: Seq<char>)
    ensures
        spec_scope_match(Scope::Base, base, dn) ==> spec_scope_match(Scope::WholeSubtree, base, dn),
        spec_scope_match(Scope::SingleLevel, base, dn) ==> spec_scope_match(Scope::WholeSubtree, base, dn),
{
    lemma_parent_shorter(dn);
    let bl = lower(utf8(base));
    if let Some(p) = spec_dn_parent(dn) {
        if lower(utf8(p)) == bl {
            assert(in_subtree(p, bl));
        }
    }
}

/// `scope` of `base` contains `dn`; DNs are compared ignoring ASCII case.
pub open spec fn spec_scope_match(scope: Scope, base: Seq<char>, dn: Seq<char>) -> bool {
    let bl = lower(utf8(base));
    let dl = lower(utf8(dn));
    match scope {
        Scope::Base => dl == bl,
        Scope::SingleLevel => match spec_dn_parent(dn) {
            Some(p) => lower(utf8(p)) == bl && dl != bl,
            None => false,
        },
        Scope::WholeSubtree => in_subtree(dn, bl),
    }
}

/// `dn` is the entry with lower-cased key `bl` or one of its subordinates:
/// it, or one of the parents reached from it, has that key.
pub open spec fn in_subtree(dn: Seq<char>, bl: Seq<u8>) -> bool
    decreases dn.len(),
{
    if lower(utf8(dn)) == bl {
        true
    } else {
        match spec_dn_parent(dn) {
            Some(p) => if p.len() < dn.len() {
                in_subtree(p, bl)
            } else {
                false
            },
            None => false,
        }
    }
}

/// `true` if `dn` falls within `scope` of `base` (RFC 4511 §4.5.1).
pub fn scope_match(scope: Scope, base: &str, dn: &str) -> (r: bool)
    ensures
        r == spec_scope_match(scope, base@, dn@),
{
    let base_l = lower_bytes(base.as_bytes());
    let dn_l = lower_bytes(dn.as_bytes());
    match scope {
        Scope::Base => bytes_eq(dn_l.as_slice(), base_l.as_slice()),
        Scope::SingleLevel => match dn_parent(dn) {
            Some(parent) => {
                let pl = lower_bytes(parent.as_str().as_bytes());
                bytes_eq(pl.as_slice(), base_l.as_slice()) && !bytes_eq(dn_l.as_slice(), base_l.as_slice())
            },
            None => false,
        },
        Scope::WholeSubtree => {
            let mut cur: String = dn.to_owned();
            loop
                invariant
                    scope is WholeSubtree,
                    base_l@ == lower(utf8(base@)),
                    in_subtree(dn@, base_l@) == in_subtree(cur@, base_l@),
                decreases cur@.len(),
            {
                let cl = lower_bytes(cur.as_str().as_bytes());
                if bytes_eq(cl.as_slice(), base_l.as_slice()) {
                    return true;
                }
                match dn_parent(cur.as_str()) {
                    Some(p) => {
                        if chars_of(p.as_str()).len() < chars_of(cur.as_str()).len() {
                            cur = p;
                        } else {
                            return false;
                        }
                    },
                    None => {
                        return false;
                    },
                }
            }
        },
    }
}

// ---------------------------------------------------------------------------
// Search results
// ---------------------------------------------------------------------------

/// The selection asks for every user attribute: it is empty or names `*`.
pub open spec fn select_all(sel: Seq<String>) -> bool {
    sel.len() == 0 || exists|j: int| 0 <= j < sel.len() && utf8(#[trigger] sel[j]@) == seq![0x2Au8]
}

/// The attribute `name` is requested by the selection (names compare
/// ignoring ASCII case).
pub open spec fn is_selected(sel: Seq<String>, name: Seq<char>) -> bool {
    select_all(sel) || exists|j: int| 0 <= j < sel.len() && eq_ic(utf8(#[trigger] sel[j]@), utf8(name))
}

/// The attributes of the list that the selection requests, in order.
pub open spec fn selected_attrs(attrs: Seq<Attribute>, sel: Seq<String>) -> Seq<Attribute>
    decreases attrs.len(),
{
    if attrs.len() == 0 {
        Seq::empty()
    } else {
        selected_attrs(attrs.drop_last(), sel) + if is_selected(sel, attrs.last().name@) {
            seq![attrs.last()]
        } else {
            Seq::empty()
        }
    }
}

/// Two value lists hold the same octet strings in the same order.
pub open spec fn same_values(a: Seq<Vec<u8>>, b: Seq<Vec<u8>>) -> bool {
    a.len() == b.len() && forall|k: int| 0 <= k < a.len() ==> #[trigger] a[k]@ == b[k]@
}

/// `p` is the search-result form of the attribute `a`.
pub open spec fn result_attr_of(p: PartialAttribute, a: Attribute, types_only: bool) -> bool {
    &&& p.attr_type@ == a.name@
    &&& if types_only {
        p.values@.len() == 0
    } else {
        same_values(p.values@, a.values@)
    }
}

/// A copy of a list of octet strings.
pub fn copy_values(vs: &Vec<Vec<u8>>) -> (r: Vec<Vec<u8>>)
    ensures
        same_values(r@, vs@),
{
    let mut out: Vec<Vec<u8>> = Vec::new();
    let mut i: usize = 0;
    while i < vs.len()
        invariant
            i <= vs@.len(),
            out@.len() == i,
            forall|k: int| 0 <= k < i ==> #[trigger] out@[k]@ == vs@[k]@,
        decreases vs.len() - i,
    {
        out.push(copy_bytes(vs[i].as_slice()));
        i = i + 1;
    }
    out
}

fn selects_all(sel: &[String]) -> (r: bool)
    ensures
        r == select_all(sel@),
{
    if sel.len() == 0 {
        return true;
    }
    let mut j: usize = 0;
    while j < sel.len()
        invariant
            j <= sel@.len(),
            sel@.len() > 0,
            forall|k: int| 0 <= k < j ==> utf8(#[trigger] sel@[k]@) != seq![0x2Au8],
        decreases sel.len() - j,
    {
        let b = sel[j].as_str().as_bytes();
        if b.len() == 1 && b[0] == 0x2A {
            assert(b@ =~= seq![0x2Au8]);
            return true;
        }
        assert(b@ != seq![0x2Au8]);
        j = j + 1;
    }
    false
}

fn selects_name(sel: &[String], name: &str) -> (r: bool)
    ensures
        r == exists|j: int| 0 <= j < sel@.len() && eq_ic(utf8(#[trigger] sel@[j]@), utf8(name@)),
{
    let mut j: usize = 0;
    while j < sel.len()
        invariant
            j <= sel@.len(),
            forall|k: int| 0 <= k < j ==> !eq_ic(utf8(#[trigger] sel@[k]@), utf8(name@)),
        decreases sel.len() - j,
    {
        if str_eq_ignore_ascii_case(sel[j].as_str(), name) {
            return true;
        }
        j = j + 1;
    }
    false
}

/// Build a [`SearchResultEntry`] from `entry`, honoring `types_only` and the
/// requested attribute selection (`*` or an empty list means "all user
/// attributes").
pub fn entry_to_result(entry: &Entry, types_only: bool, attributes: &[String]) -> (r: SearchResultEntry)
    ensures
        r.object_name@ == entry.dn@,
        r.attributes@.len() == selected_attrs(entry.attributes@, attributes@).len(),
        forall|i: int|
            0 <= i < r.attributes@.len() ==> #[trigger] result_attr_of(
                r.attributes@[i],
                selected_attrs(entry.attributes@, attributes@)[i],
                types_only,
            ),
{
    let all = selects_all(attributes);
    let mut attrs: Vec<PartialAttribute> = Vec::new();
    let mut i: usize = 0;
    while i < entry.attributes.len()
        invariant
            i <= entry.attributes@.len(),
            all == select_all(attributes@),
            attrs@.len() == selected_attrs(entry.attributes@.subrange(0, i as int), attributes@).len(),
            forall|k: int|
                0 <= k < attrs@.len() ==> #[trigger] result_attr_of(
                    attrs@[k],
                    selected_attrs(entry.attributes@.subrange(0, i as int), attributes@)[k],
                    types_only,
                ),
        decreases entry.attributes.len() - i,
    {
        let a = &entry.attributes[i];
        let ghost prev = selected_attrs(entry.attributes@.subrange(0, i as int), attributes@);
        proof {
            assert(entry.attributes@.subrange(0, i + 1).drop_last() =~= entry.attributes@.subrange(0, i as int));
        }
        if all || selects_name(attributes, a.name.as_str()) {
            let values = if types_only {
                Vec::new()
            } else {
                copy_values(&a.values)
            };
            attrs.push(PartialAttribute { attr_type: a.name.clone(), values });
            proof {
                let next = selected_attrs(entry.attributes@.subrange(0, i + 1), attributes@);
                assert(next =~= prev.push(*a));
                assert forall|k: int| 0 <= k < attrs@.len() implies #[trigger] result_attr_of(
                    attrs@[k],
                    next[k],
                    types_only,
                ) by {
                    if k < prev.len() {
                        assert(result_attr_of(attrs@[k], prev[k], types_only));
                    }
                }
            }
        } else {
            proof {
                let next = selected_attrs(entry.attributes@.subrange(0, i + 1), attributes@);
                assert(next =~= prev);
            }
        }
        i = i + 1;
    }
    assert(entry.attributes@.subrange(0, i as int) =~= entry.attributes@);
    SearchResultEntry { object_name: entry.dn.clone(), attributes: attrs }
}

/// A substring filter whose last component is `final(x)` holds of a value
/// only when the value ends with `x`; one whose first component is
/// `initial(x)` only when the value starts with `x`.
pub proof fn lemma_substrings_anchor(v: Seq<u8>, subs: Seq<Substring>)
    requires
        substr_from(v, subs, 0),
        subs.len() > 0,
    ensures
        subs.last().kind == SubstringKind::Final ==> subs.last().value@.len() <= v.len() && v.subrange(
            v.len() - subs.last().value@.len(),
            v.len() as int,
        ) == subs.last().value@,
        subs[0].kind == SubstringKind::Initial ==> subs[0].value@.len() <= v.len() && v.subrange(
            0,
            subs[0].value@.len() as int,
        ) == subs[0].value@,
{
    assert(v.subrange(0, v.len() as int) =~= v);
    if subs.last().kind == SubstringKind::Final {
        lemma_substrings_final_from(v, subs, 0);
    }
}

proof fn lemma_substrings_final_from(v: Seq<u8>, subs: Seq<Substring>, cur: int)
    requires
        substr_from(v, subs, cur),
        subs.len() > 0,
        0 <= cur <= v.len(),
        subs.last().kind == SubstringKind::Final,
    ensures
        subs.last().value@.len() <= v.len() - cur,
        v.subrange(v.len() - subs.last().value@.len(), v.len() as int) == subs.last().value@,
    decreases subs.len(),
{
    let x = subs[0].value@;
    let rem = v.subrange(cur, v.len() as int);
    if subs.len() == 1 {
        assert(subs[0] == subs.last());
        assert(rem.subrange(rem.len() - x.len(), rem.len() as int) =~= v.subrange(
            v.len() - x.len(),
            v.len() as int,
        ));
    } else {
        let rest = subs.drop_first();
        assert(rest.last() == subs.last());
        match subs[0].kind {
            SubstringKind::Initial => {
                lemma_substrings_final_from(v, rest, cur + x.len());
            },
            SubstringKind::Any => {
                lemma_first_pos_bound(rem, x, 0);
                let p = first_pos_from(rem, x, 0)->Some_0;
                lemma_substrings_final_from(v, rest, cur + p + x.len());
            },
            SubstringKind::Final => {
                lemma_substrings_final_from(v, rest, cur);
            },
        }
    }
}

/// The filter `(a=*x)`, a single `final(x)` component, holds of a value
/// exactly when the value ends with `x`.
pub proof fn lemma_final_only(v: Seq<u8>, s: Substring)
    requires
        s.kind == SubstringKind::Final,
    ensures
        substr_from(v, seq![s], 0) <==> (s.value@.len() <= v.len() && v.subrange(
            v.len() - s.value@.len(),
            v.len() as int,
        ) == s.value@),
{
    let ss = seq![s];
    assert(v.subrange(0, v.len() as int) =~= v);
    assert(ss[0] == s);
    assert(ss.drop_first() =~= Seq::<Substring>::empty());
    assert(substr_from(v, ss.drop_first(), 0));
    assert(substr_from(v, ss.drop_first(), s.value@.len() as int));
}

/// The filter `(a=x*)`, a single `initial(x)` component, holds of a value
/// exactly when the value starts with `x`.
pub proof fn lemma_initial_only(v: Seq<u8>, s: Substring)
    requires
        s.kind == SubstringKind::Initial,
    ensures
        substr_from(v, seq![s], 0) <==> (s.value@.len() <= v.len() && v.subrange(0, s.value@.len() as int)
            == s.value@),
{
    let ss = seq![s];
    assert(v.subrange(0, v.len() as int) =~= v);
    assert(ss[0] == s);
    assert(ss.drop_first() =~= Seq::<Substring>::empty());
    assert(substr_from(v, ss.drop_first(), 0));
    assert(substr_from(v, ss.drop_first(), s.value@.len() as int));
}

/// `needle` occurs in `hay` at `q`.
pub open spec fn occurs_at_pos(hay: Seq<u8>, needle: Seq<u8>, q: int) -> bool {
    0 <= q && q + needle.len() <= hay.len() && hay.subrange(q, q + needle.len()) == needle
}

proof fn lemma_first_pos_complete(hay: Seq<u8>, needle: Seq<u8>, p: int, q: int)
    requires
        0 <= p <= q,
        occurs_at_pos(hay, needle, q),
    ensures
        first_pos_from(hay, needle, p) is Some,
    decreases q - p,
{
    if hay.subrange(p, p + needle.len()) != needle {
        lemma_first_pos_complete(hay, needle, p + 1, q);
    }
}

proof fn lemma_first_pos_sound(hay: Seq<u8>, needle: Seq<u8>, p: int)
    ensures
        first_pos_from(hay, needle, p) matches Some(q) ==> occurs_at_pos(hay, needle, q),
    decreases hay.len() + 1 - p,
{
    if !(p < 0 || p + needle.len() > hay.len()) && hay.subrange(p, p + needle.len()) != needle {
        lemma_first_pos_sound(hay, needle, p + 1);
    }
}

/// The filter `(a=*x*)`, a single `any(x)` component, holds of a value
/// exactly when `x` is not empty and occurs in the value.
pub proof fn lemma_any_only(v: Seq<u8>, s: Substring)
    requires
        s.kind == SubstringKind::Any,
    ensures
        substr_from(v, seq![s], 0) <==> (s.value@.len() > 0 && exists|q: int| occurs_at_pos(v, s.value@, q)),
{
    let ss = seq![s];
    let x = s.value@;
    assert(v.subrange(0, v.len() as int) =~= v);
    assert(ss[0] == s);
    assert(ss.drop_first() =~= Seq::<Substring>::empty());
    lemma_first_pos_sound(v, x, 0);
    match first_pos_from(v, x, 0) {
        Some(q) => {
            assert(substr_from(v, ss.drop_first(), q + x.len()));
            assert(occurs_at_pos(v, x, q));
        },
        None => {
            if x.len() > 0 && exists|q: int| occurs_at_pos(v, x, q) {
                let q = choose|q: int| occurs_at_pos(v, x, q);
                lemma_first_pos_complete(v, x, 0, q);
            }
        },
    }
}

/// The total length of the substring components.
pub open spec fn subs_len(subs: Seq<Substring>) -> nat
    decreases subs.len(),
{
    if subs.len() == 0 {
        0
    } else {
        subs[0].value@.len() + subs_len(subs.drop_first())
    }
}

/// The components of a matching substring filter take up distinct parts of
/// the value in order: when no component but the last is `final`, their
/// lengths add up to at most what is left of the value.
pub proof fn lemma_substrings_fit(v: Seq<u8>, subs: Seq<Substring>, cur: int)
    requires
        0 <= cur <= v.len(),
        substr_from(v, subs, cur),
        forall|i: int| 0 <= i < subs.len() - 1 ==> (#[trigger] subs[i]).kind != SubstringKind::Final,
    ensures
        cur + subs_len(subs) <= v.len(),
    decreases subs.len(),
{
    if subs.len() > 0 {
        let x = subs[0].value@;
        let rem = v.subrange(cur, v.len() as int);
        let rest = subs.drop_first();
        assert forall|i: int| 0 <= i < rest.len() - 1 implies (#[trigger] rest[i]).kind != SubstringKind::Final by {
            assert(rest[i] == subs[i + 1]);
        }
        match subs[0].kind {
            SubstringKind::Initial => {
                lemma_substrings_fit(v, rest, cur + x.len());
            },
            SubstringKind::Any => {
                lemma_first_pos_bound(rem, x, 0);
                let p = first_pos_from(rem, x, 0)->Some_0;
                lemma_substrings_fit(v, rest, cur + p + x.len());
            },
            SubstringKind::Final => {
                assert(rest.len() == 0);
                assert(subs_len(rest) == 0);
            },
        }
    }
}

} // verus!
