//! Decoding of LDAP request messages (RFC 4511 §4) from BER elements.
//!
//! Each decoder is specified by two predicates over the element tree: one
//! saying when the element is well-formed for that ASN.1 type, and one
//! relating the element to the decoded value. Apart from the two range errors
//! of the top-level message, every rejection is `BerError::Unexpected`.

use vstd::prelude::*;
use crate::ldap::backend::{Attribute, Entry, Modification, ModificationOp, ModifyDnRequest, SaslCredentials};
use crate::ldap::ber::{BerContent, BerElement, BerError, Tag, spec_bytes_to_int, spec_elem_at, spec_elem_end};
use crate::ldap::ber::{CLASS_APPLICATION, CLASS_CONTEXT};
use crate::ldap::ber::universal;
use crate::ldap::protocol::{
    AddRequest, AttributeValueAssertion, AuthChoice, BindRequest, CompareRequest, Control, ExtendedRequest,
    Filter, LdapRequest, MatchingRuleAssertion, ModifyRequest, PartialAttribute, RequestOp, Scope,
    SearchRequest, Substring, SubstringFilter, SubstringKind,
};

verus! {

// ---------------------------------------------------------------------------
// Views of a single element
// ---------------------------------------------------------------------------

/// The value octets of a primitive element.
pub open spec fn bytes_of(e: BerElement) -> Option<Seq<u8>> {
    match e.content {
        BerContent::Primitive(p) => Some(p@),
        BerContent::Constructed(_) => None,
    }
}

/// The nested elements of a constructed element.
pub open spec fn kids_of(e: BerElement) -> Option<Seq<BerElement>> {
    match e.content {
        BerContent::Constructed(c) => Some(c@),
        BerContent::Primitive(_) => None,
    }
}

/// The INTEGER an element carries, when it decodes.
pub open spec fn int_of(e: BerElement) -> Option<i64> {
    match e.content {
        BerContent::Primitive(p) => match spec_bytes_to_int(p@) {
            Ok(v) => Some(v),
            Err(_) => None,
        },
        BerContent::Constructed(_) => None,
    }
}

/// The BOOLEAN an element carries, when it decodes.
pub open spec fn bool_of(e: BerElement) -> Option<bool> {
    match e.content {
        BerContent::Primitive(p) => if p@.len() == 1 {
            Some(p@[0] != 0)
        } else {
            None
        },
        BerContent::Constructed(_) => None,
    }
}

/// The UTF-8 string an element carries, when it decodes.
pub open spec fn str_of(e: BerElement) -> Option<Seq<char>> {
    e.spec_as_str()
}

/// The last element of `ks` carrying tag `t`.
pub open spec fn last_tagged(ks: Seq<BerElement>, t: Tag) -> Option<BerElement>
    decreases ks.len(),
{
    if ks.len() == 0 {
        None
    } else if ks.last().tag == t {
        Some(ks.last())
    } else {
        last_tagged(ks.drop_last(), t)
    }
}

fn get_str(e: &BerElement) -> (r: Result<String, BerError>)
    ensures
        match r {
            Ok(s) => str_of(*e) == Some(s@),
            Err(x) => str_of(*e) is None && x == BerError::Unexpected,
        },
{
    let s = e.as_str()?;
    Ok(s.to_owned())
}

fn get_bytes(e: &BerElement) -> (r: Result<Vec<u8>, BerError>)
    ensures
        match r {
            Ok(b) => bytes_of(*e) == Some(b@),
            Err(x) => bytes_of(*e) is None && x == BerError::Unexpected,
        },
{
    match e.as_bytes() {
        Some(b) => Ok(vstd::slice::slice_to_vec(b)),
        None => Err(BerError::Unexpected),
    }
}

fn get_int(e: &BerElement) -> (r: Result<i64, BerError>)
    ensures
        match r {
            Ok(v) => int_of(*e) == Some(v),
            Err(x) => int_of(*e) is None && x == BerError::Unexpected,
        },
{
    match e.as_int() {
        Ok(v) => Ok(v),
        Err(_) => Err(BerError::Unexpected),
    }
}

fn get_bool(e: &BerElement) -> (r: Result<bool, BerError>)
    ensures
        match r {
            Ok(v) => bool_of(*e) == Some(v),
            Err(x) => bool_of(*e) is None && x == BerError::Unexpected,
        },
{
    match e.as_bool() {
        Ok(v) => Ok(v),
        Err(_) => Err(BerError::Unexpected),
    }
}

fn get_kids(e: &BerElement) -> (r: Result<&[BerElement], BerError>)
    ensures
        match r {
            Ok(k) => kids_of(*e) == Some(k@),
            Err(x) => kids_of(*e) is None && x == BerError::Unexpected,
        },
{
    match e.as_children() {
        Some(k) => Ok(k),
        None => Err(BerError::Unexpected),
    }
}

fn same_tag(a: Tag, b: Tag) -> (r: bool)
    ensures
        r == (a == b),
{
    a.class == b.class && a.constructed == b.constructed && a.number == b.number
}

// ---------------------------------------------------------------------------
// AttributeValueAssertion, attribute lists
// ---------------------------------------------------------------------------

/// `el` is a well-formed `AttributeValueAssertion`.
pub open spec fn ava_ok(el: BerElement) -> bool {
    match kids_of(el) {
        Some(k) => k.len() == 2 && str_of(k[0]) is Some && bytes_of(k[1]) is Some,
        None => false,
    }
}

/// `el` encodes the assertion `a`.
pub open spec fn ava_is(el: BerElement, a: AttributeValueAssertion) -> bool {
    match kids_of(el) {
        Some(k) => k.len() == 2 && str_of(k[0]) == Some(a.attribute_desc@) && bytes_of(k[1]) == Some(
            a.assertion_value@,
        ),
        None => false,
    }
}

fn decode_ava(el: &BerElement) -> (r: Result<AttributeValueAssertion, BerError>)
    ensures
        match r {
            Ok(a) => ava_is(*el, a) && ava_ok(*el),
            Err(x) => !ava_ok(*el) && x == BerError::Unexpected,
        },
{
    let kids = get_kids(el)?;
    if kids.len() != 2 {
        return Err(BerError::Unexpected);
    }
    let attribute_desc = get_str(&kids[0])?;
    let assertion_value = get_bytes(&kids[1])?;
    Ok(AttributeValueAssertion { attribute_desc, assertion_value })
}

/// `el` is a SEQUENCE of strings.
pub open spec fn strs_ok(el: BerElement) -> bool {
    match kids_of(el) {
        Some(k) => forall|i: int| 0 <= i < k.len() ==> (#[trigger] str_of(k[i])) is Some,
        None => false,
    }
}

/// `el` is the SEQUENCE of the strings `out`.
pub open spec fn strs_is(el: BerElement, out: Seq<String>) -> bool {
    match kids_of(el) {
        Some(k) => k.len() == out.len() && forall|i: int| 0 <= i < k.len() ==> #[trigger] str_of(k[i]) == Some(out[i]@),
        None => false,
    }
}

fn decode_attribute_selection(el: &BerElement) -> (r: Result<Vec<String>, BerError>)
    ensures
        match r {
            Ok(v) => strs_is(*el, v@) && strs_ok(*el),
            Err(x) => !strs_ok(*el) && x == BerError::Unexpected,
        },
{
    let kids = get_kids(el)?;
    let mut out: Vec<String> = Vec::new();
    let mut i: usize = 0;
    while i < kids.len()
        invariant
            i <= kids@.len(),
            kids_of(*el) == Some(kids@),
            out@.len() == i,
            forall|j: int| 0 <= j < i ==> #[trigger] str_of(kids@[j]) == Some(out@[j]@),
        decreases kids.len() - i,
    {
        let s = get_str(&kids[i])?;
        out.push(s);
        i = i + 1;
    }
    Ok(out)
}

/// `el` is a well-formed `PartialAttribute` (type plus SET OF value).
pub open spec fn pa_ok(el: BerElement) -> bool {
    match kids_of(el) {
        Some(k) => {
            &&& k.len() == 2
            &&& str_of(k[0]) is Some
            &&& kids_of(k[1]) matches Some(vs) && forall|i: int| 0 <= i < vs.len() ==> (#[trigger] bytes_of(vs[i])) is Some
        },
        None => false,
    }
}

/// `el` encodes the attribute `name` with the values `values`.
pub open spec fn pa_is(el: BerElement, name: Seq<char>, values: Seq<Vec<u8>>) -> bool {
    match kids_of(el) {
        Some(k) => {
            &&& k.len() == 2
            &&& str_of(k[0]) == Some(name)
            &&& kids_of(k[1]) matches Some(vs) && vs.len() == values.len() && forall|i: int|
                0 <= i < vs.len() ==> #[trigger] bytes_of(vs[i]) == Some(values[i]@)
        },
        None => false,
    }
}

fn decode_partial_attribute(el: &BerElement) -> (r: Result<PartialAttribute, BerError>)
    ensures
        match r {
            Ok(pa) => pa_is(*el, pa.attr_type@, pa.values@) && pa_ok(*el),
            Err(x) => !pa_ok(*el) && x == BerError::Unexpected,
        },
{
    let kids = get_kids(el)?;
    if kids.len() != 2 {
        return Err(BerError::Unexpected);
    }
    let attr_type = get_str(&kids[0])?;
    let vals = get_kids(&kids[1])?;
    let mut values: Vec<Vec<u8>> = Vec::new();
    let mut i: usize = 0;
    while i < vals.len()
        invariant
            i <= vals@.len(),
            kids_of(*el) == Some(kids@),
            kids@.len() == 2,
            str_of(kids@[0]) == Some(attr_type@),
            kids_of(kids@[1]) == Some(vals@),
            values@.len() == i,
            forall|j: int| 0 <= j < i ==> #[trigger] bytes_of(vals@[j]) == Some(values@[j]@),
        decreases vals.len() - i,
    {
        let b = get_bytes(&vals[i])?;
        values.push(b);
        i = i + 1;
    }
    Ok(PartialAttribute { attr_type, values })
}

// ---------------------------------------------------------------------------
// Filters
// ---------------------------------------------------------------------------

/// The context tag number of a substring component kind.
pub open spec fn kind_number(k: SubstringKind) -> u32 {
    match k {
        SubstringKind::Initial => 0,
        SubstringKind::Any => 1,
        SubstringKind::Final => 2,
    }
}

/// `s` is a well-formed substring component.
pub open spec fn sub_ok(s: BerElement) -> bool {
    s.tag.class == CLASS_CONTEXT && s.tag.number <= 2 && bytes_of(s) is Some
}

/// `s` encodes the substring component `x`.
pub open spec fn sub_is(s: BerElement, x: Substring) -> bool {
    s.tag.class == CLASS_CONTEXT && s.tag.number == kind_number(x.kind) && bytes_of(s) == Some(x.value@)
}

/// `el` is a well-formed `SubstringFilter`.
pub open spec fn subs_ok(el: BerElement) -> bool {
    match kids_of(el) {
        Some(k) => {
            &&& k.len() == 2
            &&& str_of(k[0]) is Some
            &&& kids_of(k[1]) matches Some(ss) && forall|i: int| 0 <= i < ss.len() ==> #[trigger] sub_ok(ss[i])
        },
        None => false,
    }
}

/// `el` encodes the substring filter `sf`.
pub open spec fn subs_is(el: BerElement, sf: SubstringFilter) -> bool {
    match kids_of(el) {
        Some(k) => {
            &&& k.len() == 2
            &&& str_of(k[0]) == Some(sf.attr_type@)
            &&& kids_of(k[1]) matches Some(ss) && ss.len() == sf.substrings@.len() && forall|i: int|
                0 <= i < ss.len() ==> #[trigger] sub_is(ss[i], sf.substrings@[i])
        },
        None => false,
    }
}

/// A component of an extensible match assertion is well-formed (unknown
/// components are skipped).
pub open spec fn ext_kid_ok(k: BerElement) -> bool {
    &&& (k.tag == Tag::spec_context(1) || k.tag == Tag::spec_context(2)) ==> str_of(k) is Some
    &&& k.tag == Tag::spec_context(3) ==> bytes_of(k) is Some
    &&& k.tag == Tag::spec_context(4) ==> bool_of(k) is Some
}

/// An optional string taken from the last component with tag `t`.
pub open spec fn last_str_is(ks: Seq<BerElement>, t: Tag, v: Option<String>) -> bool {
    match last_tagged(ks, t) {
        Some(e) => v matches Some(s) && str_of(e) == Some(s@),
        None => v is None,
    }
}

/// The components `ks` encode the extensible match assertion `m`; for each
/// field the last component carrying its tag wins.
pub open spec fn ext_is(ks: Seq<BerElement>, m: MatchingRuleAssertion) -> bool {
    &&& last_str_is(ks, Tag::spec_context(1), m.matching_rule)
    &&& last_str_is(ks, Tag::spec_context(2), m.attribute)
    &&& match last_tagged(ks, Tag::spec_context(3)) {
        Some(e) => bytes_of(e) == Some(m.value@),
        None => m.value@.len() == 0,
    }
    &&& match last_tagged(ks, Tag::spec_context(4)) {
        Some(e) => bool_of(e) == Some(m.dn_attributes),
        None => !m.dn_attributes,
    }
}

/// `el` is a well-formed `Filter` (RFC 4511 §4.5.1).
pub open spec fn filter_ok(el: BerElement) -> bool
    decreases el, 1nat,
{
    el.tag.class == CLASS_CONTEXT && match el.content {
        BerContent::Constructed(ks) => {
            proof {
                assert(decreases_to!(el => el.content));
                assert(decreases_to!(el.content => ks));
                vstd::std_specs::vec::axiom_vec_decreases_to_view(ks);
            }
            if el.tag.number == 0 || el.tag.number == 1 {
                filters_ok(ks@)
            } else if el.tag.number == 2 {
                ks@.len() == 1 && filter_ok(ks@[0])
            } else if el.tag.number == 3 || el.tag.number == 5 || el.tag.number == 6 || el.tag.number == 8 {
                ava_ok(el)
            } else if el.tag.number == 4 {
                subs_ok(el)
            } else if el.tag.number == 9 {
                forall|i: int| 0 <= i < ks@.len() ==> #[trigger] ext_kid_ok(ks@[i])
            } else {
                false
            }
        },
        BerContent::Primitive(_) => el.tag.number == 7 && str_of(el) is Some,
    }
}

/// Every element of `ks` is a well-formed filter.
pub open spec fn filters_ok(ks: Seq<BerElement>) -> bool
    decreases ks, 0nat,
{
    if ks.len() == 0 {
        true
    } else {
        filters_ok(ks.drop_last()) && filter_ok(ks.last())
    }
}

/// `el` encodes the filter `f`.
pub open spec fn filter_is(el: BerElement, f: Filter) -> bool
    decreases el, 1nat,
{
    el.tag.class == CLASS_CONTEXT && match el.content {
        BerContent::Constructed(ks) => {
            proof {
                assert(decreases_to!(el => el.content));
                assert(decreases_to!(el.content => ks));
                vstd::std_specs::vec::axiom_vec_decreases_to_view(ks);
            }
            match f {
                Filter::And(v) => el.tag.number == 0 && filters_is(ks@, v@),
                Filter::Or(v) => el.tag.number == 1 && filters_is(ks@, v@),
                Filter::Not(b) => el.tag.number == 2 && ks@.len() == 1 && filter_is(ks@[0], *b),
                Filter::Equality(a) => el.tag.number == 3 && ava_is(el, a),
                Filter::GreaterOrEqual(a) => el.tag.number == 5 && ava_is(el, a),
                Filter::LessOrEqual(a) => el.tag.number == 6 && ava_is(el, a),
                Filter::ApproxMatch(a) => el.tag.number == 8 && ava_is(el, a),
                Filter::Substrings(sf) => el.tag.number == 4 && subs_is(el, sf),
                Filter::ExtensibleMatch(m) => el.tag.number == 9 && ext_is(ks@, m),
                Filter::Present(_) => false,
            }
        },
        BerContent::Primitive(_) => f matches Filter::Present(s) && el.tag.number == 7 && str_of(el) == Some(s@),
    }
}

/// The elements `ks` encode the filters `fs`, one for one.
pub open spec fn filters_is(ks: Seq<BerElement>, fs: Seq<Filter>) -> bool
    decreases ks, 0nat,
{
    if ks.len() == 0 {
        fs.len() == 0
    } else {
        fs.len() == ks.len() && filters_is(ks.drop_last(), fs.drop_last()) && filter_is(ks.last(), fs.last())
    }
}

proof fn lemma_filters_push(ks: Seq<BerElement>, fs: Seq<Filter>, i: int, f: Filter)
    requires
        0 <= i < ks.len(),
        filters_is(ks.subrange(0, i), fs),
        filter_is(ks[i], f),
    ensures
        filters_is(ks.subrange(0, i + 1), fs.push(f)),
{
    let s = ks.subrange(0, i + 1);
    assert(s.drop_last() =~= ks.subrange(0, i));
    assert(fs.push(f).drop_last() =~= fs);
    if i > 0 {
        assert(filters_is(ks.subrange(0, i), fs));
    }
}

proof fn lemma_filters_ok_push(ks: Seq<BerElement>, i: int)
    requires
        0 <= i < ks.len(),
        filters_ok(ks.subrange(0, i)),
        filter_ok(ks[i]),
    ensures
        filters_ok(ks.subrange(0, i + 1)),
{
    let s = ks.subrange(0, i + 1);
    assert(s.drop_last() =~= ks.subrange(0, i));
}

proof fn lemma_filters_ok_prefix(ks: Seq<BerElement>, i: int)
    requires
        0 <= i <= ks.len(),
        filters_ok(ks),
    ensures
        filters_ok(ks.subrange(0, i)),
    decreases ks.len() - i,
{
    if i < ks.len() {
        lemma_filters_ok_prefix(ks, i + 1);
        let s = ks.subrange(0, i + 1);
        assert(s.drop_last() =~= ks.subrange(0, i));
    } else {
        assert(ks.subrange(0, i) =~= ks);
    }
}

proof fn lemma_filters_ok_at(ks: Seq<BerElement>, i: int)
    requires
        0 <= i < ks.len(),
        filters_ok(ks),
    ensures
        filter_ok(ks[i]),
{
    lemma_filters_ok_prefix(ks, i + 1);
    let s = ks.subrange(0, i + 1);
    assert(s.last() == ks[i]);
}

proof fn lemma_last_tagged_step(ks: Seq<BerElement>, i: int, t: Tag)
    requires
        0 <= i < ks.len(),
    ensures
        last_tagged(ks.subrange(0, i + 1), t) == (if ks[i].tag == t {
            Some(ks[i])
        } else {
            last_tagged(ks.subrange(0, i), t)
        }),
{
    let s = ks.subrange(0, i + 1);
    assert(s.drop_last() =~= ks.subrange(0, i));
}

proof fn lemma_subs_ok_at(el: BerElement, ks: Seq<BerElement>, ss: Seq<BerElement>, i: int)
    requires
        subs_ok(el),
        kids_of(el) == Some(ks),
        ks.len() == 2,
        kids_of(ks[1]) == Some(ss),
        0 <= i < ss.len(),
    ensures
        sub_ok(ss[i]),
{
    let k = kids_of(el)->0;
    assert(k == ks);
    assert(kids_of(k[1]) matches Some(s2) && forall|j: int| 0 <= j < s2.len() ==> #[trigger] sub_ok(s2[j]));
    assert(kids_of(k[1])->0 == ss);
}

fn decode_substrings(el: &BerElement) -> (r: Result<SubstringFilter, BerError>)
    ensures
        match r {
            Ok(sf) => subs_is(*el, sf) && subs_ok(*el),
            Err(x) => !subs_ok(*el) && x == BerError::Unexpected,
        },
{
    let kids = get_kids(el)?;
    if kids.len() != 2 {
        return Err(BerError::Unexpected);
    }
    let attr_type = get_str(&kids[0])?;
    let subs_el = get_kids(&kids[1])?;
    let mut substrings: Vec<Substring> = Vec::new();
    let mut i: usize = 0;
    while i < subs_el.len()
        invariant
            i <= subs_el@.len(),
            kids_of(*el) == Some(kids@),
            kids@.len() == 2,
            str_of(kids@[0]) == Some(attr_type@),
            kids_of(kids@[1]) == Some(subs_el@),
            substrings@.len() == i,
            forall|j: int| 0 <= j < i ==> #[trigger] sub_is(subs_el@[j], substrings@[j]),
            forall|j: int| 0 <= j < i ==> #[trigger] sub_ok(subs_el@[j]),
        decreases subs_el.len() - i,
    {
        let s = &subs_el[i];
        if s.tag.class != CLASS_CONTEXT {
            proof {
                if subs_ok(*el) {
                    lemma_subs_ok_at(*el, kids@, subs_el@, i as int);
                }
            }
            return Err(BerError::Unexpected);
        }
        let kind = if s.tag.number == 0 {
            SubstringKind::Initial
        } else if s.tag.number == 1 {
            SubstringKind::Any
        } else if s.tag.number == 2 {
            SubstringKind::Final
        } else {
            proof {
                if subs_ok(*el) {
                    lemma_subs_ok_at(*el, kids@, subs_el@, i as int);
                }
            }
            return Err(BerError::Unexpected);
        };
        let value = match get_bytes(s) {
            Ok(v) => v,
            Err(x) => {
                proof {
                    if subs_ok(*el) {
                        lemma_subs_ok_at(*el, kids@, subs_el@, i as int);
                    }
                }
                return Err(x);
            },
        };
        substrings.push(Substring { kind, value });
        i = i + 1;
    }
    Ok(SubstringFilter { attr_type, substrings })
}

fn decode_extensible(ks: &[BerElement]) -> (r: Result<MatchingRuleAssertion, BerError>)
    ensures
        match r {
            Ok(m) => ext_is(ks@, m) && forall|i: int| 0 <= i < ks@.len() ==> #[trigger] ext_kid_ok(ks@[i]),
            Err(x) => !(forall|i: int| 0 <= i < ks@.len() ==> #[trigger] ext_kid_ok(ks@[i])) && x
                == BerError::Unexpected,
        },
{
    let mut matching_rule: Option<String> = None;
    let mut attribute: Option<String> = None;
    let mut value: Vec<u8> = Vec::new();
    let mut dn_attributes = false;
    let mut i: usize = 0;
    while i < ks.len()
        invariant
            i <= ks@.len(),
            ext_is(
                ks@.subrange(0, i as int),
                MatchingRuleAssertion { matching_rule, attribute, value, dn_attributes },
            ),
            forall|j: int| 0 <= j < i ==> #[trigger] ext_kid_ok(ks@[j]),
        decreases ks.len() - i,
    {
        let k = &ks[i];
        proof {
            lemma_last_tagged_step(ks@, i as int, Tag::spec_context(1));
            lemma_last_tagged_step(ks@, i as int, Tag::spec_context(2));
            lemma_last_tagged_step(ks@, i as int, Tag::spec_context(3));
            lemma_last_tagged_step(ks@, i as int, Tag::spec_context(4));
        }
        if same_tag(k.tag, Tag::context(1)) {
            match get_str(k) {
                Ok(s) => {
                    matching_rule = Some(s);
                },
                Err(x) => {
                    assert(!ext_kid_ok(ks@[i as int]));
                    return Err(x);
                },
            }
        } else if same_tag(k.tag, Tag::context(2)) {
            match get_str(k) {
                Ok(s) => {
                    attribute = Some(s);
                },
                Err(x) => {
                    assert(!ext_kid_ok(ks@[i as int]));
                    return Err(x);
                },
            }
        } else if same_tag(k.tag, Tag::context(3)) {
            match get_bytes(k) {
                Ok(b) => {
                    value = b;
                },
                Err(x) => {
                    assert(!ext_kid_ok(ks@[i as int]));
                    return Err(x);
                },
            }
        } else if same_tag(k.tag, Tag::context(4)) {
            match get_bool(k) {
                Ok(b) => {
                    dn_attributes = b;
                },
                Err(x) => {
                    assert(!ext_kid_ok(ks@[i as int]));
                    return Err(x);
                },
            }
        }
        i = i + 1;
    }
    assert(ks@.subrange(0, i as int) =~= ks@);
    Ok(MatchingRuleAssertion { matching_rule, attribute, value, dn_attributes })
}

fn decode_filter(el: &BerElement) -> (r: Result<Filter, BerError>)
    ensures
        match r {
            Ok(f) => filter_is(*el, f) && filter_ok(*el),
            Err(x) => !filter_ok(*el) && x == BerError::Unexpected,
        },
    decreases el,
{
    if el.tag.class != CLASS_CONTEXT {
        return Err(BerError::Unexpected);
    }
    let n = el.tag.number;
    match &el.content {
        BerContent::Primitive(_) => {
            if n == 7 {
                let s = get_str(el)?;
                Ok(Filter::Present(s))
            } else {
                Err(BerError::Unexpected)
            }
        },
        BerContent::Constructed(kids) => {
            if n == 0 || n == 1 {
                let mut sub: Vec<Filter> = Vec::new();
                let mut i: usize = 0;
                while i < kids.len()
                    invariant
                        i <= kids@.len(),
                        el.content == BerContent::Constructed(*kids),
                        n == el.tag.number,
                        n == 0 || n == 1,
                        el.tag.class == CLASS_CONTEXT,
                        filters_is(kids@.subrange(0, i as int), sub@),
                        filters_ok(kids@.subrange(0, i as int)),
                    decreases kids.len() - i,
                {
                    proof {
                        vstd::std_specs::vec::axiom_vec_index_decreases(*kids, i as int);
                        assert(decreases_to!(*el => el.content));
                        assert(decreases_to!(el.content => el.content->Constructed_0));
                        assert(decreases_to!(*el => el.content->Constructed_0@[i as int]));
                    }
                    match decode_filter(&kids[i]) {
                        Ok(f) => {
                            proof {
                                lemma_filters_push(kids@, sub@, i as int, f);
                            }
                            sub.push(f);
                        },
                        Err(x) => {
                            proof {
                                if filters_ok(kids@) {
                                    lemma_filters_ok_at(kids@, i as int);
                                }
                            }
                            return Err(x);
                        },
                    }
                    proof {
                        lemma_filters_ok_push(kids@, i as int);
                    }
                    i = i + 1;
                }
                assert(kids@.subrange(0, i as int) =~= kids@);
                if n == 0 {
                    Ok(Filter::And(sub))
                } else {
                    Ok(Filter::Or(sub))
                }
            } else if n == 2 {
                if kids.len() != 1 {
                    return Err(BerError::Unexpected);
                }
                proof {
                    vstd::std_specs::vec::axiom_vec_index_decreases(*kids, 0);
                    assert(decreases_to!(*el => el.content));
                    assert(decreases_to!(el.content => el.content->Constructed_0));
                    assert(decreases_to!(*el => el.content->Constructed_0@[0]));
                }
                let inner = decode_filter(&kids[0])?;
                Ok(Filter::Not(Box::new(inner)))
            } else if n == 3 || n == 5 || n == 6 || n == 8 {
                let ava = decode_ava(el)?;
                if n == 3 {
                    Ok(Filter::Equality(ava))
                } else if n == 5 {
                    Ok(Filter::GreaterOrEqual(ava))
                } else if n == 6 {
                    Ok(Filter::LessOrEqual(ava))
                } else {
                    Ok(Filter::ApproxMatch(ava))
                }
            } else if n == 4 {
                let sf = decode_substrings(el)?;
                Ok(Filter::Substrings(sf))
            } else if n == 9 {
                let m = decode_extensible(kids.as_slice())?;
                Ok(Filter::ExtensibleMatch(m))
            } else {
                Err(BerError::Unexpected)
            }
        },
    }
}


// ---------------------------------------------------------------------------
// Request bodies
// ---------------------------------------------------------------------------

/// `c` is a well-formed change of a `ModifyRequest`.
pub open spec fn change_ok(c: BerElement) -> bool {
    match kids_of(c) {
        Some(ck) => ck.len() == 2 && (int_of(ck[0]) matches Some(v) && 0 <= v <= 2) && pa_ok(ck[1]),
        None => false,
    }
}

/// `c` encodes the modification `m`.
pub open spec fn change_is(c: BerElement, m: Modification) -> bool {
    match kids_of(c) {
        Some(ck) => ck.len() == 2 && int_of(ck[0]) == Some(m.op.spec_code()) && pa_is(ck[1], m.name@, m.values@),
        None => false,
    }
}

/// `kids` are the components of a well-formed `ModifyRequest`.
pub open spec fn modify_ok(kids: Seq<BerElement>) -> bool {
    &&& kids.len() >= 2
    &&& str_of(kids[0]) is Some
    &&& kids_of(kids[1]) matches Some(cs) && forall|i: int| 0 <= i < cs.len() ==> #[trigger] change_ok(cs[i])
}

/// `kids` encode the modify request `r`.
pub open spec fn modify_is(kids: Seq<BerElement>, r: ModifyRequest) -> bool {
    &&& kids.len() >= 2
    &&& str_of(kids[0]) == Some(r.object@)
    &&& kids_of(kids[1]) matches Some(cs) && cs.len() == r.changes@.len() && forall|i: int|
        0 <= i < cs.len() ==> #[trigger] change_is(cs[i], r.changes@[i])
}

proof fn lemma_modify_ok_at(kids: Seq<BerElement>, cs: Seq<BerElement>, i: int)
    requires
        modify_ok(kids),
        kids_of(kids[1]) == Some(cs),
        0 <= i < cs.len(),
    ensures
        change_ok(cs[i]),
{
    assert(kids_of(kids[1]) matches Some(c2) && forall|j: int| 0 <= j < c2.len() ==> #[trigger] change_ok(c2[j]));
}

fn decode_change(c: &BerElement) -> (r: Result<Modification, BerError>)
    ensures
        match r {
            Ok(m) => change_is(*c, m) && change_ok(*c),
            Err(x) => !change_ok(*c) && x == BerError::Unexpected,
        },
{
    let ck = get_kids(c)?;
    if ck.len() != 2 {
        return Err(BerError::Unexpected);
    }
    let code = get_int(&ck[0])?;
    let op = if code == 0 {
        ModificationOp::Add
    } else if code == 1 {
        ModificationOp::Delete
    } else if code == 2 {
        ModificationOp::Replace
    } else {
        return Err(BerError::Unexpected);
    };
    let pa = decode_partial_attribute(&ck[1])?;
    Ok(Modification { op, name: pa.attr_type, values: pa.values })
}

fn decode_modify_request(kids: &[BerElement]) -> (r: Result<ModifyRequest, BerError>)
    ensures
        match r {
            Ok(m) => modify_is(kids@, m) && modify_ok(kids@),
            Err(x) => !modify_ok(kids@) && x == BerError::Unexpected,
        },
{
    if kids.len() < 2 {
        return Err(BerError::Unexpected);
    }
    let object = get_str(&kids[0])?;
    let changes_el = get_kids(&kids[1])?;
    let mut changes: Vec<Modification> = Vec::new();
    let mut i: usize = 0;
    while i < changes_el.len()
        invariant
            i <= changes_el@.len(),
            kids@.len() >= 2,
            kids_of(kids@[1]) == Some(changes_el@),
            changes@.len() == i,
            forall|j: int| 0 <= j < i ==> #[trigger] change_is(changes_el@[j], changes@[j]),
            forall|j: int| 0 <= j < i ==> #[trigger] change_ok(changes_el@[j]),
        decreases changes_el.len() - i,
    {
        match decode_change(&changes_el[i]) {
            Ok(m) => changes.push(m),
            Err(x) => {
                proof {
                    if modify_ok(kids@) {
                        lemma_modify_ok_at(kids@, changes_el@, i as int);
                    }
                }
                return Err(x);
            },
        }
        i = i + 1;
    }
    Ok(ModifyRequest { object, changes })
}

/// `kids` are the components of a well-formed `AddRequest`.
pub open spec fn add_ok(kids: Seq<BerElement>) -> bool {
    &&& kids.len() >= 2
    &&& str_of(kids[0]) is Some
    &&& kids_of(kids[1]) matches Some(xs) && forall|i: int| 0 <= i < xs.len() ==> #[trigger] pa_ok(xs[i])
}

/// `kids` encode the add request `r`.
pub open spec fn add_is(kids: Seq<BerElement>, r: AddRequest) -> bool {
    &&& kids.len() >= 2
    &&& str_of(kids[0]) == Some(r.entry.dn@)
    &&& kids_of(kids[1]) matches Some(xs) && xs.len() == r.entry.attributes@.len() && forall|i: int|
        0 <= i < xs.len() ==> #[trigger] pa_is(xs[i], r.entry.attributes@[i].name@, r.entry.attributes@[i].values@)
}

proof fn lemma_add_ok_at(kids: Seq<BerElement>, xs: Seq<BerElement>, i: int)
    requires
        add_ok(kids),
        kids_of(kids[1]) == Some(xs),
        0 <= i < xs.len(),
    ensures
        pa_ok(xs[i]),
{
    assert(kids_of(kids[1]) matches Some(x2) && forall|j: int| 0 <= j < x2.len() ==> #[trigger] pa_ok(x2[j]));
}

fn decode_add_request(kids: &[BerElement]) -> (r: Result<AddRequest, BerError>)
    ensures
        match r {
            Ok(a) => add_is(kids@, a) && add_ok(kids@),
            Err(x) => !add_ok(kids@) && x == BerError::Unexpected,
        },
{
    if kids.len() < 2 {
        return Err(BerError::Unexpected);
    }
    let dn = get_str(&kids[0])?;
    let attrs_el = get_kids(&kids[1])?;
    let mut attributes: Vec<Attribute> = Vec::new();
    let mut i: usize = 0;
    while i < attrs_el.len()
        invariant
            i <= attrs_el@.len(),
            kids@.len() >= 2,
            kids_of(kids@[1]) == Some(attrs_el@),
            attributes@.len() == i,
            forall|j: int|
                0 <= j < i ==> #[trigger] pa_is(attrs_el@[j], attributes@[j].name@, attributes@[j].values@),
            forall|j: int| 0 <= j < i ==> #[trigger] pa_ok(attrs_el@[j]),
        decreases attrs_el.len() - i,
    {
        match decode_partial_attribute(&attrs_el[i]) {
            Ok(pa) => attributes.push(Attribute { name: pa.attr_type, values: pa.values }),
            Err(x) => {
                proof {
                    if add_ok(kids@) {
                        lemma_add_ok_at(kids@, attrs_el@, i as int);
                    }
                }
                return Err(x);
            },
        }
        i = i + 1;
    }
    Ok(AddRequest { entry: Entry { dn, attributes } })
}

/// The optional new superior of a `ModifyDNRequest` is present.
pub open spec fn has_superior(kids: Seq<BerElement>) -> bool {
    kids.len() > 3 && kids[3].tag == Tag::spec_context(0)
}

/// `kids` are the components of a well-formed `ModifyDNRequest`.
pub open spec fn modify_dn_ok(kids: Seq<BerElement>) -> bool {
    &&& kids.len() >= 3
    &&& str_of(kids[0]) is Some
    &&& str_of(kids[1]) is Some
    &&& bool_of(kids[2]) is Some
    &&& has_superior(kids) ==> str_of(kids[3]) is Some
}

/// `kids` encode the rename request `r`.
pub open spec fn modify_dn_is(kids: Seq<BerElement>, r: ModifyDnRequest) -> bool {
    &&& kids.len() >= 3
    &&& str_of(kids[0]) == Some(r.dn@)
    &&& str_of(kids[1]) == Some(r.new_rdn@)
    &&& bool_of(kids[2]) == Some(r.delete_old_rdn)
    &&& if has_superior(kids) {
        r.new_superior matches Some(s) && str_of(kids[3]) == Some(s@)
    } else {
        r.new_superior is None
    }
}

fn decode_modify_dn_request(kids: &[BerElement]) -> (r: Result<ModifyDnRequest, BerError>)
    ensures
        match r {
            Ok(m) => modify_dn_is(kids@, m) && modify_dn_ok(kids@),
            Err(x) => !modify_dn_ok(kids@) && x == BerError::Unexpected,
        },
{
    if kids.len() < 3 {
        return Err(BerError::Unexpected);
    }
    let dn = get_str(&kids[0])?;
    let new_rdn = get_str(&kids[1])?;
    let delete_old_rdn = get_bool(&kids[2])?;
    let new_superior = if kids.len() > 3 {
        if same_tag(kids[3].tag, Tag::context(0)) {
            Some(get_str(&kids[3])?)
        } else {
            None
        }
    } else {
        None
    };
    Ok(ModifyDnRequest { dn, new_rdn, delete_old_rdn, new_superior })
}

/// `kids` are the components of a well-formed `CompareRequest`.
pub open spec fn compare_ok(kids: Seq<BerElement>) -> bool {
    kids.len() >= 2 && str_of(kids[0]) is Some && ava_ok(kids[1])
}

/// `kids` encode the compare request `r`.
pub open spec fn compare_is(kids: Seq<BerElement>, r: CompareRequest) -> bool {
    kids.len() >= 2 && str_of(kids[0]) == Some(r.entry@) && ava_is(kids[1], r.ava)
}

fn decode_compare_request(kids: &[BerElement]) -> (r: Result<CompareRequest, BerError>)
    ensures
        match r {
            Ok(c) => compare_is(kids@, c) && compare_ok(kids@),
            Err(x) => !compare_ok(kids@) && x == BerError::Unexpected,
        },
{
    if kids.len() < 2 {
        return Err(BerError::Unexpected);
    }
    let entry = get_str(&kids[0])?;
    let ava = decode_ava(&kids[1])?;
    Ok(CompareRequest { entry, ava })
}

/// `kids` are the components of a well-formed `ExtendedRequest`.
pub open spec fn extended_ok(kids: Seq<BerElement>) -> bool {
    &&& kids.len() >= 1
    &&& str_of(kids[0]) is Some
    &&& kids.len() > 1 ==> bytes_of(kids[1]) is Some
}

/// `kids` encode the extended request `r`.
pub open spec fn extended_is(kids: Seq<BerElement>, r: ExtendedRequest) -> bool {
    &&& kids.len() >= 1
    &&& str_of(kids[0]) == Some(r.name@)
    &&& if kids.len() > 1 {
        r.value matches Some(v) && bytes_of(kids[1]) == Some(v@)
    } else {
        r.value is None
    }
}

fn decode_extended_request(kids: &[BerElement]) -> (r: Result<ExtendedRequest, BerError>)
    ensures
        match r {
            Ok(e) => extended_is(kids@, e) && extended_ok(kids@),
            Err(x) => !extended_ok(kids@) && x == BerError::Unexpected,
        },
{
    if kids.len() == 0 {
        return Err(BerError::Unexpected);
    }
    let name = get_str(&kids[0])?;
    let value = if kids.len() > 1 {
        Some(get_bytes(&kids[1])?)
    } else {
        None
    };
    Ok(ExtendedRequest { name, value })
}

/// `a` is a well-formed authentication choice.
pub open spec fn auth_ok(a: BerElement) -> bool {
    if a.tag.class == CLASS_CONTEXT && a.tag.number == 0 {
        bytes_of(a) is Some
    } else if a.tag.class == CLASS_CONTEXT && a.tag.number == 3 {
        kids_of(a) matches Some(sk) && sk.len() >= 1 && str_of(sk[0]) is Some && (sk.len() > 1 ==> bytes_of(
            sk[1],
        ) is Some)
    } else {
        false
    }
}

/// `a` encodes the authentication choice `c`.
pub open spec fn auth_is(a: BerElement, c: AuthChoice) -> bool {
    if a.tag.class == CLASS_CONTEXT && a.tag.number == 0 {
        c matches AuthChoice::Simple(p) && bytes_of(a) == Some(p@)
    } else if a.tag.class == CLASS_CONTEXT && a.tag.number == 3 {
        &&& c matches AuthChoice::Sasl(s)
        &&& kids_of(a) matches Some(sk)
        &&& sk.len() >= 1
        &&& str_of(sk[0]) == Some(s.mechanism@)
        &&& if sk.len() > 1 {
            bytes_of(sk[1]) == Some(s.credentials@)
        } else {
            s.credentials@.len() == 0
        }
    } else {
        false
    }
}

/// `kids` are the components of a well-formed `BindRequest`.
pub open spec fn bind_ok(kids: Seq<BerElement>) -> bool {
    kids.len() >= 3 && int_of(kids[0]) is Some && str_of(kids[1]) is Some && auth_ok(kids[2])
}

/// `kids` encode the bind request `r` (the version is taken modulo 2^32).
pub open spec fn bind_is(kids: Seq<BerElement>, r: BindRequest) -> bool {
    &&& kids.len() >= 3
    &&& int_of(kids[0]) matches Some(v) && r.version == v as i32
    &&& str_of(kids[1]) == Some(r.name@)
    &&& auth_is(kids[2], r.auth)
}

fn decode_bind_request(kids: &[BerElement]) -> (r: Result<BindRequest, BerError>)
    ensures
        match r {
            Ok(b) => bind_is(kids@, b) && bind_ok(kids@),
            Err(x) => !bind_ok(kids@) && x == BerError::Unexpected,
        },
{
    if kids.len() < 3 {
        return Err(BerError::Unexpected);
    }
    let v = get_int(&kids[0])?;
    let version = v as i32;
    let name = get_str(&kids[1])?;
    let auth_el = &kids[2];
    let auth = if auth_el.tag.class == CLASS_CONTEXT && auth_el.tag.number == 0 {
        AuthChoice::Simple(get_bytes(auth_el)?)
    } else if auth_el.tag.class == CLASS_CONTEXT && auth_el.tag.number == 3 {
        let sasl_kids = get_kids(auth_el)?;
        if sasl_kids.len() == 0 {
            return Err(BerError::Unexpected);
        }
        let mechanism = get_str(&sasl_kids[0])?;
        let credentials = if sasl_kids.len() > 1 {
            get_bytes(&sasl_kids[1])?
        } else {
            Vec::new()
        };
        AuthChoice::Sasl(SaslCredentials { mechanism, credentials })
    } else {
        return Err(BerError::Unexpected);
    };
    Ok(BindRequest { version, name, auth })
}

/// `kids` are the components of a well-formed `SearchRequest`.
pub open spec fn search_ok(kids: Seq<BerElement>) -> bool {
    &&& kids.len() >= 8
    &&& str_of(kids[0]) is Some
    &&& int_of(kids[1]) matches Some(s) && 0 <= s <= 2
    &&& int_of(kids[2]) is Some
    &&& int_of(kids[3]) is Some
    &&& int_of(kids[4]) is Some
    &&& bool_of(kids[5]) is Some
    &&& filter_ok(kids[6])
    &&& strs_ok(kids[7])
}

/// `kids` encode the search request `r` (the three limits are taken modulo
/// 2^32).
pub open spec fn search_is(kids: Seq<BerElement>, r: SearchRequest) -> bool {
    &&& kids.len() >= 8
    &&& str_of(kids[0]) == Some(r.base@)
    &&& int_of(kids[1]) == Some(r.scope.spec_code())
    &&& int_of(kids[2]) matches Some(d) && r.deref_aliases == d as i32
    &&& int_of(kids[3]) matches Some(s) && r.size_limit == s as i32
    &&& int_of(kids[4]) matches Some(t) && r.time_limit == t as i32
    &&& bool_of(kids[5]) == Some(r.types_only)
    &&& filter_is(kids[6], r.filter)
    &&& strs_is(kids[7], r.attributes@)
}

fn decode_search_request(kids: &[BerElement]) -> (r: Result<SearchRequest, BerError>)
    ensures
        match r {
            Ok(s) => search_is(kids@, s) && search_ok(kids@),
            Err(x) => !search_ok(kids@) && x == BerError::Unexpected,
        },
{
    if kids.len() < 8 {
        return Err(BerError::Unexpected);
    }
    let base = get_str(&kids[0])?;
    let sc = get_int(&kids[1])?;
    let scope = if sc == 0 {
        Scope::Base
    } else if sc == 1 {
        Scope::SingleLevel
    } else if sc == 2 {
        Scope::WholeSubtree
    } else {
        return Err(BerError::Unexpected);
    };
    let deref_aliases = get_int(&kids[2])? as i32;
    let size_limit = get_int(&kids[3])? as i32;
    let time_limit = get_int(&kids[4])? as i32;
    let types_only = get_bool(&kids[5])?;
    let filter = decode_filter(&kids[6])?;
    let attributes = decode_attribute_selection(&kids[7])?;
    Ok(SearchRequest { base, scope, deref_aliases, size_limit, time_limit, types_only, filter, attributes })
}


// ---------------------------------------------------------------------------
// Controls
// ---------------------------------------------------------------------------

/// A component after the OID of a control is well-formed (unknown ones are
/// skipped).
pub open spec fn control_part_ok(k: BerElement) -> bool {
    &&& k.tag == Tag::spec_universal(universal::BOOLEAN) ==> bool_of(k) is Some
    &&& k.tag == Tag::spec_universal(universal::OCTET_STRING) ==> bytes_of(k) is Some
}

/// `c` is a well-formed `Control`.
pub open spec fn control_ok(c: BerElement) -> bool {
    match kids_of(c) {
        Some(ck) => {
            &&& ck.len() >= 1
            &&& str_of(ck[0]) is Some
            &&& forall|j: int| 1 <= j < ck.len() ==> #[trigger] control_part_ok(ck[j])
        },
        None => false,
    }
}

/// `c` encodes the control `x`; the last criticality and the last value
/// component win.
pub open spec fn control_is(c: BerElement, x: Control) -> bool {
    match kids_of(c) {
        Some(ck) => {
            &&& ck.len() >= 1
            &&& str_of(ck[0]) == Some(x.oid@)
            &&& match last_tagged(ck.drop_first(), Tag::spec_universal(universal::BOOLEAN)) {
                Some(e) => bool_of(e) == Some(x.criticality),
                None => !x.criticality,
            }
            &&& match last_tagged(ck.drop_first(), Tag::spec_universal(universal::OCTET_STRING)) {
                Some(e) => x.value matches Some(v) && bytes_of(e) == Some(v@),
                None => x.value is None,
            }
        },
        None => false,
    }
}

/// `el` is a well-formed `[0] Controls` element.
pub open spec fn controls_ok(el: BerElement) -> bool {
    &&& el.tag == Tag::spec_context(0).spec_constructed()
    &&& kids_of(el) matches Some(l) && forall|i: int| 0 <= i < l.len() ==> #[trigger] control_ok(l[i])
}

/// `el` encodes the controls `cs`.
pub open spec fn controls_is(el: BerElement, cs: Seq<Control>) -> bool {
    &&& el.tag == Tag::spec_context(0).spec_constructed()
    &&& kids_of(el) matches Some(l) && l.len() == cs.len() && forall|i: int|
        0 <= i < l.len() ==> #[trigger] control_is(l[i], cs[i])
}

proof fn lemma_last_tagged_tail_step(ks: Seq<BerElement>, j: int, t: Tag)
    requires
        1 <= j < ks.len(),
    ensures
        last_tagged(ks.subrange(1, j + 1), t) == (if ks[j].tag == t {
            Some(ks[j])
        } else {
            last_tagged(ks.subrange(1, j), t)
        }),
{
    let s = ks.subrange(1, j + 1);
    assert(s.drop_last() =~= ks.subrange(1, j));
}

proof fn lemma_controls_ok_at(el: BerElement, l: Seq<BerElement>, i: int)
    requires
        controls_ok(el),
        kids_of(el) == Some(l),
        0 <= i < l.len(),
    ensures
        control_ok(l[i]),
{
    assert(kids_of(el) matches Some(l2) && forall|j: int| 0 <= j < l2.len() ==> #[trigger] control_ok(l2[j]));
}

fn decode_control(c: &BerElement) -> (r: Result<Control, BerError>)
    ensures
        match r {
            Ok(x) => control_is(*c, x) && control_ok(*c),
            Err(e) => !control_ok(*c) && e == BerError::Unexpected,
        },
{
    let ck = get_kids(c)?;
    if ck.len() == 0 {
        return Err(BerError::Unexpected);
    }
    let oid = get_str(&ck[0])?;
    let mut criticality = false;
    let mut value: Option<Vec<u8>> = None;
    let mut j: usize = 1;
    let ghost bt = Tag::spec_universal(universal::BOOLEAN);
    let ghost ot = Tag::spec_universal(universal::OCTET_STRING);
    assert(ck@.subrange(1, 1).len() == 0);
    while j < ck.len()
        invariant
            1 <= j <= ck@.len(),
            kids_of(*c) == Some(ck@),
            bt == Tag::spec_universal(universal::BOOLEAN),
            ot == Tag::spec_universal(universal::OCTET_STRING),
            forall|m: int| 1 <= m < j ==> #[trigger] control_part_ok(ck@[m]),
            match last_tagged(ck@.subrange(1, j as int), bt) {
                Some(e) => bool_of(e) == Some(criticality),
                None => !criticality,
            },
            match last_tagged(ck@.subrange(1, j as int), ot) {
                Some(e) => value matches Some(v) && bytes_of(e) == Some(v@),
                None => value is None,
            },
        decreases ck.len() - j,
    {
        let k = &ck[j];
        proof {
            lemma_last_tagged_tail_step(ck@, j as int, bt);
            lemma_last_tagged_tail_step(ck@, j as int, ot);
        }
        if same_tag(k.tag, Tag::universal(universal::BOOLEAN)) {
            match get_bool(k) {
                Ok(b) => {
                    criticality = b;
                },
                Err(e) => {
                    assert(!control_part_ok(ck@[j as int]));
                    return Err(e);
                },
            }
        } else if same_tag(k.tag, Tag::universal(universal::OCTET_STRING)) {
            match get_bytes(k) {
                Ok(b) => {
                    value = Some(b);
                },
                Err(e) => {
                    assert(!control_part_ok(ck@[j as int]));
                    return Err(e);
                },
            }
        }
        j = j + 1;
    }
    assert(ck@.subrange(1, j as int) =~= ck@.drop_first());
    Ok(Control { oid, criticality, value })
}

fn parse_controls(el: &BerElement) -> (r: Result<Vec<Control>, BerError>)
    ensures
        match r {
            Ok(v) => controls_is(*el, v@) && controls_ok(*el),
            Err(e) => !controls_ok(*el) && e == BerError::Unexpected,
        },
{
    if !same_tag(el.tag, Tag::context(0).constructed()) {
        return Err(BerError::Unexpected);
    }
    let list = get_kids(el)?;
    let mut out: Vec<Control> = Vec::new();
    let mut i: usize = 0;
    while i < list.len()
        invariant
            i <= list@.len(),
            kids_of(*el) == Some(list@),
            el.tag == Tag::spec_context(0).spec_constructed(),
            out@.len() == i,
            forall|j: int| 0 <= j < i ==> #[trigger] control_is(list@[j], out@[j]),
            forall|j: int| 0 <= j < i ==> #[trigger] control_ok(list@[j]),
        decreases list.len() - i,
    {
        match decode_control(&list[i]) {
            Ok(c) => out.push(c),
            Err(e) => {
                proof {
                    if controls_ok(*el) {
                        lemma_controls_ok_at(*el, list@, i as int);
                    }
                }
                return Err(e);
            },
        }
        i = i + 1;
    }
    Ok(out)
}

// ---------------------------------------------------------------------------
// Operations and messages
// ---------------------------------------------------------------------------

/// `v` fits in an `i32`.
pub open spec fn fits_i32(v: i64) -> bool {
    i32::MIN <= v <= i32::MAX
}

/// The outcome of decoding the protocol operation `el`.
pub open spec fn op_check(el: BerElement) -> Result<(), BerError> {
    let n = el.tag.number;
    let ok = Ok::<(), BerError>(());
    let bad = Err::<(), BerError>(BerError::Unexpected);
    if el.tag.class != CLASS_APPLICATION {
        bad
    } else if n == 2 {
        ok
    } else if n == 10 {
        if str_of(el) is Some { ok } else { bad }
    } else if n == 16 {
        match el.content {
            BerContent::Primitive(p) => match spec_bytes_to_int(p@) {
                Ok(v) => if fits_i32(v) { ok } else { Err(BerError::IntegerRange) },
                Err(k) => Err(k),
            },
            BerContent::Constructed(_) => bad,
        }
    } else {
        match kids_of(el) {
            Some(k) => {
                let fine = if n == 0 {
                    bind_ok(k)
                } else if n == 3 {
                    search_ok(k)
                } else if n == 6 {
                    modify_ok(k)
                } else if n == 8 {
                    add_ok(k)
                } else if n == 12 {
                    modify_dn_ok(k)
                } else if n == 14 {
                    compare_ok(k)
                } else if n == 23 {
                    extended_ok(k)
                } else {
                    false
                };
                if fine { ok } else { bad }
            },
            None => bad,
        }
    }
}

/// `el` encodes the protocol operation `op`.
pub open spec fn op_is(el: BerElement, op: RequestOp) -> bool {
    let n = el.tag.number;
    el.tag.class == CLASS_APPLICATION && match op {
        RequestOp::Bind(b) => n == 0 && (kids_of(el) matches Some(k) && bind_is(k, b)),
        RequestOp::Unbind => n == 2,
        RequestOp::Delete(dn) => n == 10 && str_of(el) == Some(dn@),
        RequestOp::Abandon(m) => n == 16 && int_of(el) == Some(m as i64),
        RequestOp::Search(s) => n == 3 && (kids_of(el) matches Some(k) && search_is(k, s)),
        RequestOp::Modify(m) => n == 6 && (kids_of(el) matches Some(k) && modify_is(k, m)),
        RequestOp::Add(a) => n == 8 && (kids_of(el) matches Some(k) && add_is(k, a)),
        RequestOp::ModifyDn(m) => n == 12 && (kids_of(el) matches Some(k) && modify_dn_is(k, m)),
        RequestOp::Compare(c) => n == 14 && (kids_of(el) matches Some(k) && compare_is(k, c)),
        RequestOp::Extended(x) => n == 23 && (kids_of(el) matches Some(k) && extended_is(k, x)),
    }
}

fn decode_request_op(el: &BerElement) -> (r: Result<RequestOp, BerError>)
    ensures
        match r {
            Ok(op) => op_is(*el, op) && op_check(*el) is Ok,
            Err(x) => op_check(*el) == Err::<(), BerError>(x),
        },
{
    if el.tag.class != CLASS_APPLICATION {
        return Err(BerError::Unexpected);
    }
    let n = el.tag.number;
    if n == 2 {
        return Ok(RequestOp::Unbind);
    }
    if n == 10 {
        let dn = get_str(el)?;
        return Ok(RequestOp::Delete(dn));
    }
    if n == 16 {
        let mid = el.as_int()?;
        if mid < -2147483648 || mid > 2147483647 {
            return Err(BerError::IntegerRange);
        }
        return Ok(RequestOp::Abandon(mid as i32));
    }
    let kids = get_kids(el)?;
    if n == 0 {
        Ok(RequestOp::Bind(decode_bind_request(kids)?))
    } else if n == 3 {
        Ok(RequestOp::Search(decode_search_request(kids)?))
    } else if n == 6 {
        Ok(RequestOp::Modify(decode_modify_request(kids)?))
    } else if n == 8 {
        Ok(RequestOp::Add(decode_add_request(kids)?))
    } else if n == 12 {
        Ok(RequestOp::ModifyDn(decode_modify_dn_request(kids)?))
    } else if n == 14 {
        Ok(RequestOp::Compare(decode_compare_request(kids)?))
    } else if n == 23 {
        Ok(RequestOp::Extended(decode_extended_request(kids)?))
    } else {
        Err(BerError::Unexpected)
    }
}

/// The outcome of decoding the `LDAPMessage` element `e`: the message ID is
/// checked first, then the controls, then the operation.
pub open spec fn request_check(e: BerElement) -> Result<(), BerError> {
    match kids_of(e) {
        None => Err(BerError::Unexpected),
        Some(k) => if k.len() < 2 {
            Err(BerError::Unexpected)
        } else {
            match int_of(k[0]) {
                None => Err(BerError::Unexpected),
                Some(id) => if !fits_i32(id) {
                    Err(BerError::IntegerRange)
                } else if k.len() > 2 && !controls_ok(k[2]) {
                    Err(BerError::Unexpected)
                } else {
                    op_check(k[1])
                },
            }
        },
    }
}

/// `e` encodes the request message `r`.
pub open spec fn request_is(e: BerElement, r: LdapRequest) -> bool {
    &&& kids_of(e) matches Some(k)
    &&& k.len() >= 2
    &&& int_of(k[0]) == Some(r.id as i64)
    &&& if k.len() > 2 {
        controls_is(k[2], r.controls@)
    } else {
        r.controls@.len() == 0
    }
    &&& op_is(k[1], r.op)
}

/// Decode a single LDAP request message, returning the message and the number
/// of bytes consumed.
pub fn decode_request(buf: &[u8]) -> (r: Result<(LdapRequest, usize), BerError>)
    ensures
        match r {
            Ok((req, n)) => spec_elem_end(buf@, 0) == Ok::<int, BerError>(n as int) && exists|e: BerElement|
                spec_elem_at(buf@, 0, e) && request_check(e) is Ok && #[trigger] request_is(e, req),
            Err(x) => match spec_elem_end(buf@, 0) {
                Err(k) => x == k,
                Ok(_) => exists|e: BerElement| #[trigger]
                    spec_elem_at(buf@, 0, e) && request_check(e) == Err::<(), BerError>(x),
            },
        },
{
    let (el, consumed) = BerElement::decode_partial(buf)?;
    let children = get_kids(&el)?;
    if children.len() < 2 {
        return Err(BerError::Unexpected);
    }
    let id = get_int(&children[0])?;
    if id < -2147483648 || id > 2147483647 {
        return Err(BerError::IntegerRange);
    }
    let controls = if children.len() > 2 {
        parse_controls(&children[2])?
    } else {
        Vec::new()
    };
    let op = decode_request_op(&children[1])?;
    let req = LdapRequest { id: id as i32, op, controls };
    assert(request_is(el, req));
    Ok((req, consumed))
}

} // verus!
