//! Encoding of LDAP messages (RFC 4511 §4) to BER.
//!
//! The octets of every message are specified directly, element by element,
//! with the definite-length TLV layout `spec_tlv` of the BER module.

use vstd::prelude::*;
use crate::text::utf8;
use crate::ldap::ber::{BerContent, BerElement, Tag, encode_tlv, spec_encode, spec_encode_all, spec_int_bytes, spec_tlv};
use crate::ldap::ber::universal;
use crate::ldap::protocol::decode::kind_number;
use crate::ldap::protocol::{
    AttributeValueAssertion, AuthChoice, Control, Filter, LdapRequest, LdapResponse, LdapResult,
    MatchingRuleAssertion, PartialAttribute, RequestOp, ResponseOp, SearchResultEntry, Substring, SubstringKind,
};
use crate::ldap::backend::{Attribute, Modification};

verus! {

// ---------------------------------------------------------------------------
// Element layouts
// ---------------------------------------------------------------------------

/// An OCTET STRING.
pub open spec fn os(b: Seq<u8>) -> Seq<u8> {
    spec_tlv(Tag::spec_universal(universal::OCTET_STRING), b)
}

/// An OCTET STRING holding the UTF-8 form of `s`.
pub open spec fn os_str(s: Seq<char>) -> Seq<u8> {
    os(utf8(s))
}

/// An INTEGER.
pub open spec fn int_el(v: int) -> Seq<u8> {
    spec_tlv(Tag::spec_universal(universal::INTEGER), spec_int_bytes(v))
}

/// An ENUMERATED.
pub open spec fn enum_el(v: int) -> Seq<u8> {
    spec_tlv(Tag::spec_universal(universal::ENUMERATED), spec_int_bytes(v))
}

/// A BOOLEAN (`TRUE` is encoded as `0xFF`).
pub open spec fn bool_el(b: bool) -> Seq<u8> {
    spec_tlv(Tag::spec_universal(universal::BOOLEAN), seq![if b { 0xFFu8 } else { 0x00u8 }])
}

/// A SEQUENCE with the given contents.
pub open spec fn seq_el(inner: Seq<u8>) -> Seq<u8> {
    spec_tlv(Tag::spec_universal(universal::SEQUENCE).spec_constructed(), inner)
}

/// A SET with the given contents.
pub open spec fn set_el(inner: Seq<u8>) -> Seq<u8> {
    spec_tlv(Tag::spec_universal(universal::SET).spec_constructed(), inner)
}

/// A constructed application-tagged element.
pub open spec fn app_seq(n: u32, inner: Seq<u8>) -> Seq<u8> {
    spec_tlv(Tag::spec_application(n).spec_constructed(), inner)
}

/// A primitive application-tagged element.
pub open spec fn app_prim(n: u32, b: Seq<u8>) -> Seq<u8> {
    spec_tlv(Tag::spec_application(n), b)
}

/// A constructed context-tagged element.
pub open spec fn ctx_seq(n: u32, inner: Seq<u8>) -> Seq<u8> {
    spec_tlv(Tag::spec_context(n).spec_constructed(), inner)
}

/// A primitive context-tagged element.
pub open spec fn ctx_prim(n: u32, b: Seq<u8>) -> Seq<u8> {
    spec_tlv(Tag::spec_context(n), b)
}

// ---------------------------------------------------------------------------
// Message layouts
// ---------------------------------------------------------------------------

/// The OCTET STRINGs of a list of values, concatenated.
pub open spec fn values_inner(vs: Seq<Vec<u8>>) -> Seq<u8>
    decreases vs.len(),
{
    if vs.len() == 0 {
        Seq::empty()
    } else {
        values_inner(vs.drop_last()) + os(vs.last()@)
    }
}

/// A `PartialAttribute`: the type and the SET OF its values.
pub open spec fn pa_bytes(name: Seq<char>, vs: Seq<Vec<u8>>) -> Seq<u8> {
    seq_el(os_str(name) + set_el(values_inner(vs)))
}

/// The components of an `LDAPResult`.
pub open spec fn result_inner(r: LdapResult) -> Seq<u8> {
    enum_el(r.code.spec_value() as int) + os_str(r.matched_dn@) + os_str(r.diagnostic@)
}

/// The attribute list of a search result entry, concatenated.
pub open spec fn pas_inner(attrs: Seq<PartialAttribute>) -> Seq<u8>
    decreases attrs.len(),
{
    if attrs.len() == 0 {
        Seq::empty()
    } else {
        pas_inner(attrs.drop_last()) + pa_bytes(attrs.last().attr_type@, attrs.last().values@)
    }
}

/// The components of a `SearchResultEntry`.
pub open spec fn entry_inner(e: SearchResultEntry) -> Seq<u8> {
    os_str(e.object_name@) + seq_el(pas_inner(e.attributes@))
}

/// The protocol operation of a response.
pub open spec fn response_op_bytes(op: ResponseOp) -> Seq<u8> {
    match op {
        ResponseOp::Bind(r) => app_seq(1, result_inner(r)),
        ResponseOp::SearchResultEntry(e) => app_seq(4, entry_inner(e)),
        ResponseOp::SearchResultDone(r) => app_seq(5, result_inner(r)),
        ResponseOp::Modify(r) => app_seq(7, result_inner(r)),
        ResponseOp::Add(r) => app_seq(9, result_inner(r)),
        ResponseOp::Delete(r) => app_seq(11, result_inner(r)),
        ResponseOp::ModifyDn(r) => app_seq(13, result_inner(r)),
        ResponseOp::Compare(r) => app_seq(15, result_inner(r)),
        ResponseOp::Extended(r) => app_seq(24, result_inner(r)),
    }
}

/// The criticality component of a control: `TRUE` when critical, else absent.
pub open spec fn crit_part(c: Control) -> Seq<u8> {
    if c.criticality {
        bool_el(true)
    } else {
        Seq::empty()
    }
}

/// The value component of a control, when it has one.
pub open spec fn value_part(c: Control) -> Seq<u8> {
    match c.value {
        Some(v) => os(v@),
        None => Seq::empty(),
    }
}

/// A `Control`: the OID, `TRUE` when critical, and the value when present.
pub open spec fn control_bytes(c: Control) -> Seq<u8> {
    seq_el(os_str(c.oid@) + crit_part(c) + value_part(c))
}

/// A list of controls, concatenated.
pub open spec fn controls_inner(cs: Seq<Control>) -> Seq<u8>
    decreases cs.len(),
{
    if cs.len() == 0 {
        Seq::empty()
    } else {
        controls_inner(cs.drop_last()) + control_bytes(cs.last())
    }
}

/// The `[0] Controls` element, absent when there are no controls.
pub open spec fn controls_part(cs: Seq<Control>) -> Seq<u8> {
    if cs.len() == 0 {
        Seq::empty()
    } else {
        ctx_seq(0, controls_inner(cs))
    }
}

/// The octets of a response message.
pub open spec fn response_bytes(r: LdapResponse) -> Seq<u8> {
    seq_el(int_el(r.id as int) + response_op_bytes(r.op) + controls_part(r.controls@))
}

/// An `AttributeValueAssertion` under context tag `n`.
pub open spec fn ava_bytes(n: u32, a: AttributeValueAssertion) -> Seq<u8> {
    ctx_seq(n, os_str(a.attribute_desc@) + os(a.assertion_value@))
}

/// The substring components, concatenated.
pub open spec fn subs_inner(ss: Seq<Substring>) -> Seq<u8>
    decreases ss.len(),
{
    if ss.len() == 0 {
        Seq::empty()
    } else {
        subs_inner(ss.drop_last()) + ctx_prim(kind_number(ss.last().kind), ss.last().value@)
    }
}

/// The matching-rule component of an extensible match, when present.
pub open spec fn rule_part(m: MatchingRuleAssertion) -> Seq<u8> {
    match m.matching_rule {
        Some(r) => ctx_prim(1, utf8(r@)),
        None => Seq::empty(),
    }
}

/// The attribute component of an extensible match, when present.
pub open spec fn attr_part(m: MatchingRuleAssertion) -> Seq<u8> {
    match m.attribute {
        Some(a) => ctx_prim(2, utf8(a@)),
        None => Seq::empty(),
    }
}

/// The components of an extensible match assertion (`dnAttributes` is
/// written, when set, as `[4] BOOLEAN TRUE`).
pub open spec fn ext_inner(m: MatchingRuleAssertion) -> Seq<u8> {
    rule_part(m) + attr_part(m) + ctx_prim(3, m.value@) + (if m.dn_attributes {
        ctx_prim(4, seq![0xFFu8])
    } else {
        Seq::empty()
    })
}

/// The octets of a filter (RFC 4511 §4.5.1).
pub open spec fn filter_bytes(f: Filter) -> Seq<u8>
    decreases f, 1nat,
{
    match f {
        Filter::And(v) => {
            proof {
                vstd::std_specs::vec::axiom_vec_decreases_to_view(v);
            }
            ctx_seq(0, filters_inner(v@))
        },
        Filter::Or(v) => {
            proof {
                vstd::std_specs::vec::axiom_vec_decreases_to_view(v);
            }
            ctx_seq(1, filters_inner(v@))
        },
        Filter::Not(b) => ctx_seq(2, filter_bytes(*b)),
        Filter::Equality(a) => ava_bytes(3, a),
        Filter::GreaterOrEqual(a) => ava_bytes(5, a),
        Filter::LessOrEqual(a) => ava_bytes(6, a),
        Filter::ApproxMatch(a) => ava_bytes(8, a),
        Filter::Present(n) => ctx_prim(7, utf8(n@)),
        Filter::Substrings(sf) => ctx_seq(4, os_str(sf.attr_type@) + seq_el(subs_inner(sf.substrings@))),
        Filter::ExtensibleMatch(m) => ctx_seq(9, ext_inner(m)),
    }
}

/// A list of filters, concatenated.
pub open spec fn filters_inner(fs: Seq<Filter>) -> Seq<u8>
    decreases fs, 0nat,
{
    if fs.len() == 0 {
        Seq::empty()
    } else {
        filters_inner(fs.drop_last()) + filter_bytes(fs.last())
    }
}

/// A list of strings as OCTET STRINGs, concatenated.
pub open spec fn strs_inner(ss: Seq<String>) -> Seq<u8>
    decreases ss.len(),
{
    if ss.len() == 0 {
        Seq::empty()
    } else {
        strs_inner(ss.drop_last()) + os_str(ss.last()@)
    }
}

/// The changes of a modify request, concatenated.
pub open spec fn changes_inner(cs: Seq<Modification>) -> Seq<u8>
    decreases cs.len(),
{
    if cs.len() == 0 {
        Seq::empty()
    } else {
        changes_inner(cs.drop_last()) + seq_el(
            enum_el(cs.last().op.spec_code() as int) + pa_bytes(cs.last().name@, cs.last().values@),
        )
    }
}

/// The attributes of an add request, concatenated.
pub open spec fn attrs_inner(attrs: Seq<Attribute>) -> Seq<u8>
    decreases attrs.len(),
{
    if attrs.len() == 0 {
        Seq::empty()
    } else {
        attrs_inner(attrs.drop_last()) + pa_bytes(attrs.last().name@, attrs.last().values@)
    }
}

/// The protocol operation of a request.
pub open spec fn request_op_bytes(op: RequestOp) -> Seq<u8> {
    match op {
        RequestOp::Bind(b) => app_seq(
            0,
            int_el(b.version as int) + os_str(b.name@) + match b.auth {
                AuthChoice::Simple(pw) => ctx_prim(0, pw@),
                AuthChoice::Sasl(s) => ctx_seq(
                    3,
                    os_str(s.mechanism@) + if s.credentials@.len() > 0 {
                        os(s.credentials@)
                    } else {
                        Seq::empty()
                    },
                ),
            },
        ),
        RequestOp::Unbind => app_prim(2, Seq::empty()),
        RequestOp::Search(s) => app_seq(
            3,
            os_str(s.base@) + enum_el(s.scope.spec_code() as int) + enum_el(s.deref_aliases as int) + int_el(
                s.size_limit as int,
            ) + int_el(s.time_limit as int) + bool_el(s.types_only) + filter_bytes(s.filter) + seq_el(
                strs_inner(s.attributes@),
            ),
        ),
        RequestOp::Modify(m) => app_seq(6, os_str(m.object@) + seq_el(changes_inner(m.changes@))),
        RequestOp::Add(a) => app_seq(8, os_str(a.entry.dn@) + seq_el(attrs_inner(a.entry.attributes@))),
        RequestOp::Delete(dn) => app_prim(10, utf8(dn@)),
        RequestOp::ModifyDn(d) => app_seq(
            12,
            os_str(d.dn@) + os_str(d.new_rdn@) + bool_el(d.delete_old_rdn) + match d.new_superior {
                Some(s) => ctx_prim(0, utf8(s@)),
                None => Seq::empty(),
            },
        ),
        RequestOp::Compare(c) => app_seq(
            14,
            os_str(c.entry@) + seq_el(os_str(c.ava.attribute_desc@) + os(c.ava.assertion_value@)),
        ),
        RequestOp::Abandon(mid) => app_prim(16, spec_int_bytes(mid as int)),
        RequestOp::Extended(e) => app_seq(
            23,
            os_str(e.name@) + match e.value {
                Some(v) => os(v@),
                None => Seq::empty(),
            },
        ),
    }
}

/// The octets of a request message.
pub open spec fn request_bytes(r: LdapRequest) -> Seq<u8> {
    seq_el(int_el(r.id as int) + request_op_bytes(r.op) + controls_part(r.controls@))
}

// ---------------------------------------------------------------------------
// Element writers
// ---------------------------------------------------------------------------

fn os_enc(b: &[u8]) -> (r: Vec<u8>)
    ensures
        r@ == os(b@),
{
    encode_tlv(Tag::universal(universal::OCTET_STRING), b)
}

fn str_enc(s: &str) -> (r: Vec<u8>)
    ensures
        r@ == os_str(s@),
{
    os_enc(s.as_bytes())
}

fn int_enc(v: i64) -> (r: Vec<u8>)
    ensures
        r@ == int_el(v as int),
{
    BerElement::integer(v).encode()
}

fn enum_enc(v: i64) -> (r: Vec<u8>)
    ensures
        r@ == enum_el(v as int),
{
    BerElement::enumerated(v).encode()
}

fn bool_enc(b: bool) -> (r: Vec<u8>)
    ensures
        r@ == bool_el(b),
{
    BerElement::boolean(b).encode()
}

fn seq_enc(inner: &[u8]) -> (r: Vec<u8>)
    ensures
        r@ == seq_el(inner@),
{
    encode_tlv(Tag::universal(universal::SEQUENCE).constructed(), inner)
}

fn set_enc(inner: &[u8]) -> (r: Vec<u8>)
    ensures
        r@ == set_el(inner@),
{
    encode_tlv(Tag::universal(universal::SET).constructed(), inner)
}

fn app_seq_enc(n: u32, inner: &[u8]) -> (r: Vec<u8>)
    ensures
        r@ == app_seq(n, inner@),
{
    encode_tlv(Tag::application(n).constructed(), inner)
}

fn app_prim_enc(n: u32, b: &[u8]) -> (r: Vec<u8>)
    ensures
        r@ == app_prim(n, b@),
{
    encode_tlv(Tag::application(n), b)
}

fn ctx_seq_enc(n: u32, inner: &[u8]) -> (r: Vec<u8>)
    ensures
        r@ == ctx_seq(n, inner@),
{
    encode_tlv(Tag::context(n).constructed(), inner)
}

fn ctx_prim_enc(n: u32, b: &[u8]) -> (r: Vec<u8>)
    ensures
        r@ == ctx_prim(n, b@),
{
    encode_tlv(Tag::context(n), b)
}

fn append(out: &mut Vec<u8>, b: &Vec<u8>)
    ensures
        final(out)@ == old(out)@ + b@,
{
    out.extend_from_slice(b.as_slice());
}

fn pa_enc(name: &str, vs: &Vec<Vec<u8>>) -> (r: Vec<u8>)
    ensures
        r@ == pa_bytes(name@, vs@),
{
    let mut inner: Vec<u8> = Vec::new();
    let mut i: usize = 0;
    while i < vs.len()
        invariant
            i <= vs@.len(),
            inner@ == values_inner(vs@.subrange(0, i as int)),
        decreases vs.len() - i,
    {
        let e = os_enc(vs[i].as_slice());
        proof {
            assert(vs@.subrange(0, i + 1).drop_last() =~= vs@.subrange(0, i as int));
        }
        append(&mut inner, &e);
        i = i + 1;
    }
    assert(vs@.subrange(0, i as int) =~= vs@);
    let mut body = str_enc(name);
    let set = set_enc(inner.as_slice());
    append(&mut body, &set);
    seq_enc(body.as_slice())
}

fn result_enc(r: &LdapResult) -> (out: Vec<u8>)
    ensures
        out@ == result_inner(*r),
{
    let mut out = enum_enc(r.code.as_i64());
    let a = str_enc(r.matched_dn.as_str());
    append(&mut out, &a);
    let b = str_enc(r.diagnostic.as_str());
    append(&mut out, &b);
    out
}

fn entry_enc(e: &SearchResultEntry) -> (out: Vec<u8>)
    ensures
        out@ == entry_inner(*e),
{
    let mut inner: Vec<u8> = Vec::new();
    let mut i: usize = 0;
    while i < e.attributes.len()
        invariant
            i <= e.attributes@.len(),
            inner@ == pas_inner(e.attributes@.subrange(0, i as int)),
        decreases e.attributes.len() - i,
    {
        let a = &e.attributes[i];
        let x = pa_enc(a.attr_type.as_str(), &a.values);
        proof {
            assert(e.attributes@.subrange(0, i + 1).drop_last() =~= e.attributes@.subrange(0, i as int));
        }
        append(&mut inner, &x);
        i = i + 1;
    }
    assert(e.attributes@.subrange(0, i as int) =~= e.attributes@);
    let mut out = str_enc(e.object_name.as_str());
    let s = seq_enc(inner.as_slice());
    append(&mut out, &s);
    out
}

fn control_enc(c: &Control) -> (out: Vec<u8>)
    ensures
        out@ == control_bytes(*c),
{
    let mut body = str_enc(c.oid.as_str());
    if c.criticality {
        let b = bool_enc(true);
        append(&mut body, &b);
    }
    match &c.value {
        Some(v) => {
            let x = os_enc(v.as_slice());
            append(&mut body, &x);
        },
        None => {},
    }
    assert(body@ =~= os_str(c.oid@) + crit_part(*c) + value_part(*c));
    seq_enc(body.as_slice())
}

fn controls_enc(cs: &Vec<Control>) -> (out: Vec<u8>)
    ensures
        out@ == controls_part(cs@),
{
    if cs.len() == 0 {
        return Vec::new();
    }
    let mut inner: Vec<u8> = Vec::new();
    let mut i: usize = 0;
    while i < cs.len()
        invariant
            i <= cs@.len(),
            inner@ == controls_inner(cs@.subrange(0, i as int)),
        decreases cs.len() - i,
    {
        let x = control_enc(&cs[i]);
        proof {
            assert(cs@.subrange(0, i + 1).drop_last() =~= cs@.subrange(0, i as int));
        }
        append(&mut inner, &x);
        i = i + 1;
    }
    assert(cs@.subrange(0, i as int) =~= cs@);
    ctx_seq_enc(0, inner.as_slice())
}

impl LdapResponse {
    /// Serialize this response message to BER.
    pub fn encode(&self) -> (out: Vec<u8>)
        ensures
            out@ == response_bytes(*self),
    {
        let op = match &self.op {
            ResponseOp::Bind(r) => app_seq_enc(1, result_enc(r).as_slice()),
            ResponseOp::SearchResultEntry(e) => app_seq_enc(4, entry_enc(e).as_slice()),
            ResponseOp::SearchResultDone(r) => app_seq_enc(5, result_enc(r).as_slice()),
            ResponseOp::Modify(r) => app_seq_enc(7, result_enc(r).as_slice()),
            ResponseOp::Add(r) => app_seq_enc(9, result_enc(r).as_slice()),
            ResponseOp::Delete(r) => app_seq_enc(11, result_enc(r).as_slice()),
            ResponseOp::ModifyDn(r) => app_seq_enc(13, result_enc(r).as_slice()),
            ResponseOp::Compare(r) => app_seq_enc(15, result_enc(r).as_slice()),
            ResponseOp::Extended(r) => app_seq_enc(24, result_enc(r).as_slice()),
        };
        let mut body = int_enc(self.id as i64);
        append(&mut body, &op);
        let c = controls_enc(&self.controls);
        append(&mut body, &c);
        seq_enc(body.as_slice())
    }
}


// ---------------------------------------------------------------------------
// Filters
// ---------------------------------------------------------------------------

proof fn lemma_encode_all_push(s: Seq<BerElement>, x: BerElement)
    ensures
        spec_encode_all(s.push(x)) == spec_encode_all(s) + spec_encode(x),
{
    assert(s.push(x).drop_last() =~= s);
}

fn push_el(kids: &mut Vec<BerElement>, x: BerElement)
    ensures
        final(kids)@ == old(kids)@.push(x),
        spec_encode_all(final(kids)@) == spec_encode_all(old(kids)@) + spec_encode(x),
{
    proof {
        lemma_encode_all_push(kids@, x);
    }
    kids.push(x);
}

fn ava_element(tag: u32, ava: &AttributeValueAssertion) -> (e: BerElement)
    ensures
        spec_encode(e) == ava_bytes(tag, *ava),
{
    let mut kids: Vec<BerElement> = Vec::new();
    push_el(&mut kids, BerElement::octet_string(ava.attribute_desc.as_str().as_bytes()));
    push_el(&mut kids, BerElement::octet_string(ava.assertion_value.as_slice()));
    assert(spec_encode_all(kids@) =~= os_str(ava.attribute_desc@) + os(ava.assertion_value@));
    BerElement::context_sequence(tag, kids)
}

fn encode_filters(subs: &Vec<Filter>) -> (out: Vec<BerElement>)
    ensures
        spec_encode_all(out@) == filters_inner(subs@),
    decreases subs,
{
    let mut out: Vec<BerElement> = Vec::new();
    let mut i: usize = 0;
    while i < subs.len()
        invariant
            i <= subs@.len(),
            spec_encode_all(out@) == filters_inner(subs@.subrange(0, i as int)),
        decreases subs.len() - i,
    {
        proof {
            vstd::std_specs::vec::axiom_vec_index_decreases(*subs, i as int);
            assert(subs@.subrange(0, i + 1).drop_last() =~= subs@.subrange(0, i as int));
        }
        let e = encode_filter(&subs[i]);
        push_el(&mut out, e);
        i = i + 1;
    }
    assert(subs@.subrange(0, i as int) =~= subs@);
    out
}

fn substrings_element(sf: &crate::ldap::protocol::SubstringFilter) -> (e: BerElement)
    ensures
        spec_encode(e) == ctx_seq(4, os_str(sf.attr_type@) + seq_el(subs_inner(sf.substrings@))),
{
    let mut parts: Vec<BerElement> = Vec::new();
    let mut i: usize = 0;
    while i < sf.substrings.len()
        invariant
            i <= sf.substrings@.len(),
            spec_encode_all(parts@) == subs_inner(sf.substrings@.subrange(0, i as int)),
        decreases sf.substrings.len() - i,
    {
        let s = &sf.substrings[i];
        let tag: u32 = match s.kind {
            SubstringKind::Initial => 0,
            SubstringKind::Any => 1,
            SubstringKind::Final => 2,
        };
        proof {
            assert(sf.substrings@.subrange(0, i + 1).drop_last() =~= sf.substrings@.subrange(0, i as int));
        }
        push_el(&mut parts, BerElement::context_primitive(tag, s.value.as_slice()));
        i = i + 1;
    }
    assert(sf.substrings@.subrange(0, i as int) =~= sf.substrings@);
    let mut kids: Vec<BerElement> = Vec::new();
    push_el(&mut kids, BerElement::octet_string(sf.attr_type.as_str().as_bytes()));
    push_el(&mut kids, BerElement::sequence(parts));
    assert(spec_encode_all(kids@) =~= os_str(sf.attr_type@) + seq_el(subs_inner(sf.substrings@)));
    BerElement::context_sequence(4, kids)
}

fn extensible_element(m: &MatchingRuleAssertion) -> (e: BerElement)
    ensures
        spec_encode(e) == ctx_seq(9, ext_inner(*m)),
{
    let mut kids: Vec<BerElement> = Vec::new();
    match &m.matching_rule {
        Some(r) => push_el(&mut kids, BerElement::context_primitive(1, r.as_str().as_bytes())),
        None => {},
    }
    assert(spec_encode_all(kids@) =~= rule_part(*m));
    match &m.attribute {
        Some(a) => push_el(&mut kids, BerElement::context_primitive(2, a.as_str().as_bytes())),
        None => {},
    }
    assert(spec_encode_all(kids@) =~= rule_part(*m) + attr_part(*m));
    push_el(&mut kids, BerElement::context_primitive(3, m.value.as_slice()));
    if m.dn_attributes {
        let t: Vec<u8> = vec![0xFFu8];
        assert(t@ =~= seq![0xFFu8]);
        push_el(&mut kids, BerElement::context_primitive(4, t.as_slice()));
    }
    assert(spec_encode_all(kids@) =~= ext_inner(*m));
    BerElement::context_sequence(9, kids)
}

/// Serialize a [`Filter`] into its context-tagged BER element.
pub fn encode_filter(filter: &Filter) -> (e: BerElement)
    ensures
        spec_encode(e) == filter_bytes(*filter),
    decreases filter,
{
    match filter {
        Filter::And(subs) => BerElement::context_sequence(0, encode_filters(subs)),
        Filter::Or(subs) => BerElement::context_sequence(1, encode_filters(subs)),
        Filter::Not(f) => {
            let inner = encode_filter(f);
            let mut kids: Vec<BerElement> = Vec::new();
            push_el(&mut kids, inner);
            assert(spec_encode_all(kids@) =~= filter_bytes(**f));
            BerElement::context_sequence(2, kids)
        },
        Filter::Equality(ava) => ava_element(3, ava),
        Filter::GreaterOrEqual(ava) => ava_element(5, ava),
        Filter::LessOrEqual(ava) => ava_element(6, ava),
        Filter::ApproxMatch(ava) => ava_element(8, ava),
        Filter::Present(name) => BerElement::context_primitive(7, name.as_str().as_bytes()),
        Filter::Substrings(sf) => substrings_element(sf),
        Filter::ExtensibleMatch(m) => extensible_element(m),
    }
}

// ---------------------------------------------------------------------------
// Requests
// ---------------------------------------------------------------------------

fn strs_enc(ss: &Vec<String>) -> (out: Vec<u8>)
    ensures
        out@ == seq_el(strs_inner(ss@)),
{
    let mut inner: Vec<u8> = Vec::new();
    let mut i: usize = 0;
    while i < ss.len()
        invariant
            i <= ss@.len(),
            inner@ == strs_inner(ss@.subrange(0, i as int)),
        decreases ss.len() - i,
    {
        let x = str_enc(ss[i].as_str());
        proof {
            assert(ss@.subrange(0, i + 1).drop_last() =~= ss@.subrange(0, i as int));
        }
        append(&mut inner, &x);
        i = i + 1;
    }
    assert(ss@.subrange(0, i as int) =~= ss@);
    seq_enc(inner.as_slice())
}

fn changes_enc(cs: &Vec<Modification>) -> (out: Vec<u8>)
    ensures
        out@ == seq_el(changes_inner(cs@)),
{
    let mut inner: Vec<u8> = Vec::new();
    let mut i: usize = 0;
    while i < cs.len()
        invariant
            i <= cs@.len(),
            inner@ == changes_inner(cs@.subrange(0, i as int)),
        decreases cs.len() - i,
    {
        let c = &cs[i];
        let mut body = enum_enc(c.op.code());
        let pa = pa_enc(c.name.as_str(), &c.values);
        append(&mut body, &pa);
        let x = seq_enc(body.as_slice());
        proof {
            assert(cs@.subrange(0, i + 1).drop_last() =~= cs@.subrange(0, i as int));
        }
        append(&mut inner, &x);
        i = i + 1;
    }
    assert(cs@.subrange(0, i as int) =~= cs@);
    seq_enc(inner.as_slice())
}

fn attrs_enc(attrs: &Vec<Attribute>) -> (out: Vec<u8>)
    ensures
        out@ == seq_el(attrs_inner(attrs@)),
{
    let mut inner: Vec<u8> = Vec::new();
    let mut i: usize = 0;
    while i < attrs.len()
        invariant
            i <= attrs@.len(),
            inner@ == attrs_inner(attrs@.subrange(0, i as int)),
        decreases attrs.len() - i,
    {
        let a = &attrs[i];
        let x = pa_enc(a.name.as_str(), &a.values);
        proof {
            assert(attrs@.subrange(0, i + 1).drop_last() =~= attrs@.subrange(0, i as int));
        }
        append(&mut inner, &x);
        i = i + 1;
    }
    assert(attrs@.subrange(0, i as int) =~= attrs@);
    seq_enc(inner.as_slice())
}

fn encode_request_op(op: &RequestOp) -> (out: Vec<u8>)
    ensures
        out@ == request_op_bytes(*op),
{
    match op {
        RequestOp::Bind(b) => {
            let mut body = int_enc(b.version as i64);
            let n = str_enc(b.name.as_str());
            append(&mut body, &n);
            let auth = match &b.auth {
                AuthChoice::Simple(pw) => ctx_prim_enc(0, pw.as_slice()),
                AuthChoice::Sasl(s) => {
                    let mut v = str_enc(s.mechanism.as_str());
                    if s.credentials.len() > 0 {
                        let c = os_enc(s.credentials.as_slice());
                        append(&mut v, &c);
                    }
                    ctx_seq_enc(3, v.as_slice())
                },
            };
            append(&mut body, &auth);
            app_seq_enc(0, body.as_slice())
        },
        RequestOp::Unbind => {
            let empty: Vec<u8> = Vec::new();
            app_prim_enc(2, empty.as_slice())
        },
        RequestOp::Search(s) => {
            let mut body = str_enc(s.base.as_str());
            let x1 = enum_enc(s.scope.code());
            append(&mut body, &x1);
            let x2 = enum_enc(s.deref_aliases as i64);
            append(&mut body, &x2);
            let x3 = int_enc(s.size_limit as i64);
            append(&mut body, &x3);
            let x4 = int_enc(s.time_limit as i64);
            append(&mut body, &x4);
            let x5 = bool_enc(s.types_only);
            append(&mut body, &x5);
            let x6 = encode_filter(&s.filter).encode();
            append(&mut body, &x6);
            let x7 = strs_enc(&s.attributes);
            append(&mut body, &x7);
            app_seq_enc(3, body.as_slice())
        },
        RequestOp::Modify(m) => {
            let mut body = str_enc(m.object.as_str());
            let x = changes_enc(&m.changes);
            append(&mut body, &x);
            app_seq_enc(6, body.as_slice())
        },
        RequestOp::Add(a) => {
            let mut body = str_enc(a.entry.dn.as_str());
            let x = attrs_enc(&a.entry.attributes);
            append(&mut body, &x);
            app_seq_enc(8, body.as_slice())
        },
        RequestOp::Delete(dn) => app_prim_enc(10, dn.as_str().as_bytes()),
        RequestOp::ModifyDn(d) => {
            let mut body = str_enc(d.dn.as_str());
            let x1 = str_enc(d.new_rdn.as_str());
            append(&mut body, &x1);
            let x2 = bool_enc(d.delete_old_rdn);
            append(&mut body, &x2);
            match &d.new_superior {
                Some(sup) => {
                    let x3 = ctx_prim_enc(0, sup.as_str().as_bytes());
                    append(&mut body, &x3);
                },
                None => {},
            }
            app_seq_enc(12, body.as_slice())
        },
        RequestOp::Compare(c) => {
            let mut body = str_enc(c.entry.as_str());
            let mut ava = str_enc(c.ava.attribute_desc.as_str());
            let v = os_enc(c.ava.assertion_value.as_slice());
            append(&mut ava, &v);
            let x = seq_enc(ava.as_slice());
            append(&mut body, &x);
            app_seq_enc(14, body.as_slice())
        },
        RequestOp::Abandon(mid) => {
            let int_el = BerElement::integer(*mid as i64);
            match int_el.as_bytes() {
                Some(b) => app_prim_enc(16, b),
                None => {
                    let empty: Vec<u8> = Vec::new();
                    app_prim_enc(16, empty.as_slice())
                },
            }
        },
        RequestOp::Extended(e) => {
            let mut body = str_enc(e.name.as_str());
            match &e.value {
                Some(v) => {
                    let x = os_enc(v.as_slice());
                    append(&mut body, &x);
                },
                None => {},
            }
            app_seq_enc(23, body.as_slice())
        },
    }
}

impl LdapRequest {
    /// Serialize this request message to BER.
    pub fn encode(&self) -> (out: Vec<u8>)
        ensures
            out@ == request_bytes(*self),
    {
        let op = encode_request_op(&self.op);
        let mut body = int_enc(self.id as i64);
        append(&mut body, &op);
        let c = controls_enc(&self.controls);
        append(&mut body, &c);
        seq_enc(body.as_slice())
    }
}

} // verus!
