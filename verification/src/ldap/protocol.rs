//! RFC 4511 LDAP message model: decoding and encoding of requests and
//! responses, search scope handling, and search-filter evaluation.

use vstd::prelude::*;
use vstd::utf8::decode_utf8;
use crate::text::utf8;
use crate::ldap::backend::{Attribute, Entry, Modification, ModificationOp, ModifyDnRequest, SaslCredentials};
use crate::ldap::ber::{
    BerContent, BerElement, BerError, Tag, spec_bytes_to_int, spec_int_bytes, spec_tlv, CLASS_APPLICATION,
    CLASS_CONTEXT,
};
use crate::ldap::ber::universal;
use crate::ldap::error::BackendError;

pub mod decode;
pub mod encode;
pub mod eval;

pub use decode::decode_request;
pub use encode::encode_filter;
pub use eval::{dn_parent, entry_to_result, filter_matches, scope_match};

verus! {

/// An attribute value assertion (RFC 4511 §4.1.8): a type and a value.
#[derive(Debug, Clone, PartialEq, Eq)]
pub struct AttributeValueAssertion {
    /// The attribute description (type).
    pub attribute_desc: String,
    /// The assertion value bytes.
    pub assertion_value: Vec<u8>,
}

/// LDAP `resultCode` values (RFC 4511 §4.1.9 / RFC 4510 Appendix A.1).
#[derive(Debug, Clone, Copy, PartialEq, Eq, Structural)]
#[allow(missing_docs)]
pub enum ResultCode {
    Success,
    OperationsError,
    ProtocolError,
    TimeLimitExceeded,
    SizeLimitExceeded,
    CompareFalse,
    CompareTrue,
    AuthMethodNotSupported,
    StrongAuthRequired,
    Referral,
    AdminLimitExceeded,
    UnavailableCriticalExtension,
    ConfidentialityRequired,
    SaslBindInProgress,
    NoSuchAttribute,
    UndefinedAttributeType,
    InappropriateMatching,
    ConstraintViolation,
    AttributeOrValueExists,
    InvalidAttributeSyntax,
    NoSuchObject,
    AliasProblem,
    InvalidDnSyntax,
    AliasDereferencingProblem,
    InappropriateAuthentication,
    InvalidCredentials,
    InsufficientAccessRights,
    Busy,
    Unavailable,
    UnwillingToPerform,
    LoopDetect,
    NamingViolation,
    ObjectClassViolation,
    NotAllowedOnNonLeaf,
    NotAllowedOnRdn,
    EntryAlreadyExists,
    AffectsMultipleDsas,
    Other,
}

impl ResultCode {
    /// The integer value used on the wire (RFC 4511 Appendix A).
    pub open spec fn spec_value(self) -> i64 {
        match self {
            ResultCode::Success => 0,
            ResultCode::OperationsError => 1,
            ResultCode::ProtocolError => 2,
            ResultCode::TimeLimitExceeded => 3,
            ResultCode::SizeLimitExceeded => 4,
            ResultCode::CompareFalse => 5,
            ResultCode::CompareTrue => 6,
            ResultCode::AuthMethodNotSupported => 7,
            ResultCode::StrongAuthRequired => 8,
            ResultCode::Referral => 10,
            ResultCode::AdminLimitExceeded => 11,
            ResultCode::UnavailableCriticalExtension => 12,
            ResultCode::ConfidentialityRequired => 13,
            ResultCode::SaslBindInProgress => 14,
            ResultCode::NoSuchAttribute => 16,
            ResultCode::UndefinedAttributeType => 17,
            ResultCode::InappropriateMatching => 18,
            ResultCode::ConstraintViolation => 19,
            ResultCode::AttributeOrValueExists => 20,
            ResultCode::InvalidAttributeSyntax => 21,
            ResultCode::NoSuchObject => 32,
            ResultCode::AliasProblem => 33,
            ResultCode::InvalidDnSyntax => 34,
            ResultCode::AliasDereferencingProblem => 36,
            ResultCode::InappropriateAuthentication => 48,
            ResultCode::InvalidCredentials => 49,
            ResultCode::InsufficientAccessRights => 50,
            ResultCode::Busy => 51,
            ResultCode::Unavailable => 52,
            ResultCode::UnwillingToPerform => 53,
            ResultCode::LoopDetect => 54,
            ResultCode::NamingViolation => 64,
            ResultCode::ObjectClassViolation => 65,
            ResultCode::NotAllowedOnNonLeaf => 66,
            ResultCode::NotAllowedOnRdn => 67,
            ResultCode::EntryAlreadyExists => 68,
            ResultCode::AffectsMultipleDsas => 71,
            ResultCode::Other => 80,
        }
    }

    /// The integer tag value as used on the wire.
    pub fn as_i64(self) -> (v: i64)
        ensures
            v == self.spec_value(),
    {
        match self {
            ResultCode::Success => 0,
            ResultCode::OperationsError => 1,
            ResultCode::ProtocolError => 2,
            ResultCode::TimeLimitExceeded => 3,
            ResultCode::SizeLimitExceeded => 4,
            ResultCode::CompareFalse => 5,
            ResultCode::CompareTrue => 6,
            ResultCode::AuthMethodNotSupported => 7,
            ResultCode::StrongAuthRequired => 8,
            ResultCode::Referral => 10,
            ResultCode::AdminLimitExceeded => 11,
            ResultCode::UnavailableCriticalExtension => 12,
            ResultCode::ConfidentialityRequired => 13,
            ResultCode::SaslBindInProgress => 14,
            ResultCode::NoSuchAttribute => 16,
            ResultCode::UndefinedAttributeType => 17,
            ResultCode::InappropriateMatching => 18,
            ResultCode::ConstraintViolation => 19,
            ResultCode::AttributeOrValueExists => 20,
            ResultCode::InvalidAttributeSyntax => 21,
            ResultCode::NoSuchObject => 32,
            ResultCode::AliasProblem => 33,
            ResultCode::InvalidDnSyntax => 34,
            ResultCode::AliasDereferencingProblem => 36,
            ResultCode::InappropriateAuthentication => 48,
            ResultCode::InvalidCredentials => 49,
            ResultCode::InsufficientAccessRights => 50,
            ResultCode::Busy => 51,
            ResultCode::Unavailable => 52,
            ResultCode::UnwillingToPerform => 53,
            ResultCode::LoopDetect => 54,
            ResultCode::NamingViolation => 64,
            ResultCode::ObjectClassViolation => 65,
            ResultCode::NotAllowedOnNonLeaf => 66,
            ResultCode::NotAllowedOnRdn => 67,
            ResultCode::EntryAlreadyExists => 68,
            ResultCode::AffectsMultipleDsas => 71,
            ResultCode::Other => 80,
        }
    }

    /// The `resultCode` a backend error maps onto.
    pub open spec fn spec_from_backend_error(e: BackendError) -> ResultCode {
        match e {
            BackendError::AuthenticationFailed => ResultCode::InvalidCredentials,
            BackendError::NotFound => ResultCode::NoSuchObject,
            BackendError::EntryAlreadyExists => ResultCode::EntryAlreadyExists,
            BackendError::NoSuchAttribute => ResultCode::NoSuchAttribute,
            BackendError::AttributeOrValueExists => ResultCode::AttributeOrValueExists,
            BackendError::InsufficientAccess => ResultCode::InsufficientAccessRights,
            BackendError::ConstraintViolation => ResultCode::ConstraintViolation,
            BackendError::Unsupported => ResultCode::UnavailableCriticalExtension,
            BackendError::Other(_) => ResultCode::Other,
        }
    }

    /// Map a backend error onto the closest LDAP `resultCode`.
    pub fn from_backend_error(e: &BackendError) -> (c: Self)
        ensures
            c == Self::spec_from_backend_error(*e),
    {
        match e {
            BackendError::AuthenticationFailed => ResultCode::InvalidCredentials,
            BackendError::NotFound => ResultCode::NoSuchObject,
            BackendError::EntryAlreadyExists => ResultCode::EntryAlreadyExists,
            BackendError::NoSuchAttribute => ResultCode::NoSuchAttribute,
            BackendError::AttributeOrValueExists => ResultCode::AttributeOrValueExists,
            BackendError::InsufficientAccess => ResultCode::InsufficientAccessRights,
            BackendError::ConstraintViolation => ResultCode::ConstraintViolation,
            BackendError::Unsupported => ResultCode::UnavailableCriticalExtension,
            BackendError::Other(_) => ResultCode::Other,
        }
    }
}

/// The standard LDAP `LDAPResult` (RFC 4511 §4.1.9).
#[derive(Debug, Clone, PartialEq, Eq)]
pub struct LdapResult {
    /// The result code.
    pub code: ResultCode,
    /// The `matchedDN` (usually empty for a reference server).
    pub matched_dn: String,
    /// A human-readable diagnostic message (may be empty).
    pub diagnostic: String,
}

impl LdapResult {
    /// A successful result with empty `matchedDN` and diagnostic.
    pub fn success() -> (r: Self)
        ensures
            r.code == ResultCode::Success,
            r.matched_dn@ == Seq::<char>::empty(),
            r.diagnostic@ == Seq::<char>::empty(),
    {
        LdapResult { code: ResultCode::Success, matched_dn: String::new(), diagnostic: String::new() }
    }

    /// A result with the given code and a diagnostic message.
    pub fn error(code: ResultCode, diagnostic: &str) -> (r: Self)
        ensures
            r.code == code,
            r.matched_dn@ == Seq::<char>::empty(),
            r.diagnostic@ == diagnostic@,
    {
        LdapResult { code, matched_dn: String::new(), diagnostic: diagnostic.to_owned() }
    }
}

/// A control attached to a message (RFC 4511 §4.1.11).
#[derive(Debug, Clone, PartialEq, Eq)]
pub struct Control {
    /// The control OID.
    pub oid: String,
    /// Whether the control is critical.
    pub criticality: bool,
    /// The control value (absent if the control carries none).
    pub value: Option<Vec<u8>>,
}

/// The authentication choice inside a `BindRequest` (RFC 4511 §4.2).
#[derive(Debug, Clone, PartialEq, Eq)]
pub enum AuthChoice {
    /// `simple` bind: the raw password octets.
    Simple(Vec<u8>),
    /// `sasl` bind: mechanism plus optional credentials.
    Sasl(SaslCredentials),
}

/// A `BindRequest` (RFC 4511 §4.2).
#[derive(Debug, Clone, PartialEq, Eq)]
pub struct BindRequest {
    /// The protocol version (LDAPv3 = 3).
    pub version: i32,
    /// The bind DN (name).
    pub name: String,
    /// The authentication choice.
    pub auth: AuthChoice,
}

/// Search scope (RFC 4511 §4.5.1).
#[derive(Debug, Clone, Copy, PartialEq, Eq, Structural)]
pub enum Scope {
    /// Search only the base object.
    Base,
    /// Search the base object's immediate children.
    SingleLevel,
    /// Search the base object and the whole subtree beneath it.
    WholeSubtree,
}

impl Scope {
    /// The ENUMERATED value carried on the wire.
    pub open spec fn spec_code(self) -> i64 {
        match self {
            Scope::Base => 0,
            Scope::SingleLevel => 1,
            Scope::WholeSubtree => 2,
        }
    }

    /// The ENUMERATED value carried on the wire.
    pub fn code(self) -> (c: i64)
        ensures
            c == self.spec_code(),
    {
        match self {
            Scope::Base => 0,
            Scope::SingleLevel => 1,
            Scope::WholeSubtree => 2,
        }
    }
}

/// A search filter (RFC 4511 §4.5.1).
#[derive(Debug, PartialEq, Eq)]
pub enum Filter {
    /// `(& ...)` — all sub-filters must match.
    And(Vec<Filter>),
    /// `(| ...)` — at least one sub-filter must match.
    Or(Vec<Filter>),
    /// `(! ...)` — negation of a single sub-filter.
    Not(Box<Filter>),
    /// `(=)` equality match.
    Equality(AttributeValueAssertion),
    /// `(attr=*...*)` substring match.
    Substrings(SubstringFilter),
    /// `(>=)` ordering match.
    GreaterOrEqual(AttributeValueAssertion),
    /// `(<=)` ordering match.
    LessOrEqual(AttributeValueAssertion),
    /// `(attr=*)` attribute presence.
    Present(String),
    /// `(~=)` approximate match (treated as equality by this reference server).
    ApproxMatch(AttributeValueAssertion),
    /// Extensible match (no matching rules implemented; never matches here).
    ExtensibleMatch(MatchingRuleAssertion),
}

/// A substring assertion (RFC 4511 §4.5.1).
#[derive(Debug, Clone, PartialEq, Eq)]
pub struct SubstringFilter {
    /// The attribute description.
    pub attr_type: String,
    /// The ordered list of substring components.
    pub substrings: Vec<Substring>,
}

/// A single component of a [`SubstringFilter`].
#[derive(Debug, Clone, PartialEq, Eq)]
pub struct Substring {
    /// Whether this is the initial (prefix), any (infix), or final (suffix) part.
    pub kind: SubstringKind,
    /// The assertion value bytes.
    pub value: Vec<u8>,
}

/// The position of a [`Substring`] component.
#[derive(Debug, Clone, Copy, PartialEq, Eq, Structural)]
pub enum SubstringKind {
    /// Must appear at the start of the value.
    Initial,
    /// Must appear somewhere inside the value.
    Any,
    /// Must appear at the end of the value.
    Final,
}

/// An extensible match assertion (RFC 4511 §4.5.1). Matching rules are not
/// implemented, so these never match during evaluation.
#[derive(Debug, Clone, PartialEq, Eq)]
pub struct MatchingRuleAssertion {
    /// Optional matching-rule OID.
    pub matching_rule: Option<String>,
    /// The attribute description (required unless `dn_attributes` is true).
    pub attribute: Option<String>,
    /// The assertion value.
    pub value: Vec<u8>,
    /// Whether the match is against DN attributes rather than the entry.
    pub dn_attributes: bool,
}

/// A `SearchRequest` (RFC 4511 §4.5.1).
#[derive(Debug, Clone, PartialEq, Eq)]
pub struct SearchRequest {
    /// The base object DN.
    pub base: String,
    /// The search scope.
    pub scope: Scope,
    /// Alias dereferencing behaviour (passed through; not specially handled).
    pub deref_aliases: i32,
    /// Maximum number of entries to return (0 = unlimited).
    pub size_limit: i32,
    /// Maximum search time in seconds (0 = unlimited).
    pub time_limit: i32,
    /// When `true`, return attribute types but not values.
    pub types_only: bool,
    /// The search filter.
    pub filter: Filter,
    /// The requested attributes (empty means "all user attributes"; `*` likewise).
    pub attributes: Vec<String>,
}

/// A `PartialAttribute` as carried in search/add/modify messages (RFC 4511 §4.1.7).
#[derive(Debug, Clone, PartialEq, Eq)]
pub struct PartialAttribute {
    /// The attribute type.
    pub attr_type: String,
    /// The attribute values.
    pub values: Vec<Vec<u8>>,
}

/// A `SearchResultEntry` (RFC 4511 §4.5.2).
#[derive(Debug, Clone, PartialEq, Eq)]
pub struct SearchResultEntry {
    /// The matched entry's DN.
    pub object_name: String,
    /// The returned attributes.
    pub attributes: Vec<PartialAttribute>,
}

/// A `ModifyRequest` (RFC 4511 §4.6).
#[derive(Debug, Clone, PartialEq, Eq)]
pub struct ModifyRequest {
    /// The DN of the entry to modify.
    pub object: String,
    /// The ordered list of modifications.
    pub changes: Vec<Modification>,
}

/// An `AddRequest` (RFC 4511 §4.7).
#[derive(Debug, Clone, PartialEq, Eq)]
pub struct AddRequest {
    /// The entry to add (DN + attributes).
    pub entry: Entry,
}

/// A `CompareRequest` (RFC 4511 §4.10).
#[derive(Debug, Clone, PartialEq, Eq)]
pub struct CompareRequest {
    /// The DN of the entry to compare against.
    pub entry: String,
    /// The attribute value assertion to test.
    pub ava: AttributeValueAssertion,
}

/// An `ExtendedRequest` (RFC 4511 §4.12).
#[derive(Debug, Clone, PartialEq, Eq)]
pub struct ExtendedRequest {
    /// The request OID.
    pub name: String,
    /// The optional request value.
    pub value: Option<Vec<u8>>,
}

/// The request operation of an `LDAPMessage`.
#[derive(Debug, Clone, PartialEq, Eq)]
pub enum RequestOp {
    /// A bind request.
    Bind(BindRequest),
    /// An unbind request (no response; closes the connection).
    Unbind,
    /// A search request.
    Search(SearchRequest),
    /// A modify request.
    Modify(ModifyRequest),
    /// An add request.
    Add(AddRequest),
    /// A delete request (the target DN).
    Delete(String),
    /// A modify DN (rename) request.
    ModifyDn(ModifyDnRequest),
    /// A compare request.
    Compare(CompareRequest),
    /// An abandon request (the message ID to abandon).
    Abandon(i32),
    /// An extended request.
    Extended(ExtendedRequest),
}

/// A decoded LDAP request message.
#[derive(Debug, Clone, PartialEq, Eq)]
pub struct LdapRequest {
    /// The message ID.
    pub id: i32,
    /// The request operation.
    pub op: RequestOp,
    /// Any controls attached to the message.
    pub controls: Vec<Control>,
}

/// The response operation of an `LDAPMessage`.
#[derive(Debug, Clone, PartialEq, Eq)]
pub enum ResponseOp {
    /// A bind response.
    Bind(LdapResult),
    /// A search result entry.
    SearchResultEntry(SearchResultEntry),
    /// A search result done (terminal search result).
    SearchResultDone(LdapResult),
    /// A modify response.
    Modify(LdapResult),
    /// An add response.
    Add(LdapResult),
    /// A delete response.
    Delete(LdapResult),
    /// A modify DN response.
    ModifyDn(LdapResult),
    /// A compare response.
    Compare(LdapResult),
    /// An extended response.
    Extended(LdapResult),
}

/// An LDAP response message to be sent to a client.
#[derive(Debug, Clone, PartialEq, Eq)]
pub struct LdapResponse {
    /// The message ID (echoes the request's).
    pub id: i32,
    /// The response operation.
    pub op: ResponseOp,
    /// Any controls to attach (none sent by the reference server).
    pub controls: Vec<Control>,
}

/// Two assertions carry the same attribute description and value.
pub open spec fn same_ava(a: AttributeValueAssertion, b: AttributeValueAssertion) -> bool {
    a.attribute_desc@ == b.attribute_desc@ && a.assertion_value@ == b.assertion_value@
}

/// Two substring assertions carry the same attribute and components.
pub open spec fn same_substrings(a: SubstringFilter, b: SubstringFilter) -> bool {
    &&& a.attr_type@ == b.attr_type@
    &&& a.substrings@.len() == b.substrings@.len()
    &&& forall|i: int|
        0 <= i < a.substrings@.len() ==> (#[trigger] a.substrings@[i]).kind == b.substrings@[i].kind
            && a.substrings@[i].value@ == b.substrings@[i].value@
}

/// The views of an optional string.
pub open spec fn opt_string_view(o: Option<String>) -> Option<Seq<char>> {
    match o {
        Some(s) => Some(s@),
        None => None,
    }
}

/// Two extensible-match assertions carry the same fields.
pub open spec fn same_mra(a: MatchingRuleAssertion, b: MatchingRuleAssertion) -> bool {
    &&& opt_string_view(a.matching_rule) == opt_string_view(b.matching_rule)
    &&& opt_string_view(a.attribute) == opt_string_view(b.attribute)
    &&& a.value@ == b.value@
    &&& a.dn_attributes == b.dn_attributes
}

/// Two filters are the same tree: the same kinds of node, with the same
/// attributes, values and sub-filters in the same order.
pub open spec fn same_filter(a: Filter, b: Filter) -> bool
    decreases a, 1nat,
{
    match a {
        Filter::And(x) => {
            proof {
                vstd::std_specs::vec::axiom_vec_decreases_to_view(x);
            }
            b matches Filter::And(y) && same_filters(x@, y@)
        },
        Filter::Or(x) => {
            proof {
                vstd::std_specs::vec::axiom_vec_decreases_to_view(x);
            }
            b matches Filter::Or(y) && same_filters(x@, y@)
        },
        Filter::Not(x) => b matches Filter::Not(y) && same_filter(*x, *y),
        Filter::Equality(x) => b matches Filter::Equality(y) && same_ava(x, y),
        Filter::Substrings(x) => b matches Filter::Substrings(y) && same_substrings(x, y),
        Filter::GreaterOrEqual(x) => b matches Filter::GreaterOrEqual(y) && same_ava(x, y),
        Filter::LessOrEqual(x) => b matches Filter::LessOrEqual(y) && same_ava(x, y),
        Filter::Present(x) => b matches Filter::Present(y) && x@ == y@,
        Filter::ApproxMatch(x) => b matches Filter::ApproxMatch(y) && same_ava(x, y),
        Filter::ExtensibleMatch(x) => b matches Filter::ExtensibleMatch(y) && same_mra(x, y),
    }
}

/// Two lists of filters are the same trees, in the same order.
pub open spec fn same_filters(a: Seq<Filter>, b: Seq<Filter>) -> bool
    decreases a, 0nat,
{
    if a.len() == 0 {
        b.len() == 0
    } else {
        b.len() == a.len() && same_filters(a.drop_last(), b.drop_last()) && same_filter(a.last(), b.last())
    }
}

fn copy_ava(a: &AttributeValueAssertion) -> (r: AttributeValueAssertion)
    ensures
        same_ava(r, *a),
{
    AttributeValueAssertion {
        attribute_desc: a.attribute_desc.clone(),
        assertion_value: vstd::slice::slice_to_vec(a.assertion_value.as_slice()),
    }
}

fn copy_substring_filter(f: &SubstringFilter) -> (r: SubstringFilter)
    ensures
        same_substrings(r, *f),
{
    let mut subs: Vec<Substring> = Vec::new();
    let mut i: usize = 0;
    while i < f.substrings.len()
        invariant
            i <= f.substrings@.len(),
            subs@.len() == i,
            forall|j: int|
                0 <= j < i ==> (#[trigger] subs@[j]).kind == f.substrings@[j].kind && subs@[j].value@
                    == f.substrings@[j].value@,
        decreases f.substrings.len() - i,
    {
        let c = Substring {
            kind: f.substrings[i].kind,
            value: vstd::slice::slice_to_vec(f.substrings[i].value.as_slice()),
        };
        subs.push(c);
        i = i + 1;
    }
    SubstringFilter { attr_type: f.attr_type.clone(), substrings: subs }
}

fn copy_opt_string(o: &Option<String>) -> (r: Option<String>)
    ensures
        opt_string_view(r) == opt_string_view(*o),
{
    match o {
        Some(s) => Some(s.clone()),
        None => None,
    }
}

fn copy_mra(m: &MatchingRuleAssertion) -> (r: MatchingRuleAssertion)
    ensures
        same_mra(r, *m),
{
    MatchingRuleAssertion {
        matching_rule: copy_opt_string(&m.matching_rule),
        attribute: copy_opt_string(&m.attribute),
        value: vstd::slice::slice_to_vec(m.value.as_slice()),
        dn_attributes: m.dn_attributes,
    }
}

/// An independent copy of a filter tree.
pub fn copy_filter(f: &Filter) -> (r: Filter)
    ensures
        same_filter(*f, r),
    decreases f,
{
    match f {
        Filter::And(subs) => Filter::And(copy_filters(subs)),
        Filter::Or(subs) => Filter::Or(copy_filters(subs)),
        Filter::Not(inner) => Filter::Not(Box::new(copy_filter(inner))),
        Filter::Equality(a) => Filter::Equality(copy_ava(a)),
        Filter::Substrings(s) => Filter::Substrings(copy_substring_filter(s)),
        Filter::GreaterOrEqual(a) => Filter::GreaterOrEqual(copy_ava(a)),
        Filter::LessOrEqual(a) => Filter::LessOrEqual(copy_ava(a)),
        Filter::Present(n) => Filter::Present(n.clone()),
        Filter::ApproxMatch(a) => Filter::ApproxMatch(copy_ava(a)),
        Filter::ExtensibleMatch(m) => Filter::ExtensibleMatch(copy_mra(m)),
    }
}

fn copy_filters(subs: &Vec<Filter>) -> (r: Vec<Filter>)
    ensures
        same_filters(subs@, r@),
    decreases subs,
{
    let mut out: Vec<Filter> = Vec::new();
    let mut i: usize = 0;
    assert(subs@.subrange(0, 0) =~= out@);
    while i < subs.len()
        invariant
            i <= subs@.len(),
            same_filters(subs@.subrange(0, i as int), out@),
        decreases subs.len() - i,
    {
        proof {
            vstd::std_specs::vec::axiom_vec_index_decreases(*subs, i as int);
        }
        let c = copy_filter(&subs[i]);
        let ghost before = out@;
        out.push(c);
        proof {
            let pre = subs@.subrange(0, i + 1);
            assert(pre.drop_last() =~= subs@.subrange(0, i as int));
            assert(out@.drop_last() =~= before);
            assert(pre.last() == subs@[i as int]);
        }
        i = i + 1;
    }
    assert(subs@.subrange(0, i as int) =~= subs@);
    out
}

impl Clone for Filter {
    fn clone(&self) -> Self {
        copy_filter(self)
    }
}

} // verus!
