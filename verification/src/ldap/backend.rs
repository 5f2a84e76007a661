//! The pluggable directory backend trait and the data types the server uses to
//! describe entries and modifications.

use vstd::prelude::*;
use crate::text::{utf8, eq_ic, str_eq_ignore_ascii_case};

pub use crate::ldap::error::BackendError;

verus! {

/// A single attribute of a directory entry: a type plus zero or more values.
#[derive(Debug, Clone, PartialEq, Eq)]
pub struct Attribute {
    /// The attribute description (type), e.g. `cn` or `objectClass`.
    pub name: String,
    /// The attribute's values (a SET; order is not significant in LDAP).
    pub values: Vec<Vec<u8>>,
}

impl Attribute {
    /// Create an attribute from a name and a list of byte-string values.
    pub fn new(name: &str, values: Vec<Vec<u8>>) -> (a: Self)
        ensures
            a.name@ == name@,
            a.values == values,
    {
        Attribute { name: name.to_owned(), values }
    }
}

/// A directory entry: a distinguished name plus its attributes.
#[derive(Debug, Clone, PartialEq, Eq)]
pub struct Entry {
    /// The entry's distinguished name, e.g. `cn=alice,dc=example,dc=com`.
    pub dn: String,
    /// The entry's attributes.
    pub attributes: Vec<Attribute>,
}

/// The first attribute at or after `i` whose name matches `name` ignoring
/// ASCII case.
pub open spec fn find_attr_from(attrs: Seq<Attribute>, name: Seq<u8>, i: int) -> Option<int>
    decreases attrs.len() - i,
{
    if i < 0 || i >= attrs.len() {
        None
    } else if eq_ic(utf8(attrs[i].name@), name) {
        Some(i)
    } else {
        find_attr_from(attrs, name, i + 1)
    }
}

/// The index of the first attribute named `name` (ignoring ASCII case).
pub open spec fn find_attr(attrs: Seq<Attribute>, name: Seq<u8>) -> Option<int> {
    find_attr_from(attrs, name, 0)
}

pub proof fn lemma_find_attr_from(attrs: Seq<Attribute>, name: Seq<u8>, i: int)
    requires
        0 <= i,
    ensures
        find_attr_from(attrs, name, i) matches Some(k) ==> i <= k < attrs.len() && eq_ic(utf8(attrs[k].name@), name)
            && forall|j: int| i <= j < k ==> !eq_ic(#[trigger] utf8(attrs[j].name@), name),
        find_attr_from(attrs, name, i) is None ==> forall|j: int| i <= j < attrs.len() ==> !eq_ic(#[trigger] utf8(attrs[j].name@), name),
    decreases attrs.len() - i,
{
    if i < attrs.len() && !eq_ic(utf8(attrs[i].name@), name) {
        lemma_find_attr_from(attrs, name, i + 1);
    }
}

/// Some attribute of the list is named `name` (ignoring ASCII case).
pub open spec fn has_attr(attrs: Seq<Attribute>, name: Seq<u8>) -> bool {
    exists|j: int| 0 <= j < attrs.len() && eq_ic(#[trigger] utf8(attrs[j].name@), name)
}

/// Find the position of the first attribute named `name` (ignoring ASCII case).
pub fn find_attr_index(attrs: &Vec<Attribute>, name: &str) -> (r: Option<usize>)
    ensures
        r matches Some(i) ==> find_attr(attrs@, utf8(name@)) == Some(i as int) && i < attrs@.len(),
        r is None ==> find_attr(attrs@, utf8(name@)) is None,
        r is None <==> !has_attr(attrs@, utf8(name@)),
{
    let mut i: usize = 0;
    proof {
        lemma_find_attr_from(attrs@, utf8(name@), 0);
    }
    while i < attrs.len()
        invariant
            i <= attrs@.len(),
            find_attr(attrs@, utf8(name@)) == find_attr_from(attrs@, utf8(name@), i as int),
            forall|j: int| 0 <= j < i ==> !eq_ic(#[trigger] utf8(attrs@[j].name@), utf8(name@)),
        decreases attrs.len() - i,
    {
        if str_eq_ignore_ascii_case(attrs[i].name.as_str(), name) {
            proof {
                lemma_find_attr_from(attrs@, utf8(name@), i as int);
            }
            return Some(i);
        }
        i = i + 1;
    }
    None
}

impl Entry {
    /// Create an entry from a DN and a list of attributes.
    pub fn new(dn: &str, attributes: Vec<Attribute>) -> (e: Self)
        ensures
            e.dn@ == dn@,
            e.attributes == attributes,
    {
        Entry { dn: dn.to_owned(), attributes }
    }

    /// Look up an attribute by (case-insensitive) name.
    pub fn attribute(&self, name: &str) -> (r: Option<&Attribute>)
        ensures
            match find_attr(self.attributes@, utf8(name@)) {
                Some(i) => r matches Some(a) && *a == self.attributes@[i],
                None => r is None,
            },
    {
        match find_attr_index(&self.attributes, name) {
            Some(i) => Some(&self.attributes[i]),
            None => None,
        }
    }
}

/// SASL bind credentials carried inside a `BindRequest` (RFC 4511 §4.2).
#[derive(Debug, Clone, PartialEq, Eq)]
pub struct SaslCredentials {
    /// The SASL mechanism name (e.g. `PLAIN`, `EXTERNAL`).
    pub mechanism: String,
    /// The optional SASL credentials octet string.
    pub credentials: Vec<u8>,
}

/// The kind of modification in a `ModifyRequest` (RFC 4511 §4.6).
#[derive(Debug, Clone, Copy, PartialEq, Eq, Structural)]
pub enum ModificationOp {
    /// Add the values to the attribute (creating it if absent).
    Add,
    /// Delete the values from the attribute (or all values if `values` is empty).
    Delete,
    /// Replace the attribute's values with `values` (deleting it if empty).
    Replace,
}

impl ModificationOp {
    /// The ENUMERATED value carried on the wire.
    pub open spec fn spec_code(self) -> i64 {
        match self {
            ModificationOp::Add => 0,
            ModificationOp::Delete => 1,
            ModificationOp::Replace => 2,
        }
    }

    /// The ENUMERATED value carried on the wire.
    pub fn code(self) -> (c: i64)
        ensures
            c == self.spec_code(),
    {
        match self {
            ModificationOp::Add => 0,
            ModificationOp::Delete => 1,
            ModificationOp::Replace => 2,
        }
    }
}

/// A single change in a `ModifyRequest`.
#[derive(Debug, Clone, PartialEq, Eq)]
pub struct Modification {
    /// The operation to perform.
    pub op: ModificationOp,
    /// The attribute being modified.
    pub name: String,
    /// The values involved (interpretation depends on `op`).
    pub values: Vec<Vec<u8>>,
}

/// The rename parameters of a `ModifyDNRequest` (RFC 4511 §4.9).
#[derive(Debug, Clone, PartialEq, Eq)]
pub struct ModifyDnRequest {
    /// The DN of the entry to rename.
    pub dn: String,
    /// The new relative distinguished name (RDN).
    pub new_rdn: String,
    /// Whether the old RDN attribute value should be removed from the entry.
    pub delete_old_rdn: bool,
    /// The new superior entry's DN, if the entry is being moved.
    pub new_superior: Option<String>,
}

/// Backend trait an LDAP server uses to authenticate binds and read/write
/// directory entries. Implement it to plug in your own directory.
pub trait DirectoryBackend: Sized {
    /// What a simple bind of `dn` with `password` answers.
    spec fn bind_simple_post(self, dn: Seq<char>, password: Seq<u8>, r: Result<bool, BackendError>) -> bool;

    /// What a SASL bind of `dn` with `sasl` answers.
    spec fn bind_sasl_post(self, dn: Seq<char>, sasl: SaslCredentials, r: Result<bool, BackendError>) -> bool;

    /// What listing the entries answers.
    spec fn entries_post(self, r: Result<Vec<Entry>, BackendError>) -> bool;

    /// What comparing `dn`'s `attribute` to `value` answers.
    spec fn compare_post(self, dn: Seq<char>, attribute: Seq<char>, value: Seq<u8>, r: Result<bool, BackendError>) -> bool;

    /// What adding `entry` does, from `self` to `post`, and answers.
    spec fn add_post(self, entry: Entry, post: Self, r: Result<(), BackendError>) -> bool;

    /// What deleting `dn` does and answers.
    spec fn delete_post(self, dn: Seq<char>, post: Self, r: Result<(), BackendError>) -> bool;

    /// What applying `changes` to `dn` does and answers.
    spec fn modify_post(self, dn: Seq<char>, changes: Seq<Modification>, post: Self, r: Result<(), BackendError>) -> bool;

    /// What a `ModifyDNRequest` does and answers.
    spec fn modify_dn_post(self, req: ModifyDnRequest, post: Self, r: Result<(), BackendError>) -> bool;

    /// Check a simple (name + password) bind. Return `Ok(true)` if the
    /// credentials are accepted, `Ok(false)` to send `invalidCredentials`.
    fn bind_simple(&self, dn: &str, password: &[u8]) -> (r: Result<bool, BackendError>)
        ensures
            self.bind_simple_post(dn@, password@, r),
    ;

    /// Check a SASL bind. Backends that support no mechanism report
    /// `Unsupported`, which the session maps to `unavailableCriticalExtension`.
    fn bind_sasl(&self, dn: &str, sasl: &SaslCredentials) -> (r: Result<bool, BackendError>)
        ensures
            self.bind_sasl_post(dn@, *sasl, r),
    ;

    /// Return every entry in the directory. The session applies search scope
    /// and filter evaluation on top of this.
    fn entries(&self) -> (r: Result<Vec<Entry>, BackendError>)
        ensures
            self.entries_post(r),
    ;

    /// Compare `dn`'s `attribute` to `value`, returning `true` for a match.
    fn compare(&self, dn: &str, attribute: &str, value: &[u8]) -> (r: Result<bool, BackendError>)
        ensures
            self.compare_post(dn@, attribute@, value@, r),
    ;

    /// Add a new entry. Return `Err(EntryAlreadyExists)` if it already exists.
    fn add(&mut self, entry: &Entry) -> (r: Result<(), BackendError>)
        ensures
            Self::add_post(*old(self), *entry, *final(self), r),
    ;

    /// Delete the entry named by `dn`. Return `Err(NotFound)` if absent.
    fn delete(&mut self, dn: &str) -> (r: Result<(), BackendError>)
        ensures
            Self::delete_post(*old(self), dn@, *final(self), r),
    ;

    /// Apply a list of modifications to the entry named by `dn`.
    fn modify(&mut self, dn: &str, changes: &[Modification]) -> (r: Result<(), BackendError>)
        ensures
            Self::modify_post(*old(self), dn@, changes@, *final(self), r),
    ;

    /// Rename/move the entry named by `dn` per a `ModifyDNRequest`.
    fn modify_dn(&mut self, req: &ModifyDnRequest) -> (r: Result<(), BackendError>)
        ensures
            Self::modify_dn_post(*old(self), *req, *final(self), r),
    ;
}

} // verus!
