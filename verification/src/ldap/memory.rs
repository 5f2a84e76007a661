//! Reference in-memory directory backend, useful for tests, examples, and small
//! deployments that do not need durable storage.

use vstd::prelude::*;
use vstd::string::StringSliceAdditionalSpecFns;
use vstd::utf8::{decode_utf8, is_char_boundary};
use crate::text::{
    bytes_eq, copy_bytes, eq_ic, lemma_lex_asymmetric, lemma_lex_irreflexive, lemma_lex_total,
    lemma_lex_transitive, lex_lt, lower, lower_bytes, str_eq_ignore_ascii_case, trim_both_ws, trim_end_ws, trim_ws,
    utf8,
};
use crate::ldap::backend::{
    Attribute, BackendError, DirectoryBackend, Entry, Modification, ModificationOp, ModifyDnRequest,
    SaslCredentials, find_attr, find_attr_from, find_attr_index,
};
use crate::ldap::protocol::eval::{dn_parent, lex_less, spec_dn_parent};
use vstd::string::StringExecFns;

verus! {

// ---------------------------------------------------------------------------
// Model
// ---------------------------------------------------------------------------

/// An attribute as plain values: its name and its value octets.
pub type AttrModel = (Seq<char>, Seq<Seq<u8>>);

/// An entry as plain values: its DN and its attributes.
pub type EntryModel = (Seq<char>, Seq<AttrModel>);

/// The value octets of a list of values.
pub open spec fn values_model(vs: Seq<Vec<u8>>) -> Seq<Seq<u8>> {
    vs.map_values(|v: Vec<u8>| v@)
}

/// An attribute as plain values.
pub open spec fn attr_model(a: Attribute) -> AttrModel {
    (a.name@, values_model(a.values@))
}

/// A list of attributes as plain values.
pub open spec fn attrs_model(s: Seq<Attribute>) -> Seq<AttrModel> {
    s.map_values(|a: Attribute| attr_model(a))
}

/// An entry as plain values.
pub open spec fn entry_model(e: Entry) -> EntryModel {
    (e.dn@, attrs_model(e.attributes@))
}

/// A list of entries as plain values.
pub open spec fn entries_model(s: Seq<Entry>) -> Seq<EntryModel> {
    s.map_values(|e: Entry| entry_model(e))
}

/// The key an entry is stored under: its DN, ASCII lower-cased.
pub open spec fn dn_key(dn: Seq<char>) -> Seq<u8> {
    lower(utf8(dn))
}

/// The entries are in strictly increasing key order (so no key occurs twice).
pub open spec fn sorted_keys(m: Seq<EntryModel>) -> bool {
    forall|i: int, j: int| 0 <= i < j < m.len() ==> lex_lt(#[trigger] dn_key(m[i].0), #[trigger] dn_key(m[j].0))
}

/// The first position at or after `i` holding the key `k`.
pub open spec fn key_index_from(m: Seq<EntryModel>, k: Seq<u8>, i: int) -> Option<int>
    decreases m.len() - i,
{
    if i < 0 || i >= m.len() {
        None
    } else if dn_key(m[i].0) == k {
        Some(i)
    } else {
        key_index_from(m, k, i + 1)
    }
}

/// The position of the entry stored under key `k`.
pub open spec fn key_index(m: Seq<EntryModel>, k: Seq<u8>) -> Option<int> {
    key_index_from(m, k, 0)
}

/// The first position at or after `i` whose key does not sort before `k`.
pub open spec fn insert_pos_from(m: Seq<EntryModel>, k: Seq<u8>, i: int) -> int
    decreases m.len() - i,
{
    if i < 0 || i >= m.len() {
        m.len() as int
    } else if !lex_lt(dn_key(m[i].0), k) {
        i
    } else {
        insert_pos_from(m, k, i + 1)
    }
}

/// Where an entry with key `k` goes to keep the order.
pub open spec fn insert_pos(m: Seq<EntryModel>, k: Seq<u8>) -> int {
    insert_pos_from(m, k, 0)
}

/// `m` with the entry `e` placed in key order.
pub open spec fn insert_sorted(m: Seq<EntryModel>, e: EntryModel) -> Seq<EntryModel> {
    m.insert(insert_pos(m, dn_key(e.0)), e)
}

/// The first attribute at or after `i` named `n` (ignoring ASCII case).
pub open spec fn named_index_from(attrs: Seq<AttrModel>, n: Seq<char>, i: int) -> Option<int>
    decreases attrs.len() - i,
{
    if i < 0 || i >= attrs.len() {
        None
    } else if eq_ic(utf8(attrs[i].0), utf8(n)) {
        Some(i)
    } else {
        named_index_from(attrs, n, i + 1)
    }
}

/// The first attribute named `n` (ignoring ASCII case).
pub open spec fn named_index(attrs: Seq<AttrModel>, n: Seq<char>) -> Option<int> {
    named_index_from(attrs, n, 0)
}

/// Is the attribute named other than `n` (ignoring ASCII case)?
pub open spec fn not_named(n: Seq<char>) -> spec_fn(AttrModel) -> bool {
    |a: AttrModel| !eq_ic(utf8(a.0), utf8(n))
}

/// Is the attribute kept after removing a value of `n`: another name, or
/// values left?
pub open spec fn not_emptied(n: Seq<char>) -> spec_fn(AttrModel) -> bool {
    |a: AttrModel| !eq_ic(utf8(a.0), utf8(n)) || a.1.len() > 0
}

/// Is the value absent from `dels`?
pub open spec fn not_in(dels: Seq<Seq<u8>>) -> spec_fn(Seq<u8>) -> bool {
    |v: Seq<u8>| !dels.contains(v)
}

/// Is the value other than `x`?
pub open spec fn other_than(x: Seq<u8>) -> spec_fn(Seq<u8>) -> bool {
    |v: Seq<u8>| v != x
}

/// The result of applying one change of a modify request to the attributes.
pub open spec fn apply_change(attrs: Seq<AttrModel>, c: Modification) -> Result<Seq<AttrModel>, BackendError> {
    let n = c.name@;
    let vals = values_model(c.values@);
    match c.op {
        ModificationOp::Add => match named_index(attrs, n) {
            Some(k) => if exists|j: int| 0 <= j < vals.len() && attrs[k].1.contains(#[trigger] vals[j]) {
                Err(BackendError::AttributeOrValueExists)
            } else {
                Ok(attrs.update(k, (attrs[k].0, attrs[k].1 + vals)))
            },
            None => Ok(attrs.push((n, vals))),
        },
        ModificationOp::Delete => match named_index(attrs, n) {
            None => Err(BackendError::NoSuchAttribute),
            Some(k) => if vals.len() == 0 {
                Ok(attrs.filter(not_named(n)))
            } else {
                let kept = attrs[k].1.filter(not_in(vals));
                if kept.len() == attrs[k].1.len() {
                    Err(BackendError::NoSuchAttribute)
                } else if kept.len() == 0 {
                    Ok(attrs.update(k, (attrs[k].0, kept)).filter(not_named(n)))
                } else {
                    Ok(attrs.update(k, (attrs[k].0, kept)))
                }
            },
        },
        ModificationOp::Replace => if vals.len() == 0 {
            Ok(attrs.filter(not_named(n)))
        } else {
            match named_index(attrs, n) {
                Some(k) => Ok(attrs.update(k, (attrs[k].0, vals))),
                None => Ok(attrs.push((n, vals))),
            }
        },
    }
}

/// The attributes after applying the changes in order, and the error that
/// stopped them, if any (the changes before it stay applied).
pub open spec fn apply_changes(attrs: Seq<AttrModel>, cs: Seq<Modification>) -> (Seq<AttrModel>, Option<BackendError>)
    decreases cs.len(),
{
    if cs.len() == 0 {
        (attrs, None)
    } else {
        match apply_change(attrs, cs[0]) {
            Ok(a2) => apply_changes(a2, cs.drop_first()),
            Err(e) => (attrs, Some(e)),
        }
    }
}

/// The attributes with the value `v` added to attribute `n` unless present
/// (the attribute is created when missing).
pub open spec fn upsert_value(attrs: Seq<AttrModel>, n: Seq<char>, v: Seq<u8>) -> Seq<AttrModel> {
    match named_index(attrs, n) {
        Some(k) => if attrs[k].1.contains(v) {
            attrs
        } else {
            attrs.update(k, (attrs[k].0, attrs[k].1.push(v)))
        },
        None => attrs.push((n, seq![v])),
    }
}

/// The attributes with the value `v` removed from attribute `n`, and every
/// attribute named `n` left without values dropped.
pub open spec fn remove_value(attrs: Seq<AttrModel>, n: Seq<char>, v: Seq<u8>) -> Seq<AttrModel> {
    let a1 = match named_index(attrs, n) {
        Some(k) => attrs.update(k, (attrs[k].0, attrs[k].1.filter(other_than(v)))),
        None => attrs,
    };
    a1.filter(not_emptied(n))
}

/// The position of the first occurrence of the octet `x` at or after `i`.
pub open spec fn byte_index_from(b: Seq<u8>, x: u8, i: int) -> Option<int>
    decreases b.len() - i,
{
    if i < 0 || i >= b.len() {
        None
    } else if b[i] == x {
        Some(i)
    } else {
        byte_index_from(b, x, i + 1)
    }
}

/// The attribute name and value of an RDN such as `cn=alice`: the text
/// before and after the first `=`, each without surrounding whitespace.
pub open spec fn spec_parse_rdn(rdn: Seq<char>) -> Option<(Seq<char>, Seq<u8>)> {
    let b = utf8(rdn);
    match byte_index_from(b, 0x3Du8, 0) {
        Some(e) => Some(
            (
                trim_end_ws(trim_ws(decode_utf8(b.subrange(0, e)))),
                utf8(trim_end_ws(trim_ws(decode_utf8(b.subrange(e + 1, b.len() as int))))),
            ),
        ),
        None => None,
    }
}

/// Why a rename is refused.
pub enum RenameFailure {
    /// No entry has the DN.
    NoEntry,
    /// The new RDN has no `=`.
    InvalidRdn,
    /// No new superior was given and the DN has no parent.
    NoSuperior,
    /// Another entry already has the new DN.
    Taken,
}

/// The error a refused rename is reported with.
pub open spec fn rename_error(f: RenameFailure, e: BackendError) -> bool {
    match f {
        RenameFailure::NoEntry => e == BackendError::NotFound,
        RenameFailure::InvalidRdn => e matches BackendError::Other(m) && m@ == "invalid new RDN"@,
        RenameFailure::NoSuperior => e matches BackendError::Other(m) && m@ == "cannot derive new superior"@,
        RenameFailure::Taken => e == BackendError::EntryAlreadyExists,
    }
}

/// The superior a rename moves the entry under.
pub open spec fn rename_superior(req: ModifyDnRequest) -> Option<Seq<char>> {
    match req.new_superior {
        Some(s) => Some(s@),
        None => spec_dn_parent(req.dn@),
    }
}

/// The directory after a `ModifyDNRequest`: the entry gets the DN
/// `newrdn,superior`, carries the new RDN value, and loses the old one when
/// asked to (unless both RDNs are the same); it is then filed under its new
/// key.
pub open spec fn spec_rename(m: Seq<EntryModel>, req: ModifyDnRequest) -> Result<Seq<EntryModel>, RenameFailure> {
    match key_index(m, dn_key(req.dn@)) {
        None => Err(RenameFailure::NoEntry),
        Some(i) => match spec_parse_rdn(req.new_rdn@) {
            None => Err(RenameFailure::InvalidRdn),
            Some((nn, nv)) => match rename_superior(req) {
                None => Err(RenameFailure::NoSuperior),
                Some(sup) => {
                    let new_dn = req.new_rdn@ + seq![','] + sup;
                    let nk = dn_key(new_dn);
                    if nk != dn_key(req.dn@) && key_index(m, nk) is Some {
                        Err(RenameFailure::Taken)
                    } else {
                        let (on, ov) = match spec_parse_rdn(req.dn@) {
                            Some(p) => p,
                            None => (Seq::<char>::empty(), Seq::<u8>::empty()),
                        };
                        let a1 = upsert_value(m[i].1, nn, nv);
                        let a2 = if req.delete_old_rdn && (on != nn || ov != nv) {
                            remove_value(a1, on, ov)
                        } else {
                            a1
                        };
                        Ok(insert_sorted(m.remove(i), (new_dn, a2)))
                    }
                },
            },
        },
    }
}

// ---------------------------------------------------------------------------
// Lemmas
// ---------------------------------------------------------------------------

proof fn lemma_filter_push<A>(x: Seq<A>, y: A, p: spec_fn(A) -> bool)
    ensures
        x.push(y).filter(p) == (if p(y) {
            x.filter(p).push(y)
        } else {
            x.filter(p)
        }),
{
    reveal(Seq::filter);
    assert(x.push(y).drop_last() =~= x);
}

proof fn lemma_key_index_from(m: Seq<EntryModel>, k: Seq<u8>, i: int)
    requires
        0 <= i,
    ensures
        key_index_from(m, k, i) matches Some(j) ==> i <= j < m.len() && dn_key(m[j].0) == k,
        key_index_from(m, k, i) is None ==> forall|j: int| i <= j < m.len() ==> dn_key(#[trigger] m[j].0) != k,
    decreases m.len() - i,
{
    if i < m.len() && dn_key(m[i].0) != k {
        lemma_key_index_from(m, k, i + 1);
    }
}

proof fn lemma_insert_pos_from(m: Seq<EntryModel>, k: Seq<u8>, i: int)
    requires
        0 <= i <= m.len(),
    ensures
        i <= insert_pos_from(m, k, i) <= m.len(),
        forall|j: int| i <= j < insert_pos_from(m, k, i) ==> lex_lt(dn_key(#[trigger] m[j].0), k),
        insert_pos_from(m, k, i) < m.len() ==> !lex_lt(dn_key(m[insert_pos_from(m, k, i)].0), k),
    decreases m.len() - i,
{
    if i < m.len() && lex_lt(dn_key(m[i].0), k) {
        lemma_insert_pos_from(m, k, i + 1);
    }
}

proof fn lemma_insert_sorted(m: Seq<EntryModel>, e: EntryModel)
    requires
        sorted_keys(m),
        key_index(m, dn_key(e.0)) is None,
    ensures
        sorted_keys(insert_sorted(m, e)),
{
    let k = dn_key(e.0);
    let p = insert_pos(m, k);
    lemma_insert_pos_from(m, k, 0);
    lemma_key_index_from(m, k, 0);
    let r = insert_sorted(m, e);
    assert forall|j: int| p <= j < m.len() implies lex_lt(k, dn_key(#[trigger] m[j].0)) by {
        lemma_lex_total(k, dn_key(m[p].0));
        if j > p {
            assert(lex_lt(dn_key(m[p].0), dn_key(m[j].0)));
            lemma_lex_transitive(k, dn_key(m[p].0), dn_key(m[j].0));
        }
    }
    assert forall|a: int, b: int| 0 <= a < b < r.len() implies lex_lt(
        #[trigger] dn_key(r[a].0),
        #[trigger] dn_key(r[b].0),
    ) by {
        if b < p {
            assert(r[a] == m[a] && r[b] == m[b]);
        } else if b == p {
            assert(r[b] == e && r[a] == m[a]);
        } else if a < p {
            assert(r[a] == m[a] && r[b] == m[b - 1]);
            lemma_lex_transitive(dn_key(m[a].0), k, dn_key(m[b - 1].0));
        } else if a == p {
            assert(r[a] == e && r[b] == m[b - 1]);
        } else {
            assert(r[a] == m[a - 1] && r[b] == m[b - 1]);
        }
    }
}

/// In key order, the entry at `j` is the one found under its key.
pub proof fn lemma_key_index_sorted(m: Seq<EntryModel>, j: int)
    requires
        sorted_keys(m),
        0 <= j < m.len(),
    ensures
        key_index(m, dn_key(m[j].0)) == Some(j),
{
    let k = dn_key(m[j].0);
    lemma_key_index_from(m, k, 0);
    match key_index(m, k) {
        Some(i) => {
            if i < j {
                assert(lex_lt(dn_key(m[i].0), dn_key(m[j].0)));
                lemma_lex_irreflexive(k);
            } else if i > j {
                assert(lex_lt(dn_key(m[j].0), dn_key(m[i].0)));
                lemma_lex_irreflexive(k);
            }
        },
        None => {
            assert(dn_key(m[j].0) != k);
        },
    }
}

proof fn lemma_sorted_remove(m: Seq<EntryModel>, i: int)
    requires
        sorted_keys(m),
        0 <= i < m.len(),
    ensures
        sorted_keys(m.remove(i)),
        key_index(m.remove(i), dn_key(m[i].0)) is None,
{
    let r = m.remove(i);
    assert forall|a: int, b: int| 0 <= a < b < r.len() implies lex_lt(
        #[trigger] dn_key(r[a].0),
        #[trigger] dn_key(r[b].0),
    ) by {
        let a2 = if a < i { a } else { a + 1 };
        let b2 = if b < i { b } else { b + 1 };
        assert(r[a] == m[a2] && r[b] == m[b2]);
    }
    lemma_key_index_from(r, dn_key(m[i].0), 0);
    match key_index(r, dn_key(m[i].0)) {
        Some(j) => {
            let j2 = if j < i { j } else { j + 1 };
            assert(r[j] == m[j2]);
            if j2 < i {
                assert(lex_lt(dn_key(m[j2].0), dn_key(m[i].0)));
            } else {
                assert(lex_lt(dn_key(m[i].0), dn_key(m[j2].0)));
            }
            lemma_lex_irreflexive(dn_key(m[i].0));
        },
        None => {},
    }
}

proof fn lemma_sorted_update(m: Seq<EntryModel>, i: int, e: EntryModel)
    requires
        sorted_keys(m),
        0 <= i < m.len(),
        dn_key(e.0) == dn_key(m[i].0),
    ensures
        sorted_keys(m.update(i, e)),
{
    let r = m.update(i, e);
    assert forall|a: int, b: int| 0 <= a < b < r.len() implies lex_lt(
        #[trigger] dn_key(r[a].0),
        #[trigger] dn_key(r[b].0),
    ) by {
        assert(dn_key(r[a].0) == dn_key(m[a].0));
        assert(dn_key(r[b].0) == dn_key(m[b].0));
    }
}

proof fn lemma_named_index_from(attrs: Seq<Attribute>, n: Seq<char>, i: int)
    requires
        0 <= i,
    ensures
        named_index_from(attrs_model(attrs), n, i) == find_attr_from(attrs, utf8(n), i),
    decreases attrs.len() - i,
{
    if i < attrs.len() {
        assert(attrs_model(attrs)[i].0 == attrs[i].name@);
        lemma_named_index_from(attrs, n, i + 1);
    }
}

proof fn lemma_attrs_model_push(s: Seq<Attribute>, a: Attribute)
    ensures
        attrs_model(s.push(a)) == attrs_model(s).push(attr_model(a)),
{
    assert(attrs_model(s.push(a)) =~= attrs_model(s).push(attr_model(a)));
}

proof fn lemma_values_model_push(s: Seq<Vec<u8>>, v: Vec<u8>)
    ensures
        values_model(s.push(v)) == values_model(s).push(v@),
{
    assert(values_model(s.push(v)) =~= values_model(s).push(v@));
}

// ---------------------------------------------------------------------------
// Attribute and entry copies
// ---------------------------------------------------------------------------

fn copy_values(vs: &Vec<Vec<u8>>) -> (r: Vec<Vec<u8>>)
    ensures
        values_model(r@) == values_model(vs@),
{
    let mut out: Vec<Vec<u8>> = Vec::new();
    let mut i: usize = 0;
    while i < vs.len()
        invariant
            i <= vs@.len(),
            values_model(out@) == values_model(vs@.subrange(0, i as int)),
        decreases vs.len() - i,
    {
        let v = copy_bytes(vs[i].as_slice());
        proof {
            lemma_values_model_push(out@, v);
            assert(vs@.subrange(0, i + 1) =~= vs@.subrange(0, i as int).push(vs@[i as int]));
            lemma_values_model_push(vs@.subrange(0, i as int), vs@[i as int]);
        }
        out.push(v);
        i = i + 1;
    }
    assert(vs@.subrange(0, i as int) =~= vs@);
    out
}

fn copy_attr(a: &Attribute) -> (r: Attribute)
    ensures
        attr_model(r) == attr_model(*a),
{
    Attribute { name: a.name.clone(), values: copy_values(&a.values) }
}

fn copy_attrs(attrs: &Vec<Attribute>) -> (r: Vec<Attribute>)
    ensures
        attrs_model(r@) == attrs_model(attrs@),
{
    let mut out: Vec<Attribute> = Vec::new();
    let mut i: usize = 0;
    while i < attrs.len()
        invariant
            i <= attrs@.len(),
            attrs_model(out@) == attrs_model(attrs@.subrange(0, i as int)),
        decreases attrs.len() - i,
    {
        let a = copy_attr(&attrs[i]);
        proof {
            lemma_attrs_model_push(out@, a);
            assert(attrs@.subrange(0, i + 1) =~= attrs@.subrange(0, i as int).push(attrs@[i as int]));
            lemma_attrs_model_push(attrs@.subrange(0, i as int), attrs@[i as int]);
        }
        out.push(a);
        i = i + 1;
    }
    assert(attrs@.subrange(0, i as int) =~= attrs@);
    out
}

/// An independent copy of an entry.
pub fn copy_entry(e: &Entry) -> (r: Entry)
    ensures
        entry_model(r) == entry_model(*e),
{
    Entry { dn: e.dn.clone(), attributes: copy_attrs(&e.attributes) }
}


// ---------------------------------------------------------------------------
// Attribute list edits
// ---------------------------------------------------------------------------

proof fn lemma_attrs_prefix_push(s: Seq<Attribute>, i: int)
    requires
        0 <= i < s.len(),
    ensures
        attrs_model(s.subrange(0, i + 1)) == attrs_model(s.subrange(0, i)).push(attr_model(s[i])),
{
    assert(s.subrange(0, i + 1) =~= s.subrange(0, i).push(s[i]));
    lemma_attrs_model_push(s.subrange(0, i), s[i]);
}

proof fn lemma_values_prefix_push(s: Seq<Vec<u8>>, i: int)
    requires
        0 <= i < s.len(),
    ensures
        values_model(s.subrange(0, i + 1)) == values_model(s.subrange(0, i)).push(s[i]@),
{
    assert(s.subrange(0, i + 1) =~= s.subrange(0, i).push(s[i]));
    lemma_values_model_push(s.subrange(0, i), s[i]);
}

fn filter_not_named(attrs: &Vec<Attribute>, name: &str) -> (r: Vec<Attribute>)
    ensures
        attrs_model(r@) == attrs_model(attrs@).filter(not_named(name@)),
{
    let mut out: Vec<Attribute> = Vec::new();
    let mut i: usize = 0;
    while i < attrs.len()
        invariant
            i <= attrs@.len(),
            attrs_model(out@) == attrs_model(attrs@.subrange(0, i as int)).filter(not_named(name@)),
        decreases attrs.len() - i,
    {
        proof {
            lemma_attrs_prefix_push(attrs@, i as int);
            lemma_filter_push(attrs_model(attrs@.subrange(0, i as int)), attr_model(attrs@[i as int]), not_named(name@));
        }
        if !str_eq_ignore_ascii_case(attrs[i].name.as_str(), name) {
            let a = copy_attr(&attrs[i]);
            proof {
                lemma_attrs_model_push(out@, a);
            }
            out.push(a);
        }
        i = i + 1;
    }
    assert(attrs@.subrange(0, i as int) =~= attrs@);
    out
}

fn filter_not_emptied(attrs: &Vec<Attribute>, name: &str) -> (r: Vec<Attribute>)
    ensures
        attrs_model(r@) == attrs_model(attrs@).filter(not_emptied(name@)),
{
    let mut out: Vec<Attribute> = Vec::new();
    let mut i: usize = 0;
    while i < attrs.len()
        invariant
            i <= attrs@.len(),
            attrs_model(out@) == attrs_model(attrs@.subrange(0, i as int)).filter(not_emptied(name@)),
        decreases attrs.len() - i,
    {
        proof {
            lemma_attrs_prefix_push(attrs@, i as int);
            lemma_filter_push(attrs_model(attrs@.subrange(0, i as int)), attr_model(attrs@[i as int]), not_emptied(name@));
        }
        if !str_eq_ignore_ascii_case(attrs[i].name.as_str(), name) || attrs[i].values.len() > 0 {
            let a = copy_attr(&attrs[i]);
            proof {
                lemma_attrs_model_push(out@, a);
            }
            out.push(a);
        }
        i = i + 1;
    }
    assert(attrs@.subrange(0, i as int) =~= attrs@);
    out
}

fn contains_value(vs: &Vec<Vec<u8>>, x: &[u8]) -> (r: bool)
    ensures
        r == values_model(vs@).contains(x@),
{
    let mut i: usize = 0;
    while i < vs.len()
        invariant
            i <= vs@.len(),
            forall|j: int| 0 <= j < i ==> #[trigger] values_model(vs@)[j] != x@,
        decreases vs.len() - i,
    {
        if bytes_eq(vs[i].as_slice(), x) {
            assert(values_model(vs@)[i as int] == x@);
            return true;
        }
        i = i + 1;
    }
    false
}

fn values_without(vs: &Vec<Vec<u8>>, dels: &Vec<Vec<u8>>) -> (r: Vec<Vec<u8>>)
    ensures
        values_model(r@) == values_model(vs@).filter(not_in(values_model(dels@))),
{
    let mut out: Vec<Vec<u8>> = Vec::new();
    let mut i: usize = 0;
    while i < vs.len()
        invariant
            i <= vs@.len(),
            values_model(out@) == values_model(vs@.subrange(0, i as int)).filter(not_in(values_model(dels@))),
        decreases vs.len() - i,
    {
        proof {
            lemma_values_prefix_push(vs@, i as int);
            lemma_filter_push(values_model(vs@.subrange(0, i as int)), vs@[i as int]@, not_in(values_model(dels@)));
        }
        if !contains_value(dels, vs[i].as_slice()) {
            let v = copy_bytes(vs[i].as_slice());
            proof {
                lemma_values_model_push(out@, v);
            }
            out.push(v);
        }
        i = i + 1;
    }
    assert(vs@.subrange(0, i as int) =~= vs@);
    out
}

fn values_other_than(vs: &Vec<Vec<u8>>, x: &[u8]) -> (r: Vec<Vec<u8>>)
    ensures
        values_model(r@) == values_model(vs@).filter(other_than(x@)),
{
    let mut out: Vec<Vec<u8>> = Vec::new();
    let mut i: usize = 0;
    while i < vs.len()
        invariant
            i <= vs@.len(),
            values_model(out@) == values_model(vs@.subrange(0, i as int)).filter(other_than(x@)),
        decreases vs.len() - i,
    {
        proof {
            lemma_values_prefix_push(vs@, i as int);
            lemma_filter_push(values_model(vs@.subrange(0, i as int)), vs@[i as int]@, other_than(x@));
        }
        if !bytes_eq(vs[i].as_slice(), x) {
            let v = copy_bytes(vs[i].as_slice());
            proof {
                lemma_values_model_push(out@, v);
            }
            out.push(v);
        }
        i = i + 1;
    }
    assert(vs@.subrange(0, i as int) =~= vs@);
    out
}

fn concat_values(a: &Vec<Vec<u8>>, b: &Vec<Vec<u8>>) -> (r: Vec<Vec<u8>>)
    ensures
        values_model(r@) == values_model(a@) + values_model(b@),
{
    let mut out = copy_values(a);
    let mut i: usize = 0;
    while i < b.len()
        invariant
            i <= b@.len(),
            values_model(out@) == values_model(a@) + values_model(b@.subrange(0, i as int)),
        decreases b.len() - i,
    {
        let v = copy_bytes(b[i].as_slice());
        proof {
            lemma_values_model_push(out@, v);
            lemma_values_prefix_push(b@, i as int);
            assert(values_model(a@) + values_model(b@.subrange(0, i as int)).push(v@) =~= (values_model(a@)
                + values_model(b@.subrange(0, i as int))).push(v@));
        }
        out.push(v);
        i = i + 1;
    }
    assert(b@.subrange(0, i as int) =~= b@);
    out
}

fn set_values(attrs: &mut Vec<Attribute>, k: usize, values: Vec<Vec<u8>>)
    requires
        k < old(attrs)@.len(),
    ensures
        attrs_model(final(attrs)@) == attrs_model(old(attrs)@).update(
            k as int,
            (old(attrs)@[k as int].name@, values_model(values@)),
        ),
{
    let a = Attribute { name: attrs[k].name.clone(), values };
    attrs.set(k, a);
    assert(attrs_model(attrs@) =~= attrs_model(old(attrs)@).update(
        k as int,
        (old(attrs)@[k as int].name@, values_model(values@)),
    ));
}

fn named_position(attrs: &Vec<Attribute>, name: &str) -> (r: Option<usize>)
    ensures
        r matches Some(k) ==> k < attrs@.len() && named_index(attrs_model(attrs@), name@) == Some(k as int),
        r is None ==> named_index(attrs_model(attrs@), name@) is None,
{
    proof {
        lemma_named_index_from(attrs@, name@, 0);
    }
    find_attr_index(attrs, name)
}

fn apply_one_change(attrs: &mut Vec<Attribute>, c: &Modification) -> (r: Result<(), BackendError>)
    ensures
        match apply_change(attrs_model(old(attrs)@), *c) {
            Ok(a2) => r is Ok && attrs_model(final(attrs)@) == a2,
            Err(e) => r == Err::<(), BackendError>(e) && attrs_model(final(attrs)@) == attrs_model(old(attrs)@),
        },
{
    let ghost m = attrs_model(attrs@);
    let ghost vals = values_model(c.values@);
    let idx = named_position(attrs, c.name.as_str());
    match c.op {
        ModificationOp::Add => match idx {
            Some(k) => {
                let mut j: usize = 0;
                while j < c.values.len()
                    invariant
                        j <= c.values@.len(),
                        k < attrs@.len(),
                        m == attrs_model(attrs@),
                        m == attrs_model(old(attrs)@),
                        c.op == ModificationOp::Add,
                        named_index(m, c.name@) == Some(k as int),
                        vals == values_model(c.values@),
                        forall|jj: int| 0 <= jj < j ==> !m[k as int].1.contains(#[trigger] vals[jj]),
                    decreases c.values.len() - j,
                {
                    if contains_value(&attrs[k].values, c.values[j].as_slice()) {
                        assert(m[k as int].1.contains(vals[j as int]));
                        return Err(BackendError::AttributeOrValueExists);
                    }
                    j = j + 1;
                }
                let nv = concat_values(&attrs[k].values, &c.values);
                set_values(attrs, k, nv);
                Ok(())
            },
            None => {
                let a = Attribute { name: c.name.clone(), values: copy_values(&c.values) };
                proof {
                    lemma_attrs_model_push(attrs@, a);
                }
                attrs.push(a);
                Ok(())
            },
        },
        ModificationOp::Delete => match idx {
            None => Err(BackendError::NoSuchAttribute),
            Some(k) => {
                if c.values.len() == 0 {
                    let f = filter_not_named(attrs, c.name.as_str());
                    *attrs = f;
                    return Ok(());
                }
                let kept = values_without(&attrs[k].values, &c.values);
                proof {
                    values_model(attrs@[k as int].values@).lemma_filter_len(not_in(vals));
                }
                if kept.len() == attrs[k].values.len() {
                    return Err(BackendError::NoSuchAttribute);
                }
                let emptied = kept.len() == 0;
                set_values(attrs, k, kept);
                if emptied {
                    let f = filter_not_named(attrs, c.name.as_str());
                    *attrs = f;
                }
                Ok(())
            },
        },
        ModificationOp::Replace => {
            if c.values.len() == 0 {
                let f = filter_not_named(attrs, c.name.as_str());
                *attrs = f;
                return Ok(());
            }
            match idx {
                Some(k) => {
                    let nv = copy_values(&c.values);
                    set_values(attrs, k, nv);
                    Ok(())
                },
                None => {
                    let a = Attribute { name: c.name.clone(), values: copy_values(&c.values) };
                    proof {
                        lemma_attrs_model_push(attrs@, a);
                    }
                    attrs.push(a);
                    Ok(())
                },
            }
        },
    }
}

fn apply_all_changes(attrs: &mut Vec<Attribute>, cs: &[Modification]) -> (r: Result<(), BackendError>)
    ensures
        attrs_model(final(attrs)@) == apply_changes(attrs_model(old(attrs)@), cs@).0,
        match apply_changes(attrs_model(old(attrs)@), cs@).1 {
            None => r is Ok,
            Some(e) => r == Err::<(), BackendError>(e),
        },
{
    let ghost total = apply_changes(attrs_model(attrs@), cs@);
    let mut i: usize = 0;
    assert(cs@.skip(0) =~= cs@);
    while i < cs.len()
        invariant
            i <= cs@.len(),
            total == apply_changes(attrs_model(old(attrs)@), cs@),
            total == apply_changes(attrs_model(attrs@), cs@.skip(i as int)),
        decreases cs.len() - i,
    {
        proof {
            assert(cs@.skip(i as int)[0] == cs@[i as int]);
            assert(cs@.skip(i as int).drop_first() =~= cs@.skip(i + 1));
        }
        let r = apply_one_change(attrs, &cs[i]);
        match r {
            Ok(()) => {},
            Err(e) => {
                return Err(e);
            },
        }
        i = i + 1;
    }
    Ok(())
}

fn upsert_value_in(attrs: &mut Vec<Attribute>, name: &str, value: &[u8])
    ensures
        attrs_model(final(attrs)@) == upsert_value(attrs_model(old(attrs)@), name@, value@),
{
    match named_position(attrs, name) {
        Some(k) => {
            if !contains_value(&attrs[k].values, value) {
                let mut nv = copy_values(&attrs[k].values);
                let v = copy_bytes(value);
                proof {
                    lemma_values_model_push(nv@, v);
                }
                nv.push(v);
                set_values(attrs, k, nv);
            }
        },
        None => {
            let mut vs: Vec<Vec<u8>> = Vec::new();
            let v = copy_bytes(value);
            proof {
                lemma_values_model_push(vs@, v);
            }
            vs.push(v);
            assert(values_model(vs@) =~= seq![value@]);
            let a = Attribute::new(name, vs);
            proof {
                lemma_attrs_model_push(attrs@, a);
            }
            attrs.push(a);
        },
    }
}

fn remove_value_in(attrs: &mut Vec<Attribute>, name: &str, value: &[u8])
    ensures
        attrs_model(final(attrs)@) == remove_value(attrs_model(old(attrs)@), name@, value@),
{
    match named_position(attrs, name) {
        Some(k) => {
            let nv = values_other_than(&attrs[k].values, value);
            set_values(attrs, k, nv);
        },
        None => {},
    }
    let f = filter_not_emptied(attrs, name);
    *attrs = f;
}

fn parse_rdn(rdn: &str) -> (r: Option<(String, Vec<u8>)>)
    ensures
        match spec_parse_rdn(rdn@) {
            Some((n, v)) => r matches Some(p) && p.0@ == n && p.1@ == v,
            None => r is None,
        },
{
    let bytes = rdn.as_bytes();
    let ghost b = utf8(rdn@);
    let mut e: usize = 0;
    while e < bytes.len() && bytes[e] != 0x3D
        invariant
            bytes@ == b,
            e <= bytes@.len(),
            byte_index_from(b, 0x3Du8, 0) == byte_index_from(b, 0x3Du8, e as int),
        decreases bytes.len() - e,
    {
        e = e + 1;
    }
    if e == bytes.len() {
        return None;
    }
    proof {
        vstd::utf8::encode_utf8_valid_utf8(rdn@);
        vstd::utf8::is_char_boundary_iff_not_is_continuation_byte(b, e as int);
    }
    let (head, rest) = rdn.split_at(e);
    let ghost rb = rest.spec_bytes();
    proof {
        vstd::utf8::valid_utf8_split(b, e as int);
        assert(rb =~= b.subrange(e as int, b.len() as int));
        assert(rb[0] == 0x3Du8);
        if rb.len() == 1 {
            vstd::utf8::is_char_boundary_start_end_of_seq(rb);
        } else {
            vstd::utf8::is_char_boundary_iff_not_is_continuation_byte(rb, 0);
            reveal_with_fuel(is_char_boundary, 2);
        }
    }
    let (_, tail) = rest.split_at(1);
    proof {
        assert(head.spec_bytes() =~= b.subrange(0, e as int));
        assert(tail.spec_bytes() =~= b.subrange(e + 1, b.len() as int));
        vstd::utf8::encode_utf8_decode_utf8(head@);
        vstd::utf8::encode_utf8_decode_utf8(tail@);
    }
    let name = trim_both_ws(head).to_owned();
    let value = copy_bytes(trim_both_ws(tail).as_bytes());
    Some((name, value))
}

/// Length-independent equality check on secret material (bind passwords).
fn constant_time_eq(a: &[u8], b: &[u8]) -> (r: bool)
    ensures
        r == (a@ == b@),
{
    if a.len() != b.len() {
        return false;
    }
    let mut diff: u8 = 0;
    let mut i: usize = 0;
    assert(a@.subrange(0, 0) =~= b@.subrange(0, 0));
    while i < a.len()
        invariant
            i <= a@.len(),
            a@.len() == b@.len(),
            (diff == 0) == (a@.subrange(0, i as int) == b@.subrange(0, i as int)),
        decreases a.len() - i,
    {
        let x = a[i];
        let y = b[i];
        let d = diff;
        assert((d | (x ^ y)) == 0u8 <==> (d == 0u8 && x == y)) by (bit_vector);
        proof {
            assert(a@.subrange(0, i + 1) =~= a@.subrange(0, i as int).push(x));
            assert(b@.subrange(0, i + 1) =~= b@.subrange(0, i as int).push(y));
            if a@.subrange(0, i + 1) == b@.subrange(0, i + 1) {
                assert(a@.subrange(0, i + 1).drop_last() =~= a@.subrange(0, i as int));
                assert(b@.subrange(0, i + 1).drop_last() =~= b@.subrange(0, i as int));
                assert(a@.subrange(0, i + 1).last() == x);
            }
        }
        diff = d | (x ^ y);
        i = i + 1;
    }
    assert(a@.subrange(0, i as int) =~= a@);
    assert(b@.subrange(0, i as int) =~= b@);
    diff == 0
}


// ---------------------------------------------------------------------------
// The backend
// ---------------------------------------------------------------------------

/// A simple in-memory [`DirectoryBackend`].
///
/// Entries are keyed by case-insensitive DN. `bind_simple` checks the entry's
/// `userPassword` attribute with a constant-time comparison against the supplied
/// bytes (plaintext; no `{SSHA}`/hash schemes are interpreted by the reference
/// backend). For real deployments implement [`DirectoryBackend`] against your
/// own store.
pub struct MemoryBackend {
    entries: Vec<Entry>,
}

impl View for MemoryBackend {
    type V = Seq<EntryModel>;

    /// The entries in key order.
    closed spec fn view(&self) -> Seq<EntryModel> {
        entries_model(self.entries@)
    }
}

impl MemoryBackend {
    #[verifier::type_invariant]
    spec fn keys_sorted(self) -> bool {
        sorted_keys(entries_model(self.entries@))
    }

    /// Create an empty in-memory backend.
    pub fn new() -> (b: Self)
        ensures
            b@ == Seq::<EntryModel>::empty(),
    {
        let b = MemoryBackend { entries: Vec::new() };
        assert(b@ =~= Seq::<EntryModel>::empty());
        b
    }

    /// Insert an entry, or replace the one stored under the same DN.
    pub fn add_entry(&mut self, entry: Entry) -> (r: Result<(), BackendError>)
        ensures
            r is Ok,
            match key_index(old(self)@, dn_key(entry.dn@)) {
                Some(i) => final(self)@ == old(self)@.update(i, entry_model(entry)),
                None => final(self)@ == insert_sorted(old(self)@, entry_model(entry)),
            },
    {
        proof {
            use_type_invariant(&*self);
        }
        match self.find_key(entry.dn.as_str()) {
            Some(i) => {
                proof {
                    lemma_key_index_from(old(self)@, dn_key(entry.dn@), 0);
                }
                let mut v: Vec<Entry> = Vec::new();
                std::mem::swap(&mut v, &mut self.entries);
                let ghost m0 = entries_model(v@);
                v.set(i, entry);
                proof {
                    let m2 = entries_model(v@);
                    assert(m2 =~= m0.update(i as int, entry_model(entry)));
                    assert(dn_key(m2[i as int].0) == dn_key(m0[i as int].0));
                    assert forall|a: int, b: int| 0 <= a < b < m2.len() implies lex_lt(
                        #[trigger] dn_key(m2[a].0),
                        #[trigger] dn_key(m2[b].0),
                    ) by {
                        assert(dn_key(m2[a].0) == dn_key(m0[a].0));
                        assert(dn_key(m2[b].0) == dn_key(m0[b].0));
                    }
                }
                self.entries = v;
                Ok(())
            },
            None => self.add(&entry),
        }
    }

    fn find_key(&self, dn: &str) -> (r: Option<usize>)
        ensures
            self@ == entries_model(self.entries@),
            self@.len() == self.entries@.len(),
            r matches Some(i) ==> i < self.entries@.len() && key_index(self@, dn_key(dn@)) == Some(i as int),
            r is None ==> key_index(self@, dn_key(dn@)) is None,
    {
        let key = lower_bytes(dn.as_bytes());
        let mut i: usize = 0;
        assert(self@ == entries_model(self.entries@));
        while i < self.entries.len()
            invariant
                i <= self@.len(),
                self@.len() == self.entries@.len(),
                key@ == dn_key(dn@),
                key_index(self@, key@) == key_index_from(self@, key@, i as int),
            decreases self.entries.len() - i,
        {
            let k = lower_bytes(self.entries[i].dn.as_str().as_bytes());
            if bytes_eq(k.as_slice(), key.as_slice()) {
                assert(dn_key(self@[i as int].0) == key@);
                return Some(i);
            }
            i = i + 1;
        }
        None
    }
}

fn insert_position(v: &Vec<Entry>, key: &[u8]) -> (r: usize)
    ensures
        r as int == insert_pos(entries_model(v@), key@),
{
    let ghost m = entries_model(v@);
    let mut i: usize = 0;
    while i < v.len()
        invariant
            i <= v@.len(),
            m == entries_model(v@),
            insert_pos(m, key@) == insert_pos_from(m, key@, i as int),
        decreases v.len() - i,
    {
        let k = lower_bytes(v[i].dn.as_str().as_bytes());
        if !lex_less(k.as_slice(), key) {
            return i;
        }
        i = i + 1;
    }
    i
}

impl Default for MemoryBackend {
    fn default() -> (b: Self)
        ensures
            b@ == Seq::<EntryModel>::empty(),
    {
        MemoryBackend::new()
    }
}

/// Does the attribute `userPassword` of the entry stored under `dn` hold the
/// password?
pub open spec fn spec_bind_simple(m: Seq<EntryModel>, dn: Seq<char>, password: Seq<u8>) -> bool {
    match key_index(m, dn_key(dn)) {
        Some(i) => match named_index(m[i].1, "userPassword"@) {
            Some(k) => m[i].1[k].1.contains(password),
            None => false,
        },
        None => false,
    }
}

impl DirectoryBackend for MemoryBackend {
    open spec fn bind_simple_post(self, dn: Seq<char>, password: Seq<u8>, r: Result<bool, BackendError>) -> bool {
        r == Ok::<bool, BackendError>(spec_bind_simple(self@, dn, password))
    }

    /// No SASL mechanism is supported.
    open spec fn bind_sasl_post(self, dn: Seq<char>, sasl: SaslCredentials, r: Result<bool, BackendError>) -> bool {
        r == Err::<bool, BackendError>(BackendError::Unsupported)
    }

    open spec fn entries_post(self, r: Result<Vec<Entry>, BackendError>) -> bool {
        r matches Ok(v) && entries_model(v@) == self@
    }

    open spec fn compare_post(self, dn: Seq<char>, attribute: Seq<char>, value: Seq<u8>, r: Result<bool, BackendError>) -> bool {
        match key_index(self@, dn_key(dn)) {
            Some(i) => r == Ok::<bool, BackendError>(
                match named_index(self@[i].1, attribute) {
                    Some(k) => self@[i].1[k].1.contains(value),
                    None => false,
                },
            ),
            None => r == Err::<bool, BackendError>(BackendError::NotFound),
        }
    }

    open spec fn add_post(self, entry: Entry, post: Self, r: Result<(), BackendError>) -> bool {
        match key_index(self@, dn_key(entry.dn@)) {
            Some(_) => r == Err::<(), BackendError>(BackendError::EntryAlreadyExists) && post@ == self@,
            None => r is Ok && post@ == insert_sorted(self@, entry_model(entry)),
        }
    }

    open spec fn delete_post(self, dn: Seq<char>, post: Self, r: Result<(), BackendError>) -> bool {
        match key_index(self@, dn_key(dn)) {
            Some(i) => r is Ok && post@ == self@.remove(i),
            None => r == Err::<(), BackendError>(BackendError::NotFound) && post@ == self@,
        }
    }

    open spec fn modify_post(self, dn: Seq<char>, changes: Seq<Modification>, post: Self, r: Result<(), BackendError>) -> bool {
        match key_index(self@, dn_key(dn)) {
            Some(i) => {
                let (a2, err) = apply_changes(self@[i].1, changes);
                &&& post@ == self@.update(i, (self@[i].0, a2))
                &&& match err {
                    None => r is Ok,
                    Some(e) => r == Err::<(), BackendError>(e),
                }
            },
            None => r == Err::<(), BackendError>(BackendError::NotFound) && post@ == self@,
        }
    }

    open spec fn modify_dn_post(self, req: ModifyDnRequest, post: Self, r: Result<(), BackendError>) -> bool {
        match spec_rename(self@, req) {
            Ok(m2) => r is Ok && post@ == m2,
            Err(f) => (r matches Err(e) && rename_error(f, e)) && post@ == self@,
        }
    }

    fn bind_simple(&self, dn: &str, password: &[u8]) -> (r: Result<bool, BackendError>)
    {
        match self.find_key(dn) {
            Some(i) => {
                let attrs = &self.entries[i].attributes;
                match named_position(attrs, "userPassword") {
                    Some(k) => {
                        let vs = &attrs[k].values;
                        let mut j: usize = 0;
                        assert(attrs_model(attrs@) == self@[i as int].1);
                        while j < vs.len()
                            invariant
                                j <= vs@.len(),
                                key_index(self@, dn_key(dn@)) == Some(i as int),
                                named_index(self@[i as int].1, "userPassword"@) == Some(k as int),
                                self@[i as int].1[k as int].1 == values_model(vs@),
                                forall|jj: int| 0 <= jj < j ==> #[trigger] values_model(vs@)[jj] != password@,
                            decreases vs.len() - j,
                        {
                            if constant_time_eq(vs[j].as_slice(), password) {
                                assert(values_model(vs@)[j as int] == password@);
                                return Ok(true);
                            }
                            j = j + 1;
                        }
                        Ok(false)
                    },
                    None => Ok(false),
                }
            },
            None => Ok(false),
        }
    }

    fn bind_sasl(&self, dn: &str, sasl: &SaslCredentials) -> (r: Result<bool, BackendError>)
    {
        // The reference backend does not implement any SASL mechanism.
        Err(BackendError::Unsupported)
    }

    fn entries(&self) -> (r: Result<Vec<Entry>, BackendError>)
    {
        let mut out: Vec<Entry> = Vec::new();
        let mut i: usize = 0;
        while i < self.entries.len()
            invariant
                i <= self.entries@.len(),
                entries_model(out@) == entries_model(self.entries@.subrange(0, i as int)),
            decreases self.entries.len() - i,
        {
            let e = copy_entry(&self.entries[i]);
            proof {
                assert(entries_model(out@.push(e)) =~= entries_model(out@).push(entry_model(e)));
                assert(entries_model(self.entries@.subrange(0, i + 1)) =~= entries_model(
                    self.entries@.subrange(0, i as int),
                ).push(entry_model(self.entries@[i as int])));
            }
            out.push(e);
            i = i + 1;
        }
        assert(self.entries@.subrange(0, i as int) =~= self.entries@);
        Ok(out)
    }

    fn compare(&self, dn: &str, attribute: &str, value: &[u8]) -> (r: Result<bool, BackendError>)
    {
        match self.find_key(dn) {
            Some(i) => {
                let attrs = &self.entries[i].attributes;
                match named_position(attrs, attribute) {
                    Some(k) => Ok(contains_value(&attrs[k].values, value)),
                    None => Ok(false),
                }
            },
            None => Err(BackendError::NotFound),
        }
    }

    fn add(&mut self, entry: &Entry) -> (r: Result<(), BackendError>)
        ensures
            r is Ok ==> (key_index(final(self)@, dn_key(entry.dn@)) matches Some(j) && final(self)@[j] == entry_model(
                *entry,
            )),
    {
        proof {
            use_type_invariant(&*self);
        }
        if self.find_key(entry.dn.as_str()).is_some() {
            return Err(BackendError::EntryAlreadyExists);
        }
        let key = lower_bytes(entry.dn.as_str().as_bytes());
        let p = insert_position(&self.entries, key.as_slice());
        proof {
            lemma_insert_pos_from(entries_model(self.entries@), key@, 0);
        }
        let copy = copy_entry(entry);
        let mut v: Vec<Entry> = Vec::new();
        std::mem::swap(&mut v, &mut self.entries);
        proof {
            lemma_insert_sorted(entries_model(v@), entry_model(*entry));
        }
        v.insert(p, copy);
        assert(entries_model(v@) =~= insert_sorted(old(self)@, entry_model(*entry)));
        proof {
            let m2 = entries_model(v@);
            assert(m2[p as int] == entry_model(*entry));
            lemma_key_index_sorted(m2, p as int);
        }
        self.entries = v;
        Ok(())
    }

    fn delete(&mut self, dn: &str) -> (r: Result<(), BackendError>)
        ensures
            r is Ok ==> key_index(final(self)@, dn_key(dn@)) is None,
    {
        proof {
            use_type_invariant(&*self);
        }
        match self.find_key(dn) {
            Some(i) => {
                proof {
                    lemma_key_index_from(old(self)@, dn_key(dn@), 0);
                }
                let mut v: Vec<Entry> = Vec::new();
                std::mem::swap(&mut v, &mut self.entries);
                proof {
                    lemma_sorted_remove(entries_model(v@), i as int);
                }
                v.remove(i);
                assert(entries_model(v@) =~= old(self)@.remove(i as int));
                self.entries = v;
                Ok(())
            },
            None => Err(BackendError::NotFound),
        }
    }

    fn modify(&mut self, dn: &str, changes: &[Modification]) -> (r: Result<(), BackendError>)
    {
        proof {
            use_type_invariant(&*self);
        }
        match self.find_key(dn) {
            Some(i) => {
                let mut attrs = copy_attrs(&self.entries[i].attributes);
                let res = apply_all_changes(&mut attrs, changes);
                let updated = Entry { dn: self.entries[i].dn.clone(), attributes: attrs };
                let mut v: Vec<Entry> = Vec::new();
                std::mem::swap(&mut v, &mut self.entries);
                proof {
                    lemma_sorted_update(entries_model(v@), i as int, entry_model(updated));
                }
                v.set(i, updated);
                assert(entries_model(v@) =~= entries_model(old(self).entries@).update(i as int, entry_model(updated)));
                self.entries = v;
                res
            },
            None => Err(BackendError::NotFound),
        }
    }

    fn modify_dn(&mut self, req: &ModifyDnRequest) -> (r: Result<(), BackendError>)
    {
        proof {
            use_type_invariant(&*self);
        }
        let i = match self.find_key(req.dn.as_str()) {
            Some(i) => i,
            None => return Err(BackendError::NotFound),
        };
        let (new_name, new_value) = match parse_rdn(req.new_rdn.as_str()) {
            Some(p) => p,
            None => return Err(BackendError::Other(String::from_str("invalid new RDN"))),
        };
        let superior: String = match &req.new_superior {
            Some(s) => s.clone(),
            None => match dn_parent(req.dn.as_str()) {
                Some(p) => p,
                None => return Err(BackendError::Other(String::from_str("cannot derive new superior"))),
            },
        };
        assert(rename_superior(*req) == Some(superior@));
        let mut new_dn = req.new_rdn.clone();
        new_dn.append(",");
        new_dn.append(superior.as_str());
        proof {
            reveal_strlit(",");
            assert(new_dn@ =~= req.new_rdn@ + seq![','] + superior@);
        }
        let new_key = lower_bytes(new_dn.as_str().as_bytes());
        let key = lower_bytes(req.dn.as_str().as_bytes());
        if !bytes_eq(new_key.as_slice(), key.as_slice()) && self.find_key(new_dn.as_str()).is_some() {
            assert(spec_rename(old(self)@, *req) == Err::<Seq<EntryModel>, RenameFailure>(RenameFailure::Taken));
            return Err(BackendError::EntryAlreadyExists);
        }
        let (old_name, old_value) = match parse_rdn(req.dn.as_str()) {
            Some(p) => p,
            None => (String::new(), Vec::new()),
        };
        let mut v: Vec<Entry> = Vec::new();
        std::mem::swap(&mut v, &mut self.entries);
        let ghost m = entries_model(v@);
        let old_entry = v.remove(i);
        proof {
            assert(entries_model(v@) =~= m.remove(i as int));
            lemma_sorted_remove(m, i as int);
        }
        let mut attrs = old_entry.attributes;
        upsert_value_in(&mut attrs, new_name.as_str(), new_value.as_slice());
        if req.delete_old_rdn && (!bytes_eq(old_name.as_str().as_bytes(), new_name.as_str().as_bytes()) || !bytes_eq(
            old_value.as_slice(),
            new_value.as_slice(),
        )) {
            proof {
                if old_name@ == new_name@ {
                    assert(utf8(old_name@) == utf8(new_name@));
                }
            }
            remove_value_in(&mut attrs, old_name.as_str(), old_value.as_slice());
        } else {
            proof {
                if req.delete_old_rdn && utf8(old_name@) == utf8(new_name@) {
                    crate::text::lemma_utf8_injective(old_name@, new_name@);
                }
            }
        }
        let moved = Entry { dn: new_dn, attributes: attrs };
        let p = insert_position(&v, new_key.as_slice());
        proof {
            lemma_insert_pos_from(entries_model(v@), new_key@, 0);
            lemma_key_index_from(m, new_key@, 0);
            lemma_key_index_from(m.remove(i as int), new_key@, 0);
            match key_index(m.remove(i as int), new_key@) {
                Some(j) => {
                    let j2 = if j < i { j } else { j + 1 };
                    assert(m.remove(i as int)[j] == m[j2]);
                },
                None => {},
            }
            lemma_insert_sorted(m.remove(i as int), entry_model(moved));
        }
        v.insert(p, moved);
        assert(entries_model(v@) =~= insert_sorted(m.remove(i as int), entry_model(moved)));
        self.entries = v;
        Ok(())
    }
}

/// The first attribute named `n` from `i` on depends only on the names.
proof fn lemma_named_index_names(a: Seq<AttrModel>, b: Seq<AttrModel>, n: Seq<char>, i: int)
    requires
        a.len() == b.len(),
        forall|j: int| 0 <= j < a.len() ==> #[trigger] a[j].0 == b[j].0,
    ensures
        named_index_from(a, n, i) == named_index_from(b, n, i),
    decreases a.len() - i,
{
    if 0 <= i < a.len() {
        assert(a[i].0 == b[i].0);
        lemma_named_index_names(a, b, n, i + 1);
    }
}

/// Adding an attribute named `n` where none was gives the first one named
/// `n` at the end.
proof fn lemma_named_index_push(a: Seq<AttrModel>, x: AttrModel, n: Seq<char>, i: int)
    requires
        0 <= i <= a.len(),
        named_index_from(a, n, i) is None,
        x.0 == n,
    ensures
        named_index_from(a.push(x), n, i) == Some(a.len() as int),
    decreases a.len() - i,
{
    if i < a.len() {
        assert(a.push(x)[i] == a[i]);
        lemma_named_index_push(a, x, n, i + 1);
    } else {
        assert(a.push(x)[i] == x);
        assert(eq_ic(utf8(n), utf8(n)));
    }
}

/// A `Replace` with values leaves the first attribute named `n` holding
/// exactly those values, whatever it held before, and changes no other
/// attribute; one without values removes every attribute named `n`.
pub proof fn lemma_replace_sets_values(attrs: Seq<AttrModel>, c: Modification)
    requires
        c.op == ModificationOp::Replace,
    ensures
        c.values@.len() > 0 ==> (apply_change(attrs, c) matches Ok(a2) && (named_index(a2, c.name@) matches Some(
            k,
        ) && a2[k].1 == values_model(c.values@) && attrs.len() <= a2.len() <= attrs.len() + 1 && (forall|j: int|
            0 <= j < attrs.len() && j != k ==> a2[j] == attrs[j]))),
        c.values@.len() == 0 ==> (apply_change(attrs, c) matches Ok(a2) && named_index(a2, c.name@) is None),
{
    let n = c.name@;
    let vals = values_model(c.values@);
    if c.values@.len() > 0 {
        assert(vals.len() == c.values@.len());
        match named_index(attrs, n) {
            Some(k) => {
                lemma_named_index_from_bound(attrs, n, 0);
                let a2 = attrs.update(k, (attrs[k].0, vals));
                lemma_named_index_names(attrs, a2, n, 0);
            },
            None => {
                lemma_named_index_push(attrs, (n, vals), n, 0);
            },
        }
    } else {
        let a2 = attrs.filter(not_named(n));
        lemma_named_index_none_filtered(a2, n, 0);
    }
}

proof fn lemma_named_index_from_bound(a: Seq<AttrModel>, n: Seq<char>, i: int)
    ensures
        named_index_from(a, n, i) matches Some(k) ==> 0 <= i <= k < a.len(),
    decreases a.len() - i,
{
    if 0 <= i < a.len() && !eq_ic(utf8(a[i].0), utf8(n)) {
        lemma_named_index_from_bound(a, n, i + 1);
    }
}

proof fn lemma_named_index_none_filtered(a: Seq<AttrModel>, n: Seq<char>, i: int)
    requires
        forall|j: int| 0 <= j < a.len() ==> !eq_ic(utf8(#[trigger] a[j].0), utf8(n)),
    ensures
        named_index_from(a, n, i) is None,
    decreases a.len() - i,
{
    if 0 <= i < a.len() {
        lemma_named_index_none_filtered(a, n, i + 1);
    }
}

/// An `Add` to an attribute that exists appends the new values after the
/// old ones (refused when one of them is already there); to one that does not
/// it creates the attribute with exactly those values. No other attribute
/// changes.
pub proof fn lemma_add_appends_values(attrs: Seq<AttrModel>, c: Modification)
    requires
        c.op == ModificationOp::Add,
    ensures
        match named_index(attrs, c.name@) {
            Some(k) => (exists|j: int|
                0 <= j < c.values@.len() && attrs[k].1.contains(#[trigger] c.values@[j]@)) == (apply_change(
                attrs,
                c,
            ) is Err) && (apply_change(attrs, c) matches Ok(a2) ==> a2.len() == attrs.len() && a2[k].1
                == attrs[k].1 + values_model(c.values@) && a2[k].0 == attrs[k].0 && forall|j: int|
                0 <= j < attrs.len() && j != k ==> a2[j] == attrs[j]),
            None => apply_change(attrs, c) matches Ok(a2) && (named_index(a2, c.name@) matches Some(k) && k
                == attrs.len() && a2[k].1 == values_model(c.values@) && a2.len() == attrs.len() + 1 && forall|
                j: int,
            |
                0 <= j < attrs.len() ==> a2[j] == attrs[j]),
        },
{
    let n = c.name@;
    let vals = values_model(c.values@);
    lemma_named_index_from_bound(attrs, n, 0);
    match named_index(attrs, n) {
        Some(k) => {
            if exists|j: int| 0 <= j < c.values@.len() && attrs[k].1.contains(#[trigger] c.values@[j]@) {
                let j = choose|j: int| 0 <= j < c.values@.len() && attrs[k].1.contains(#[trigger] c.values@[j]@);
                assert(vals[j] == c.values@[j]@);
            }
            if exists|j: int| 0 <= j < vals.len() && attrs[k].1.contains(#[trigger] vals[j]) {
                let j = choose|j: int| 0 <= j < vals.len() && attrs[k].1.contains(#[trigger] vals[j]);
                assert(vals[j] == c.values@[j]@);
            }
        },
        None => {
            lemma_named_index_push(attrs, (n, vals), n, 0);
        },
    }
}

/// A `Delete` without values removes every attribute named `n`; with values
/// it keeps, of the first attribute named `n`, exactly the values not listed
/// (refused when none of the listed values is there), dropping the attribute
/// when none are left. Deleting from an attribute that is not there is
/// refused.
#[allow(deprecated)]
pub proof fn lemma_delete_removes_values(attrs: Seq<AttrModel>, c: Modification)
    requires
        c.op == ModificationOp::Delete,
    ensures
        named_index(attrs, c.name@) is None ==> apply_change(attrs, c) is Err,
        named_index(attrs, c.name@) is Some && c.values@.len() == 0 ==> (apply_change(attrs, c) matches Ok(a2)
            && named_index(a2, c.name@) is None),
        match named_index(attrs, c.name@) {
            Some(k) => c.values@.len() > 0 ==> ({
            let kept = attrs[k].1.filter(|v: Seq<u8>| !values_model(c.values@).contains(v));
            &&& (apply_change(attrs, c) is Err) == (kept.len() == attrs[k].1.len())
            &&& kept.len() > 0 ==> (apply_change(attrs, c) matches Ok(a2) ==> a2 == attrs.update(
                k,
                (attrs[k].0, kept),
            ))
            &&& forall|v: Seq<u8>| #[trigger] kept.contains(v) <==> attrs[k].1.contains(v)
                && !values_model(c.values@).contains(v)
        }),
            None => true,
        },
{
    let n = c.name@;
    let vals = values_model(c.values@);
    match named_index(attrs, n) {
        Some(k) => {
            lemma_named_index_from_bound(attrs, n, 0);
            if vals.len() == 0 {
                assert(vals.len() == c.values@.len());
                let a2 = attrs.filter(not_named(n));
                lemma_named_index_none_filtered(a2, n, 0);
            } else {
                let kept = attrs[k].1.filter(not_in(vals));
                assert(kept =~= attrs[k].1.filter(|v: Seq<u8>| !values_model(c.values@).contains(v)));
                assert forall|v: Seq<u8>| #[trigger] kept.contains(v) <==> attrs[k].1.contains(v) && !vals.contains(v)
                    by {
                    if kept.contains(v) {
                        attrs[k].1.lemma_filter_contains_rev(not_in(vals), v);
                        let i = choose|i: int| 0 <= i < kept.len() && kept[i] == v;
                        attrs[k].1.filter_lemma(not_in(vals));
                        assert(not_in(vals)(kept[i]));
                    }
                    if attrs[k].1.contains(v) && !vals.contains(v) {
                        let i = choose|i: int| 0 <= i < attrs[k].1.len() && attrs[k].1[i] == v;
                        attrs[k].1.lemma_filter_contains(not_in(vals), i);
                    }
                }
            }
        },
        None => {},
    }
}

} // verus!
