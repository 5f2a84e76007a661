//! NETCONF server side: the pluggable [`Datastore`] backend, a reference
//! in-memory datastore, and RPC dispatch.

use vstd::prelude::*;
use vstd::string::StringExecFns;
use vstd::string::StringSliceAdditionalSpecFns;
use crate::netconf::error::{NetconfError, ErrorModel, error_view, error_text};
use crate::netconf::message::{
    DatastoreName, DatastoreModel, datastore_view, EditDefaultOp, Operation, ReplyResult, ReplyModel, reply_result_view,
    Rpc, RpcError, RpcErrorModel, rpc_error_view, RpcReply, RpcReplyModel, rpc_reply_view, joined3,
    Hello, HelloModel, hello_view, parse_hello, spec_hello, parse_failure, NETCONF_BASE_NS_1_0, NETCONF_BASE_NS_1_1,
};
use crate::netconf::xml::{spec_root, parse_defined};
use crate::netconf::xml::{Xml, XmlModel, xml_view, xml_views, bare, local_part, first_named, all_named, str_eq};
use crate::text::{debug_string, debug_quoted};

verus! {

/// A pluggable configuration/state backend for the NETCONF server.
///
/// Implementations decide how datastores are stored and what operations they
/// support; [`InMemoryDatastore`] is the reference one.
pub trait Datastore: Sized {
    /// What `get_config(source)` does: from `self` to `post`, answering `r`.
    spec fn get_config_post(self, source: DatastoreModel, post: Self, r: Result<XmlModel, ErrorModel>) -> bool;

    /// What `get(filter)` does.
    spec fn get_post(self, filter: Option<XmlModel>, post: Self, r: Result<XmlModel, ErrorModel>) -> bool;

    /// What `edit_config(target, default_op, config)` does.
    spec fn edit_config_post(
        self,
        target: DatastoreModel,
        default_op: EditDefaultOp,
        config: XmlModel,
        post: Self,
        r: Result<(), ErrorModel>,
    ) -> bool;

    /// What `copy_config(target, source)` does.
    spec fn copy_config_post(self, target: DatastoreModel, source: DatastoreModel, post: Self, r: Result<(), ErrorModel>) -> bool;

    /// What `delete_config(target)` does.
    spec fn delete_config_post(self, target: DatastoreModel, post: Self, r: Result<(), ErrorModel>) -> bool;

    /// What `lock(target)` does.
    spec fn lock_post(self, target: DatastoreModel, post: Self, r: Result<(), ErrorModel>) -> bool;

    /// What `unlock(target)` does.
    spec fn unlock_post(self, target: DatastoreModel, post: Self, r: Result<(), ErrorModel>) -> bool;

    /// What `close_session()` does.
    spec fn close_session_post(self, post: Self, r: Result<(), ErrorModel>) -> bool;

    /// Return the current content of `source` as a `<data>` element.
    fn get_config(&mut self, source: DatastoreName) -> (r: Result<Xml, NetconfError>)
        ensures
            Self::get_config_post(*old(self), datastore_view(source), *final(self), xml_result(r)),
    ;

    /// Return the running state as a `<data>` element (filtered if a subtree
    /// `filter` is supplied; filtering is the backend's responsibility).
    fn get(&mut self, filter: Option<&Xml>) -> (r: Result<Xml, NetconfError>)
        ensures
            Self::get_post(*old(self), opt_xml_view(filter), *final(self), xml_result(r)),
    ;

    /// Apply an `<edit-config>` to `target`.
    fn edit_config(&mut self, target: DatastoreName, default_op: EditDefaultOp, config: &Xml) -> (r: Result<(), NetconfError>)
        ensures
            Self::edit_config_post(*old(self), datastore_view(target), default_op, xml_view(*config), *final(self), unit_result(r)),
    ;

    /// Copy the content of `source` to `target`.
    fn copy_config(&mut self, target: DatastoreName, source: DatastoreName) -> (r: Result<(), NetconfError>)
        ensures
            Self::copy_config_post(*old(self), datastore_view(target), datastore_view(source), *final(self), unit_result(r)),
    ;

    /// Delete the content of `target`.
    fn delete_config(&mut self, target: DatastoreName) -> (r: Result<(), NetconfError>)
        ensures
            Self::delete_config_post(*old(self), datastore_view(target), *final(self), unit_result(r)),
    ;

    /// Acquire a lock on `target`.
    fn lock(&mut self, target: DatastoreName) -> (r: Result<(), NetconfError>)
        ensures
            Self::lock_post(*old(self), datastore_view(target), *final(self), unit_result(r)),
    ;

    /// Release a lock on `target`.
    fn unlock(&mut self, target: DatastoreName) -> (r: Result<(), NetconfError>)
        ensures
            Self::unlock_post(*old(self), datastore_view(target), *final(self), unit_result(r)),
    ;

    /// Signal that the session is closing.
    fn close_session(&mut self) -> (r: Result<(), NetconfError>)
        ensures
            Self::close_session_post(*old(self), *final(self), unit_result(r)),
    ;
}

/// The value of a datastore's answer that carries a tree.
pub open spec fn xml_result(r: Result<Xml, NetconfError>) -> Result<XmlModel, ErrorModel> {
    match r {
        Ok(x) => Ok(xml_view(x)),
        Err(e) => Err(error_view(e)),
    }
}

/// The value of a datastore's answer that carries nothing.
pub open spec fn unit_result(r: Result<(), NetconfError>) -> Result<(), ErrorModel> {
    match r {
        Ok(()) => Ok(()),
        Err(e) => Err(error_view(e)),
    }
}

/// The value of an optional tree.
pub open spec fn opt_xml_view(o: Option<&Xml>) -> Option<XmlModel> {
    match o {
        Some(x) => Some(xml_view(*x)),
        None => None,
    }
}

// ---------------------------------------------------------------------------
// The in-memory datastore
// ---------------------------------------------------------------------------

/// The `Debug` text of a datastore identifier.
pub open spec fn debug_text(d: DatastoreModel) -> Seq<char> {
    match d {
        DatastoreModel::Running => "Running"@,
        DatastoreModel::Startup => "Startup"@,
        DatastoreModel::Candidate => "Candidate"@,
        DatastoreModel::Url(u) => "Url("@ + debug_quoted(u) + ")"@,
    }
}

fn debug_name(d: &DatastoreName) -> (r: String)
    ensures
        r@ == debug_text(datastore_view(*d)),
{
    match d {
        DatastoreName::Running => String::from_str("Running"),
        DatastoreName::Startup => String::from_str("Startup"),
        DatastoreName::Candidate => String::from_str("Candidate"),
        DatastoreName::Url(u) => {
            let mut r = String::from_str("Url(");
            let q = debug_string(u.as_str());
            r.append(q.as_str());
            r.append(")");
            r
        },
    }
}

fn same_datastore(a: &DatastoreName, b: &DatastoreName) -> (r: bool)
    ensures
        r == (datastore_view(*a) == datastore_view(*b)),
{
    match (a, b) {
        (DatastoreName::Running, DatastoreName::Running) => true,
        (DatastoreName::Startup, DatastoreName::Startup) => true,
        (DatastoreName::Candidate, DatastoreName::Candidate) => true,
        (DatastoreName::Url(x), DatastoreName::Url(y)) => str_eq(x.as_str(), y.as_str()),
        _ => false,
    }
}

/// The tree stored under `k`: the first entry with that key.
pub open spec fn lookup(s: Seq<(DatastoreModel, XmlModel)>, k: DatastoreModel) -> Option<XmlModel>
    decreases s.len(),
{
    if s.len() == 0 {
        None
    } else if s[0].0 == k {
        Some(s[0].1)
    } else {
        lookup(s.drop_first(), k)
    }
}

/// Datastore identifiers, as values.
pub open spec fn names_view(v: Seq<DatastoreName>) -> Seq<DatastoreModel> {
    Seq::new(v.len(), |i: int| datastore_view(v[i]))
}

/// The entries of the store, as values.
pub open spec fn entries_view(s: Seq<(DatastoreName, Xml)>) -> Seq<(DatastoreModel, XmlModel)> {
    Seq::new(s.len(), |i: int| (datastore_view(s[i].0), xml_view(s[i].1)))
}

/// The datastores held as a map.
pub open spec fn entries_map(s: Seq<(DatastoreModel, XmlModel)>) -> Map<DatastoreModel, XmlModel> {
    Map::new(|k: DatastoreModel| lookup(s, k) is Some, |k: DatastoreModel| lookup(s, k)->Some_0)
}

/// The value of an in-memory datastore: a tree per datastore, and the set of
/// locked datastores.
pub struct StoreState {
    pub stores: Map<DatastoreModel, XmlModel>,
    pub locked: Set<DatastoreModel>,
}

/// A reference in-memory datastore holding `running`/`startup`/`candidate`
/// config trees and a set of held locks.
///
/// The `<edit-config>` engine is simple: top-level nodes are merged, replaced,
/// created or deleted by element name.
///
/// A datastore serves one session, so the locks it records are that
/// session's own: they refuse a second `<lock>`, never the holder's edits
/// (RFC 6241 §7.5).
#[derive(Debug)]
pub struct InMemoryDatastore {
    stores: Vec<(DatastoreName, Xml)>,
    locked: Vec<DatastoreName>,
}

impl View for InMemoryDatastore {
    type V = StoreState;

    closed spec fn view(&self) -> StoreState {
        StoreState {
            stores: entries_map(entries_view(self.stores@)),
            locked: names_view(self.locked@).to_set(),
        }
    }
}

proof fn lemma_lookup_first(s: Seq<(DatastoreModel, XmlModel)>, k: DatastoreModel, i: int)
    requires
        0 <= i <= s.len(),
        forall|j: int| 0 <= j < i ==> s[j].0 != k,
    ensures
        i < s.len() && s[i].0 == k ==> lookup(s, k) == Some(s[i].1),
        i == s.len() ==> lookup(s, k) is None,
    decreases s.len(),
{
    if s.len() > 0 && i > 0 {
        assert forall|j: int| 0 <= j < i - 1 implies (#[trigger] s.drop_first()[j]).0 != k by {
            assert(s[j + 1].0 != k);
        }
        lemma_lookup_first(s.drop_first(), k, i - 1);
    }
}

proof fn lemma_lookup_update(s: Seq<(DatastoreModel, XmlModel)>, i: int, v: XmlModel, k2: DatastoreModel)
    requires
        0 <= i < s.len(),
        forall|j: int| 0 <= j < i ==> s[j].0 != s[i].0,
    ensures
        lookup(s.update(i, (s[i].0, v)), k2) == if k2 == s[i].0 {
            Some(v)
        } else {
            lookup(s, k2)
        },
    decreases s.len(),
{
    let t = s.update(i, (s[i].0, v));
    if i > 0 {
        assert(t.drop_first() =~= s.drop_first().update(i - 1, (s[i].0, v)));
        assert forall|j: int| 0 <= j < i - 1 implies (#[trigger] s.drop_first()[j]).0 != s.drop_first()[i - 1].0 by {
            assert(s[j + 1].0 != s[i].0);
        }
        lemma_lookup_update(s.drop_first(), i - 1, v, k2);
        assert(s[0].0 != s[i].0);
        assert(t[0] == s[0]);
    } else {
        assert(t.drop_first() =~= s.drop_first());
        assert(t[0] == (s[0].0, v));
    }
}

proof fn lemma_lookup_push(s: Seq<(DatastoreModel, XmlModel)>, k: DatastoreModel, v: XmlModel, k2: DatastoreModel)
    requires
        lookup(s, k) is None,
    ensures
        lookup(s.push((k, v)), k2) == if k2 == k {
            Some(v)
        } else {
            lookup(s, k2)
        },
    decreases s.len(),
{
    if s.len() == 0 {
        assert(s.push((k, v)).drop_first() =~= Seq::<(DatastoreModel, XmlModel)>::empty());
    } else {
        assert(s.push((k, v)).drop_first() =~= s.drop_first().push((k, v)));
        lemma_lookup_push(s.drop_first(), k, v, k2);
    }
}

/// The `<data>` element holding a stored tree's nodes.
pub open spec fn data_of(m: XmlModel) -> XmlModel {
    XmlModel { children: m.children, ..bare("data"@) }
}

/// The top-level nodes after applying the `incoming` nodes one by one under
/// `op` (merge replaces a node of the same local name or appends; create
/// appends, and stops at the first node whose name is taken, reporting it;
/// delete removes the first node of that name).
pub open spec fn edit_all(kids: Seq<XmlModel>, incoming: Seq<XmlModel>, op: EditDefaultOp) -> (Seq<XmlModel>, Option<Seq<char>>)
    decreases incoming.len(),
{
    if incoming.len() == 0 {
        (kids, None)
    } else {
        let c = incoming[0];
        let p = first_named(kids, local_part(c.name), 0);
        if op == EditDefaultOp::Create && p < kids.len() {
            (kids, Some(local_part(c.name)))
        } else {
            let k2 = match op {
                EditDefaultOp::Merge => if p < kids.len() { kids.update(p, c) } else { kids.push(c) },
                EditDefaultOp::Create => kids.push(c),
                EditDefaultOp::Delete => if p < kids.len() { kids.remove(p) } else { kids },
                _ => kids,
            };
            edit_all(k2, incoming.drop_first(), op)
        }
    }
}

/// The top-level nodes of a datastore after an `<edit-config>` with `op`,
/// and the name of the node whose creation failed, if one did.
pub open spec fn edit_result(kids: Seq<XmlModel>, incoming: Seq<XmlModel>, op: EditDefaultOp) -> (Seq<XmlModel>, Option<Seq<char>>) {
    match op {
        EditDefaultOp::Replace => (incoming, None),
        EditDefaultOp::NoneOp => (kids, None),
        _ => edit_all(kids, incoming, op),
    }
}

impl InMemoryDatastore {
    #[verifier::type_invariant]
    spec fn running_present(self) -> bool {
        lookup(entries_view(self.stores@), DatastoreModel::Running) is Some
    }

    /// Create an empty datastore (running present but empty).
    pub fn new() -> (d: InMemoryDatastore)
        ensures
            d@.stores == Map::<DatastoreModel, XmlModel>::empty().insert(DatastoreModel::Running, bare("config"@)),
            d@.locked == Set::<DatastoreModel>::empty(),
    {
        let mut stores: Vec<(DatastoreName, Xml)> = Vec::new();
        stores.push((DatastoreName::Running, Xml::new("config")));
        let d = InMemoryDatastore { stores, locked: Vec::new() };
        proof {
            let e = entries_view(d.stores@);
            assert(e[0] == (DatastoreModel::Running, bare("config"@)));
            assert forall|k: DatastoreModel| #[trigger] lookup(e, k) == if k == DatastoreModel::Running {
                Some(bare("config"@))
            } else {
                None::<XmlModel>
            } by {
                assert(e.drop_first().len() == 0);
                assert(lookup(e.drop_first(), k) is None);
                assert(e[0].1 == bare("config"@));
            }
            assert(d@.stores =~= Map::<DatastoreModel, XmlModel>::empty().insert(DatastoreModel::Running, bare("config"@)));
            assert(d@.locked =~= Set::<DatastoreModel>::empty());
        }
        d
    }

    fn find_store(&self, k: &DatastoreName) -> (r: Option<usize>)
        ensures
            match r {
                Some(i) => i < self.stores@.len() && entries_view(self.stores@)[i as int].0 == datastore_view(*k)
                    && forall|j: int| 0 <= j < i ==> (#[trigger] entries_view(self.stores@)[j]).0 != datastore_view(*k),
                None => forall|j: int|
                    0 <= j < self.stores@.len() ==> (#[trigger] entries_view(self.stores@)[j]).0 != datastore_view(*k),
            },
    {
        let mut i: usize = 0;
        while i < self.stores.len()
            invariant
                i <= self.stores@.len(),
                forall|j: int| 0 <= j < i ==> (#[trigger] entries_view(self.stores@)[j]).0 != datastore_view(*k),
            decreases self.stores.len() - i,
        {
            if same_datastore(&self.stores[i].0, k) {
                return Some(i);
            }
            i = i + 1;
        }
        None
    }

    fn is_locked(&self, k: &DatastoreName) -> (r: bool)
        ensures
            r == self@.locked.contains(datastore_view(*k)),
    {
        let ghost ls = Seq::new(self.locked@.len(), |i: int| datastore_view(self.locked@[i]));
        let mut i: usize = 0;
        while i < self.locked.len()
            invariant
                i <= self.locked@.len(),
                ls == Seq::new(self.locked@.len(), |i: int| datastore_view(self.locked@[i])),
                forall|j: int| 0 <= j < i ==> ls[j] != datastore_view(*k),
            decreases self.locked.len() - i,
        {
            if same_datastore(&self.locked[i], k) {
                assert(ls[i as int] == datastore_view(*k));
                return true;
            }
            i = i + 1;
        }
        false
    }

    /// Store `tree` under `name`, replacing what was there.
    fn put(&mut self, name: DatastoreName, tree: Xml)
        ensures
            final(self)@.stores == old(self)@.stores.insert(datastore_view(name), xml_view(tree)),
            final(self)@.locked == old(self)@.locked,
    {
        proof {
            use_type_invariant(&*self);
        }
        let ghost e = entries_view(self.stores@);
        let ghost k = datastore_view(name);
        let ghost v = xml_view(tree);
        let mut st = clone_entries(&self.stores);
        match self.find_store(&name) {
            Some(i) => {
                proof {
                    assert forall|k2: DatastoreModel| #[trigger] lookup(entries_view(st@.update(i as int, (name, tree))), k2)
                        == if k2 == k { Some(v) } else { lookup(e, k2) } by {
                        assert(entries_view(st@.update(i as int, (name, tree))) =~= e.update(i as int, (k, v)));
                        lemma_lookup_update(e, i as int, v, k2);
                    }
                }
                st.set(i, (name, tree));
            },
            None => {
                proof {
                    lemma_lookup_first(e, k, e.len() as int);
                    assert forall|k2: DatastoreModel| #[trigger] lookup(entries_view(st@.push((name, tree))), k2)
                        == if k2 == k { Some(v) } else { lookup(e, k2) } by {
                        assert(entries_view(st@.push((name, tree))) =~= e.push((k, v)));
                        lemma_lookup_push(e, k, v, k2);
                    }
                }
                st.push((name, tree));
            },
        }
        self.stores = st;
        assert(self@.stores =~= old(self)@.stores.insert(k, v));
    }

    /// The tree stored under `k`, if there is one.
    fn tree_of(&self, k: &DatastoreName) -> (r: Option<&Xml>)
        ensures
            match r {
                Some(t) => self@.stores.contains_key(datastore_view(*k)) && self@.stores[datastore_view(*k)]
                    == xml_view(*t),
                None => !self@.stores.contains_key(datastore_view(*k)),
            },
    {
        match self.find_store(k) {
            Some(i) => {
                proof {
                    lemma_lookup_first(entries_view(self.stores@), datastore_view(*k), i as int);
                }
                Some(&self.stores[i].1)
            },
            None => {
                proof {
                    lemma_lookup_first(entries_view(self.stores@), datastore_view(*k), self.stores@.len() as int);
                }
                None
            },
        }
    }

    /// Seed a datastore with a `<config>`-rooted tree (children are the config
    /// nodes).
    pub fn seed(&mut self, name: DatastoreName, children: Vec<Xml>)
        ensures
            final(self)@.stores == old(self)@.stores.insert(
                datastore_view(name),
                XmlModel { children: xml_views(children@), ..bare("config"@) },
            ),
            final(self)@.locked == old(self)@.locked,
    {
        let mut cfg = Xml::new("config");
        cfg.children = children;
        assert(xml_view(cfg) == XmlModel { children: xml_views(children@), ..bare("config"@) }) by {
            assert(xml_view(cfg).children =~= xml_views(children@));
        }
        self.put(name, cfg);
    }

    fn data_element(store: &Xml) -> (x: Xml)
        ensures
            xml_view(x) == data_of(xml_view(*store)),
    {
        let mut data = Xml::new("data");
        let kids = clone_children(&store.children);
        data.children = kids;
        assert(xml_view(data).children =~= xml_views(kids@));
        assert(xml_view(*store).children =~= xml_views(store.children@));
        data
    }
}

fn clone_children(v: &Vec<Xml>) -> (r: Vec<Xml>)
    ensures
        xml_views(r@) == xml_views(v@),
{
    let mut out: Vec<Xml> = Vec::new();
    let mut i: usize = 0;
    while i < v.len()
        invariant
            i <= v@.len(),
            xml_views(out@) == xml_views(v@).subrange(0, i as int),
        decreases v.len() - i,
    {
        let c = v[i].clone();
        let ghost before = out@;
        out.push(c);
        proof {
            assert(xml_views(out@) =~= xml_views(before).push(xml_view(c)));
            assert(xml_views(v@).subrange(0, i + 1) =~= xml_views(v@).subrange(0, i as int).push(xml_view(v@[i as int])));
        }
        i = i + 1;
    }
    assert(xml_views(v@).subrange(0, i as int) =~= xml_views(v@));
    out
}

fn clone_entries(v: &Vec<(DatastoreName, Xml)>) -> (r: Vec<(DatastoreName, Xml)>)
    ensures
        entries_view(r@) == entries_view(v@),
{
    let mut out: Vec<(DatastoreName, Xml)> = Vec::new();
    let mut i: usize = 0;
    while i < v.len()
        invariant
            i <= v@.len(),
            entries_view(out@) == entries_view(v@).subrange(0, i as int),
        decreases v.len() - i,
    {
        let n = clone_name(&v[i].0);
        let x = v[i].1.clone();
        let ghost before = out@;
        out.push((n, x));
        proof {
            assert(entries_view(out@) =~= entries_view(before).push((datastore_view(n), xml_view(x))));
            assert(entries_view(v@).subrange(0, i + 1) =~= entries_view(v@).subrange(0, i as int).push(
                entries_view(v@)[i as int],
            ));
        }
        i = i + 1;
    }
    assert(entries_view(v@).subrange(0, i as int) =~= entries_view(v@));
    out
}

fn clone_name(d: &DatastoreName) -> (r: DatastoreName)
    ensures
        datastore_view(r) == datastore_view(*d),
{
    match d {
        DatastoreName::Running => DatastoreName::Running,
        DatastoreName::Startup => DatastoreName::Startup,
        DatastoreName::Candidate => DatastoreName::Candidate,
        DatastoreName::Url(u) => DatastoreName::Url(u.clone()),
    }
}

fn position_named(kids: &Vec<Xml>, name: &str) -> (r: Option<usize>)
    ensures
        match r {
            Some(p) => p == first_named(xml_views(kids@), name@, 0) && p < kids@.len(),
            None => first_named(xml_views(kids@), name@, 0) == kids@.len(),
        },
{
    let ghost ks = xml_views(kids@);
    let mut i: usize = 0;
    while i < kids.len()
        invariant
            i <= kids@.len(),
            ks == xml_views(kids@),
            first_named(ks, name@, 0) == first_named(ks, name@, i as int),
        decreases kids.len() - i,
    {
        if str_eq(kids[i].local_name(), name) {
            return Some(i);
        }
        i = i + 1;
    }
    None
}

/// The text reporting a node whose creation failed.
pub open spec fn create_failed_text(name: Seq<char>) -> Seq<char> {
    "create failed: node <"@ + name + "> already exists"@
}

impl Datastore for InMemoryDatastore {
    open spec fn get_config_post(self, source: DatastoreModel, post: Self, r: Result<XmlModel, ErrorModel>) -> bool {
        &&& post@ == self@
        &&& match r {
            Ok(x) => self@.stores.contains_key(source) && x == data_of(self@.stores[source]),
            Err(e) => !self@.stores.contains_key(source) && e == ErrorModel::UnknownDatastore(debug_text(source)),
        }
    }

    /// The filter is not applied: the whole running tree is returned.
    open spec fn get_post(self, filter: Option<XmlModel>, post: Self, r: Result<XmlModel, ErrorModel>) -> bool {
        &&& post@ == self@
        &&& self@.stores.contains_key(DatastoreModel::Running)
        &&& r == Ok::<XmlModel, ErrorModel>(data_of(self@.stores[DatastoreModel::Running]))
    }

    open spec fn edit_config_post(
        self,
        target: DatastoreModel,
        default_op: EditDefaultOp,
        config: XmlModel,
        post: Self,
        r: Result<(), ErrorModel>,
    ) -> bool {
        if !self@.stores.contains_key(target) {
            post@ == self@ && r == Err::<(), ErrorModel>(ErrorModel::UnknownDatastore(debug_text(target)))
        } else {
            let t = self@.stores[target];
            let (kids, failed) = edit_result(t.children, config.children, default_op);
            &&& post@.locked == self@.locked
            &&& post@.stores == self@.stores.insert(target, XmlModel { children: kids, ..t })
            &&& r == match failed {
                None => Ok::<(), ErrorModel>(()),
                Some(n) => Err(ErrorModel::Rpc(create_failed_text(n))),
            }
        }
    }

    open spec fn copy_config_post(self, target: DatastoreModel, source: DatastoreModel, post: Self, r: Result<(), ErrorModel>) -> bool {
        if !self@.stores.contains_key(source) {
            post@ == self@ && r == Err::<(), ErrorModel>(ErrorModel::UnknownDatastore(debug_text(source)))
        } else {
            &&& r == Ok::<(), ErrorModel>(())
            &&& post@.locked == self@.locked
            &&& post@.stores == self@.stores.insert(target, self@.stores[source])
        }
    }

    open spec fn delete_config_post(self, target: DatastoreModel, post: Self, r: Result<(), ErrorModel>) -> bool {
        if target is Running {
            post@ == self@ && r == Err::<(), ErrorModel>(
                ErrorModel::Rpc("<delete-config> of the running datastore is not permitted"@),
            )
        } else if target is Url {
            post@ == self@ && r == Err::<(), ErrorModel>(
                ErrorModel::Rpc("<delete-config> of a URL datastore is not supported"@),
            )
        } else {
            &&& r == Ok::<(), ErrorModel>(())
            &&& post@.locked == self@.locked
            &&& post@.stores == self@.stores.insert(target, bare("config"@))
        }
    }

    open spec fn lock_post(self, target: DatastoreModel, post: Self, r: Result<(), ErrorModel>) -> bool {
        if self@.locked.contains(target) {
            post@ == self@ && r == Err::<(), ErrorModel>(
                ErrorModel::Rpc("lock-denied: <"@ + debug_text(target) + "> already locked"@),
            )
        } else {
            &&& r == Ok::<(), ErrorModel>(())
            &&& post@.stores == self@.stores
            &&& post@.locked == self@.locked.insert(target)
        }
    }

    open spec fn unlock_post(self, target: DatastoreModel, post: Self, r: Result<(), ErrorModel>) -> bool {
        &&& r == Ok::<(), ErrorModel>(())
        &&& post@.stores == self@.stores
        &&& post@.locked == self@.locked.remove(target)
    }

    open spec fn close_session_post(self, post: Self, r: Result<(), ErrorModel>) -> bool {
        &&& r == Ok::<(), ErrorModel>(())
        &&& post@.stores == self@.stores
        &&& post@.locked == Set::<DatastoreModel>::empty()
    }

    fn get_config(&mut self, source: DatastoreName) -> (r: Result<Xml, NetconfError>)
    {
        match self.tree_of(&source) {
            Some(s) => Ok(InMemoryDatastore::data_element(s)),
            None => Err(NetconfError::UnknownDatastore(debug_name(&source))),
        }
    }

    fn get(&mut self, filter: Option<&Xml>) -> (r: Result<Xml, NetconfError>)
    {
        proof {
            use_type_invariant(&*self);
            let e = entries_view(self.stores@);
            assert(entries_map(e).contains_key(DatastoreModel::Running));
        }
        match self.tree_of(&DatastoreName::Running) {
            Some(s) => Ok(InMemoryDatastore::data_element(s)),
            None => {
                assert(false);
                Err(NetconfError::UnknownDatastore(String::from_str("Running")))
            },
        }
    }

    fn edit_config(&mut self, target: DatastoreName, default_op: EditDefaultOp, config: &Xml) -> (r: Result<(), NetconfError>)
    {
        let store = match self.tree_of(&target) {
            Some(t) => t.clone(),
            None => {
                return Err(NetconfError::UnknownDatastore(debug_name(&target)));
            },
        };
        let ghost t = xml_view(store);
        let ghost incoming = xml_view(*config).children;
        match default_op {
            EditDefaultOp::Replace => {
                let mut s2 = store;
                let kids = clone_children(&config.children);
                s2.children = kids;
                proof {
                    assert(xml_view(s2).children =~= xml_views(kids@));
                    assert(xml_view(*config).children =~= xml_views(config.children@));
                    assert(xml_view(s2) == XmlModel { children: incoming, ..t });
                }
                self.put(target, s2);
                Ok(())
            },
            EditDefaultOp::NoneOp => {
                assert(old(self)@.stores.insert(datastore_view(target), XmlModel { children: t.children, ..t })
                    =~= old(self)@.stores);
                Ok(())
            },
            _ => {
                let mut s2 = store;
                let mut kids = clone_children(&s2.children);
                proof {
                    assert(xml_view(s2).children =~= xml_views(s2.children@));
                    assert(incoming =~= xml_views(config.children@));
                    assert(incoming.subrange(0, incoming.len() as int) =~= incoming);
                }
                let mut j: usize = 0;
                while j < config.children.len()
                    invariant
                        j <= config.children@.len(),
                        *self == *old(self),
                        old(self)@.stores.contains_key(datastore_view(target)),
                        t == old(self)@.stores[datastore_view(target)],
                        xml_view(s2) == t,
                        incoming == xml_view(*config).children,
                        incoming.len() == config.children@.len(),
                        default_op != EditDefaultOp::Replace && default_op != EditDefaultOp::NoneOp,
                        edit_all(t.children, incoming, default_op) == edit_all(
                            xml_views(kids@),
                            incoming.subrange(j as int, incoming.len() as int),
                            default_op,
                        ),
                    decreases config.children.len() - j,
                {
                    let c = &config.children[j];
                    let ghost rest = incoming.subrange(j as int, incoming.len() as int);
                    proof {
                        assert(rest[0] == xml_view(*c));
                        assert(rest.drop_first() =~= incoming.subrange(j + 1, incoming.len() as int));
                    }
                    let local = c.local_name();
                    let pos = position_named(&kids, local);
                    let ghost before = xml_views(kids@);
                    match default_op {
                        EditDefaultOp::Merge => match pos {
                            Some(p) => {
                                let cc = c.clone();
                                kids.set(p, cc);
                                assert(xml_views(kids@) =~= before.update(p as int, xml_view(*c)));
                            },
                            None => {
                                let cc = c.clone();
                                kids.push(cc);
                                assert(xml_views(kids@) =~= before.push(xml_view(*c)));
                            },
                        },
                        EditDefaultOp::Create => match pos {
                            Some(_) => {
                                let msg = joined3("create failed: node <", local, "> already exists");
                                s2.children = kids;
                                proof {
                                    assert(xml_view(s2).children =~= xml_views(kids@));
                                }
                                self.put(target, s2);
                                return Err(NetconfError::Rpc(msg));
                            },
                            None => {
                                let cc = c.clone();
                                kids.push(cc);
                                assert(xml_views(kids@) =~= before.push(xml_view(*c)));
                            },
                        },
                        _ => match pos {
                            Some(p) => {
                                kids.remove(p);
                                assert(xml_views(kids@) =~= before.remove(p as int));
                            },
                            None => {},
                        },
                    }
                    j = j + 1;
                }
                proof {
                    assert(incoming.subrange(j as int, incoming.len() as int).len() == 0);
                }
                s2.children = kids;
                proof {
                    assert(xml_view(s2).children =~= xml_views(kids@));
                }
                self.put(target, s2);
                Ok(())
            },
        }
    }

    fn copy_config(&mut self, target: DatastoreName, source: DatastoreName) -> (r: Result<(), NetconfError>)
    {
        let src = match self.tree_of(&source) {
            Some(s) => s.clone(),
            None => {
                return Err(NetconfError::UnknownDatastore(debug_name(&source)));
            },
        };
        self.put(target, src);
        Ok(())
    }

    fn delete_config(&mut self, target: DatastoreName) -> (r: Result<(), NetconfError>)
    {
        match target {
            DatastoreName::Running => {
                return Err(NetconfError::Rpc(String::from_str("<delete-config> of the running datastore is not permitted")));
            },
            DatastoreName::Url(_) => {
                return Err(NetconfError::Rpc(String::from_str("<delete-config> of a URL datastore is not supported")));
            },
            _ => {},
        }
        self.put(target, Xml::new("config"));
        Ok(())
    }

    fn lock(&mut self, target: DatastoreName) -> (r: Result<(), NetconfError>)
    {
        proof {
            use_type_invariant(&*self);
        }
        if self.is_locked(&target) {
            let d = debug_name(&target);
            return Err(NetconfError::Rpc(joined3("lock-denied: <", d.as_str(), "> already locked")));
        }
        let mut ls = clone_names(&self.locked);
        let ghost before = ls@;
        ls.push(target);
        proof {
            let old_s = Seq::new(before.len(), |i: int| datastore_view(before[i]));
            let new_s = Seq::new(ls@.len(), |i: int| datastore_view(ls@[i]));
            assert(new_s =~= old_s.push(datastore_view(target)));
            assert(old_s =~= Seq::new(self.locked@.len(), |i: int| datastore_view(self.locked@[i])));
            assert forall|k: DatastoreModel| new_s.contains(k) == (old_s.contains(k) || k == datastore_view(target)) by {
                if old_s.contains(k) {
                    let i = choose|i: int| 0 <= i < old_s.len() && old_s[i] == k;
                    assert(new_s[i] == k);
                }
                if new_s.contains(k) && k != datastore_view(target) {
                    let i = choose|i: int| 0 <= i < new_s.len() && new_s[i] == k;
                    assert(old_s[i] == k);
                }
                if k == datastore_view(target) {
                    assert(new_s[old_s.len() as int] == k);
                }
            }
        }
        self.locked = ls;
        assert(self@.locked =~= old(self)@.locked.insert(datastore_view(target)));
        Ok(())
    }

    fn unlock(&mut self, target: DatastoreName) -> (r: Result<(), NetconfError>)
    {
        proof {
            use_type_invariant(&*self);
        }
        let ghost k = datastore_view(target);
        let ghost old_s = names_view(self.locked@);
        let mut ls: Vec<DatastoreName> = Vec::new();
        let mut i: usize = 0;
        while i < self.locked.len()
            invariant
                i <= self.locked@.len(),
                k == datastore_view(target),
                old_s == names_view(self.locked@),
                forall|x: DatastoreModel|
                    #[trigger] names_view(ls@).contains(x) <==> (x != k && old_s.subrange(0, i as int).contains(x)),
            decreases self.locked.len() - i,
        {
            let ghost before = ls@;
            let ghost pre = old_s.subrange(0, i as int);
            let ghost pre1 = old_s.subrange(0, i + 1);
            proof {
                assert(pre1 =~= pre.push(old_s[i as int]));
            }
            if !same_datastore(&self.locked[i], &target) {
                let n = clone_name(&self.locked[i]);
                ls.push(n);
                proof {
                    assert(names_view(ls@) =~= names_view(before).push(datastore_view(n)));
                    assert(datastore_view(n) == old_s[i as int]);
                    assert forall|x: DatastoreModel| #[trigger] names_view(ls@).contains(x) <==> (x != k && pre1.contains(x)) by {
                        assert(names_view(before).contains(x) <==> (x != k && pre.contains(x)));
                        vstd::seq_lib::lemma_seq_contains_after_push(names_view(before), datastore_view(n), x);
                        vstd::seq_lib::lemma_seq_contains_after_push(pre, old_s[i as int], x);
                    }
                }
            } else {
                proof {
                    assert(old_s[i as int] == k);
                    assert forall|x: DatastoreModel| #[trigger] names_view(ls@).contains(x) <==> (x != k && pre1.contains(x)) by {
                        assert(names_view(before).contains(x) <==> (x != k && pre.contains(x)));
                        vstd::seq_lib::lemma_seq_contains_after_push(pre, old_s[i as int], x);
                    }
                }
            }
            i = i + 1;
        }
        self.locked = ls;
        proof {
            assert(old_s.subrange(0, i as int) =~= old_s);
            assert(self@.locked =~= old(self)@.locked.remove(k)) by {
                assert forall|x: DatastoreModel| self@.locked.contains(x) <==> old(self)@.locked.remove(k).contains(x) by {
                    assert(names_view(ls@).contains(x) <==> (x != k && old_s.subrange(0, i as int).contains(x)));
                }
            }
        }
        Ok(())
    }

    fn close_session(&mut self) -> (r: Result<(), NetconfError>)
    {
        proof {
            use_type_invariant(&*self);
        }
        self.locked = Vec::new();
        assert(self@.locked =~= Set::<DatastoreModel>::empty());
        Ok(())
    }
}

fn clone_names(v: &Vec<DatastoreName>) -> (r: Vec<DatastoreName>)
    ensures
        r@.len() == v@.len(),
        forall|i: int| 0 <= i < v@.len() ==> datastore_view(#[trigger] r@[i]) == datastore_view(v@[i]),
{
    let mut out: Vec<DatastoreName> = Vec::new();
    let mut i: usize = 0;
    while i < v.len()
        invariant
            i <= v@.len(),
            out@.len() == i,
            forall|j: int| 0 <= j < i ==> datastore_view(#[trigger] out@[j]) == datastore_view(v@[j]),
        decreases v.len() - i,
    {
        out.push(clone_name(&v[i]));
        i = i + 1;
    }
    out
}

// ---------------------------------------------------------------------------
// Dispatch
// ---------------------------------------------------------------------------

/// The `<rpc-error>` reporting an error of the datastore or of the request.
pub open spec fn error_reply(e: ErrorModel) -> RpcErrorModel {
    let (error_type, tag, message) = match e {
        ErrorModel::UnknownDatastore(d) => ("protocol"@, "invalid-value"@, "unknown datastore: "@ + d),
        ErrorModel::XmlParse(_) => ("rpc"@, "malformed-message"@, error_text(e)),
        ErrorModel::MissingMessageId => ("rpc"@, "missing-attribute"@, error_text(e)),
        ErrorModel::Rpc(m) => ("application"@, "operation-failed"@, m),
        _ => ("application"@, "operation-failed"@, error_text(e)),
    };
    RpcErrorModel {
        error_type,
        error_tag: tag,
        error_severity: "error"@,
        error_message: Some(message),
        error_app_tag: None,
        error_path: None,
        error_info: None,
    }
}

/// The reply to a datastore answer that carries nothing: `<ok/>`, or the
/// error reply.
pub open spec fn unit_reply(a: Result<(), ErrorModel>) -> ReplyModel {
    match a {
        Ok(()) => ReplyModel::Okay,
        Err(e) => ReplyModel::Error(error_reply(e)),
    }
}

/// The reply to a datastore answer that carries a tree: the data, or the
/// error reply.
pub open spec fn data_reply(a: Result<XmlModel, ErrorModel>) -> ReplyModel {
    match a {
        Ok(x) => ReplyModel::Data(x),
        Err(e) => ReplyModel::Error(error_reply(e)),
    }
}

/// The value of an optional owned tree.
pub open spec fn opt_tree(o: Option<Xml>) -> Option<XmlModel> {
    match o {
        Some(x) => Some(xml_view(x)),
        None => None,
    }
}

/// What dispatching `op` does to the datastore (from `pre` to `post`) and
/// answers: the operations this server does not carry out leave the
/// datastore alone and get a fixed error; every other one is handed to the
/// datastore method of the same name with the rpc's arguments, and the
/// datastore's answer `a` is turned into the reply (its data, `<ok/>`, or
/// the error reply).
pub open spec fn dispatched<S: Datastore>(op: Operation, pre: S, post: S, res: ReplyResult) -> bool {
    match op {
        Operation::KillSession { .. } => post == pre && reply_result_view(res) == ReplyModel::Error(
            error_reply(ErrorModel::Rpc("<kill-session> is not supported by this server"@)),
        ),
        Operation::DiscardChanges => post == pre && reply_result_view(res) == ReplyModel::Error(
            error_reply(ErrorModel::Rpc("<discard-changes> requires a candidate datastore"@)),
        ),
        Operation::Other { element } => post == pre && reply_result_view(res) == ReplyModel::Error(
            error_reply(ErrorModel::Rpc("operation <"@ + local_part(element.name@) + "> is not supported"@)),
        ),
        Operation::GetConfig { source } => exists|a: Result<XmlModel, ErrorModel>|
            #[trigger] S::get_config_post(pre, datastore_view(source), post, a) && reply_result_view(res) == data_reply(a),
        Operation::Get { filter } => exists|a: Result<XmlModel, ErrorModel>|
            #[trigger] S::get_post(pre, opt_tree(filter), post, a) && reply_result_view(res) == data_reply(a),
        Operation::EditConfig { target, default_op, config } => exists|a: Result<(), ErrorModel>|
            #[trigger] S::edit_config_post(pre, datastore_view(target), default_op, xml_view(config), post, a)
                && reply_result_view(res) == unit_reply(a),
        Operation::CopyConfig { target, source } => exists|a: Result<(), ErrorModel>|
            #[trigger] S::copy_config_post(pre, datastore_view(target), datastore_view(source), post, a)
                && reply_result_view(res) == unit_reply(a),
        Operation::DeleteConfig { target } => exists|a: Result<(), ErrorModel>|
            #[trigger] S::delete_config_post(pre, datastore_view(target), post, a) && reply_result_view(res) == unit_reply(a),
        Operation::Lock { target } => exists|a: Result<(), ErrorModel>|
            #[trigger] S::lock_post(pre, datastore_view(target), post, a) && reply_result_view(res) == unit_reply(a),
        Operation::Unlock { target } => exists|a: Result<(), ErrorModel>|
            #[trigger] S::unlock_post(pre, datastore_view(target), post, a) && reply_result_view(res) == unit_reply(a),
        Operation::CloseSession => exists|a: Result<(), ErrorModel>|
            #[trigger] S::close_session_post(pre, post, a) && reply_result_view(res) == unit_reply(a),
    }
}

fn error_to_reply(e: NetconfError, mid: &str) -> (r: RpcReply)
    ensures
        rpc_reply_view(r) == (RpcReplyModel {
            message_id: mid@,
            result: ReplyModel::Error(error_reply(error_view(e))),
        }),
{
    let (error_type, tag, message) = match &e {
        NetconfError::UnknownDatastore(d) => ("protocol", "invalid-value", joined3("unknown datastore: ", d.as_str(), "")),
        NetconfError::XmlParse(_) => ("rpc", "malformed-message", e.message()),
        NetconfError::MissingMessageId => ("rpc", "missing-attribute", e.message()),
        NetconfError::Rpc(m) => ("application", "operation-failed", m.clone()),
        _ => ("application", "operation-failed", e.message()),
    };
    proof {
        assert(""@.len() == 0) by {
            reveal_strlit("");
        }
        if let NetconfError::UnknownDatastore(d) = e {
            assert("unknown datastore: "@ + d@ + ""@ =~= "unknown datastore: "@ + d@);
        }
    }
    RpcError {
        error_type: String::from_str(error_type),
        error_tag: String::from_str(tag),
        error_severity: String::from_str("error"),
        error_message: Some(message),
        error_app_tag: None,
        error_path: None,
        error_info: None,
    }.into_reply(mid)
}

fn reply_with(mid: &String, result: ReplyResult) -> (r: Result<RpcReply, NetconfError>)
    ensures
        r matches Ok(reply) && reply.message_id@ == mid@ && reply.result == result,
{
    Ok(RpcReply { message_id: mid.clone(), result })
}

fn error_answer(e: NetconfError, mid: &String) -> (r: Result<RpcReply, NetconfError>)
    ensures
        r matches Ok(reply) && reply.message_id@ == mid@ && reply_result_view(reply.result) == ReplyModel::Error(
            error_reply(error_view(e)),
        ),
{
    Ok(error_to_reply(e, mid.as_str()))
}

/// Dispatch a parsed [`Rpc`] against the datastore, producing an [`RpcReply`].
pub fn dispatch<S: Datastore>(rpc: &Rpc, store: &mut S) -> (r: Result<RpcReply, NetconfError>)
    ensures
        r matches Ok(reply) && reply.message_id@ == rpc.message_id@ && dispatched(
            rpc.operation,
            *old(store),
            *final(store),
            reply.result,
        ),
{
    let mid = rpc.message_id.clone();
    match &rpc.operation {
        Operation::GetConfig { source } => match store.get_config(clone_name(source)) {
            Ok(data) => reply_with(&mid, ReplyResult::Data(data)),
            Err(e) => error_answer(e, &mid),
        },
        Operation::Get { filter } => {
            let f = match filter {
                Some(x) => Some(x),
                None => None,
            };
            match store.get(f) {
                Ok(data) => reply_with(&mid, ReplyResult::Data(data)),
                Err(e) => error_answer(e, &mid),
            }
        },
        Operation::EditConfig { target, default_op, config } => match store.edit_config(
            clone_name(target),
            *default_op,
            config,
        ) {
            Ok(()) => reply_with(&mid, ReplyResult::Okay),
            Err(e) => error_answer(e, &mid),
        },
        Operation::CopyConfig { target, source } => match store.copy_config(clone_name(target), clone_name(source)) {
            Ok(()) => reply_with(&mid, ReplyResult::Okay),
            Err(e) => error_answer(e, &mid),
        },
        Operation::DeleteConfig { target } => match store.delete_config(clone_name(target)) {
            Ok(()) => reply_with(&mid, ReplyResult::Okay),
            Err(e) => error_answer(e, &mid),
        },
        Operation::Lock { target } => match store.lock(clone_name(target)) {
            Ok(()) => reply_with(&mid, ReplyResult::Okay),
            Err(e) => error_answer(e, &mid),
        },
        Operation::Unlock { target } => match store.unlock(clone_name(target)) {
            Ok(()) => reply_with(&mid, ReplyResult::Okay),
            Err(e) => error_answer(e, &mid),
        },
        Operation::CloseSession => match store.close_session() {
            Ok(()) => reply_with(&mid, ReplyResult::Okay),
            Err(e) => error_answer(e, &mid),
        },
        Operation::KillSession { .. } => error_answer(
            NetconfError::Rpc(String::from_str("<kill-session> is not supported by this server")),
            &mid,
        ),
        Operation::DiscardChanges => error_answer(
            NetconfError::Rpc(String::from_str("<discard-changes> requires a candidate datastore")),
            &mid,
        ),
        Operation::Other { element } => error_answer(
            NetconfError::Rpc(joined3("operation <", element.local_name(), "> is not supported")),
            &mid,
        ),
    }
}

/// The capability list names a NETCONF base capability (1.0 or 1.1).
pub open spec fn has_base_capability(caps: Seq<Seq<char>>) -> bool {
    exists|i: int| 0 <= i < caps.len() && (caps[i] == NETCONF_BASE_NS_1_0@ || caps[i] == NETCONF_BASE_NS_1_1@)
}

/// What the capability exchange makes of the client's `<hello>` text: the
/// parsed hello when it names a base capability; otherwise a capability
/// exchange error holding the parse error's text, or saying that no base
/// capability was advertised.
pub open spec fn client_hello_outcome(input: Seq<u8>) -> Result<HelloModel, Seq<char>> {
    let parsed = match spec_root(input) {
        Ok((m, _)) => spec_hello(m),
        Err(f) => Err(parse_failure(f)),
    };
    match parsed {
        Err(e) => Err(error_text(e)),
        Ok(h) => if has_base_capability(h.capabilities) {
            Ok(h)
        } else {
            Err("client did not advertise a NETCONF base capability"@)
        },
    }
}

/// Check the client's `<hello>` in the capability exchange: it must parse as
/// a hello and advertise a NETCONF base capability; every failure is a
/// capability exchange error.
pub fn accept_client_hello(input: &str) -> (r: Result<Hello, NetconfError>)
    requires
        input.spec_bytes().len() + 32 < usize::MAX,
    ensures
        match client_hello_outcome(input.spec_bytes()) {
            Ok(h) => r matches Ok(x) && hello_view(x) == h,
            Err(m) => r matches Err(NetconfError::CapabilityExchange(s)) && s@ == m,
        },
{
    let hello = match parse_hello(input) {
        Ok(h) => h,
        Err(e) => return Err(NetconfError::CapabilityExchange(e.message())),
    };
    let ghost parsed = match spec_root(input.spec_bytes()) {
        Ok((m, _)) => spec_hello(m),
        Err(f) => Err(parse_failure(f)),
    };
    assert(parsed == Ok::<HelloModel, ErrorModel>(hello_view(hello)));
    let mut i: usize = 0;
    while i < hello.capabilities.len()
        invariant
            i <= hello.capabilities@.len(),
            parsed == Ok::<HelloModel, ErrorModel>(hello_view(hello)),
            parsed == (match spec_root(input.spec_bytes()) {
                Ok((m, _)) => spec_hello(m),
                Err(f) => Err(parse_failure(f)),
            }),
            forall|j: int| 0 <= j < i ==> !(#[trigger] hello.capabilities@[j]@ == NETCONF_BASE_NS_1_0@
                || hello.capabilities@[j]@ == NETCONF_BASE_NS_1_1@),
        decreases hello.capabilities.len() - i,
    {
        if str_eq(hello.capabilities[i].as_str(), NETCONF_BASE_NS_1_0) || str_eq(
            hello.capabilities[i].as_str(),
            NETCONF_BASE_NS_1_1,
        ) {
            proof {
                let caps = hello_view(hello).capabilities;
                assert(caps.len() == hello.capabilities@.len());
                assert(caps[i as int] == hello.capabilities@[i as int]@);
                assert(caps[i as int] == NETCONF_BASE_NS_1_0@ || caps[i as int] == NETCONF_BASE_NS_1_1@);
                assert(has_base_capability(caps));
            }
            return Ok(hello);
        }
        i = i + 1;
    }
    proof {
        assert forall|j: int| 0 <= j < hello_view(hello).capabilities.len() implies !(
        #[trigger] hello_view(hello).capabilities[j] == NETCONF_BASE_NS_1_0@ || hello_view(hello).capabilities[j]
            == NETCONF_BASE_NS_1_1@) by {
            assert(hello_view(hello).capabilities[j] == hello.capabilities@[j]@);
        }
    }
    Err(NetconfError::CapabilityExchange(String::from_str("client did not advertise a NETCONF base capability")))
}

// ---------------------------------------------------------------------------
// What a merge edit does
// ---------------------------------------------------------------------------

/// The nodes of `a` and `b` carry the same local names, position by position.
pub open spec fn same_names(a: Seq<XmlModel>, b: Seq<XmlModel>) -> bool {
    a.len() == b.len() && forall|j: int| 0 <= j < a.len() ==> local_part(#[trigger] a[j].name) == local_part(b[j].name)
}

/// Some node of `xs` has the local name `n`.
pub open spec fn has_named(xs: Seq<XmlModel>, n: Seq<char>) -> bool {
    exists|j: int| 0 <= j < xs.len() && local_part(#[trigger] xs[j].name) == n
}

proof fn lemma_named_same(a: Seq<XmlModel>, b: Seq<XmlModel>, n: Seq<char>, i: int)
    requires
        same_names(a, b),
    ensures
        first_named(a, n, i) == first_named(b, n, i),
        all_named(a, n, i) == all_named(b, n, i),
    decreases a.len() - i,
{
    if 0 <= i < a.len() {
        assert(local_part(a[i].name) == local_part(b[i].name));
        lemma_named_same(a, b, n, i + 1);
    }
}

proof fn lemma_named_push(a: Seq<XmlModel>, c: XmlModel, n: Seq<char>, i: int)
    requires
        0 <= i <= a.len(),
    ensures
        all_named(a.push(c), n, i) == all_named(a, n, i) + (if local_part(c.name) == n {
            seq![a.len() as int]
        } else {
            Seq::<int>::empty()
        }),
        first_named(a.push(c), n, i) == if first_named(a, n, i) < a.len() {
            first_named(a, n, i)
        } else if local_part(c.name) == n {
            a.len() as int
        } else {
            (a.len() + 1) as int
        },
    decreases a.len() - i,
{
    let b = a.push(c);
    if i < a.len() {
        assert(b[i] == a[i]);
        lemma_named_push(a, c, n, i + 1);
        if local_part(a[i].name) == n {
            assert(seq![i] + (all_named(a, n, i + 1) + (if local_part(c.name) == n {
                seq![a.len() as int]
            } else {
                Seq::<int>::empty()
            })) =~= (seq![i] + all_named(a, n, i + 1)) + (if local_part(c.name) == n {
                seq![a.len() as int]
            } else {
                Seq::<int>::empty()
            }));
        }
    } else {
        assert(b[i] == c);
        assert(all_named(b, n, i + 1) == Seq::<int>::empty());
        assert(first_named(b, n, i + 1) == b.len());
        assert(first_named(a, n, i) == a.len());
        assert(Seq::<int>::empty() + (if local_part(c.name) == n {
            seq![a.len() as int]
        } else {
            Seq::<int>::empty()
        }) =~= (if local_part(c.name) == n {
            seq![a.len() as int]
        } else {
            Seq::<int>::empty()
        }));
        assert(seq![i] + Seq::<int>::empty() =~= seq![i]);
    }
}

proof fn lemma_first_named_facts(a: Seq<XmlModel>, n: Seq<char>, i: int)
    requires
        0 <= i <= a.len(),
    ensures
        i <= first_named(a, n, i) <= a.len(),
        first_named(a, n, i) < a.len() ==> local_part(a[first_named(a, n, i)].name) == n,
        forall|j: int| i <= j < first_named(a, n, i) ==> local_part(#[trigger] a[j].name) != n,
        (all_named(a, n, i).len() > 0) == (first_named(a, n, i) < a.len()),
    decreases a.len() - i,
{
    if i < a.len() && local_part(a[i].name) != n {
        lemma_first_named_facts(a, n, i + 1);
    }
}

/// `b` extends `a` keeping its names, and adds no node named `n`: the first
/// node named `n` stays where it was.
proof fn lemma_first_named_extend(a: Seq<XmlModel>, b: Seq<XmlModel>, n: Seq<char>, i: int)
    requires
        0 <= i <= a.len() <= b.len(),
        forall|j: int| 0 <= j < a.len() ==> local_part(#[trigger] b[j].name) == local_part(a[j].name),
        forall|j: int| a.len() <= j < b.len() ==> local_part(#[trigger] b[j].name) != n,
        first_named(a, n, i) < a.len(),
    ensures
        first_named(b, n, i) == first_named(a, n, i),
    decreases a.len() - i,
{
    assert(local_part(b[i].name) == local_part(a[i].name));
    if local_part(a[i].name) != n {
        lemma_first_named_extend(a, b, n, i + 1);
    }
}

/// What a merge edit does to the top-level nodes `kids`: it never fails;
/// for each incoming node that is the last of its local name among those
/// sent, the first node of that name afterwards is that node; every name ends
/// up with as many nodes as before, or one when it had none and some
/// incoming node carries it; the nodes there before keep their names, and
/// those whose names nothing incoming carries stay as they were; the nodes
/// added carry incoming names.
pub proof fn lemma_merge_edit(kids: Seq<XmlModel>, incoming: Seq<XmlModel>)
    ensures
        edit_all(kids, incoming, EditDefaultOp::Merge).1 is None,
        ({
            let kf = edit_all(kids, incoming, EditDefaultOp::Merge).0;
            &&& kids.len() <= kf.len()
            &&& forall|j: int| 0 <= j < kids.len() ==> local_part(#[trigger] kf[j].name) == local_part(kids[j].name)
            &&& forall|j: int| 0 <= j < kids.len() && !has_named(incoming, local_part(kids[j].name)) ==> #[trigger] kf[j]
                == kids[j]
            &&& forall|j: int| kids.len() <= j < kf.len() ==> has_named(incoming, local_part(#[trigger] kf[j].name))
            &&& forall|i: int|
                0 <= i < incoming.len() && (forall|j: int| i < j < incoming.len() ==> local_part(
                    #[trigger] incoming[j].name,
                ) != local_part(incoming[i].name)) ==> ({
                    let q = first_named(kf, local_part(#[trigger] incoming[i].name), 0);
                    q < kf.len() && kf[q] == incoming[i]
                })
            &&& forall|n: Seq<char>| #[trigger] all_named(kf, n, 0).len() == if all_named(kids, n, 0).len() > 0 {
                all_named(kids, n, 0).len()
            } else if has_named(incoming, n) {
                1
            } else {
                0
            }
        }),
    decreases incoming.len(),
{
    if incoming.len() > 0 {
        let c = incoming[0];
        let m = local_part(c.name);
        let rest = incoming.drop_first();
        let p = first_named(kids, m, 0);
        lemma_first_named_facts(kids, m, 0);
        let k2 = if p < kids.len() {
            kids.update(p, c)
        } else {
            kids.push(c)
        };
        assert(edit_all(kids, incoming, EditDefaultOp::Merge) == edit_all(k2, rest, EditDefaultOp::Merge));
        lemma_merge_edit(k2, rest);
        let kf = edit_all(k2, rest, EditDefaultOp::Merge).0;
        assert forall|j: int| 0 <= j < rest.len() implies #[trigger] rest[j] == incoming[j + 1] by {}
        // The names after the first step.
        assert forall|j: int| 0 <= j < kids.len() implies local_part(#[trigger] k2[j].name) == local_part(kids[j].name) by {
            if p < kids.len() && j == p {
            } else if p >= kids.len() {
                assert(k2[j] == kids[j]);
            }
        }
        assert forall|n: Seq<char>| has_named(rest, n) implies has_named(incoming, n) by {
            let j = choose|j: int| 0 <= j < rest.len() && local_part(#[trigger] rest[j].name) == n;
            assert(local_part(incoming[j + 1].name) == n);
        }
        assert(has_named(incoming, m)) by {
            assert(local_part(incoming[0].name) == m);
        }
        assert forall|n: Seq<char>| #[trigger] has_named(incoming, n) && n != m implies has_named(rest, n) by {
            let j = choose|j: int| 0 <= j < incoming.len() && local_part(#[trigger] incoming[j].name) == n;
            assert(j != 0);
            assert(rest[j - 1] == incoming[j]);
        }
        assert forall|j: int| 0 <= j < kids.len() implies local_part(#[trigger] kf[j].name) == local_part(kids[j].name) by {
            assert(local_part(k2[j].name) == local_part(kids[j].name));
        }
        assert forall|j: int| 0 <= j < kids.len() && !has_named(incoming, local_part(kids[j].name)) implies #[trigger] kf[j]
            == kids[j] by {
            assert(local_part(kids[j].name) != m);
            assert(j != p);
            assert(k2[j] == kids[j]);
            assert(!has_named(rest, local_part(k2[j].name)));
        }
        assert forall|j: int| kids.len() <= j < kf.len() implies has_named(incoming, local_part(#[trigger] kf[j].name)) by {
            if j < k2.len() {
                assert(p >= kids.len() && j == kids.len());
                assert(k2[j] == c);
                if !has_named(rest, local_part(kf[j].name)) {
                    assert(kf[j] == k2[j]);
                }
            }
        }
        // Counts.
        assert forall|n: Seq<char>| #[trigger] all_named(kf, n, 0).len() == if all_named(kids, n, 0).len() > 0 {
            all_named(kids, n, 0).len()
        } else if has_named(incoming, n) {
            1
        } else {
            0
        } by {
            if p < kids.len() {
                assert(same_names(kids, k2));
                lemma_named_same(kids, k2, n, 0);
                if n == m {
                    lemma_first_named_facts(kids, n, 0);
                }
            } else {
                lemma_named_push(kids, c, n, 0);
                lemma_first_named_facts(kids, n, 0);
            }
        }
        // The last incoming node of each name.
        assert forall|i: int|
            0 <= i < incoming.len() && (forall|j: int| i < j < incoming.len() ==> local_part(
                #[trigger] incoming[j].name,
            ) != local_part(incoming[i].name)) implies ({
            let q = first_named(kf, local_part(#[trigger] incoming[i].name), 0);
            q < kf.len() && kf[q] == incoming[i]
        }) by {
            if i > 0 {
                assert(rest[i - 1] == incoming[i]);
                assert forall|j: int| i - 1 < j < rest.len() implies local_part(#[trigger] rest[j].name) != local_part(
                    rest[i - 1].name,
                ) by {
                    assert(rest[j] == incoming[j + 1]);
                }
            } else {
                // The first node named `m` after the first step is `c`, and nothing
                // later carries `m`.
                let q = if p < kids.len() {
                    p
                } else {
                    kids.len() as int
                };
                if p < kids.len() {
                    assert(same_names(kids, k2));
                    lemma_named_same(kids, k2, m, 0);
                } else {
                    lemma_named_push(kids, c, m, 0);
                }
                assert(first_named(k2, m, 0) == q);
                assert(k2[q] == c);
                assert(!has_named(rest, m)) by {
                    if has_named(rest, m) {
                        let j = choose|j: int| 0 <= j < rest.len() && local_part(#[trigger] rest[j].name) == m;
                        assert(rest[j] == incoming[j + 1]);
                    }
                }
                assert forall|j: int| 0 <= j < k2.len() implies local_part(#[trigger] kf[j].name) == local_part(
                    k2[j].name,
                ) by {}
                assert forall|j: int| k2.len() <= j < kf.len() implies local_part(#[trigger] kf[j].name) != m by {
                    if local_part(kf[j].name) == m {
                        assert(has_named(rest, m));
                    }
                }
                lemma_first_named_extend(k2, kf, m, 0);
                assert(kf[q] == k2[q]);
            }
        }
    }
}

proof fn lemma_first_named_finds(a: Seq<XmlModel>, n: Seq<char>, i: int, j: int)
    requires
        0 <= i <= j < a.len(),
        local_part(a[j].name) == n,
    ensures
        first_named(a, n, i) <= j,
    decreases j - i,
{
    if local_part(a[i].name) != n {
        lemma_first_named_finds(a, n, i + 1, j);
    }
}

/// Some node of `a` has local name `n` exactly when the first one named `n`
/// is inside `a`.
proof fn lemma_has_named_first(a: Seq<XmlModel>, n: Seq<char>)
    ensures
        has_named(a, n) == (first_named(a, n, 0) < a.len()),
{
    lemma_first_named_facts(a, n, 0);
    if has_named(a, n) {
        let j = choose|j: int| 0 <= j < a.len() && local_part(#[trigger] a[j].name) == n;
        lemma_first_named_finds(a, n, 0, j);
    }
    if first_named(a, n, 0) < a.len() {
        assert(local_part(a[first_named(a, n, 0)].name) == n);
    }
}

/// A create edit succeeds exactly when no incoming node's local name is
/// already among the datastore's nodes or repeated among those sent, and
/// then the incoming nodes are added after the existing ones, in order.
pub proof fn lemma_create_edit(kids: Seq<XmlModel>, incoming: Seq<XmlModel>)
    ensures
        (edit_all(kids, incoming, EditDefaultOp::Create).1 is None) == (forall|i: int|
            0 <= i < incoming.len() ==> !has_named(kids, local_part(#[trigger] incoming[i].name)) && forall|j: int|
                0 <= j < i ==> local_part(#[trigger] incoming[j].name) != local_part(incoming[i].name)),
        edit_all(kids, incoming, EditDefaultOp::Create).1 is None ==> edit_all(
            kids,
            incoming,
            EditDefaultOp::Create,
        ).0 == kids + incoming,
    decreases incoming.len(),
{
    if incoming.len() == 0 {
        assert(kids + incoming =~= kids);
    } else {
        let c = incoming[0];
        let m = local_part(c.name);
        let rest = incoming.drop_first();
        lemma_has_named_first(kids, m);
        assert forall|j: int| 0 <= j < rest.len() implies #[trigger] rest[j] == incoming[j + 1] by {}
        if first_named(kids, m, 0) >= kids.len() {
            let k2 = kids.push(c);
            lemma_create_edit(k2, rest);
            assert(kids + incoming =~= k2 + rest);
            assert forall|n: Seq<char>| #[trigger] has_named(k2, n) == (has_named(kids, n) || n == m) by {
                if has_named(k2, n) {
                    let j = choose|j: int| 0 <= j < k2.len() && local_part(#[trigger] k2[j].name) == n;
                    if j < kids.len() {
                        assert(k2[j] == kids[j]);
                    }
                }
                if has_named(kids, n) {
                    let j = choose|j: int| 0 <= j < kids.len() && local_part(#[trigger] kids[j].name) == n;
                    assert(k2[j] == kids[j]);
                }
                if n == m {
                    assert(k2[kids.len() as int] == c);
                }
            }
            let ok_all = forall|i: int|
                0 <= i < incoming.len() ==> !has_named(kids, local_part(#[trigger] incoming[i].name)) && forall|j: int|
                    0 <= j < i ==> local_part(#[trigger] incoming[j].name) != local_part(incoming[i].name);
            let ok_rest = forall|i: int|
                0 <= i < rest.len() ==> !has_named(k2, local_part(#[trigger] rest[i].name)) && forall|j: int|
                    0 <= j < i ==> local_part(#[trigger] rest[j].name) != local_part(rest[i].name);
            if ok_all {
                assert forall|i: int| 0 <= i < rest.len() implies !has_named(k2, local_part(#[trigger] rest[i].name))
                    && forall|j: int| 0 <= j < i ==> local_part(#[trigger] rest[j].name) != local_part(rest[i].name) by {
                    assert(rest[i] == incoming[i + 1]);
                    assert(local_part(incoming[0].name) != local_part(incoming[i + 1].name));
                    assert forall|j: int| 0 <= j < i implies local_part(#[trigger] rest[j].name) != local_part(rest[i].name) by {
                        assert(rest[j] == incoming[j + 1]);
                    }
                }
            }
            if ok_rest {
                assert forall|i: int| 0 <= i < incoming.len() implies !has_named(kids, local_part(#[trigger] incoming[i].name))
                    && forall|j: int| 0 <= j < i ==> local_part(#[trigger] incoming[j].name) != local_part(incoming[i].name) by {
                    if i > 0 {
                        assert(incoming[i] == rest[i - 1]);
                        assert(!has_named(k2, local_part(rest[i - 1].name)));
                        assert forall|j: int| 0 <= j < i implies local_part(#[trigger] incoming[j].name) != local_part(
                            incoming[i].name,
                        ) by {
                            if j > 0 {
                                assert(incoming[j] == rest[j - 1]);
                            }
                        }
                    }
                }
            }
            if !ok_rest {
                let i = choose|i: int|
                    !(0 <= i < rest.len() ==> !has_named(k2, local_part(#[trigger] rest[i].name)) && forall|j: int|
                        0 <= j < i ==> local_part(#[trigger] rest[j].name) != local_part(rest[i].name));
                assert(incoming[i + 1] == rest[i]);
                if has_named(k2, local_part(rest[i].name)) {
                    if !has_named(kids, local_part(rest[i].name)) {
                        assert(local_part(incoming[0].name) == local_part(incoming[i + 1].name));
                    }
                } else {
                    let j = choose|j: int| 0 <= j < i && local_part(#[trigger] rest[j].name) == local_part(rest[i].name);
                    assert(incoming[j + 1] == rest[j]);
                }
                assert(!ok_all);
            }
        }
    }
}

/// How many nodes of `a` have local name `n`.
pub open spec fn count_named(a: Seq<XmlModel>, n: Seq<char>) -> nat
    decreases a.len(),
{
    if a.len() == 0 {
        0
    } else {
        (if local_part(a[0].name) == n {
            1nat
        } else {
            0nat
        }) + count_named(a.drop_first(), n)
    }
}

proof fn lemma_count_named_has(a: Seq<XmlModel>, n: Seq<char>)
    ensures
        (count_named(a, n) > 0) == has_named(a, n),
    decreases a.len(),
{
    if a.len() > 0 {
        lemma_count_named_has(a.drop_first(), n);
        if has_named(a, n) && local_part(a[0].name) != n {
            let j = choose|j: int| 0 <= j < a.len() && local_part(#[trigger] a[j].name) == n;
            assert(a.drop_first()[j - 1] == a[j]);
        }
        if has_named(a.drop_first(), n) {
            let j = choose|j: int| 0 <= j < a.len() - 1 && local_part(#[trigger] a.drop_first()[j].name) == n;
            assert(a[j + 1] == a.drop_first()[j]);
        }
    }
}

proof fn lemma_count_named_remove(a: Seq<XmlModel>, n: Seq<char>, p: int)
    requires
        0 <= p < a.len(),
    ensures
        count_named(a.remove(p), n) + (if local_part(a[p].name) == n {
            1nat
        } else {
            0nat
        }) == count_named(a, n),
    decreases a.len(),
{
    if p == 0 {
        assert(a.remove(0) =~= a.drop_first());
    } else {
        lemma_count_named_remove(a.drop_first(), n, p - 1);
        assert(a.remove(p)[0] == a[0]);
        assert(a.remove(p).drop_first() =~= a.drop_first().remove(p - 1));
        assert(a.drop_first()[p - 1] == a[p]);
    }
}

/// A delete edit never fails; it removes, for each incoming node, the first
/// node of the same local name if there is one: every name keeps as many
/// nodes as it had less the number of incoming nodes carrying it, and none
/// when more were sent than it had.
pub proof fn lemma_delete_edit(kids: Seq<XmlModel>, incoming: Seq<XmlModel>)
    ensures
        edit_all(kids, incoming, EditDefaultOp::Delete).1 is None,
        edit_all(kids, incoming, EditDefaultOp::Delete).0.len() <= kids.len(),
        forall|n: Seq<char>|
            #[trigger] count_named(edit_all(kids, incoming, EditDefaultOp::Delete).0, n) == if count_named(kids, n)
                >= count_named(incoming, n) {
                count_named(kids, n) - count_named(incoming, n)
            } else {
                0
            },
    decreases incoming.len(),
{
    if incoming.len() > 0 {
        let c = incoming[0];
        let m = local_part(c.name);
        let rest = incoming.drop_first();
        let p = first_named(kids, m, 0);
        lemma_has_named_first(kids, m);
        lemma_count_named_has(kids, m);
        lemma_first_named_facts(kids, m, 0);
        let k2 = if p < kids.len() {
            kids.remove(p)
        } else {
            kids
        };
        lemma_delete_edit(k2, rest);
        assert forall|n: Seq<char>|
            #[trigger] count_named(edit_all(kids, incoming, EditDefaultOp::Delete).0, n) == if count_named(kids, n)
                >= count_named(incoming, n) {
                count_named(kids, n) - count_named(incoming, n)
            } else {
                0
            } by {
            assert(edit_all(kids, incoming, EditDefaultOp::Delete) == edit_all(k2, rest, EditDefaultOp::Delete));
            if p < kids.len() {
                lemma_count_named_remove(kids, n, p);
            }
        }
    }
}

} // verus!
