//! What the message parsers make of the messages' own elements: a request,
//! a `<hello>` and a reply are read back from the elements (and from the
//! document text) they are written as.

use vstd::prelude::*;
use crate::netconf::xml::{
    XmlModel, local_part, last_colon_end, first_named, all_named, find_attr, bare, parse_dec_u32, digits_value, all_digits,
};
use crate::text::{dec_digits, digit_char, trim_ws, trim_end_ws, is_white_space};
use crate::netconf::xml::{spec_root, parse_defined, spec_to_string};
use crate::netconf::xml::round_trip::{well_formed, all_well_formed, name_ok, lemma_to_string_round_trip};
use vstd::utf8::encode_utf8;
use super::{
    DatastoreModel, OperationModel, RpcModel, EditDefaultOp, named, trimmed, text_el, spec_datastore,
    spec_target_element, spec_edit_op, edit_op_text, spec_operation, spec_operation_xml, spec_rpc, spec_rpc_xml,
    required, required_datastore, HelloModel, spec_hello, spec_hello_xml, named_texts, RpcErrorModel, ReplyModel,
    RpcReplyModel, spec_rpc_error, spec_rpc_error_xml, spec_rpc_reply, spec_rpc_reply_xml, opt_text_el, trimmed_or,
    text_of,
};

verus! {

// ---------------------------------------------------------------------------
// Names and texts
// ---------------------------------------------------------------------------

/// `s` holds no `:`.
pub open spec fn colon_free(s: Seq<char>) -> bool {
    forall|i: int| 0 <= i < s.len() ==> s[i] != ':'
}

proof fn lemma_colon_end(s: Seq<char>, i: int)
    requires
        colon_free(s),
        i <= s.len(),
    ensures
        last_colon_end(s, i) == 0,
    decreases i,
{
    if i > 0 {
        lemma_colon_end(s, i - 1);
    }
}

proof fn lemma_local_plain(s: Seq<char>)
    requires
        colon_free(s),
    ensures
        local_part(s) == s,
{
    lemma_colon_end(s, s.len() as int);
    assert(s.subrange(0, s.len() as int) =~= s);
}

proof fn lemma_trimmed_plain(s: Seq<char>)
    requires
        s.len() > 0 ==> !is_white_space(s[0]) && !is_white_space(s.last()),
    ensures
        trimmed(s) == s,
{
}

/// The names the request elements are written with are their own local names.
proof fn lemma_literal_names()
    ensures
        local_part("rpc"@) == "rpc"@,
        local_part("message-id"@) == "message-id"@,
        local_part("get-config"@) == "get-config"@,
        local_part("get"@) == "get"@,
        local_part("edit-config"@) == "edit-config"@,
        local_part("copy-config"@) == "copy-config"@,
        local_part("delete-config"@) == "delete-config"@,
        local_part("lock"@) == "lock"@,
        local_part("unlock"@) == "unlock"@,
        local_part("close-session"@) == "close-session"@,
        local_part("kill-session"@) == "kill-session"@,
        local_part("discard-changes"@) == "discard-changes"@,
        local_part("source"@) == "source"@,
        local_part("target"@) == "target"@,
        local_part("default-operation"@) == "default-operation"@,
        local_part("session-id"@) == "session-id"@,
        local_part("running"@) == "running"@,
        local_part("startup"@) == "startup"@,
        local_part("candidate"@) == "candidate"@,
        local_part("url"@) == "url"@,
{
    reveal_strlit("rpc");
    reveal_strlit("message-id");
    reveal_strlit("get-config");
    reveal_strlit("get");
    reveal_strlit("edit-config");
    reveal_strlit("copy-config");
    reveal_strlit("delete-config");
    reveal_strlit("lock");
    reveal_strlit("unlock");
    reveal_strlit("close-session");
    reveal_strlit("kill-session");
    reveal_strlit("discard-changes");
    reveal_strlit("source");
    reveal_strlit("target");
    reveal_strlit("default-operation");
    reveal_strlit("session-id");
    reveal_strlit("running");
    reveal_strlit("startup");
    reveal_strlit("candidate");
    reveal_strlit("url");
    lemma_local_plain("rpc"@);
    lemma_local_plain("message-id"@);
    lemma_local_plain("get-config"@);
    lemma_local_plain("get"@);
    lemma_local_plain("edit-config"@);
    lemma_local_plain("copy-config"@);
    lemma_local_plain("delete-config"@);
    lemma_local_plain("lock"@);
    lemma_local_plain("unlock"@);
    lemma_local_plain("close-session"@);
    lemma_local_plain("kill-session"@);
    lemma_local_plain("discard-changes"@);
    lemma_local_plain("source"@);
    lemma_local_plain("target"@);
    lemma_local_plain("default-operation"@);
    lemma_local_plain("session-id"@);
    lemma_local_plain("running"@);
    lemma_local_plain("startup"@);
    lemma_local_plain("candidate"@);
    lemma_local_plain("url"@);
}

/// Each default-operation mode is read back from its text.
proof fn lemma_edit_op_text(op: EditDefaultOp)
    ensures
        trimmed(edit_op_text(op)) == edit_op_text(op),
        spec_edit_op(edit_op_text(op)) == op,
{
    reveal_strlit("merge");
    reveal_strlit("replace");
    reveal_strlit("create");
    reveal_strlit("delete");
    reveal_strlit("none");
    lemma_trimmed_plain(edit_op_text(op));
}

proof fn lemma_digit_char(d: nat)
    requires
        d < 10,
    ensures
        digit_char(d) as int == 48 + d,
{
}

/// A number's decimal digits are digits, and stand for the number.
proof fn lemma_dec_digits(v: nat)
    ensures
        dec_digits(v).len() > 0,
        all_digits(dec_digits(v)),
        digits_value(dec_digits(v)) == v,
    decreases v,
{
    if v < 10 {
        lemma_digit_char(v);
        assert(dec_digits(v).drop_last() =~= Seq::<char>::empty());
        assert(digits_value(dec_digits(v)) == digits_value(Seq::<char>::empty()) * 10 + v);
    } else {
        lemma_dec_digits(v / 10);
        lemma_digit_char(v % 10);
        let s = dec_digits(v / 10);
        assert(dec_digits(v).drop_last() =~= s);
        assert(dec_digits(v).last() == digit_char(v % 10));
        assert(digits_value(dec_digits(v)) == digits_value(s) * 10 + (v % 10));
        assert((v / 10) * 10 + v % 10 == v) by (nonlinear_arith);
    }
}

/// A session id is read back from its decimal text.
proof fn lemma_session_id_text(v: u32)
    ensures
        trimmed(dec_digits(v as nat)) == dec_digits(v as nat),
        parse_dec_u32(dec_digits(v as nat)) == Some(v),
{
    let t = dec_digits(v as nat);
    lemma_dec_digits(v as nat);
    assert('0' <= t[0] <= '9');
    assert('0' <= t.last() <= '9');
    lemma_trimmed_plain(t);
}

// ---------------------------------------------------------------------------
// Finding children
// ---------------------------------------------------------------------------

/// The first child named `name` is the one at `j` when none before it is.
proof fn lemma_first_named_is(kids: Seq<XmlModel>, name: Seq<char>, i: int, j: int)
    requires
        0 <= i <= j <= kids.len(),
        forall|k: int| i <= k < j ==> local_part(#[trigger] kids[k].name) != name,
        j < kids.len() ==> local_part(kids[j].name) == name,
    ensures
        first_named(kids, name, i) == j,
    decreases j - i,
{
    if i < j {
        lemma_first_named_is(kids, name, i + 1, j);
    }
}

// ---------------------------------------------------------------------------
// Requests
// ---------------------------------------------------------------------------

/// The datastore a `<source>`/`<target>` element names is the one it was
/// written for.
proof fn lemma_datastore_read_back(d: DatastoreModel, parent: Seq<char>)
    ensures
        spec_datastore(spec_target_element(d, parent)) == Ok::<DatastoreModel, crate::netconf::error::ErrorModel>(d),
{
    lemma_literal_names();
    reveal_strlit("running");
    reveal_strlit("startup");
    reveal_strlit("candidate");
    reveal_strlit("url");
    let el = spec_target_element(d, parent);
    assert(el.children.len() == 1);
}

/// One of the operation names the parser knows.
pub open spec fn standard_op_name(n: Seq<char>) -> bool {
    ||| n == "get-config"@
    ||| n == "get"@
    ||| n == "edit-config"@
    ||| n == "copy-config"@
    ||| n == "delete-config"@
    ||| n == "lock"@
    ||| n == "unlock"@
    ||| n == "close-session"@
    ||| n == "kill-session"@
    ||| n == "discard-changes"@
}

/// An operation whose element the parser reads back as that operation: a
/// `<get>` filter is an element named `filter`, an `<edit-config>`
/// configuration one named `config`, and an operation of no standard kind is
/// an element whose local name names none of the standard operations.
pub open spec fn op_reads_back(op: OperationModel) -> bool {
    match op {
        OperationModel::Get(Some(f)) => local_part(f.name) == "filter"@,
        OperationModel::EditConfig(_, _, c) => local_part(c.name) == "config"@,
        OperationModel::Other(e) => !standard_op_name(local_part(e.name)),
        _ => true,
    }
}

proof fn lemma_op_names_distinct()
    ensures
        "get-config"@ != "get"@,
        "edit-config"@ != "get-config"@ && "edit-config"@ != "get"@,
        "copy-config"@ != "get-config"@ && "copy-config"@ != "get"@ && "copy-config"@ != "edit-config"@,
        "delete-config"@ != "get-config"@ && "delete-config"@ != "get"@ && "delete-config"@ != "edit-config"@
            && "delete-config"@ != "copy-config"@,
        "lock"@ != "get-config"@ && "lock"@ != "get"@ && "lock"@ != "edit-config"@ && "lock"@ != "copy-config"@
            && "lock"@ != "delete-config"@,
        "unlock"@ != "get-config"@ && "unlock"@ != "get"@ && "unlock"@ != "edit-config"@ && "unlock"@
            != "copy-config"@ && "unlock"@ != "delete-config"@ && "unlock"@ != "lock"@,
        "close-session"@ != "get-config"@ && "close-session"@ != "get"@ && "close-session"@ != "edit-config"@
            && "close-session"@ != "copy-config"@ && "close-session"@ != "delete-config"@ && "close-session"@
            != "lock"@ && "close-session"@ != "unlock"@,
        "kill-session"@ != "get-config"@ && "kill-session"@ != "get"@ && "kill-session"@ != "edit-config"@
            && "kill-session"@ != "copy-config"@ && "kill-session"@ != "delete-config"@ && "kill-session"@
            != "lock"@ && "kill-session"@ != "unlock"@ && "kill-session"@ != "close-session"@,
        "discard-changes"@ != "get-config"@ && "discard-changes"@ != "get"@ && "discard-changes"@
            != "edit-config"@ && "discard-changes"@ != "copy-config"@ && "discard-changes"@ != "delete-config"@
            && "discard-changes"@ != "lock"@ && "discard-changes"@ != "unlock"@ && "discard-changes"@
            != "close-session"@ && "discard-changes"@ != "kill-session"@,
        "target"@ != "config"@ && "default-operation"@ != "config"@ && "target"@ != "default-operation"@,
        "target"@ != "source"@,
{
    reveal_strlit("get-config");
    reveal_strlit("get");
    reveal_strlit("edit-config");
    reveal_strlit("copy-config");
    reveal_strlit("delete-config");
    reveal_strlit("lock");
    reveal_strlit("unlock");
    reveal_strlit("close-session");
    reveal_strlit("kill-session");
    reveal_strlit("discard-changes");
    reveal_strlit("target");
    reveal_strlit("config");
    reveal_strlit("default-operation");
    reveal_strlit("source");
    assert("get-config"@.len() == 10);
    assert("get"@.len() == 3);
    assert("edit-config"@.len() == 11);
    assert("copy-config"@.len() == 11);
    assert("delete-config"@.len() == 13);
    assert("lock"@.len() == 4);
    assert("unlock"@.len() == 6);
    assert("close-session"@.len() == 13);
    assert("kill-session"@.len() == 12);
    assert("discard-changes"@.len() == 15);
    assert("target"@.len() == 6);
    assert("config"@.len() == 6);
    assert("default-operation"@.len() == 17);
    assert("source"@.len() == 6);
    assert("target"@[0] != "config"@[0]);
    assert("target"@[0] != "source"@[0]);
    assert("edit-config"@[0] != "copy-config"@[0]);
    assert("delete-config"@[0] != "close-session"@[0]);
}

/// An operation is read back from the element it is written as.
pub proof fn lemma_operation_read_back(op: OperationModel)
    requires
        op_reads_back(op),
    ensures
        spec_operation(spec_operation_xml(op)) == Ok::<OperationModel, crate::netconf::error::ErrorModel>(op),
{
    lemma_literal_names();
    lemma_op_names_distinct();
    let el = spec_operation_xml(op);
    let kids = el.children;
    match op {
        OperationModel::GetConfig(source) => {
            lemma_first_named_is(kids, "source"@, 0, 0);
            lemma_datastore_read_back(source, "source"@);
        },
        OperationModel::Get(filter) => {
            match filter {
                Some(f) => {
                    lemma_first_named_is(kids, "filter"@, 0, 0);
                },
                None => {
                    assert(first_named(kids, "filter"@, 0) == 0);
                },
            }
        },
        OperationModel::EditConfig(target, default_op, config) => {
            lemma_first_named_is(kids, "target"@, 0, 0);
            lemma_first_named_is(kids, "config"@, 0, 2);
            lemma_first_named_is(kids, "default-operation"@, 0, 1);
            lemma_datastore_read_back(target, "target"@);
            lemma_edit_op_text(default_op);
        },
        OperationModel::CopyConfig(target, source) => {
            lemma_first_named_is(kids, "target"@, 0, 0);
            lemma_first_named_is(kids, "source"@, 0, 1);
            lemma_datastore_read_back(target, "target"@);
            lemma_datastore_read_back(source, "source"@);
        },
        OperationModel::DeleteConfig(target) => {
            lemma_first_named_is(kids, "target"@, 0, 0);
            lemma_datastore_read_back(target, "target"@);
        },
        OperationModel::Lock(target) => {
            lemma_first_named_is(kids, "target"@, 0, 0);
            lemma_datastore_read_back(target, "target"@);
        },
        OperationModel::Unlock(target) => {
            lemma_first_named_is(kids, "target"@, 0, 0);
            lemma_datastore_read_back(target, "target"@);
        },
        OperationModel::KillSession(sid) => {
            lemma_first_named_is(kids, "session-id"@, 0, 0);
            lemma_session_id_text(sid);
        },
        _ => {},
    }
}

/// A request is read back from the `<rpc>` element it is written as.
pub proof fn lemma_rpc_read_back(r: RpcModel)
    requires
        op_reads_back(r.operation),
    ensures
        spec_rpc(spec_rpc_xml(r)) == Ok::<RpcModel, crate::netconf::error::ErrorModel>(r),
{
    lemma_literal_names();
    lemma_operation_read_back(r.operation);
    let m = spec_rpc_xml(r);
    assert(find_attr(m.attributes, "message-id"@) == Some(r.message_id));
}

// ---------------------------------------------------------------------------
// Request documents
// ---------------------------------------------------------------------------

proof fn lemma_all_wf_1(a: XmlModel)
    requires
        well_formed(a),
    ensures
        all_well_formed(seq![a]),
{
    assert(seq![a].drop_first() =~= Seq::<XmlModel>::empty());
    assert(all_well_formed(Seq::<XmlModel>::empty()));
    assert(seq![a][0] == a);
}

proof fn lemma_all_wf_2(a: XmlModel, b: XmlModel)
    requires
        well_formed(a),
        well_formed(b),
    ensures
        all_well_formed(seq![a, b]),
{
    lemma_all_wf_1(b);
    assert(seq![a, b].drop_first() =~= seq![b]);
}

proof fn lemma_all_wf_3(a: XmlModel, b: XmlModel, c: XmlModel)
    requires
        well_formed(a),
        well_formed(b),
        well_formed(c),
    ensures
        all_well_formed(seq![a, b, c]),
{
    lemma_all_wf_2(b, c);
    assert(seq![a, b, c].drop_first() =~= seq![b, c]);
}

proof fn lemma_literal_names_ok()
    ensures
        name_ok("rpc"@),
        name_ok("message-id"@),
        name_ok("xmlns"@),
        name_ok("get-config"@),
        name_ok("get"@),
        name_ok("edit-config"@),
        name_ok("copy-config"@),
        name_ok("delete-config"@),
        name_ok("lock"@),
        name_ok("unlock"@),
        name_ok("close-session"@),
        name_ok("kill-session"@),
        name_ok("discard-changes"@),
        name_ok("source"@),
        name_ok("target"@),
        name_ok("default-operation"@),
        name_ok("session-id"@),
        name_ok("running"@),
        name_ok("startup"@),
        name_ok("candidate"@),
        name_ok("url"@),
{
    reveal_strlit("rpc");
    reveal_strlit("message-id");
    reveal_strlit("xmlns");
    reveal_strlit("get-config");
    reveal_strlit("get");
    reveal_strlit("edit-config");
    reveal_strlit("copy-config");
    reveal_strlit("delete-config");
    reveal_strlit("lock");
    reveal_strlit("unlock");
    reveal_strlit("close-session");
    reveal_strlit("kill-session");
    reveal_strlit("discard-changes");
    reveal_strlit("source");
    reveal_strlit("target");
    reveal_strlit("default-operation");
    reveal_strlit("session-id");
    reveal_strlit("running");
    reveal_strlit("startup");
    reveal_strlit("candidate");
    reveal_strlit("url");
}

/// A datastore whose URL, if it names one, has no surrounding whitespace.
pub open spec fn datastore_writable(d: DatastoreModel) -> bool {
    match d {
        DatastoreModel::Url(u) => trimmed(u) == u,
        _ => true,
    }
}

/// An operation whose element the document text carries unchanged: its URLs
/// have no surrounding whitespace and the elements it carries are
/// well-formed.
pub open spec fn op_writable(op: OperationModel) -> bool {
    match op {
        OperationModel::GetConfig(source) => datastore_writable(source),
        OperationModel::Get(filter) => match filter {
            Some(f) => well_formed(f),
            None => true,
        },
        OperationModel::EditConfig(target, _, config) => datastore_writable(target) && well_formed(config),
        OperationModel::CopyConfig(target, source) => datastore_writable(target) && datastore_writable(source),
        OperationModel::DeleteConfig(target) => datastore_writable(target),
        OperationModel::Lock(target) => datastore_writable(target),
        OperationModel::Unlock(target) => datastore_writable(target),
        OperationModel::Other(element) => well_formed(element),
        _ => true,
    }
}

proof fn lemma_bare_wf(name: Seq<char>)
    requires
        name_ok(name),
    ensures
        well_formed(bare(name)),
{
}

proof fn lemma_target_wf(d: DatastoreModel, parent: Seq<char>)
    requires
        datastore_writable(d),
        name_ok(parent),
    ensures
        well_formed(spec_target_element(d, parent)),
{
    lemma_literal_names_ok();
    let inner = spec_target_element(d, parent).children[0];
    assert(well_formed(inner));
    lemma_all_wf_1(inner);
}

proof fn lemma_operation_wf(op: OperationModel)
    requires
        op_writable(op),
    ensures
        well_formed(spec_operation_xml(op)),
{
    lemma_literal_names_ok();
    let kids = spec_operation_xml(op).children;
    match op {
        OperationModel::GetConfig(source) => {
            lemma_target_wf(source, "source"@);
            lemma_all_wf_1(kids[0]);
        },
        OperationModel::Get(filter) => {
            match filter {
                Some(f) => lemma_all_wf_1(f),
                None => {},
            }
        },
        OperationModel::EditConfig(target, default_op, config) => {
            lemma_target_wf(target, "target"@);
            lemma_edit_op_text(default_op);
            assert(well_formed(kids[1]));
            lemma_all_wf_3(kids[0], kids[1], kids[2]);
            assert(kids == seq![kids[0], kids[1], kids[2]]);
        },
        OperationModel::CopyConfig(target, source) => {
            lemma_target_wf(target, "target"@);
            lemma_target_wf(source, "source"@);
            lemma_all_wf_2(kids[0], kids[1]);
            assert(kids == seq![kids[0], kids[1]]);
        },
        OperationModel::DeleteConfig(target) => {
            lemma_target_wf(target, "target"@);
            lemma_all_wf_1(kids[0]);
        },
        OperationModel::Lock(target) => {
            lemma_target_wf(target, "target"@);
            lemma_all_wf_1(kids[0]);
        },
        OperationModel::Unlock(target) => {
            lemma_target_wf(target, "target"@);
            lemma_all_wf_1(kids[0]);
        },
        OperationModel::KillSession(sid) => {
            lemma_session_id_text(sid);
            assert(well_formed(kids[0]));
            lemma_all_wf_1(kids[0]);
        },
        _ => {},
    }
}

/// A request is read back from the document text of its `<rpc>` element.
pub proof fn lemma_rpc_text_round_trip(r: RpcModel)
    requires
        op_reads_back(r.operation),
        op_writable(r.operation),
    ensures
        spec_root(encode_utf8(spec_to_string(spec_rpc_xml(r)))) matches Ok((m, _)) && spec_rpc(m)
            == Ok::<RpcModel, crate::netconf::error::ErrorModel>(r),
        parse_defined(encode_utf8(spec_to_string(spec_rpc_xml(r)))),
{
    lemma_literal_names_ok();
    lemma_operation_wf(r.operation);
    let m = spec_rpc_xml(r);
    lemma_all_wf_1(m.children[0]);
    assert(forall|i: int| 0 <= i < m.attributes.len() ==> name_ok(#[trigger] m.attributes[i].0));
    assert(well_formed(m));
    lemma_to_string_round_trip(m);
    lemma_rpc_read_back(r);
}

// ---------------------------------------------------------------------------
// Capability exchange
// ---------------------------------------------------------------------------

/// When every child from `i` on is named `name`, all of them are found, in order.
proof fn lemma_all_named_every(kids: Seq<XmlModel>, name: Seq<char>, i: int)
    requires
        0 <= i <= kids.len(),
        forall|k: int| i <= k < kids.len() ==> local_part(#[trigger] kids[k].name) == name,
    ensures
        all_named(kids, name, i) == Seq::new((kids.len() - i) as nat, |j: int| i + j),
    decreases kids.len() - i,
{
    if i < kids.len() {
        lemma_all_named_every(kids, name, i + 1);
        assert(all_named(kids, name, i) =~= Seq::new((kids.len() - i) as nat, |j: int| i + j));
    } else {
        assert(all_named(kids, name, i) =~= Seq::new((kids.len() - i) as nat, |j: int| i + j));
    }
}

/// A `<hello>` is read back from the element it is written as.
pub proof fn lemma_hello_read_back(h: HelloModel)
    ensures
        spec_hello(spec_hello_xml(h)) == Ok::<HelloModel, crate::netconf::error::ErrorModel>(h),
{
    reveal_strlit("hello");
    reveal_strlit("capabilities");
    reveal_strlit("capability");
    reveal_strlit("session-id");
    lemma_local_plain("hello"@);
    lemma_local_plain("capabilities"@);
    lemma_local_plain("capability"@);
    lemma_local_plain("session-id"@);
    assert("capabilities"@.len() == 12);
    assert("session-id"@.len() == 10);
    let m = spec_hello_xml(h);
    let caps = m.children[0];
    lemma_first_named_is(m.children, "capabilities"@, 0, 0);
    lemma_all_named_every(caps.children, "capability"@, 0);
    assert(named_texts(caps, "capability"@) =~= h.capabilities);
    match h.session_id {
        Some(sid) => {
            lemma_first_named_is(m.children, "session-id"@, 0, 1);
            lemma_session_id_text(sid);
        },
        None => {
            lemma_first_named_is(m.children, "session-id"@, 0, 1);
        },
    }
}

proof fn lemma_all_wf_every(kids: Seq<XmlModel>)
    requires
        forall|i: int| 0 <= i < kids.len() ==> well_formed(#[trigger] kids[i]),
    ensures
        all_well_formed(kids),
    decreases kids.len(),
{
    if kids.len() > 0 {
        let rest = kids.drop_first();
        assert forall|i: int| 0 <= i < rest.len() implies well_formed(#[trigger] rest[i]) by {
            assert(rest[i] == kids[i + 1]);
        }
        lemma_all_wf_every(rest);
        assert(well_formed(kids[0]));
    }
}

/// Capabilities the document text carries unchanged: none has surrounding
/// whitespace.
pub open spec fn capabilities_writable(caps: Seq<Seq<char>>) -> bool {
    forall|i: int| 0 <= i < caps.len() ==> trimmed(#[trigger] caps[i]) == caps[i]
}

/// A `<hello>` is read back from its document text.
pub proof fn lemma_hello_text_round_trip(h: HelloModel)
    requires
        capabilities_writable(h.capabilities),
    ensures
        spec_root(encode_utf8(spec_to_string(spec_hello_xml(h)))) matches Ok((m, _)) && spec_hello(m)
            == Ok::<HelloModel, crate::netconf::error::ErrorModel>(h),
        parse_defined(encode_utf8(spec_to_string(spec_hello_xml(h)))),
{
    reveal_strlit("hello");
    reveal_strlit("capabilities");
    reveal_strlit("capability");
    reveal_strlit("session-id");
    reveal_strlit("xmlns");
    let m = spec_hello_xml(h);
    let caps = m.children[0];
    assert forall|i: int| 0 <= i < caps.children.len() implies well_formed(#[trigger] caps.children[i]) by {
        assert(caps.children[i] == text_el("capability"@, h.capabilities[i]));
        assert(trimmed(h.capabilities[i]) == h.capabilities[i]);
    }
    lemma_all_wf_every(caps.children);
    assert(well_formed(caps));
    match h.session_id {
        Some(sid) => {
            lemma_session_id_text(sid);
            assert(well_formed(m.children[1]));
            lemma_all_wf_2(caps, m.children[1]);
            assert(m.children == seq![caps, m.children[1]]);
        },
        None => {
            lemma_all_wf_1(caps);
            assert(m.children == seq![caps]);
        },
    }
    assert(forall|i: int| 0 <= i < m.attributes.len() ==> name_ok(#[trigger] m.attributes[i].0));
    assert(well_formed(m));
    lemma_to_string_round_trip(m);
    lemma_hello_read_back(h);
}

// ---------------------------------------------------------------------------
// Replies
// ---------------------------------------------------------------------------

proof fn lemma_reply_names()
    ensures
        local_part("rpc-reply"@) == "rpc-reply"@,
        local_part("ok"@) == "ok"@,
        local_part("rpc-error"@) == "rpc-error"@,
        local_part("error-type"@) == "error-type"@,
        local_part("error-tag"@) == "error-tag"@,
        local_part("error-severity"@) == "error-severity"@,
        local_part("error-message"@) == "error-message"@,
        local_part("error-app-tag"@) == "error-app-tag"@,
        local_part("error-path"@) == "error-path"@,
        "ok"@.len() == 2,
        "data"@.len() == 4,
        "rpc-error"@.len() == 9,
        "error-type"@.len() == 10,
        "error-tag"@.len() == 9,
        "error-severity"@.len() == 14,
        "error-message"@.len() == 13,
        "error-app-tag"@.len() == 13,
        "error-path"@.len() == 10,
        "error-info"@.len() == 10,
        "error-message"@[6] != "error-app-tag"@[6],
        "error-type"@[6] != "error-path"@[6],
        "error-type"@[6] != "error-info"@[6],
        "error-path"@[6] != "error-info"@[6],
        "rpc-error"@[0] != "error-tag"@[0],
{
    reveal_strlit("rpc-reply");
    reveal_strlit("ok");
    reveal_strlit("data");
    reveal_strlit("rpc-error");
    reveal_strlit("error-type");
    reveal_strlit("error-tag");
    reveal_strlit("error-severity");
    reveal_strlit("error-message");
    reveal_strlit("error-app-tag");
    reveal_strlit("error-path");
    reveal_strlit("error-info");
    lemma_local_plain("rpc-reply"@);
    lemma_local_plain("ok"@);
    lemma_local_plain("rpc-error"@);
    lemma_local_plain("error-type"@);
    lemma_local_plain("error-tag"@);
    lemma_local_plain("error-severity"@);
    lemma_local_plain("error-message"@);
    lemma_local_plain("error-app-tag"@);
    lemma_local_plain("error-path"@);
}

/// The number of children an optional part adds.
pub open spec fn opt_count<T>(o: Option<T>) -> int {
    match o {
        Some(_) => 1,
        None => 0,
    }
}

/// An error whose `<rpc-error>` element the parser reads back as that error:
/// its type, tag and severity have no surrounding whitespace, and its
/// `error-info` element, if any, is named `error-info`.
pub open spec fn error_reads_back(e: RpcErrorModel) -> bool {
    &&& trimmed(e.error_type) == e.error_type
    &&& trimmed(e.error_tag) == e.error_tag
    &&& trimmed(e.error_severity) == e.error_severity
    &&& (e.error_info matches Some(i) ==> local_part(i.name) == "error-info"@)
}

/// An error is read back from the `<rpc-error>` element it is written as.
pub proof fn lemma_rpc_error_read_back(e: RpcErrorModel)
    requires
        error_reads_back(e),
    ensures
        spec_rpc_error(spec_rpc_error_xml(e)) == e,
{
    lemma_reply_names();
    let el = spec_rpc_error_xml(e);
    let kids = el.children;
    let pm = 3 + opt_count(e.error_message);
    let pa = pm + opt_count(e.error_app_tag);
    let pp = pa + opt_count(e.error_path);
    let len = pp + opt_count(e.error_info);
    assert(kids.len() == len);
    assert(local_part(kids[0].name) == "error-type"@);
    assert(local_part(kids[1].name) == "error-tag"@);
    assert(local_part(kids[2].name) == "error-severity"@);
    assert(e.error_message is Some ==> local_part(kids[3].name) == "error-message"@);
    assert(e.error_app_tag is Some ==> local_part(kids[pm].name) == "error-app-tag"@);
    assert(e.error_path is Some ==> local_part(kids[pa].name) == "error-path"@);
    assert(e.error_info is Some ==> local_part(kids[pp].name) == "error-info"@);
    assert forall|k: int| 3 <= k < pm implies local_part(#[trigger] kids[k].name) == "error-message"@ by {}
    assert forall|k: int| pm <= k < pa implies local_part(#[trigger] kids[k].name) == "error-app-tag"@ by {}
    assert forall|k: int| pa <= k < pp implies local_part(#[trigger] kids[k].name) == "error-path"@ by {}
    assert forall|k: int| pp <= k < len implies local_part(#[trigger] kids[k].name) == "error-info"@ by {}
    lemma_first_named_is(kids, "error-type"@, 0, 0);
    lemma_first_named_is(kids, "error-tag"@, 0, 1);
    lemma_first_named_is(kids, "error-severity"@, 0, 2);
    lemma_first_named_is(kids, "error-message"@, 0, if pm > 3 { 3 } else { len });
    lemma_first_named_is(kids, "error-app-tag"@, 0, if pa > pm { pm } else { len });
    lemma_first_named_is(kids, "error-path"@, 0, if pp > pa { pa } else { len });
    lemma_first_named_is(kids, "error-info"@, 0, if len > pp { pp } else { len });
}

/// A reply whose `<rpc-reply>` element the parser reads back as that reply:
/// data is carried in an element named `data`, and an error reads back.
pub open spec fn reply_reads_back(r: RpcReplyModel) -> bool {
    match r.result {
        ReplyModel::Okay => true,
        ReplyModel::Data(d) => local_part(d.name) == "data"@,
        ReplyModel::Error(e) => error_reads_back(e),
    }
}

/// A reply is read back from the `<rpc-reply>` element it is written as.
pub proof fn lemma_rpc_reply_read_back(r: RpcReplyModel)
    requires
        reply_reads_back(r),
    ensures
        spec_rpc_reply(spec_rpc_reply_xml(r)) == Ok::<RpcReplyModel, crate::netconf::error::ErrorModel>(r),
{
    lemma_reply_names();
    lemma_literal_names();
    let m = spec_rpc_reply_xml(r);
    assert(find_attr(m.attributes, "message-id"@) == Some(r.message_id));
    match r.result {
        ReplyModel::Okay => {
            lemma_first_named_is(m.children, "ok"@, 0, 0);
        },
        ReplyModel::Data(d) => {
            lemma_first_named_is(m.children, "ok"@, 0, 1);
            lemma_first_named_is(m.children, "data"@, 0, 0);
        },
        ReplyModel::Error(e) => {
            lemma_first_named_is(m.children, "ok"@, 0, 1);
            lemma_first_named_is(m.children, "data"@, 0, 1);
            lemma_first_named_is(m.children, "rpc-error"@, 0, 0);
            lemma_rpc_error_read_back(e);
        },
    }
}

/// An error whose element the document text carries unchanged: its texts
/// have no surrounding whitespace and its `error-info` is well-formed.
pub open spec fn error_writable(e: RpcErrorModel) -> bool {
    &&& (e.error_message matches Some(t) ==> trimmed(t) == t)
    &&& (e.error_app_tag matches Some(t) ==> trimmed(t) == t)
    &&& (e.error_path matches Some(t) ==> trimmed(t) == t)
    &&& (e.error_info matches Some(i) ==> well_formed(i))
}

/// A reply whose element the document text carries unchanged.
pub open spec fn reply_writable(r: RpcReplyModel) -> bool {
    match r.result {
        ReplyModel::Okay => true,
        ReplyModel::Data(d) => well_formed(d),
        ReplyModel::Error(e) => error_writable(e),
    }
}

proof fn lemma_error_wf(e: RpcErrorModel)
    requires
        error_reads_back(e),
        error_writable(e),
    ensures
        well_formed(spec_rpc_error_xml(e)),
{
    reveal_strlit("rpc-error");
    reveal_strlit("error-type");
    reveal_strlit("error-tag");
    reveal_strlit("error-severity");
    reveal_strlit("error-message");
    reveal_strlit("error-app-tag");
    reveal_strlit("error-path");
    let el = spec_rpc_error_xml(e);
    let kids = el.children;
    assert forall|k: int| 0 <= k < kids.len() implies well_formed(#[trigger] kids[k]) by {}
    lemma_all_wf_every(kids);
}

/// A reply is read back from its document text.
pub proof fn lemma_rpc_reply_text_round_trip(r: RpcReplyModel)
    requires
        reply_reads_back(r),
        reply_writable(r),
    ensures
        spec_root(encode_utf8(spec_to_string(spec_rpc_reply_xml(r)))) matches Ok((m, _)) && spec_rpc_reply(m)
            == Ok::<RpcReplyModel, crate::netconf::error::ErrorModel>(r),
        parse_defined(encode_utf8(spec_to_string(spec_rpc_reply_xml(r)))),
{
    reveal_strlit("rpc-reply");
    reveal_strlit("message-id");
    reveal_strlit("xmlns");
    reveal_strlit("ok");
    let m = spec_rpc_reply_xml(r);
    match r.result {
        ReplyModel::Error(e) => lemma_error_wf(e),
        _ => {},
    }
    assert(well_formed(m.children[0]));
    lemma_all_wf_1(m.children[0]);
    assert(forall|i: int| 0 <= i < m.attributes.len() ==> name_ok(#[trigger] m.attributes[i].0));
    assert(well_formed(m));
    lemma_to_string_round_trip(m);
    lemma_rpc_reply_read_back(r);
}

} // verus!
