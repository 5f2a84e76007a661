//! The RFC 4511 LDAP session: decodes request messages, dispatches them to the
//! [`DirectoryBackend`], and produces the response messages. It works on
//! bytes, so it can be driven by any transport.

use vstd::prelude::*;
use crate::text::utf8;
use crate::ldap::backend::{DirectoryBackend, Entry};
use crate::ldap::ber::{BerError, spec_elem_end};
use crate::ldap::error::BackendError;
use crate::ldap::protocol::{
    AuthChoice, BindRequest, LdapRequest, LdapResponse, LdapResult, RequestOp, ResponseOp, ResultCode, SearchRequest, SearchResultEntry,
};
use crate::ldap::protocol::decode::{decode_request, request_check, request_is};
use crate::ldap::ber::{spec_elem_at, BerElement, lemma_elem_end_progress};
use crate::ldap::protocol::encode::{
    app_seq, enum_el, int_el, os_str, pa_bytes, pas_inner, response_bytes, seq_el, values_inner,
};
use crate::ldap::protocol::eval::{
    check_filter_evaluable, entry_to_result, filter_evaluable, filter_holds, filter_matches, result_attr_of,
    same_values, scope_match, selected_attrs, spec_scope_match,
};

verus! {

/// Maximum bytes accumulated while reading a single in-flight LDAP message.
pub const MAX_MESSAGE_BYTES: usize = 16777216;

// ---------------------------------------------------------------------------
// Response layouts
// ---------------------------------------------------------------------------

/// The application tag of the response to an operation; `None` for the
/// operations that are never answered (unbind, abandon).
pub open spec fn result_tag(op: RequestOp) -> Option<u32> {
    match op {
        RequestOp::Bind(_) => Some(1),
        RequestOp::Search(_) => Some(5),
        RequestOp::Compare(_) => Some(15),
        RequestOp::Add(_) => Some(9),
        RequestOp::Delete(_) => Some(11),
        RequestOp::Modify(_) => Some(7),
        RequestOp::ModifyDn(_) => Some(13),
        RequestOp::Extended(_) => Some(24),
        RequestOp::Unbind => None,
        RequestOp::Abandon(_) => None,
    }
}

/// The components of an `LDAPResult` with empty `matchedDN`: a success
/// carries no diagnostic, any other code carries `diag`.
pub open spec fn result_fields(code: ResultCode, diag: Seq<char>) -> Seq<u8> {
    enum_el(code.spec_value() as int) + os_str(Seq::empty()) + os_str(
        if code == ResultCode::Success {
            Seq::empty()
        } else {
            diag
        },
    )
}

/// The response message answering `op` with `code` and `diag` (nothing for
/// operations that are never answered).
pub open spec fn respond_bytes(op: RequestOp, id: i32, code: ResultCode, diag: Seq<char>) -> Seq<u8> {
    match result_tag(op) {
        Some(t) => seq_el(int_el(id as int) + app_seq(t, result_fields(code, diag))),
        None => Seq::empty(),
    }
}

/// The response for a backend outcome: the code with no diagnostic on
/// success, the error code with `diag` otherwise.
pub open spec fn emit_bytes(op: RequestOp, id: i32, result: Result<ResultCode, ResultCode>, diag: Seq<char>) -> Seq<
    u8,
> {
    match result {
        Ok(c) => respond_bytes(op, id, c, Seq::empty()),
        Err(c) => respond_bytes(op, id, c, diag),
    }
}

/// The result code for a yes/no backend answer.
pub open spec fn bool_code(r: Result<bool, BackendError>, yes: ResultCode, no: ResultCode) -> Result<
    ResultCode,
    ResultCode,
> {
    match r {
        Ok(true) => Ok(yes),
        Ok(false) => Ok(no),
        Err(e) => Err(ResultCode::spec_from_backend_error(e)),
    }
}

/// The result code for a backend update.
pub open spec fn unit_code(r: Result<(), BackendError>) -> Result<ResultCode, ResultCode> {
    match r {
        Ok(()) => Ok(ResultCode::Success),
        Err(e) => Err(ResultCode::spec_from_backend_error(e)),
    }
}

/// The attributes of a search result, concatenated: each selected attribute
/// with its values, or with none when only types are asked for.
pub open spec fn result_attrs_bytes(attrs: Seq<crate::ldap::backend::Attribute>, types_only: bool) -> Seq<u8>
    decreases attrs.len(),
{
    if attrs.len() == 0 {
        Seq::empty()
    } else {
        result_attrs_bytes(attrs.drop_last(), types_only) + pa_bytes(
            attrs.last().name@,
            if types_only {
                Seq::empty()
            } else {
                attrs.last().values@
            },
        )
    }
}

/// The `SearchResultEntry` message for an entry.
pub open spec fn entry_msg(id: i32, e: Entry, types_only: bool, sel: Seq<String>) -> Seq<u8> {
    seq_el(
        int_el(id as int) + app_seq(
            4,
            os_str(e.dn@) + seq_el(result_attrs_bytes(selected_attrs(e.attributes@, sel), types_only)),
        ),
    )
}

/// The entry is returned by the search: it lies in scope and matches the
/// filter.
pub open spec fn in_search(req: SearchRequest, e: Entry) -> bool {
    spec_scope_match(req.scope, req.base@, e.dn@) && filter_holds(req.filter, e)
}

/// Scanning the entries in order: the messages sent, the number of entries
/// returned, and whether the size limit stopped the scan.
pub open spec fn search_scan(id: i32, req: SearchRequest, es: Seq<Entry>) -> (Seq<u8>, int, bool)
    decreases es.len(),
{
    if es.len() == 0 {
        (Seq::empty(), 0, false)
    } else {
        let (out, n, hit) = search_scan(id, req, es.drop_last());
        let e = es.last();
        if hit || !in_search(req, e) {
            (out, n, hit)
        } else if req.size_limit > 0 && n >= req.size_limit {
            (out, n, true)
        } else {
            (out + entry_msg(id, e, req.types_only, req.attributes@), n + 1, false)
        }
    }
}

/// The reply to a search over the backend's entries (or its failure).
pub open spec fn search_reply(id: i32, req: SearchRequest, r: Result<Vec<Entry>, BackendError>) -> Seq<u8> {
    match r {
        Err(e) => respond_bytes(
            RequestOp::Search(req),
            id,
            ResultCode::spec_from_backend_error(e),
            "search failed"@,
        ),
        Ok(es) => {
            let (out, _, hit) = search_scan(id, req, es@);
            out + if hit {
                respond_bytes(RequestOp::Search(req), id, ResultCode::SizeLimitExceeded, "size limit exceeded"@)
            } else {
                respond_bytes(RequestOp::Search(req), id, ResultCode::Success, Seq::empty())
            }
        },
    }
}

/// Some control of the request is marked critical.
pub open spec fn has_critical(req: LdapRequest) -> bool {
    exists|i: int| 0 <= i < req.controls@.len() && (#[trigger] req.controls@[i]).criticality
}

/// The search filter of the request, if any, can be evaluated.
pub open spec fn request_evaluable(req: LdapRequest) -> bool {
    req.op matches RequestOp::Search(s) ==> filter_evaluable(s.filter)
}

// ---------------------------------------------------------------------------
// Response builders
// ---------------------------------------------------------------------------

proof fn lemma_values_inner_same(a: Seq<Vec<u8>>, b: Seq<Vec<u8>>)
    requires
        same_values(a, b),
    ensures
        values_inner(a) == values_inner(b),
    decreases a.len(),
{
    if a.len() > 0 {
        lemma_values_inner_same(a.drop_last(), b.drop_last());
    }
}

proof fn lemma_result_attrs(
    ps: Seq<crate::ldap::protocol::PartialAttribute>,
    attrs: Seq<crate::ldap::backend::Attribute>,
    types_only: bool,
)
    requires
        ps.len() == attrs.len(),
        forall|i: int| 0 <= i < ps.len() ==> #[trigger] result_attr_of(ps[i], attrs[i], types_only),
    ensures
        pas_inner(ps) == result_attrs_bytes(attrs, types_only),
    decreases ps.len(),
{
    if ps.len() > 0 {
        let n = ps.len() - 1;
        assert(result_attr_of(ps[n], attrs[n], types_only));
        lemma_result_attrs(ps.drop_last(), attrs.drop_last(), types_only);
        if types_only {
            assert(values_inner(ps.last().values@) == values_inner(Seq::<Vec<u8>>::empty()));
        } else {
            lemma_values_inner_same(ps.last().values@, attrs.last().values@);
        }
    }
}

/// Emit a single result response (with the correct application tag for the
/// originating operation) carrying `code` and `diag`.
pub fn respond(op: &RequestOp, id: i32, code: ResultCode, diag: &str) -> (out: Vec<u8>)
    ensures
        out@ == respond_bytes(*op, id, code, diag@),
{
    let result = if code == ResultCode::Success {
        LdapResult::success()
    } else {
        LdapResult::error(code, diag)
    };
    let response_op = match op {
        RequestOp::Bind(_) => ResponseOp::Bind(result),
        RequestOp::Search(_) => ResponseOp::SearchResultDone(result),
        RequestOp::Compare(_) => ResponseOp::Compare(result),
        RequestOp::Add(_) => ResponseOp::Add(result),
        RequestOp::Delete(_) => ResponseOp::Delete(result),
        RequestOp::Modify(_) => ResponseOp::Modify(result),
        RequestOp::ModifyDn(_) => ResponseOp::ModifyDn(result),
        RequestOp::Extended(_) => ResponseOp::Extended(result),
        RequestOp::Unbind | RequestOp::Abandon(_) => {
            // These operations never produce a response.
            return Vec::new();
        },
    };
    let resp = LdapResponse { id, op: response_op, controls: Vec::new() };
    let out = resp.encode();
    assert(out@ =~= respond_bytes(*op, id, code, diag@));
    out
}

/// Emit a result response for `op`, mapping `Ok`/`Err` result codes.
pub fn emit(op: &RequestOp, id: i32, result: Result<ResultCode, ResultCode>, diag: &str) -> (out: Vec<u8>)
    ensures
        out@ == emit_bytes(*op, id, result, diag@),
{
    match result {
        Ok(code) => {
            let out = respond(op, id, code, "");
            proof {
                reveal_strlit("");
            }
            out
        },
        Err(code) => respond(op, id, code, diag),
    }
}

fn bool_result(r: Result<bool, BackendError>, yes: ResultCode, no: ResultCode) -> (c: Result<ResultCode, ResultCode>)
    ensures
        c == bool_code(r, yes, no),
{
    match r {
        Ok(true) => Ok(yes),
        Ok(false) => Ok(no),
        Err(e) => Err(ResultCode::from_backend_error(&e)),
    }
}

fn unit_result(r: Result<(), BackendError>) -> (c: Result<ResultCode, ResultCode>)
    ensures
        c == unit_code(r),
{
    match r {
        Ok(()) => Ok(ResultCode::Success),
        Err(e) => Err(ResultCode::from_backend_error(&e)),
    }
}

proof fn lemma_scan_stops(id: i32, req: SearchRequest, es: Seq<Entry>, i: int)
    requires
        0 <= i <= es.len(),
        search_scan(id, req, es.subrange(0, i)).2,
    ensures
        search_scan(id, req, es) == search_scan(id, req, es.subrange(0, i)),
    decreases es.len() - i,
{
    if i < es.len() {
        assert(es.subrange(0, i + 1).drop_last() =~= es.subrange(0, i));
        lemma_scan_stops(id, req, es, i + 1);
    } else {
        assert(es.subrange(0, i) =~= es);
    }
}

fn search_done(id: i32, code: ResultCode, diag: &str) -> (out: Vec<u8>)
    ensures
        out@ == seq_el(int_el(id as int) + app_seq(5, result_fields(code, diag@))),
{
    let result = if code == ResultCode::Success {
        LdapResult::success()
    } else {
        LdapResult::error(code, diag)
    };
    let resp = LdapResponse { id, op: ResponseOp::SearchResultDone(result), controls: Vec::new() };
    let out = resp.encode();
    assert(out@ =~= seq_el(int_el(id as int) + app_seq(5, result_fields(code, diag@))));
    out
}

fn entry_message(id: i32, entry: &Entry, types_only: bool, sel: &Vec<String>) -> (out: Vec<u8>)
    ensures
        out@ == entry_msg(id, *entry, types_only, sel@),
{
    let result = entry_to_result(entry, types_only, sel.as_slice());
    let resp = LdapResponse { id, op: ResponseOp::SearchResultEntry(result), controls: Vec::new() };
    let bytes = resp.encode();
    proof {
        lemma_result_attrs(result.attributes@, selected_attrs(entry.attributes@, sel@), types_only);
        assert(bytes@ =~= entry_msg(id, *entry, types_only, sel@));
    }
    bytes
}

fn entry_in_search(req: &SearchRequest, entry: &Entry) -> (r: bool)
    requires
        filter_evaluable(req.filter),
    ensures
        r == in_search(*req, *entry),
{
    scope_match(req.scope, req.base.as_str(), entry.dn.as_str()) && filter_matches(&req.filter, entry)
}

/// The messages answering a search over `entries`: one `SearchResultEntry`
/// per entry in scope that matches the filter, in order, up to the size
/// limit, then the `SearchResultDone`.
pub fn search_response(id: i32, req: &SearchRequest, entries: &Vec<Entry>) -> (out: Vec<u8>)
    requires
        filter_evaluable(req.filter),
    ensures
        out@ == search_reply(id, *req, Ok::<Vec<Entry>, BackendError>(*entries)),
{
    let mut out: Vec<u8> = Vec::new();
    let mut returned: i32 = 0;
    let mut hit = false;
    let mut i: usize = 0;
    while i < entries.len() && !hit
        invariant
            i <= entries@.len(),
            filter_evaluable(req.filter),
            search_scan(id, *req, entries@.subrange(0, i as int)).0 == out@,
            search_scan(id, *req, entries@.subrange(0, i as int)).2 == hit,
            req.size_limit > 0 ==> search_scan(id, *req, entries@.subrange(0, i as int)).1 == returned as int,
            0 <= returned,
            req.size_limit > 0 ==> returned <= req.size_limit,
        decreases entries.len() - i,
    {
        let entry = &entries[i];
        proof {
            assert(entries@.subrange(0, i + 1).drop_last() =~= entries@.subrange(0, i as int));
        }
        if entry_in_search(req, entry) {
            if req.size_limit > 0 && returned >= req.size_limit {
                hit = true;
            } else {
                let bytes = entry_message(id, entry, req.types_only, &req.attributes);
                out.extend_from_slice(bytes.as_slice());
                if req.size_limit > 0 {
                    returned = returned + 1;
                }
            }
        }
        i = i + 1;
    }
    proof {
        if hit {
            lemma_scan_stops(id, *req, entries@, i as int);
        } else {
            assert(entries@.subrange(0, i as int) =~= entries@);
        }
    }
    let done = if hit {
        search_done(id, ResultCode::SizeLimitExceeded, "size limit exceeded")
    } else {
        search_done(id, ResultCode::Success, "")
    };
    out.extend_from_slice(done.as_slice());
    out
}


// ---------------------------------------------------------------------------
// The session
// ---------------------------------------------------------------------------

/// What the backend `pre` answers a bind request `b` with.
pub open spec fn bind_answer<B: DirectoryBackend>(pre: B, b: BindRequest, r: Result<bool, BackendError>) -> bool {
    match b.auth {
        AuthChoice::Simple(pw) => pre.bind_simple_post(b.name@, pw@, r),
        AuthChoice::Sasl(sasl) => pre.bind_sasl_post(b.name@, sasl, r),
    }
}

/// The reply `out` to `req`, whether the session then closes, and the
/// backend after it (`post`, from `pre`): each request the backend serves is
/// handed to the backend method for it, with the request's arguments, and
/// its answer `r` is turned into the reply; reads leave the backend as it
/// was.
pub open spec fn handle_reply<B: DirectoryBackend>(pre: B, post: B, req: LdapRequest, out: Seq<u8>, close: bool) -> bool {
    let op = req.op;
    let id = req.id;
    if has_critical(req) {
        post == pre && out == respond_bytes(op, id, ResultCode::UnavailableCriticalExtension, "unsupported critical control"@)
            && !close
    } else {
        match op {
            RequestOp::Unbind => post == pre && out.len() == 0 && close,
            RequestOp::Abandon(_) => post == pre && out.len() == 0 && !close,
            RequestOp::Extended(_) => post == pre && out == respond_bytes(
                op,
                id,
                ResultCode::UnwillingToPerform,
                "no extended operations implemented"@,
            ) && !close,
            RequestOp::Bind(b) => post == pre && !close && if b.version < 2 {
                out == respond_bytes(op, id, ResultCode::ProtocolError, "unsupported LDAP version"@)
            } else {
                exists|r: Result<bool, BackendError>|
                    #[trigger] bind_answer(pre, b, r) && out == emit_bytes(
                        op,
                        id,
                        bool_code(r, ResultCode::Success, ResultCode::InvalidCredentials),
                        "bind failed"@,
                    )
            },
            RequestOp::Search(s) => post == pre && !close && exists|r: Result<Vec<Entry>, BackendError>|
                #[trigger] pre.entries_post(r) && out == search_reply(id, s, r),
            RequestOp::Compare(c) => post == pre && !close && exists|r: Result<bool, BackendError>|
                #[trigger] pre.compare_post(c.entry@, c.ava.attribute_desc@, c.ava.assertion_value@, r) && out
                    == emit_bytes(op, id, bool_code(r, ResultCode::CompareTrue, ResultCode::CompareFalse), "compare failed"@),
            RequestOp::Add(a) => !close && exists|r: Result<(), BackendError>|
                #[trigger] B::add_post(pre, a.entry, post, r) && out == emit_bytes(op, id, unit_code(r), "add failed"@),
            RequestOp::Delete(dn) => !close && exists|r: Result<(), BackendError>|
                #[trigger] B::delete_post(pre, dn@, post, r) && out == emit_bytes(op, id, unit_code(r), "delete failed"@),
            RequestOp::Modify(m) => !close && exists|r: Result<(), BackendError>|
                #[trigger] B::modify_post(pre, m.object@, m.changes@, post, r) && out == emit_bytes(
                    op,
                    id,
                    unit_code(r),
                    "modify failed"@,
                ),
            RequestOp::ModifyDn(d) => !close && exists|r: Result<(), BackendError>|
                #[trigger] B::modify_dn_post(pre, d, post, r) && out == emit_bytes(op, id, unit_code(r), "modify DN failed"@),
        }
    }
}

/// `out` and `close` are the outcome of handling the request message that
/// spans the first `n` octets of `buf`.
#[verifier::opaque]
pub open spec fn step_reply<B: DirectoryBackend>(buf: Seq<u8>, pre: B, post: B, out: Seq<u8>, n: int, close: bool) -> bool {
    &&& spec_elem_end(buf, 0) == Ok::<int, BerError>(n)
    &&& exists|e: BerElement, req: LdapRequest|
        #![trigger spec_elem_at(buf, 0, e), request_is(e, req)]
        spec_elem_at(buf, 0, e) && request_check(e) is Ok && request_is(e, req) && request_evaluable(req)
            && handle_reply(pre, post, req, out, close)
}

/// The message at the start of `buf` stops the session with `f`.
#[verifier::opaque]
pub open spec fn step_fail(buf: Seq<u8>, f: SessionError) -> bool {
    match f {
        SessionError::Decode(k) => k != BerError::Truncated && match spec_elem_end(buf, 0) {
            Err(k2) => k == k2,
            Ok(_) => exists|e: BerElement| #[trigger]
                spec_elem_at(buf, 0, e) && request_check(e) == Err::<(), BerError>(k),
        },
        SessionError::Unevaluable => spec_elem_end(buf, 0) is Ok && exists|e: BerElement, req: LdapRequest|
            #![trigger spec_elem_at(buf, 0, e), request_is(e, req)]
            spec_elem_at(buf, 0, e) && request_check(e) is Ok && request_is(e, req) && !request_evaluable(req),
        _ => false,
    }
}

/// Why a session stops before the end of its input.
#[derive(Debug, Clone, Copy, PartialEq, Eq, Structural)]
pub enum SessionError {
    /// The input ends inside a message.
    Truncated,
    /// A partial message grew beyond [`MAX_MESSAGE_BYTES`].
    TooLarge,
    /// A message is not a valid LDAP request.
    Decode(BerError),
    /// A search filter holds an empty `any` substring component, which cannot
    /// be evaluated.
    Unevaluable,
}

/// The outcome of one step of a session over buffered input.
pub enum Step {
    /// A request was handled: its reply, the octets it spanned, and whether
    /// the session closes.
    Reply(Vec<u8>, usize, bool),
    /// The buffer holds only part of a message.
    NeedMore,
    /// The session cannot go on.
    Fail(SessionError),
}

/// An LDAP session for a single connection.
pub struct Session<B: DirectoryBackend> {
    backend: B,
}

impl<B: DirectoryBackend> Session<B> {
    /// The backend the session serves from.
    pub closed spec fn spec_backend(&self) -> B {
        self.backend
    }

    /// Create a new session bound to `backend`.
    pub fn new(backend: B) -> (s: Self)
        ensures
            s.spec_backend() == backend,
    {
        Session { backend }
    }

    /// The backend the session serves from.
    pub fn backend(&self) -> (b: &B)
        ensures
            *b == self.spec_backend(),
    {
        &self.backend
    }

    /// End the session, handing the backend back.
    pub fn into_backend(self) -> (b: B)
        ensures
            b == self.spec_backend(),
    {
        self.backend
    }

    /// Process one request, returning the responses to send and `true` if the
    /// connection should be closed (unbind).
    pub fn handle_request(&mut self, req: &LdapRequest) -> (out: (Vec<u8>, bool))
        requires
            request_evaluable(*req),
        ensures
            handle_reply(old(self).spec_backend(), final(self).spec_backend(), *req, out.0@, out.1),
    {
        // Reject unrecognized critical controls up front (RFC 4511 §4.1.11).
        let mut i: usize = 0;
        while i < req.controls.len()
            invariant
                i <= req.controls@.len(),
                forall|j: int| 0 <= j < i ==> !(#[trigger] req.controls@[j]).criticality,
            decreases req.controls.len() - i,
        {
            if req.controls[i].criticality {
                let out = respond(
                    &req.op,
                    req.id,
                    ResultCode::UnavailableCriticalExtension,
                    "unsupported critical control",
                );
                return (out, false);
            }
            i = i + 1;
        }
        let id = req.id;
        match &req.op {
            RequestOp::Bind(b) => {
                if b.version < 2 {
                    return (respond(&req.op, id, ResultCode::ProtocolError, "unsupported LDAP version"), false);
                }
                let r = match &b.auth {
                    crate::ldap::protocol::AuthChoice::Simple(pw) => self.backend.bind_simple(
                        b.name.as_str(),
                        pw.as_slice(),
                    ),
                    crate::ldap::protocol::AuthChoice::Sasl(sasl) => self.backend.bind_sasl(b.name.as_str(), sasl),
                };
                assert(bind_answer(self.backend, *b, r));
                let code = bool_result(r, ResultCode::Success, ResultCode::InvalidCredentials);
                (emit(&req.op, id, code, "bind failed"), false)
            },
            RequestOp::Unbind => (Vec::new(), true),
            RequestOp::Search(s) => {
                let r = self.backend.entries();
                let out = match &r {
                    Ok(es) => search_response(id, s, es),
                    Err(e) => respond(&req.op, id, ResultCode::from_backend_error(e), "search failed"),
                };
                assert(out@ == search_reply(id, *s, r));
                assert(self.backend.entries_post(r));
                (out, false)
            },
            RequestOp::Compare(c) => {
                let r = self.backend.compare(
                    c.entry.as_str(),
                    c.ava.attribute_desc.as_str(),
                    c.ava.assertion_value.as_slice(),
                );
                assert(self.backend.compare_post(c.entry@, c.ava.attribute_desc@, c.ava.assertion_value@, r));
                let code = bool_result(r, ResultCode::CompareTrue, ResultCode::CompareFalse);
                (emit(&req.op, id, code, "compare failed"), false)
            },
            RequestOp::Add(a) => {
                let r = self.backend.add(&a.entry);
                (emit(&req.op, id, unit_result(r), "add failed"), false)
            },
            RequestOp::Delete(dn) => {
                let r = self.backend.delete(dn.as_str());
                (emit(&req.op, id, unit_result(r), "delete failed"), false)
            },
            RequestOp::Modify(m) => {
                let r = self.backend.modify(m.object.as_str(), m.changes.as_slice());
                (emit(&req.op, id, unit_result(r), "modify failed"), false)
            },
            RequestOp::ModifyDn(d) => {
                let r = self.backend.modify_dn(d);
                (emit(&req.op, id, unit_result(r), "modify DN failed"), false)
            },
            RequestOp::Abandon(_) => (Vec::new(), false),
            RequestOp::Extended(_) => (
                respond(&req.op, id, ResultCode::UnwillingToPerform, "no extended operations implemented"),
                false,
            ),
        }
    }

    /// Decode the message at the start of `buf` and handle it.
    pub fn step(&mut self, buf: &[u8]) -> (r: Step)
        ensures
            match r {
                Step::Reply(out, n, close) => step_reply(
                    buf@,
                    old(self).spec_backend(),
                    final(self).spec_backend(),
                    out@,
                    n as int,
                    close,
                ),
                Step::NeedMore => spec_elem_end(buf@, 0) == Err::<int, BerError>(BerError::Truncated),
                Step::Fail(f) => step_fail(buf@, f),
            },
            !(r is Reply) ==> final(self).spec_backend() == old(self).spec_backend(),
    {
        reveal(step_reply);
        reveal(step_fail);
        match decode_request(buf) {
            Ok((req, n)) => {
                let evaluable = match &req.op {
                    RequestOp::Search(s) => check_filter_evaluable(&s.filter),
                    _ => true,
                };
                if !evaluable {
                    return Step::Fail(SessionError::Unevaluable);
                }
                let (out, close) = self.handle_request(&req);
                Step::Reply(out, n, close)
            },
            Err(BerError::Truncated) => Step::NeedMore,
            Err(k) => Step::Fail(SessionError::Decode(k)),
        }
    }
}


/// `out` and `st` are what a session answers to the input `b` from octet
/// `pos` on, its backend going from `pre` to `post`: each complete request is
/// handled in turn, until an unbind, a message that cannot be handled, or the
/// end of the input.
#[verifier::opaque]
pub open spec fn run_from<B: DirectoryBackend>(
    b: Seq<u8>,
    pos: int,
    pre: B,
    post: B,
    out: Seq<u8>,
    st: Result<(), SessionError>,
) -> bool
    decreases b.len() - pos,
{
    if pos < 0 || pos >= b.len() {
        pos == b.len() && out.len() == 0 && st is Ok && post == pre
    } else {
        let rest = b.subrange(pos, b.len() as int);
        ||| spec_elem_end(rest, 0) == Err::<int, BerError>(BerError::Truncated) && out.len() == 0 && post == pre
            && st == Err::<(), SessionError>(if rest.len() > MAX_MESSAGE_BYTES {
            SessionError::TooLarge
        } else {
            SessionError::Truncated
        })
        ||| st matches Err(f) && step_fail(rest, f) && out.len() == 0 && post == pre
        ||| exists|o: Seq<u8>, n: int, close: bool, mid: B|
            #![trigger step_reply(rest, pre, mid, o, n, close)]
            0 < n && pos + n <= b.len() && step_reply(rest, pre, mid, o, n, close) && o.len() <= out.len()
                && out.subrange(0, o.len() as int) == o && if close {
                out.len() == o.len() && st is Ok && post == mid
            } else {
                run_from(b, pos + n, mid, post, out.subrange(o.len() as int, out.len() as int), st)
            }
    }
}

proof fn lemma_run_reply<B: DirectoryBackend>(
    b: Seq<u8>,
    pos: int,
    pre: B,
    mid: B,
    post: B,
    o: Seq<u8>,
    n: int,
    r2: Seq<u8>,
    st: Result<(), SessionError>,
)
    requires
        0 <= pos < b.len(),
        0 < n,
        pos + n <= b.len(),
        step_reply(b.subrange(pos, b.len() as int), pre, mid, o, n, false),
        run_from(b, pos + n, mid, post, r2, st),
    ensures
        run_from(b, pos, pre, post, o + r2, st),
{
    reveal(run_from);
    let full = o + r2;
    assert(full.subrange(0, o.len() as int) =~= o);
    assert(full.subrange(o.len() as int, full.len() as int) =~= r2);
}

proof fn lemma_run_close<B: DirectoryBackend>(b: Seq<u8>, pos: int, pre: B, mid: B, o: Seq<u8>, n: int)
    requires
        0 <= pos < b.len(),
        0 < n,
        pos + n <= b.len(),
        step_reply(b.subrange(pos, b.len() as int), pre, mid, o, n, true),
    ensures
        run_from(b, pos, pre, mid, o, Ok(())),
{
    reveal(run_from);
    assert(o.subrange(0, o.len() as int) =~= o);
}

proof fn lemma_step_bounds<B: DirectoryBackend>(buf: Seq<u8>, pre: B, post: B, o: Seq<u8>, n: int, close: bool)
    requires
        step_reply(buf, pre, post, o, n, close),
    ensures
        0 < n <= buf.len(),
{
    reveal(step_reply);
    lemma_elem_end_progress(buf, 0);
}

proof fn lemma_run_need_more<B: DirectoryBackend>(b: Seq<u8>, pos: int, pre: B, st: SessionError)
    requires
        0 <= pos < b.len(),
        spec_elem_end(b.subrange(pos, b.len() as int), 0) == Err::<int, BerError>(BerError::Truncated),
        st == (if b.len() - pos > MAX_MESSAGE_BYTES {
            SessionError::TooLarge
        } else {
            SessionError::Truncated
        }),
    ensures
        run_from(b, pos, pre, pre, Seq::empty(), Err(st)),
{
    reveal(run_from);
}

proof fn lemma_run_fail<B: DirectoryBackend>(b: Seq<u8>, pos: int, pre: B, f: SessionError)
    requires
        0 <= pos < b.len(),
        step_fail(b.subrange(pos, b.len() as int), f),
    ensures
        run_from(b, pos, pre, pre, Seq::empty(), Err(f)),
{
    reveal(run_from);
}

proof fn lemma_run_end<B: DirectoryBackend>(b: Seq<u8>, pre: B)
    ensures
        run_from(b, b.len() as int, pre, pre, Seq::empty(), Ok(())),
{
    reveal(run_from);
}

impl<B: DirectoryBackend> Session<B> {
    /// Drive the session over a complete input stream: handles each request
    /// message in turn and returns the responses, stopping after an unbind,
    /// at the end of the input, or at the first message it cannot handle.
    pub fn run(&mut self, input: &[u8]) -> (out: (Vec<u8>, Result<(), SessionError>))
        ensures
            run_from(input@, 0, old(self).spec_backend(), final(self).spec_backend(), out.0@, out.1),
    {
        let ghost init = self.spec_backend();
        let mut out: Vec<u8> = Vec::new();
        let mut pos: usize = 0;
        while pos < input.len()
            invariant
                pos <= input@.len(),
                init == old(self).spec_backend(),
                forall|rest: Seq<u8>, st: Result<(), SessionError>, fin: B|
                    #[trigger] run_from(input@, pos as int, self.spec_backend(), fin, rest, st) ==> run_from(
                        input@,
                        0,
                        init,
                        fin,
                        out@ + rest,
                        st,
                    ),
            decreases input.len() - pos,
        {
            let rest = &input[pos..input.len()];
            let ghost cur = self.spec_backend();
            match self.step(rest) {
                Step::Reply(o, n, close) => {
                    let ghost mid = self.spec_backend();
                    proof {
                        lemma_step_bounds(rest@, cur, mid, o@, n as int, close);
                    }
                    let ghost out0 = out@;
                    if close {
                        proof {
                            lemma_run_close(input@, pos as int, cur, mid, o@, n as int);
                        }
                        out.extend_from_slice(o.as_slice());
                        assert(run_from(input@, 0, init, mid, out0 + o@, Ok(())));
                        assert(out@ == out0 + o@);
                        return (out, Ok(()));
                    }
                    out.extend_from_slice(o.as_slice());
                    let ghost p0 = pos as int;
                    pos = pos + n;
                    proof {
                        assert forall|r2: Seq<u8>, st: Result<(), SessionError>, fin: B|
                            #[trigger] run_from(input@, pos as int, mid, fin, r2, st) implies run_from(
                                input@,
                                0,
                                init,
                                fin,
                                out@ + r2,
                                st,
                            ) by {
                            lemma_run_reply(input@, p0, cur, mid, fin, o@, n as int, r2, st);
                            assert(run_from(input@, p0, cur, fin, o@ + r2, st));
                            assert(run_from(input@, 0, init, fin, out0 + (o@ + r2), st));
                            assert(out0 + (o@ + r2) =~= out@ + r2);
                        }
                    }
                },
                Step::NeedMore => {
                    let st = if rest.len() > MAX_MESSAGE_BYTES {
                        SessionError::TooLarge
                    } else {
                        SessionError::Truncated
                    };
                    proof {
                        lemma_run_need_more(input@, pos as int, cur, st);
                        assert(out@ + Seq::<u8>::empty() =~= out@);
                    }
                    return (out, Err(st));
                },
                Step::Fail(f) => {
                    proof {
                        lemma_run_fail(input@, pos as int, cur, f);
                        assert(out@ + Seq::<u8>::empty() =~= out@);
                    }
                    return (out, Err(f));
                },
            }
        }
        proof {
            lemma_run_end(input@, self.spec_backend());
            assert(out@ + Seq::<u8>::empty() =~= out@);
        }
        (out, Ok(()))
    }
}

} // verus!
