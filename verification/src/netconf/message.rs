//! NETCONF message model (RFC 6241): capability exchange, `<rpc>`, `<rpc-reply>`,
//! the standard operations, and `<rpc-error>`.
//!
//! Only the operations the server implements are first-class; any other
//! operation is carried through as [`Operation::Other`].

pub mod round_trip;

use vstd::prelude::*;
use vstd::string::{StringExecFns, StringSliceAdditionalSpecFns};
use crate::netconf::error::{NetconfError, ErrorModel, error_view};
use crate::netconf::xml::{
    Xml, XmlModel, xml_view, bare, local_part, first_named, all_named, attrs_view, find_attr, parse_root,
    spec_root, parse_defined, fault_text, parse_dec_u32, parse_dec_u32_exec, str_eq,
};
use crate::text::{chars_of, trim_both_ws, trim_end_ws, trim_ws, u32_decimal, dec_digits};

verus! {

/// The NETCONF base namespace (RFC 6241 §3.1).
pub const NETCONF_BASE_NS_1_0: &'static str = "urn:ietf:params:xml:ns:netconf:base:1.0";

/// The NETCONF 1.1 base namespace (RFC 6241 §3.1, announced via capability).
pub const NETCONF_BASE_NS_1_1: &'static str = "urn:ietf:params:xml:ns:netconf:base:1.1";

// ---------------------------------------------------------------------------
// Reading elements
// ---------------------------------------------------------------------------

/// The first child of `m` whose local name is `name`.
pub open spec fn named(m: XmlModel, name: Seq<char>) -> Option<XmlModel> {
    let i = first_named(m.children, name, 0);
    if 0 <= i < m.children.len() {
        Some(m.children[i])
    } else {
        None
    }
}

/// A string with its leading and trailing whitespace removed.
pub open spec fn trimmed(s: Seq<char>) -> Seq<char> {
    trim_end_ws(trim_ws(s))
}

/// An element with a name and text only.
pub open spec fn text_el(name: Seq<char>, text: Seq<char>) -> XmlModel {
    XmlModel { name, attributes: Seq::empty(), children: Seq::empty(), text }
}

proof fn lemma_first_named_range(kids: Seq<XmlModel>, name: Seq<char>, i: int)
    requires
        0 <= i,
    ensures
        0 <= first_named(kids, name, i) <= kids.len(),
    decreases kids.len() - i,
{
    if i < kids.len() && local_part(kids[i].name) != name {
        lemma_first_named_range(kids, name, i + 1);
    }
}

fn child<'a>(el: &'a Xml, name: &str) -> (r: Option<&'a Xml>)
    ensures
        match r {
            Some(c) => named(xml_view(*el), name@) == Some(xml_view(*c)),
            None => named(xml_view(*el), name@) is None,
        },
{
    proof {
        lemma_first_named_range(xml_view(*el).children, name@, 0);
    }
    el.child_named(name)
}

fn trimmed_string(s: &str) -> (r: String)
    ensures
        r@ == trimmed(s@),
{
    trim_both_ws(s).to_owned()
}

/// `s` followed by `t`.
fn joined(s: &str, t: &str) -> (r: String)
    ensures
        r@ == s@ + t@,
{
    let mut r = String::from_str(s);
    r.append(t);
    r
}

/// `a`, `b` and `c` one after the other.
pub(crate) fn joined3(a: &str, b: &str, c: &str) -> (r: String)
    ensures
        r@ == a@ + b@ + c@,
{
    let mut r = String::from_str(a);
    r.append(b);
    r.append(c);
    r
}

// ---------------------------------------------------------------------------
// Datastores
// ---------------------------------------------------------------------------

/// A NETCONF datastore identifier (RFC 6241 §4.1 / §8.3).
#[derive(Debug, Clone, PartialEq, Eq, Hash, PartialOrd, Ord)]
pub enum DatastoreName {
    /// The running configuration.
    Running,
    /// The startup configuration.
    Startup,
    /// The candidate configuration.
    Candidate,
    /// A configuration accessed by URL.
    Url(String),
}

/// The value of a datastore identifier.
pub enum DatastoreModel {
    Running,
    Startup,
    Candidate,
    Url(Seq<char>),
}

pub open spec fn datastore_view(d: DatastoreName) -> DatastoreModel {
    match d {
        DatastoreName::Running => DatastoreModel::Running,
        DatastoreName::Startup => DatastoreModel::Startup,
        DatastoreName::Candidate => DatastoreModel::Candidate,
        DatastoreName::Url(u) => DatastoreModel::Url(u@),
    }
}

pub open spec fn datastore_result_view(r: Result<DatastoreName, NetconfError>) -> Result<DatastoreModel, ErrorModel> {
    match r {
        Ok(d) => Ok(datastore_view(d)),
        Err(e) => Err(error_view(e)),
    }
}

/// The datastore an element's local name names (`text` is a URL's).
pub open spec fn spec_datastore_named(name: Seq<char>, text: Seq<char>) -> Result<DatastoreModel, ErrorModel> {
    if name == "running"@ {
        Ok(DatastoreModel::Running)
    } else if name == "startup"@ {
        Ok(DatastoreModel::Startup)
    } else if name == "candidate"@ {
        Ok(DatastoreModel::Candidate)
    } else if name == "url"@ {
        Ok(DatastoreModel::Url(text))
    } else {
        Err(ErrorModel::UnknownDatastore(name))
    }
}

/// The datastore a `<source>`/`<target>` element names: its first child.
pub open spec fn spec_datastore(m: XmlModel) -> Result<DatastoreModel, ErrorModel> {
    if m.children.len() > 0 {
        spec_datastore_named(local_part(m.children[0].name), m.children[0].text)
    } else {
        match named(m, "url"@) {
            Some(u) => Ok(DatastoreModel::Url(u.text)),
            None => Err(ErrorModel::UnknownDatastore(m.name)),
        }
    }
}

/// The `<source>`/`<target>` element `parent` naming a datastore.
pub open spec fn spec_target_element(d: DatastoreModel, parent: Seq<char>) -> XmlModel {
    let inner = match d {
        DatastoreModel::Running => bare("running"@),
        DatastoreModel::Startup => bare("startup"@),
        DatastoreModel::Candidate => bare("candidate"@),
        DatastoreModel::Url(u) => text_el("url"@, u),
    };
    XmlModel { children: seq![inner], ..bare(parent) }
}

impl DatastoreName {
    /// Parse a datastore from a `<source>`/`<target>`/`<config-source>` element.
    pub fn from_target_element(el: &Xml) -> (r: Result<DatastoreName, NetconfError>)
        ensures
            datastore_result_view(r) == spec_datastore(xml_view(*el)),
    {
        if el.children.len() > 0 {
            let first = &el.children[0];
            assert(xml_view(*el).children[0] == xml_view(*first));
            return DatastoreName::from_local_name(first.local_name(), first.text_content());
        }
        if let Some(url) = child(el, "url") {
            return Ok(DatastoreName::Url(url.text_content().to_owned()));
        }
        Err(NetconfError::UnknownDatastore(el.name.clone()))
    }

    fn from_local_name(name: &str, text: &str) -> (r: Result<DatastoreName, NetconfError>)
        ensures
            datastore_result_view(r) == spec_datastore_named(name@, text@),
    {
        if str_eq(name, "running") {
            Ok(DatastoreName::Running)
        } else if str_eq(name, "startup") {
            Ok(DatastoreName::Startup)
        } else if str_eq(name, "candidate") {
            Ok(DatastoreName::Candidate)
        } else if str_eq(name, "url") {
            Ok(DatastoreName::Url(text.to_owned()))
        } else {
            Err(NetconfError::UnknownDatastore(name.to_owned()))
        }
    }

    /// Render this datastore as the inner element of a `<source>`/`<target>`.
    pub fn to_target_element(&self, parent: &str) -> (x: Xml)
        ensures
            xml_view(x) == spec_target_element(datastore_view(*self), parent@),
    {
        let inner = match self {
            DatastoreName::Running => Xml::new("running"),
            DatastoreName::Startup => Xml::new("startup"),
            DatastoreName::Candidate => Xml::new("candidate"),
            DatastoreName::Url(u) => Xml::new("url").text(u.as_str()),
        };
        let x = Xml::new(parent).child(inner);
        assert(xml_view(x).children =~= seq![xml_view(inner)]);
        x
    }
}

// ---------------------------------------------------------------------------
// Edit modes
// ---------------------------------------------------------------------------

/// The default-operation mode of an `<edit-config>` (RFC 6241 §7.2).
#[derive(Debug, Clone, Copy, PartialEq, Eq)]
pub enum EditDefaultOp {
    /// Merge (default): create/merge with existing.
    Merge,
    /// Replace the entire target with the config.
    Replace,
    /// Create only; error if the node already exists.
    Create,
    /// Delete the nodes named in the config.
    Delete,
    /// Do nothing (used to change operation of a subtree).
    NoneOp,
}

/// The mode a `<default-operation>` text names (merge for anything else).
pub open spec fn spec_edit_op(s: Seq<char>) -> EditDefaultOp {
    if s == "replace"@ {
        EditDefaultOp::Replace
    } else if s == "create"@ {
        EditDefaultOp::Create
    } else if s == "delete"@ {
        EditDefaultOp::Delete
    } else if s == "none"@ {
        EditDefaultOp::NoneOp
    } else {
        EditDefaultOp::Merge
    }
}

/// The text naming a mode.
pub open spec fn edit_op_text(op: EditDefaultOp) -> Seq<char> {
    match op {
        EditDefaultOp::Merge => "merge"@,
        EditDefaultOp::Replace => "replace"@,
        EditDefaultOp::Create => "create"@,
        EditDefaultOp::Delete => "delete"@,
        EditDefaultOp::NoneOp => "none"@,
    }
}

impl EditDefaultOp {
    fn from_str(s: &str) -> (r: EditDefaultOp)
        ensures
            r == spec_edit_op(s@),
    {
        if str_eq(s, "replace") {
            EditDefaultOp::Replace
        } else if str_eq(s, "create") {
            EditDefaultOp::Create
        } else if str_eq(s, "delete") {
            EditDefaultOp::Delete
        } else if str_eq(s, "none") {
            EditDefaultOp::NoneOp
        } else {
            EditDefaultOp::Merge
        }
    }

    fn as_str(&self) -> (r: &'static str)
        ensures
            r@ == edit_op_text(*self),
    {
        match self {
            EditDefaultOp::Merge => "merge",
            EditDefaultOp::Replace => "replace",
            EditDefaultOp::Create => "create",
            EditDefaultOp::Delete => "delete",
            EditDefaultOp::NoneOp => "none",
        }
    }
}

// ---------------------------------------------------------------------------
// Messages
// ---------------------------------------------------------------------------

/// A NETCONF operation carried inside an `<rpc>`.
#[derive(Debug, Clone, PartialEq, Eq)]
pub enum Operation {
    /// `<get-config>`
    GetConfig {
        /// The source datastore.
        source: DatastoreName,
    },
    /// `<get>`
    Get {
        /// Optional subtree filter element (the `<filter>` body).
        filter: Option<Xml>,
    },
    /// `<edit-config>`
    EditConfig {
        /// The target datastore.
        target: DatastoreName,
        /// Default operation mode.
        default_op: EditDefaultOp,
        /// The `<config>` element (raw config subtree).
        config: Xml,
    },
    /// `<copy-config>`
    CopyConfig {
        /// The target datastore.
        target: DatastoreName,
        /// The source datastore.
        source: DatastoreName,
    },
    /// `<delete-config>`
    DeleteConfig {
        /// The target datastore.
        target: DatastoreName,
    },
    /// `<lock>`
    Lock {
        /// The target datastore.
        target: DatastoreName,
    },
    /// `<unlock>`
    Unlock {
        /// The target datastore.
        target: DatastoreName,
    },
    /// `<close-session>`
    CloseSession,
    /// `<kill-session>`
    KillSession {
        /// The session id to kill.
        session_id: u32,
    },
    /// `<discard-changes>`
    DiscardChanges,
    /// An operation this server does not model explicitly.
    Other {
        /// The operation element (carried verbatim).
        element: Xml,
    },
}

/// The value of an operation.
pub enum OperationModel {
    GetConfig(DatastoreModel),
    Get(Option<XmlModel>),
    EditConfig(DatastoreModel, EditDefaultOp, XmlModel),
    CopyConfig(DatastoreModel, DatastoreModel),
    DeleteConfig(DatastoreModel),
    Lock(DatastoreModel),
    Unlock(DatastoreModel),
    CloseSession,
    KillSession(u32),
    DiscardChanges,
    Other(XmlModel),
}

pub open spec fn operation_view(op: Operation) -> OperationModel {
    match op {
        Operation::GetConfig { source } => OperationModel::GetConfig(datastore_view(source)),
        Operation::Get { filter } => OperationModel::Get(
            match filter {
                Some(f) => Some(xml_view(f)),
                None => None,
            },
        ),
        Operation::EditConfig { target, default_op, config } => OperationModel::EditConfig(
            datastore_view(target),
            default_op,
            xml_view(config),
        ),
        Operation::CopyConfig { target, source } => OperationModel::CopyConfig(
            datastore_view(target),
            datastore_view(source),
        ),
        Operation::DeleteConfig { target } => OperationModel::DeleteConfig(datastore_view(target)),
        Operation::Lock { target } => OperationModel::Lock(datastore_view(target)),
        Operation::Unlock { target } => OperationModel::Unlock(datastore_view(target)),
        Operation::CloseSession => OperationModel::CloseSession,
        Operation::KillSession { session_id } => OperationModel::KillSession(session_id),
        Operation::DiscardChanges => OperationModel::DiscardChanges,
        Operation::Other { element } => OperationModel::Other(xml_view(element)),
    }
}

/// A parsed NETCONF `<rpc>` request.
#[derive(Debug, Clone, PartialEq, Eq)]
pub struct Rpc {
    /// The `message-id` attribute (RFC 6241 §4.1).
    pub message_id: String,
    /// The operation to perform.
    pub operation: Operation,
}

/// The value of a request.
pub struct RpcModel {
    pub message_id: Seq<char>,
    pub operation: OperationModel,
}

pub open spec fn rpc_view(r: Rpc) -> RpcModel {
    RpcModel { message_id: r.message_id@, operation: operation_view(r.operation) }
}

/// A NETCONF `<rpc-error>` (RFC 6241 §4.3).
#[derive(Debug, Clone, PartialEq, Eq)]
pub struct RpcError {
    /// `error-type` (transport/protocol/rpc/application).
    pub error_type: String,
    /// `error-tag` (e.g. `operation-failed`, `invalid-value`).
    pub error_tag: String,
    /// `error-severity` (`error` or `warning`).
    pub error_severity: String,
    /// `error-message` (human-readable, optional).
    pub error_message: Option<String>,
    /// `error-app-tag` (optional).
    pub error_app_tag: Option<String>,
    /// `error-path` (optional).
    pub error_path: Option<String>,
    /// `error-info` element (optional).
    pub error_info: Option<Xml>,
}

/// The value of an `<rpc-error>`.
pub struct RpcErrorModel {
    pub error_type: Seq<char>,
    pub error_tag: Seq<char>,
    pub error_severity: Seq<char>,
    pub error_message: Option<Seq<char>>,
    pub error_app_tag: Option<Seq<char>>,
    pub error_path: Option<Seq<char>>,
    pub error_info: Option<XmlModel>,
}

pub open spec fn opt_str_view(s: Option<String>) -> Option<Seq<char>> {
    match s {
        Some(x) => Some(x@),
        None => None,
    }
}

pub open spec fn opt_xml_view(s: Option<Xml>) -> Option<XmlModel> {
    match s {
        Some(x) => Some(xml_view(x)),
        None => None,
    }
}

pub open spec fn rpc_error_view(e: RpcError) -> RpcErrorModel {
    RpcErrorModel {
        error_type: e.error_type@,
        error_tag: e.error_tag@,
        error_severity: e.error_severity@,
        error_message: opt_str_view(e.error_message),
        error_app_tag: opt_str_view(e.error_app_tag),
        error_path: opt_str_view(e.error_path),
        error_info: opt_xml_view(e.error_info),
    }
}

/// The payload of a `<rpc-reply>` (RFC 6241 §4.2).
#[derive(Debug, Clone, PartialEq, Eq)]
pub enum ReplyResult {
    /// `<ok/>`
    Okay,
    /// `<data>...</data>`
    Data(Xml),
    /// `<rpc-error>`
    Error(RpcError),
}

/// The value of a reply payload.
pub enum ReplyModel {
    Okay,
    Data(XmlModel),
    Error(RpcErrorModel),
}

pub open spec fn reply_result_view(r: ReplyResult) -> ReplyModel {
    match r {
        ReplyResult::Okay => ReplyModel::Okay,
        ReplyResult::Data(x) => ReplyModel::Data(xml_view(x)),
        ReplyResult::Error(e) => ReplyModel::Error(rpc_error_view(e)),
    }
}

/// A parsed NETCONF `<rpc-reply>`.
#[derive(Debug, Clone, PartialEq, Eq)]
pub struct RpcReply {
    /// The `message-id` (echoed from the request).
    pub message_id: String,
    /// The result payload.
    pub result: ReplyResult,
}

/// The value of a reply.
pub struct RpcReplyModel {
    pub message_id: Seq<char>,
    pub result: ReplyModel,
}

pub open spec fn rpc_reply_view(r: RpcReply) -> RpcReplyModel {
    RpcReplyModel { message_id: r.message_id@, result: reply_result_view(r.result) }
}

/// A NETCONF `<hello>` message (RFC 6241 §8.1).
#[derive(Debug, Clone, PartialEq, Eq, Default)]
pub struct Hello {
    /// Announced capabilities.
    pub capabilities: Vec<String>,
    /// Server-assigned session id (server side only).
    pub session_id: Option<u32>,
}

/// The value of a `<hello>`.
pub struct HelloModel {
    pub capabilities: Seq<Seq<char>>,
    pub session_id: Option<u32>,
}

pub open spec fn strings_view(s: Seq<String>) -> Seq<Seq<char>> {
    Seq::new(s.len(), |i: int| s[i]@)
}

pub open spec fn hello_view(h: Hello) -> HelloModel {
    HelloModel { capabilities: strings_view(h.capabilities@), session_id: h.session_id }
}

impl RpcError {
    /// Build a generic application-level error.
    pub fn application(tag: &str, message: &str) -> (e: RpcError)
        ensures
            rpc_error_view(e) == (RpcErrorModel {
                error_type: "application"@,
                error_tag: tag@,
                error_severity: "error"@,
                error_message: Some(message@),
                error_app_tag: None,
                error_path: None,
                error_info: None,
            }),
    {
        RpcError {
            error_type: String::from_str("application"),
            error_tag: String::from_str(tag),
            error_severity: String::from_str("error"),
            error_message: Some(String::from_str(message)),
            error_app_tag: None,
            error_path: None,
            error_info: None,
        }
    }

    /// Convert into an [`RpcReply`] carrying this error.
    pub fn into_reply(self, message_id: &str) -> (r: RpcReply)
        ensures
            rpc_reply_view(r) == (RpcReplyModel {
                message_id: message_id@,
                result: ReplyModel::Error(rpc_error_view(self)),
            }),
    {
        RpcReply { message_id: String::from_str(message_id), result: ReplyResult::Error(self) }
    }
}

/// The capabilities a server announces.
pub open spec fn server_capabilities() -> Seq<Seq<char>> {
    seq![
        NETCONF_BASE_NS_1_0@,
        NETCONF_BASE_NS_1_1@,
        "urn:ietf:params:netconf:capability:writable-running:1.0"@,
        "urn:ietf:params:netconf:capability:url:1.0"@,
    ]
}

impl Hello {
    /// The mandatory base:1.0 capability.
    pub fn base_1_0_capability() -> (s: String)
        ensures
            s@ == NETCONF_BASE_NS_1_0@,
    {
        String::from_str(NETCONF_BASE_NS_1_0)
    }

    /// Build a server `<hello>` advertising the standard capabilities.
    pub fn server_default(session_id: u32) -> (h: Hello)
        ensures
            hello_view(h) == (HelloModel { capabilities: server_capabilities(), session_id: Some(session_id) }),
    {
        let mut caps: Vec<String> = Vec::new();
        caps.push(String::from_str(NETCONF_BASE_NS_1_0));
        caps.push(String::from_str(NETCONF_BASE_NS_1_1));
        caps.push(String::from_str("urn:ietf:params:netconf:capability:writable-running:1.0"));
        caps.push(String::from_str("urn:ietf:params:netconf:capability:url:1.0"));
        let h = Hello { capabilities: caps, session_id: Some(session_id) };
        assert(strings_view(h.capabilities@) =~= server_capabilities());
        h
    }
}

// ---------------------------------------------------------------------------
// Parsing
// ---------------------------------------------------------------------------

/// The child `name` of `el`, or the error `msg` when there is none.
pub open spec fn required(el: XmlModel, name: Seq<char>, msg: Seq<char>) -> Result<XmlModel, ErrorModel> {
    match named(el, name) {
        Some(c) => Ok(c),
        None => Err(ErrorModel::Rpc(msg)),
    }
}

/// The datastore named by the child `name` of `el` (`msg` when it is missing).
pub open spec fn required_datastore(el: XmlModel, name: Seq<char>, msg: Seq<char>) -> Result<DatastoreModel, ErrorModel> {
    match required(el, name, msg) {
        Err(e) => Err(e),
        Ok(c) => spec_datastore(c),
    }
}

/// The operation an element of an `<rpc>` stands for.
pub open spec fn spec_operation(el: XmlModel) -> Result<OperationModel, ErrorModel> {
    let n = local_part(el.name);
    if n == "get-config"@ {
        match required_datastore(el, "source"@, "<get-config> missing <source>"@) {
            Err(e) => Err(e),
            Ok(d) => Ok(OperationModel::GetConfig(d)),
        }
    } else if n == "get"@ {
        Ok(OperationModel::Get(named(el, "filter"@)))
    } else if n == "edit-config"@ {
        match required(el, "target"@, "<edit-config> missing <target>"@) {
            Err(e) => Err(e),
            Ok(t) => match required(el, "config"@, "<edit-config> missing <config>"@) {
                Err(e) => Err(e),
                Ok(c) => {
                    let op = match named(el, "default-operation"@) {
                        Some(d) => spec_edit_op(trimmed(d.text)),
                        None => EditDefaultOp::Merge,
                    };
                    match spec_datastore(t) {
                        Err(e) => Err(e),
                        Ok(d) => Ok(OperationModel::EditConfig(d, op, c)),
                    }
                },
            },
        }
    } else if n == "copy-config"@ {
        match required(el, "target"@, "<copy-config> missing <target>"@) {
            Err(e) => Err(e),
            Ok(t) => match required(el, "source"@, "<copy-config> missing <source>"@) {
                Err(e) => Err(e),
                Ok(s) => match spec_datastore(t) {
                    Err(e) => Err(e),
                    Ok(dt) => match spec_datastore(s) {
                        Err(e) => Err(e),
                        Ok(ds) => Ok(OperationModel::CopyConfig(dt, ds)),
                    },
                },
            },
        }
    } else if n == "delete-config"@ {
        match required_datastore(el, "target"@, "<delete-config> missing <target>"@) {
            Err(e) => Err(e),
            Ok(d) => Ok(OperationModel::DeleteConfig(d)),
        }
    } else if n == "lock"@ {
        match required_datastore(el, "target"@, "<lock> missing <target>"@) {
            Err(e) => Err(e),
            Ok(d) => Ok(OperationModel::Lock(d)),
        }
    } else if n == "unlock"@ {
        match required_datastore(el, "target"@, "<unlock> missing <target>"@) {
            Err(e) => Err(e),
            Ok(d) => Ok(OperationModel::Unlock(d)),
        }
    } else if n == "close-session"@ {
        Ok(OperationModel::CloseSession)
    } else if n == "kill-session"@ {
        match required(el, "session-id"@, "<kill-session> missing <session-id>"@) {
            Err(e) => Err(e),
            Ok(sid) => match parse_dec_u32(trimmed(sid.text)) {
                Some(v) => Ok(OperationModel::KillSession(v)),
                None => Err(ErrorModel::Rpc("bad session-id"@)),
            },
        }
    } else if n == "discard-changes"@ {
        Ok(OperationModel::DiscardChanges)
    } else {
        Ok(OperationModel::Other(el))
    }
}

pub open spec fn operation_result_view(r: Result<Operation, NetconfError>) -> Result<OperationModel, ErrorModel> {
    match r {
        Ok(op) => Ok(operation_view(op)),
        Err(e) => Err(error_view(e)),
    }
}

/// The text of the child `name` of `el`, trimmed, or `default`.
pub open spec fn trimmed_or(el: XmlModel, name: Seq<char>, default: Seq<char>) -> Seq<char> {
    match named(el, name) {
        Some(c) => trimmed(c.text),
        None => default,
    }
}

/// The text of the child `name` of `el`, if there is one.
pub open spec fn text_of(el: XmlModel, name: Seq<char>) -> Option<Seq<char>> {
    match named(el, name) {
        Some(c) => Some(c.text),
        None => None,
    }
}

/// The error an `<rpc-error>` element reports.
pub open spec fn spec_rpc_error(el: XmlModel) -> RpcErrorModel {
    RpcErrorModel {
        error_type: trimmed_or(el, "error-type"@, "application"@),
        error_tag: trimmed_or(el, "error-tag"@, "operation-failed"@),
        error_severity: trimmed_or(el, "error-severity"@, "error"@),
        error_message: text_of(el, "error-message"@),
        error_app_tag: text_of(el, "error-app-tag"@),
        error_path: text_of(el, "error-path"@),
        error_info: named(el, "error-info"@),
    }
}

/// The texts of the children `name` of `el`, in order.
pub open spec fn named_texts(el: XmlModel, name: Seq<char>) -> Seq<Seq<char>> {
    let idx = all_named(el.children, name, 0);
    Seq::new(idx.len(), |j: int| el.children[idx[j]].text)
}

/// The `<hello>` a document element stands for.
pub open spec fn spec_hello(m: XmlModel) -> Result<HelloModel, ErrorModel> {
    if local_part(m.name) != "hello"@ {
        Err(ErrorModel::CapabilityExchange("expected <hello>, got <"@ + m.name + ">"@))
    } else {
        Ok(
            HelloModel {
                capabilities: match named(m, "capabilities"@) {
                    Some(c) => named_texts(c, "capability"@),
                    None => Seq::empty(),
                },
                session_id: match named(m, "session-id"@) {
                    Some(s) => parse_dec_u32(trimmed(s.text)),
                    None => None,
                },
            },
        )
    }
}

/// The `<rpc>` a document element stands for.
pub open spec fn spec_rpc(m: XmlModel) -> Result<RpcModel, ErrorModel> {
    if local_part(m.name) != "rpc"@ {
        Err(ErrorModel::Rpc("expected <rpc>, got <"@ + m.name + ">"@))
    } else {
        match find_attr(m.attributes, "message-id"@) {
            None => Err(ErrorModel::MissingMessageId),
            Some(id) => if m.children.len() == 0 {
                Err(ErrorModel::Rpc("empty <rpc> with no operation"@))
            } else {
                match spec_operation(m.children[0]) {
                    Err(e) => Err(e),
                    Ok(op) => Ok(RpcModel { message_id: id, operation: op }),
                }
            },
        }
    }
}

/// The `<rpc-reply>` a document element stands for.
pub open spec fn spec_rpc_reply(m: XmlModel) -> Result<RpcReplyModel, ErrorModel> {
    if local_part(m.name) != "rpc-reply"@ {
        Err(ErrorModel::Rpc("expected <rpc-reply>, got <"@ + m.name + ">"@))
    } else {
        match find_attr(m.attributes, "message-id"@) {
            None => Err(ErrorModel::MissingMessageId),
            Some(id) => if named(m, "ok"@) is Some {
                Ok(RpcReplyModel { message_id: id, result: ReplyModel::Okay })
            } else if named(m, "data"@) is Some {
                Ok(RpcReplyModel { message_id: id, result: ReplyModel::Data(named(m, "data"@)->Some_0) })
            } else if named(m, "rpc-error"@) is Some {
                Ok(
                    RpcReplyModel {
                        message_id: id,
                        result: ReplyModel::Error(spec_rpc_error(named(m, "rpc-error"@)->Some_0)),
                    },
                )
            } else {
                Err(ErrorModel::Rpc("<rpc-reply> without <ok>/<data>/<rpc-error>"@))
            },
        }
    }
}

fn required_child<'a>(el: &'a Xml, name: &str, msg: &str) -> (r: Result<&'a Xml, NetconfError>)
    ensures
        match r {
            Ok(c) => required(xml_view(*el), name@, msg@) == Ok::<XmlModel, ErrorModel>(xml_view(*c)),
            Err(e) => required(xml_view(*el), name@, msg@) == Err::<XmlModel, ErrorModel>(error_view(e)),
        },
{
    match child(el, name) {
        Some(c) => Ok(c),
        None => Err(NetconfError::Rpc(String::from_str(msg))),
    }
}

fn required_target(el: &Xml, name: &str, msg: &str) -> (r: Result<DatastoreName, NetconfError>)
    ensures
        datastore_result_view(r) == required_datastore(xml_view(*el), name@, msg@),
{
    match required_child(el, name, msg) {
        Ok(c) => DatastoreName::from_target_element(c),
        Err(e) => Err(e),
    }
}

fn trimmed_u32(s: &str) -> (r: Option<u32>)
    ensures
        r == parse_dec_u32(trimmed(s@)),
{
    let cs = chars_of(trim_both_ws(s));
    parse_dec_u32_exec(cs.as_slice())
}

fn parse_operation(el: &Xml) -> (r: Result<Operation, NetconfError>)
    ensures
        operation_result_view(r) == spec_operation(xml_view(*el)),
{
    let n = el.local_name();
    if str_eq(n, "get-config") {
        match required_target(el, "source", "<get-config> missing <source>") {
            Ok(d) => Ok(Operation::GetConfig { source: d }),
            Err(e) => Err(e),
        }
    } else if str_eq(n, "get") {
        let filter = match child(el, "filter") {
            Some(f) => Some(f.clone()),
            None => None,
        };
        Ok(Operation::Get { filter })
    } else if str_eq(n, "edit-config") {
        let target = match required_child(el, "target", "<edit-config> missing <target>") {
            Ok(t) => t,
            Err(e) => {
                return Err(e);
            },
        };
        let config = match required_child(el, "config", "<edit-config> missing <config>") {
            Ok(c) => c.clone(),
            Err(e) => {
                return Err(e);
            },
        };
        let default_op = match child(el, "default-operation") {
            Some(d) => EditDefaultOp::from_str(trim_both_ws(d.text_content())),
            None => EditDefaultOp::Merge,
        };
        match DatastoreName::from_target_element(target) {
            Ok(d) => Ok(Operation::EditConfig { target: d, default_op, config }),
            Err(e) => Err(e),
        }
    } else if str_eq(n, "copy-config") {
        let target = match required_child(el, "target", "<copy-config> missing <target>") {
            Ok(t) => t,
            Err(e) => {
                return Err(e);
            },
        };
        let source = match required_child(el, "source", "<copy-config> missing <source>") {
            Ok(s) => s,
            Err(e) => {
                return Err(e);
            },
        };
        let dt = match DatastoreName::from_target_element(target) {
            Ok(d) => d,
            Err(e) => {
                return Err(e);
            },
        };
        match DatastoreName::from_target_element(source) {
            Ok(ds) => Ok(Operation::CopyConfig { target: dt, source: ds }),
            Err(e) => Err(e),
        }
    } else if str_eq(n, "delete-config") {
        match required_target(el, "target", "<delete-config> missing <target>") {
            Ok(d) => Ok(Operation::DeleteConfig { target: d }),
            Err(e) => Err(e),
        }
    } else if str_eq(n, "lock") {
        match required_target(el, "target", "<lock> missing <target>") {
            Ok(d) => Ok(Operation::Lock { target: d }),
            Err(e) => Err(e),
        }
    } else if str_eq(n, "unlock") {
        match required_target(el, "target", "<unlock> missing <target>") {
            Ok(d) => Ok(Operation::Unlock { target: d }),
            Err(e) => Err(e),
        }
    } else if str_eq(n, "close-session") {
        Ok(Operation::CloseSession)
    } else if str_eq(n, "kill-session") {
        let sid = match required_child(el, "session-id", "<kill-session> missing <session-id>") {
            Ok(s) => s,
            Err(e) => {
                return Err(e);
            },
        };
        match trimmed_u32(sid.text_content()) {
            Some(v) => Ok(Operation::KillSession { session_id: v }),
            None => Err(NetconfError::Rpc(String::from_str("bad session-id"))),
        }
    } else if str_eq(n, "discard-changes") {
        Ok(Operation::DiscardChanges)
    } else {
        Ok(Operation::Other { element: el.clone() })
    }
}

fn trimmed_or_exec(el: &Xml, name: &str, default: &str) -> (r: String)
    ensures
        r@ == trimmed_or(xml_view(*el), name@, default@),
{
    match child(el, name) {
        Some(c) => trimmed_string(c.text_content()),
        None => String::from_str(default),
    }
}

fn text_of_exec(el: &Xml, name: &str) -> (r: Option<String>)
    ensures
        opt_str_view(r) == text_of(xml_view(*el), name@),
{
    match child(el, name) {
        Some(c) => Some(c.text_content().to_owned()),
        None => None,
    }
}

fn parse_rpc_error(el: &Xml) -> (r: RpcError)
    ensures
        rpc_error_view(r) == spec_rpc_error(xml_view(*el)),
{
    RpcError {
        error_type: trimmed_or_exec(el, "error-type", "application"),
        error_tag: trimmed_or_exec(el, "error-tag", "operation-failed"),
        error_severity: trimmed_or_exec(el, "error-severity", "error"),
        error_message: text_of_exec(el, "error-message"),
        error_app_tag: text_of_exec(el, "error-app-tag"),
        error_path: text_of_exec(el, "error-path"),
        error_info: match child(el, "error-info") {
            Some(c) => Some(c.clone()),
            None => None,
        },
    }
}

fn named_texts_exec(el: &Xml, name: &str) -> (r: Vec<String>)
    ensures
        strings_view(r@) == named_texts(xml_view(*el), name@),
{
    let list = el.children_named(name);
    let ghost idx = all_named(xml_view(*el).children, name@, 0);
    let mut out: Vec<String> = Vec::new();
    let mut j: usize = 0;
    while j < list.len()
        invariant
            j <= list@.len(),
            list@.len() == idx.len(),
            idx == all_named(xml_view(*el).children, name@, 0),
            forall|k: int| 0 <= k < list@.len() ==> *list@[k] == el.children@[#[trigger] idx[k]],
            strings_view(out@) =~= named_texts(xml_view(*el), name@).subrange(0, j as int),
        decreases list.len() - j,
    {
        let c = list[j];
        proof {
            lemma_all_named_range(xml_view(*el).children, name@, 0);
            assert(*c == el.children@[idx[j as int]]);
            assert(xml_view(*el).children[idx[j as int]] == xml_view(*c));
        }
        let ghost before = out@;
        out.push(c.text_content().to_owned());
        proof {
            assert(strings_view(out@) =~= strings_view(before).push(c.text@));
        }
        j = j + 1;
    }
    assert(named_texts(xml_view(*el), name@).subrange(0, j as int) =~= named_texts(xml_view(*el), name@));
    out
}

proof fn lemma_all_named_range(kids: Seq<XmlModel>, name: Seq<char>, i: int)
    requires
        0 <= i,
    ensures
        forall|j: int| 0 <= j < all_named(kids, name, i).len() ==> i <= #[trigger] all_named(kids, name, i)[j] < kids.len(),
    decreases kids.len() - i,
{
    if i < kids.len() {
        lemma_all_named_range(kids, name, i + 1);
        if local_part(kids[i].name) == name {
            let s = all_named(kids, name, i);
            assert forall|j: int| 0 <= j < s.len() implies i <= #[trigger] s[j] < kids.len() by {
                if j > 0 {
                    assert(s[j] == all_named(kids, name, i + 1)[j - 1]);
                }
            }
        }
    }
}

pub open spec fn hello_result_view(r: Result<Hello, NetconfError>) -> Result<HelloModel, ErrorModel> {
    match r {
        Ok(h) => Ok(hello_view(h)),
        Err(e) => Err(error_view(e)),
    }
}

pub open spec fn rpc_result_view(r: Result<Rpc, NetconfError>) -> Result<RpcModel, ErrorModel> {
    match r {
        Ok(x) => Ok(rpc_view(x)),
        Err(e) => Err(error_view(e)),
    }
}

pub open spec fn rpc_reply_result_view(r: Result<RpcReply, NetconfError>) -> Result<RpcReplyModel, ErrorModel> {
    match r {
        Ok(x) => Ok(rpc_reply_view(x)),
        Err(e) => Err(error_view(e)),
    }
}

/// The error reported for a document the XML parser rejects.
pub open spec fn parse_failure(f: crate::netconf::xml::XmlFault) -> ErrorModel {
    ErrorModel::XmlParse(fault_text(f))
}

/// Parse a `<hello>` message from an XML document string.
pub fn parse_hello(input: &str) -> (r: Result<Hello, NetconfError>)
    requires
        input.spec_bytes().len() + 32 < usize::MAX,
    ensures
        hello_result_view(r) == match spec_root(input.spec_bytes()) {
            Ok((m, _)) => spec_hello(m),
            Err(f) => Err(parse_failure(f)),
        },
{
    let root = match parse_root(input) {
        Ok(x) => x,
        Err(e) => {
            return Err(e);
        },
    };
    if !str_eq(root.local_name(), "hello") {
        return Err(NetconfError::CapabilityExchange(joined3("expected <hello>, got <", root.name.as_str(), ">")));
    }
    let capabilities = match child(&root, "capabilities") {
        Some(caps) => named_texts_exec(caps, "capability"),
        None => Vec::new(),
    };
    let session_id = match child(&root, "session-id") {
        Some(sid) => trimmed_u32(sid.text_content()),
        None => None,
    };
    let h = Hello { capabilities, session_id };
    assert(hello_view(h).capabilities =~= match named(xml_view(root), "capabilities"@) {
        Some(c) => named_texts(c, "capability"@),
        None => Seq::empty(),
    });
    Ok(h)
}

/// Parse an `<rpc>` request from an XML document string.
pub fn parse_rpc(input: &str) -> (r: Result<Rpc, NetconfError>)
    requires
        input.spec_bytes().len() + 32 < usize::MAX,
    ensures
        rpc_result_view(r) == match spec_root(input.spec_bytes()) {
            Ok((m, _)) => spec_rpc(m),
            Err(f) => Err(parse_failure(f)),
        },
{
    let root = match parse_root(input) {
        Ok(x) => x,
        Err(e) => {
            return Err(e);
        },
    };
    if !str_eq(root.local_name(), "rpc") {
        return Err(NetconfError::Rpc(joined3("expected <rpc>, got <", root.name.as_str(), ">")));
    }
    let message_id = match root.attribute("message-id") {
        Some(v) => v.to_owned(),
        None => {
            return Err(NetconfError::MissingMessageId);
        },
    };
    if root.children.len() == 0 {
        return Err(NetconfError::Rpc(String::from_str("empty <rpc> with no operation")));
    }
    let op_el = &root.children[0];
    assert(xml_view(root).children[0] == xml_view(*op_el));
    match parse_operation(op_el) {
        Ok(operation) => Ok(Rpc { message_id, operation }),
        Err(e) => Err(e),
    }
}

/// Parse a `<rpc-reply>` from an XML document string.
pub fn parse_rpc_reply(input: &str) -> (r: Result<RpcReply, NetconfError>)
    requires
        input.spec_bytes().len() + 32 < usize::MAX,
    ensures
        rpc_reply_result_view(r) == match spec_root(input.spec_bytes()) {
            Ok((m, _)) => spec_rpc_reply(m),
            Err(f) => Err(parse_failure(f)),
        },
{
    let root = match parse_root(input) {
        Ok(x) => x,
        Err(e) => {
            return Err(e);
        },
    };
    if !str_eq(root.local_name(), "rpc-reply") {
        return Err(NetconfError::Rpc(joined3("expected <rpc-reply>, got <", root.name.as_str(), ">")));
    }
    let message_id = match root.attribute("message-id") {
        Some(v) => v.to_owned(),
        None => {
            return Err(NetconfError::MissingMessageId);
        },
    };
    let result = if child(&root, "ok").is_some() {
        ReplyResult::Okay
    } else if let Some(data) = child(&root, "data") {
        ReplyResult::Data(data.clone())
    } else if let Some(err) = child(&root, "rpc-error") {
        ReplyResult::Error(parse_rpc_error(err))
    } else {
        return Err(NetconfError::Rpc(String::from_str("<rpc-reply> without <ok>/<data>/<rpc-error>")));
    };
    Ok(RpcReply { message_id, result })
}

// ---------------------------------------------------------------------------
// Serialization
// ---------------------------------------------------------------------------

/// The `<hello>` element announcing `h`.
pub open spec fn spec_hello_xml(h: HelloModel) -> XmlModel {
    let caps = XmlModel {
        children: Seq::new(h.capabilities.len(), |i: int| text_el("capability"@, h.capabilities[i])),
        ..bare("capabilities"@)
    };
    let session = match h.session_id {
        Some(sid) => seq![text_el("session-id"@, dec_digits(sid as nat))],
        None => Seq::empty(),
    };
    XmlModel {
        name: "hello"@,
        attributes: seq![("xmlns"@, NETCONF_BASE_NS_1_0@)],
        children: seq![caps] + session,
        text: Seq::empty(),
    }
}

/// The element an operation is written as.
pub open spec fn spec_operation_xml(op: OperationModel) -> XmlModel {
    match op {
        OperationModel::GetConfig(source) => XmlModel {
            children: seq![spec_target_element(source, "source"@)],
            ..bare("get-config"@)
        },
        OperationModel::Get(filter) => match filter {
            Some(f) => XmlModel { children: seq![f], ..bare("get"@) },
            None => bare("get"@),
        },
        OperationModel::EditConfig(target, default_op, config) => XmlModel {
            children: seq![
                spec_target_element(target, "target"@),
                text_el("default-operation"@, edit_op_text(default_op)),
                config,
            ],
            ..bare("edit-config"@)
        },
        OperationModel::CopyConfig(target, source) => XmlModel {
            children: seq![spec_target_element(target, "target"@), spec_target_element(source, "source"@)],
            ..bare("copy-config"@)
        },
        OperationModel::DeleteConfig(target) => XmlModel {
            children: seq![spec_target_element(target, "target"@)],
            ..bare("delete-config"@)
        },
        OperationModel::Lock(target) => XmlModel { children: seq![spec_target_element(target, "target"@)], ..bare("lock"@) },
        OperationModel::Unlock(target) => XmlModel {
            children: seq![spec_target_element(target, "target"@)],
            ..bare("unlock"@)
        },
        OperationModel::CloseSession => bare("close-session"@),
        OperationModel::KillSession(sid) => XmlModel {
            children: seq![text_el("session-id"@, dec_digits(sid as nat))],
            ..bare("kill-session"@)
        },
        OperationModel::DiscardChanges => bare("discard-changes"@),
        OperationModel::Other(element) => element,
    }
}

/// The `<rpc>` element of a request.
pub open spec fn spec_rpc_xml(r: RpcModel) -> XmlModel {
    XmlModel {
        name: "rpc"@,
        attributes: seq![("message-id"@, r.message_id), ("xmlns"@, NETCONF_BASE_NS_1_0@)],
        children: seq![spec_operation_xml(r.operation)],
        text: Seq::empty(),
    }
}

/// An optional text child.
pub open spec fn opt_text_el(name: Seq<char>, t: Option<Seq<char>>) -> Seq<XmlModel> {
    match t {
        Some(x) => seq![text_el(name, x)],
        None => Seq::empty(),
    }
}

/// The `<rpc-error>` element of an error.
pub open spec fn spec_rpc_error_xml(e: RpcErrorModel) -> XmlModel {
    XmlModel {
        children: seq![
            text_el("error-type"@, e.error_type),
            text_el("error-tag"@, e.error_tag),
            text_el("error-severity"@, e.error_severity),
        ] + opt_text_el("error-message"@, e.error_message) + opt_text_el("error-app-tag"@, e.error_app_tag)
            + opt_text_el("error-path"@, e.error_path) + match e.error_info {
            Some(i) => seq![i],
            None => Seq::empty(),
        },
        ..bare("rpc-error"@)
    }
}

/// The `<rpc-reply>` element of a reply.
pub open spec fn spec_rpc_reply_xml(r: RpcReplyModel) -> XmlModel {
    XmlModel {
        name: "rpc-reply"@,
        attributes: seq![("message-id"@, r.message_id), ("xmlns"@, NETCONF_BASE_NS_1_0@)],
        children: seq![
            match r.result {
                ReplyModel::Okay => bare("ok"@),
                ReplyModel::Data(d) => d,
                ReplyModel::Error(e) => spec_rpc_error_xml(e),
            },
        ],
        text: Seq::empty(),
    }
}

fn text_element(name: &str, text: &str) -> (x: Xml)
    ensures
        xml_view(x) == text_el(name@, text@),
{
    Xml::new(name).text(text)
}

/// Serialize a `<hello>` message to an element.
pub fn hello_to_xml(hello: &Hello) -> (x: Xml)
    ensures
        xml_view(x) == spec_hello_xml(hello_view(*hello)),
{
    let mut root = Xml::new("hello").attr("xmlns", NETCONF_BASE_NS_1_0);
    let mut caps = Xml::new("capabilities");
    let mut i: usize = 0;
    assert(Seq::new(0nat, |k: int| text_el("capability"@, hello.capabilities@[k]@)) =~= Seq::<XmlModel>::empty());
    while i < hello.capabilities.len()
        invariant
            i <= hello.capabilities@.len(),
            xml_view(caps) == (XmlModel {
                children: Seq::new(i as nat, |k: int| text_el("capability"@, hello.capabilities@[k]@)),
                ..bare("capabilities"@)
            }),
        decreases hello.capabilities.len() - i,
    {
        let c = text_element("capability", hello.capabilities[i].as_str());
        caps = caps.child(c);
        proof {
            assert(xml_view(caps).children =~= Seq::new(
                (i + 1) as nat,
                |k: int| text_el("capability"@, hello.capabilities@[k]@),
            ));
        }
        i = i + 1;
    }
    assert(xml_view(caps).children =~= Seq::new(
        hello_view(*hello).capabilities.len(),
        |k: int| text_el("capability"@, hello_view(*hello).capabilities[k]),
    ));
    root = root.child(caps);
    if let Some(sid) = hello.session_id {
        let s = u32_decimal(sid);
        root = root.child(text_element("session-id", s.as_str()));
    }
    assert(xml_view(root).attributes =~= seq![("xmlns"@, NETCONF_BASE_NS_1_0@)]);
    assert(xml_view(root).children =~= spec_hello_xml(hello_view(*hello)).children);
    root
}

fn operation_to_xml(op: &Operation) -> (x: Xml)
    ensures
        xml_view(x) == spec_operation_xml(operation_view(*op)),
{
    let x = match op {
        Operation::GetConfig { source } => Xml::new("get-config").child(source.to_target_element("source")),
        Operation::Get { filter } => match filter {
            Some(f) => Xml::new("get").child(f.clone()),
            None => Xml::new("get"),
        },
        Operation::EditConfig { target, default_op, config } => {
            Xml::new("edit-config").child(target.to_target_element("target")).child(
                text_element("default-operation", default_op.as_str()),
            ).child(config.clone())
        },
        Operation::CopyConfig { target, source } => {
            Xml::new("copy-config").child(target.to_target_element("target")).child(
                source.to_target_element("source"),
            )
        },
        Operation::DeleteConfig { target } => Xml::new("delete-config").child(target.to_target_element("target")),
        Operation::Lock { target } => Xml::new("lock").child(target.to_target_element("target")),
        Operation::Unlock { target } => Xml::new("unlock").child(target.to_target_element("target")),
        Operation::CloseSession => Xml::new("close-session"),
        Operation::KillSession { session_id } => {
            let s = u32_decimal(*session_id);
            Xml::new("kill-session").child(text_element("session-id", s.as_str()))
        },
        Operation::DiscardChanges => Xml::new("discard-changes"),
        Operation::Other { element } => element.clone(),
    };
    assert(xml_view(x).children =~= spec_operation_xml(operation_view(*op)).children);
    x
}

/// Serialize an [`Rpc`] to an `<rpc>` element.
pub fn rpc_to_xml(rpc: &Rpc) -> (x: Xml)
    ensures
        xml_view(x) == spec_rpc_xml(rpc_view(*rpc)),
{
    let x = Xml::new("rpc").attr("message-id", rpc.message_id.as_str()).attr("xmlns", NETCONF_BASE_NS_1_0).child(
        operation_to_xml(&rpc.operation),
    );
    assert(xml_view(x).attributes =~= spec_rpc_xml(rpc_view(*rpc)).attributes);
    assert(xml_view(x).children =~= spec_rpc_xml(rpc_view(*rpc)).children);
    x
}

fn rpc_error_to_xml(err: &RpcError) -> (x: Xml)
    ensures
        xml_view(x) == spec_rpc_error_xml(rpc_error_view(*err)),
{
    let mut el = Xml::new("rpc-error").child(text_element("error-type", err.error_type.as_str())).child(
        text_element("error-tag", err.error_tag.as_str()),
    ).child(text_element("error-severity", err.error_severity.as_str()));
    let ghost e = rpc_error_view(*err);
    let ghost base = seq![
        text_el("error-type"@, e.error_type),
        text_el("error-tag"@, e.error_tag),
        text_el("error-severity"@, e.error_severity),
    ];
    assert(xml_view(el).children =~= base);
    if let Some(m) = &err.error_message {
        el = el.child(text_element("error-message", m.as_str()));
    }
    assert(xml_view(el).children =~= base + opt_text_el("error-message"@, e.error_message));
    if let Some(t) = &err.error_app_tag {
        el = el.child(text_element("error-app-tag", t.as_str()));
    }
    assert(xml_view(el).children =~= base + opt_text_el("error-message"@, e.error_message) + opt_text_el(
        "error-app-tag"@,
        e.error_app_tag,
    ));
    if let Some(p) = &err.error_path {
        el = el.child(text_element("error-path", p.as_str()));
    }
    assert(xml_view(el).children =~= base + opt_text_el("error-message"@, e.error_message) + opt_text_el(
        "error-app-tag"@,
        e.error_app_tag,
    ) + opt_text_el("error-path"@, e.error_path));
    if let Some(info) = &err.error_info {
        el = el.child(info.clone());
    }
    assert(xml_view(el).children =~= spec_rpc_error_xml(e).children);
    el
}

/// Serialize an [`RpcReply`] to an `<rpc-reply>` element.
pub fn rpc_reply_to_xml(reply: &RpcReply) -> (x: Xml)
    ensures
        xml_view(x) == spec_rpc_reply_xml(rpc_reply_view(*reply)),
{
    let root = Xml::new("rpc-reply").attr("message-id", reply.message_id.as_str()).attr(
        "xmlns",
        NETCONF_BASE_NS_1_0,
    );
    let body = match &reply.result {
        ReplyResult::Okay => Xml::new("ok"),
        ReplyResult::Data(data) => data.clone(),
        ReplyResult::Error(err) => rpc_error_to_xml(err),
    };
    let x = root.child(body);
    assert(xml_view(x).attributes =~= spec_rpc_reply_xml(rpc_reply_view(*reply)).attributes);
    assert(xml_view(x).children =~= spec_rpc_reply_xml(rpc_reply_view(*reply)).children);
    x
}

} // verus!
