//! Error types for the NETCONF library.

use vstd::prelude::*;
use vstd::string::StringExecFns;

verus! {

/// Errors produced while handling NETCONF sessions and messages.
#[derive(Debug)]
pub enum NetconfError {
    /// The XML in a NETCONF message could not be parsed.
    XmlParse(String),
    /// A message failed the NETCONF framing rules (RFC 6242).
    Framing(String),
    /// The transport (SSH channel) reported a closed connection.
    TransportClosed,
    /// A NETCONF `<rpc>` was received without a `message-id` attribute.
    MissingMessageId,
    /// The `<hello>` capability exchange did not complete.
    CapabilityExchange(String),
    /// An operation was attempted against an unsupported datastore.
    UnknownDatastore(String),
    /// An RPC produced an error reply.
    Rpc(String),
    /// A low-level I/O/transport failure.
    Io(String),
    /// An error of the underlying SSH transport.
    Ssh(String),
}

/// The value of a `NetconfError`: its kind and its text.
pub enum ErrorModel {
    XmlParse(Seq<char>),
    Framing(Seq<char>),
    TransportClosed,
    MissingMessageId,
    CapabilityExchange(Seq<char>),
    UnknownDatastore(Seq<char>),
    Rpc(Seq<char>),
    Io(Seq<char>),
    Ssh(Seq<char>),
}

/// The model of an error.
pub open spec fn error_view(e: NetconfError) -> ErrorModel {
    match e {
        NetconfError::XmlParse(s) => ErrorModel::XmlParse(s@),
        NetconfError::Framing(s) => ErrorModel::Framing(s@),
        NetconfError::TransportClosed => ErrorModel::TransportClosed,
        NetconfError::MissingMessageId => ErrorModel::MissingMessageId,
        NetconfError::CapabilityExchange(s) => ErrorModel::CapabilityExchange(s@),
        NetconfError::UnknownDatastore(s) => ErrorModel::UnknownDatastore(s@),
        NetconfError::Rpc(s) => ErrorModel::Rpc(s@),
        NetconfError::Io(s) => ErrorModel::Io(s@),
        NetconfError::Ssh(s) => ErrorModel::Ssh(s@),
    }
}

/// The human-readable text of an error.
pub open spec fn error_text(e: ErrorModel) -> Seq<char> {
    match e {
        ErrorModel::XmlParse(s) => "xml parse error: "@ + s,
        ErrorModel::Framing(s) => "framing error: "@ + s,
        ErrorModel::TransportClosed => "transport closed"@,
        ErrorModel::MissingMessageId => "rpc is missing the required message-id attribute"@,
        ErrorModel::CapabilityExchange(s) => "capability exchange error: "@ + s,
        ErrorModel::UnknownDatastore(s) => "unknown datastore: "@ + s,
        ErrorModel::Rpc(s) => "rpc error: "@ + s,
        ErrorModel::Io(s) => "io error: "@ + s,
        ErrorModel::Ssh(s) => "ssh transport error: "@ + s,
    }
}

fn prefixed(p: &str, s: &String) -> (r: String)
    ensures
        r@ == p@ + s@,
{
    let mut r = String::from_str(p);
    r.append(s.as_str());
    r
}

impl NetconfError {
    /// The human-readable text of the error.
    pub fn message(&self) -> (r: String)
        ensures
            r@ == error_text(error_view(*self)),
    {
        match self {
            NetconfError::XmlParse(s) => prefixed("xml parse error: ", s),
            NetconfError::Framing(s) => prefixed("framing error: ", s),
            NetconfError::TransportClosed => String::from_str("transport closed"),
            NetconfError::MissingMessageId => String::from_str("rpc is missing the required message-id attribute"),
            NetconfError::CapabilityExchange(s) => prefixed("capability exchange error: ", s),
            NetconfError::UnknownDatastore(s) => prefixed("unknown datastore: ", s),
            NetconfError::Rpc(s) => prefixed("rpc error: ", s),
            NetconfError::Io(s) => prefixed("io error: ", s),
            NetconfError::Ssh(s) => prefixed("ssh transport error: ", s),
        }
    }
}

} // verus!
