//! In-memory datastore and RPC dispatch tests.

use tpt_protocols::netconf::error::NetconfError;
use tpt_protocols::netconf::message::{DatastoreName, EditDefaultOp, Operation, ReplyResult, Rpc};
use tpt_protocols::netconf::server::{accept_client_hello, dispatch, Datastore, InMemoryDatastore};
use tpt_protocols::netconf::xml::Xml;

fn seeded() -> InMemoryDatastore {
    let mut store = InMemoryDatastore::new();
    store.seed(
        DatastoreName::Running,
        vec![Xml::new("system").child(Xml::new("hostname").text("router-a"))],
    );
    store
}

fn rpc(op: Operation) -> Rpc {
    Rpc { message_id: "11".into(), operation: op }
}

#[test]
fn get_config_returns_seeded_tree() {
    let mut store = seeded();
    let reply = dispatch(&rpc(Operation::GetConfig { source: DatastoreName::Running }), &mut store).unwrap();
    assert_eq!(reply.message_id, "11");
    match reply.result {
        ReplyResult::Data(data) => {
            assert_eq!(data.name, "data");
            let sys = data.child_named("system").unwrap();
            assert_eq!(sys.child_named("hostname").unwrap().text_content(), "router-a");
        }
        other => panic!("unexpected {:?}", other),
    }
}

#[test]
fn merge_edit_is_visible_afterwards() {
    let mut store = seeded();
    let cfg = Xml::new("config").child(Xml::new("interfaces").child(Xml::new("interface").text("eth0")));
    let edit = dispatch(
        &rpc(Operation::EditConfig { target: DatastoreName::Running, default_op: EditDefaultOp::Merge, config: cfg }),
        &mut store,
    )
    .unwrap();
    assert_eq!(edit.result, ReplyResult::Okay);
    let data = store.get(None).unwrap();
    assert_eq!(data.children.len(), 2);
    let ifaces = data.child_named("interfaces").unwrap();
    assert_eq!(ifaces.child_named("interface").unwrap().text_content(), "eth0");
}

#[test]
fn create_conflict_keeps_earlier_nodes() {
    let mut store = seeded();
    let cfg = Xml::new("config").child(Xml::new("ntp")).child(Xml::new("system")).child(Xml::new("dns"));
    match store.edit_config(DatastoreName::Running, EditDefaultOp::Create, &cfg) {
        Err(NetconfError::Rpc(m)) => assert_eq!(m, "create failed: node <system> already exists"),
        other => panic!("unexpected {:?}", other),
    }
    let data = store.get(None).unwrap();
    let names: Vec<&str> = data.children.iter().map(|c| c.name.as_str()).collect();
    assert_eq!(names, vec!["system", "ntp"]);
}

#[test]
fn replace_and_delete_edits() {
    let mut store = seeded();
    let cfg = Xml::new("config").child(Xml::new("a")).child(Xml::new("b"));
    store.edit_config(DatastoreName::Running, EditDefaultOp::Replace, &cfg).unwrap();
    let del = Xml::new("config").child(Xml::new("a")).child(Xml::new("zzz"));
    store.edit_config(DatastoreName::Running, EditDefaultOp::Delete, &del).unwrap();
    let data = store.get(None).unwrap();
    assert_eq!(data.children.len(), 1);
    assert_eq!(data.children[0].name, "b");
    store.edit_config(DatastoreName::Running, EditDefaultOp::NoneOp, &cfg).unwrap();
    assert_eq!(store.get(None).unwrap().children.len(), 1);
}

#[test]
fn lock_holder_may_write() {
    let mut store = seeded();
    store.lock(DatastoreName::Running).unwrap();
    match store.lock(DatastoreName::Running) {
        Err(NetconfError::Rpc(m)) => assert_eq!(m, "lock-denied: <Running> already locked"),
        other => panic!("unexpected {:?}", other),
    }
    let cfg = Xml::new("config").child(Xml::new("x"));
    store.edit_config(DatastoreName::Running, EditDefaultOp::Merge, &cfg).unwrap();
    assert!(store.get(None).unwrap().child_named("x").is_some());
    store.unlock(DatastoreName::Running).unwrap();
    store.edit_config(DatastoreName::Running, EditDefaultOp::Merge, &cfg).unwrap();
    store.lock(DatastoreName::Candidate).unwrap();
    store.close_session().unwrap();
    store.lock(DatastoreName::Candidate).unwrap();
}

#[test]
fn copy_and_delete_config() {
    let mut store = seeded();
    match store.get_config(DatastoreName::Startup) {
        Err(NetconfError::UnknownDatastore(m)) => assert_eq!(m, "Startup"),
        other => panic!("unexpected {:?}", other),
    }
    store.copy_config(DatastoreName::Startup, DatastoreName::Running).unwrap();
    let startup = store.get_config(DatastoreName::Startup).unwrap();
    assert!(startup.child_named("system").is_some());
    store.delete_config(DatastoreName::Startup).unwrap();
    assert_eq!(store.get_config(DatastoreName::Startup).unwrap().children.len(), 0);
    match store.delete_config(DatastoreName::Running) {
        Err(NetconfError::Rpc(m)) => assert_eq!(m, "<delete-config> of the running datastore is not permitted"),
        other => panic!("unexpected {:?}", other),
    }
    match store.get_config(DatastoreName::Url("u".into())) {
        Err(NetconfError::UnknownDatastore(m)) => assert_eq!(m, "Url(\"u\")"),
        other => panic!("unexpected {:?}", other),
    }
}

#[test]
fn unsupported_operations_get_error_replies() {
    let mut store = seeded();
    let reply = dispatch(&rpc(Operation::KillSession { session_id: 3 }), &mut store).unwrap();
    match reply.result {
        ReplyResult::Error(e) => {
            assert_eq!(e.error_type, "application");
            assert_eq!(e.error_tag, "operation-failed");
            assert_eq!(e.error_message.as_deref(), Some("<kill-session> is not supported by this server"));
        }
        other => panic!("unexpected {:?}", other),
    }
    let reply = dispatch(&rpc(Operation::Other { element: Xml::new("nc:commit") }), &mut store).unwrap();
    match reply.result {
        ReplyResult::Error(e) => assert_eq!(e.error_message.as_deref(), Some("operation <commit> is not supported")),
        other => panic!("unexpected {:?}", other),
    }
    let reply = dispatch(&rpc(Operation::GetConfig { source: DatastoreName::Candidate }), &mut store).unwrap();
    match reply.result {
        ReplyResult::Error(e) => {
            assert_eq!(e.error_type, "protocol");
            assert_eq!(e.error_tag, "invalid-value");
            assert_eq!(e.error_message.as_deref(), Some("unknown datastore: Candidate"));
        }
        other => panic!("unexpected {:?}", other),
    }
}

/// The capability exchange accepts a client hello naming a base capability
/// and refuses one that names none, or that does not parse as a hello.
#[test]
fn client_hello_needs_a_base_capability() {
    let ok = "<hello xmlns=\"urn:ietf:params:xml:ns:netconf:base:1.0\"><capabilities>\
              <capability>urn:example:x</capability>\
              <capability>urn:ietf:params:xml:ns:netconf:base:1.1</capability>\
              </capabilities></hello>";
    let h = accept_client_hello(ok).unwrap();
    assert_eq!(h.capabilities.len(), 2);
    let none = "<hello><capabilities><capability>urn:example:x</capability></capabilities></hello>";
    match accept_client_hello(none) {
        Err(NetconfError::CapabilityExchange(m)) => {
            assert_eq!(m, "client did not advertise a NETCONF base capability")
        }
        other => panic!("unexpected {:?}", other),
    }
    match accept_client_hello("<rpc/>") {
        Err(NetconfError::CapabilityExchange(m)) => {
            assert_eq!(m, "capability exchange error: expected <hello>, got <rpc>")
        }
        other => panic!("unexpected {:?}", other),
    }
}
