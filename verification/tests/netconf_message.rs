//! NETCONF message tests: hello, rpc and rpc-reply written and read back.

use tpt_protocols::netconf::error::NetconfError;
use tpt_protocols::netconf::message::{
    hello_to_xml, parse_hello, parse_rpc, parse_rpc_reply, rpc_reply_to_xml, rpc_to_xml, DatastoreName,
    EditDefaultOp, Hello, Operation, ReplyResult, Rpc, RpcError, RpcReply, NETCONF_BASE_NS_1_0,
};
use tpt_protocols::netconf::xml::{to_string, Xml};

#[test]
fn hello_round_trips() {
    let h = Hello::server_default(42);
    let xml = to_string(&hello_to_xml(&h));
    let back = parse_hello(&xml).unwrap();
    assert_eq!(back.session_id, Some(42));
    assert!(back.capabilities.contains(&NETCONF_BASE_NS_1_0.to_string()));
}

#[test]
fn get_config_rpc_round_trips() {
    let rpc = Rpc {
        message_id: "101".into(),
        operation: Operation::GetConfig {
            source: DatastoreName::Running,
        },
    };
    let xml = to_string(&rpc_to_xml(&rpc));
    let back = parse_rpc(&xml).unwrap();
    assert_eq!(back.message_id, "101");
    assert_eq!(
        back.operation,
        Operation::GetConfig {
            source: DatastoreName::Running
        }
    );
}

#[test]
fn edit_config_rpc_round_trips() {
    let cfg = Xml::new("config").child(Xml::new("interface").text("eth0"));
    let rpc = Rpc {
        message_id: "7".into(),
        operation: Operation::EditConfig {
            target: DatastoreName::Candidate,
            default_op: EditDefaultOp::Replace,
            config: cfg,
        },
    };
    let xml = to_string(&rpc_to_xml(&rpc));
    let back = parse_rpc(&xml).unwrap();
    assert_eq!(back.operation, rpc.operation);
}

#[test]
fn rpc_reply_ok_and_error() {
    let ok = RpcReply {
        message_id: "1".into(),
        result: ReplyResult::Okay,
    };
    let xml = to_string(&rpc_reply_to_xml(&ok));
    let back = parse_rpc_reply(&xml).unwrap();
    assert_eq!(back.result, ReplyResult::Okay);

    let err = RpcError::application("invalid-value", "bad leaf");
    let reply = err.into_reply("1");
    let xml = to_string(&rpc_reply_to_xml(&reply));
    let back = parse_rpc_reply(&xml).unwrap();
    match back.result {
        ReplyResult::Error(e) => assert_eq!(e.error_tag, "invalid-value"),
        _ => panic!("expected error"),
    }
}

#[test]
fn rpc_reply_data_round_trips() {
    let data = Xml::new("data").child(Xml::new("interfaces"));
    let reply = RpcReply {
        message_id: "5".into(),
        result: ReplyResult::Data(data),
    };
    let xml = to_string(&rpc_reply_to_xml(&reply));
    let back = parse_rpc_reply(&xml).unwrap();
    match back.result {
        ReplyResult::Data(d) => assert_eq!(d.local_name(), "data"),
        _ => panic!("expected data"),
    }
}

#[test]
fn every_operation_reads_back() {
    let ops = vec![
        Operation::Get { filter: None },
        Operation::Get { filter: Some(Xml::new("filter").attr("type", "subtree")) },
        Operation::CopyConfig { target: DatastoreName::Startup, source: DatastoreName::Url("ftp://x/y".into()) },
        Operation::DeleteConfig { target: DatastoreName::Startup },
        Operation::Lock { target: DatastoreName::Running },
        Operation::Unlock { target: DatastoreName::Candidate },
        Operation::CloseSession,
        Operation::KillSession { session_id: 4294967295 },
        Operation::DiscardChanges,
        Operation::Other { element: Xml::new("commit") },
    ];
    for op in ops {
        let rpc = Rpc { message_id: "9".into(), operation: op };
        let back = parse_rpc(&to_string(&rpc_to_xml(&rpc))).unwrap();
        assert_eq!(back, rpc);
    }
}

#[test]
fn rpc_errors_are_reported() {
    match parse_rpc("<hello/>") {
        Err(NetconfError::Rpc(m)) => assert_eq!(m, "expected <rpc>, got <hello>"),
        other => panic!("unexpected {:?}", other),
    }
    assert!(matches!(parse_rpc("<rpc><get/></rpc>"), Err(NetconfError::MissingMessageId)));
    match parse_rpc("<rpc message-id=\"1\"/>") {
        Err(NetconfError::Rpc(m)) => assert_eq!(m, "empty <rpc> with no operation"),
        other => panic!("unexpected {:?}", other),
    }
    match parse_rpc("<rpc message-id=\"1\"><lock><target><bogus/></target></lock></rpc>") {
        Err(NetconfError::UnknownDatastore(m)) => assert_eq!(m, "bogus"),
        other => panic!("unexpected {:?}", other),
    }
    match parse_rpc("<rpc message-id=\"1\"><kill-session><session-id>x</session-id></kill-session></rpc>") {
        Err(NetconfError::Rpc(m)) => assert_eq!(m, "bad session-id"),
        other => panic!("unexpected {:?}", other),
    }
    match parse_hello("<rpc/>") {
        Err(NetconfError::CapabilityExchange(m)) => assert_eq!(m, "expected <hello>, got <rpc>"),
        other => panic!("unexpected {:?}", other),
    }
    match parse_rpc_reply("<rpc-reply message-id=\"3\"><other/></rpc-reply>") {
        Err(NetconfError::Rpc(m)) => assert_eq!(m, "<rpc-reply> without <ok>/<data>/<rpc-error>"),
        other => panic!("unexpected {:?}", other),
    }
}

#[test]
fn rpc_error_defaults_and_trimming() {
    let reply = parse_rpc_reply(
        "<rpc-reply message-id=\"3\"><rpc-error><error-tag>  lock-denied \n</error-tag><error-info><session-id>4</session-id></error-info></rpc-error></rpc-reply>",
    )
    .unwrap();
    match reply.result {
        ReplyResult::Error(e) => {
            assert_eq!(e.error_type, "application");
            assert_eq!(e.error_tag, "lock-denied");
            assert_eq!(e.error_severity, "error");
            assert_eq!(e.error_message, None);
            assert_eq!(e.error_info.unwrap().children[0].text, "4");
        }
        _ => panic!("expected error"),
    }
}
