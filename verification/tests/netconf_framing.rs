//! Framing tests: base and chunked framing through the incremental decoder.

use tpt_protocols::netconf::framing::{encode_message, FrameDecoder, BASE_EOM};
use tpt_protocols::netconf::xml::parse_root;

#[test]
fn base_framing_round_trips() {
    let msg = "<rpc message-id=\"1\"><get/></rpc>";
    let framed = encode_message(msg);
    assert!(framed.ends_with(BASE_EOM));
    let mut dec = FrameDecoder::new();
    let msgs = dec.push(&framed).unwrap();
    assert_eq!(msgs, vec![msg.to_string()]);
}

#[test]
fn decoder_handles_partial_base_frames() {
    let framed = encode_message("<hello/>");
    let mut dec = FrameDecoder::new();
    let mut collected = Vec::new();
    for i in 0..framed.len() {
        collected.extend(dec.push(&framed[i..=i]).unwrap());
    }
    assert_eq!(collected, vec!["<hello/>".to_string()]);
}

#[test]
fn two_messages_in_one_buffer() {
    let a = encode_message("<rpc/>");
    let b = encode_message("<rpc message-id=\"2\"/>");
    let mut all = Vec::new();
    all.extend_from_slice(&a);
    all.extend_from_slice(&b);
    let mut dec = FrameDecoder::new();
    let msgs = dec.push(&all).unwrap();
    assert_eq!(msgs.len(), 2);
    assert_eq!(msgs[0], "<rpc/>");
    assert_eq!(msgs[1], "<rpc message-id=\"2\"/>");
}

#[test]
fn chunked_message_is_read_back() {
    let msg = "<rpc><x>content with ]]> inside</x></rpc>";
    let framed = encode_message(msg);
    assert!(framed.starts_with(b"#"));
    assert!(framed.ends_with(b"##\n"));
    let mut dec = FrameDecoder::new();
    let mut collected = Vec::new();
    for i in 0..framed.len() {
        collected.extend(dec.push(&framed[i..=i]).unwrap());
    }
    assert_eq!(collected, vec![format!("{}\n", msg)]);
    assert_eq!(dec.buffered(), 0);
}

#[test]
fn malformed_chunk_header_is_reported() {
    let mut dec = FrameDecoder::new();
    let err = dec.push(b"#12x\nabc").unwrap_err();
    match err {
        tpt_protocols::netconf::NetconfError::Framing(m) => assert_eq!(m, "invalid chunk size: \"12x\""),
        other => panic!("unexpected error {:?}", other),
    }
}

#[test]
fn chunked_framing_round_trips() {
    let msg =
        "<rpc message-id=\"1\"><edit-config><config><a>]]></a></config></edit-config></rpc>";
    let framed = encode_message(msg);
    assert!(framed.starts_with(b"#"));
    let mut dec = FrameDecoder::new();
    let msgs = dec.push(&framed).unwrap();
    // Chunked framing terminates each chunk with a newline (RFC 6242 §4.2),
    // so compare the parsed XML rather than raw bytes.
    let original = parse_root(msg).unwrap();
    let decoded = parse_root(&msgs[0]).unwrap();
    assert_eq!(decoded, original);
}

#[test]
fn chunked_handles_partial_bytes() {
    let msg = "<rpc><x>content with ]]> inside</x></rpc>";
    let framed = encode_message(msg);
    let mut dec = FrameDecoder::new();
    let mut collected = Vec::new();
    for i in 0..framed.len() {
        collected.extend(dec.push(&framed[i..=i]).unwrap());
    }
    let original = parse_root(msg).unwrap();
    let decoded = parse_root(&collected[0]).unwrap();
    assert_eq!(decoded, original);
}

/// The messages do not depend on how the input is cut into pushes.
#[test]
fn split_points_do_not_change_messages() {
    let mut input: Vec<u8> = Vec::new();
    input.extend_from_slice(b"  <hello/>]]>]]>");
    input.extend_from_slice(b"\n#4\n<rpc#2\n/>##\n");
    input.extend_from_slice(b"<close-session/>]]>]]><partial");
    let mut whole = FrameDecoder::new();
    let expected = whole.push(&input).unwrap();
    assert_eq!(expected, vec!["<hello/>".to_string(), "<rpc/>".to_string(), "<close-session/>".to_string()]);
    for cut in 0..=input.len() {
        let mut dec = FrameDecoder::new();
        let mut got = dec.push(&input[..cut]).unwrap();
        got.extend(dec.push(&input[cut..]).unwrap());
        assert_eq!(got, expected, "cut at {}", cut);
    }
    let mut bytewise = FrameDecoder::new();
    let mut got: Vec<String> = Vec::new();
    for b in &input {
        got.extend(bytewise.push(&[*b]).unwrap());
    }
    assert_eq!(got, expected);
}
