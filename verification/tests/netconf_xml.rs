//! XML DOM tests: parsing, entity decoding, namespaces and serialization.

use tpt_protocols::netconf::error::NetconfError;
use tpt_protocols::netconf::xml::{parse_root, to_string, Xml};

#[test]
fn round_trips_simple() {
    let doc =
        "<rpc message-id=\"1\"><get-config><source><running/></source></get-config></rpc>";
    let root = parse_root(doc).unwrap();
    assert_eq!(root.name, "rpc");
    assert_eq!(root.attribute("message-id"), Some("1"));
    let gc = root.child_named("get-config").unwrap();
    let src = gc.child_named("source").unwrap();
    assert!(src.child_named("running").is_some());
}

#[test]
fn decodes_entities_and_text() {
    let doc = "<x>alpha &amp; beta &lt; 3 &quot;q&quot;</x>";
    let root = parse_root(doc).unwrap();
    assert_eq!(root.text_content(), "alpha & beta < 3 \"q\"");
}

#[test]
fn handles_namespaces_and_self_closing() {
    let doc = "<nc:rpc xmlns:nc=\"urn:x\"><nc:get/></nc:rpc>";
    let root = parse_root(doc).unwrap();
    assert_eq!(root.local_name(), "rpc");
    assert!(root.child_named("get").is_some());
}

#[test]
fn serialize_is_well_formed() {
    let mut el = Xml::new("rpc").attr("message-id", "1");
    let mut gc = Xml::new("get-config");
    gc.children
        .push(Xml::new("source").child(Xml::new("running")));
    el.children.push(gc);
    let s = to_string(&el);
    assert!(s.contains("<rpc message-id=\"1\">"));
    assert!(s.contains("<running/>"));
    // Re-parse to confirm well-formedness.
    let reparsed = parse_root(&s).unwrap();
    assert_eq!(
        reparsed.child_named("get-config").unwrap().local_name(),
        "get-config"
    );
}

#[test]
fn serialized_document_has_exact_layout() {
    let el = Xml::new("a")
        .attr("k", "x\"<y")
        .child(Xml::new("b").text("1 & 2"))
        .child(Xml::new("c"));
    let s = to_string(&el);
    assert_eq!(
        s,
        "<?xml version=\"1.0\" encoding=\"UTF-8\"?>\n<a k=\"x&quot;&lt;y\">\n  <b>1 &amp; 2</b>\n  <c/>\n</a>\n"
    );
    let back = parse_root(&s).unwrap();
    assert_eq!(back, el);
}

#[test]
fn comments_cdata_and_character_references() {
    let doc = "<?xml version=\"1.0\"?>\n<!-- lead --><r><!-- c --><v>&#65;&#x42;&bogus;</v><w/></r>";
    let root = parse_root(doc).unwrap();
    assert_eq!(root.children.len(), 2);
    // Decimal and hexadecimal references are decoded, and an unknown entity
    // leaves a bare `&`.
    assert_eq!(root.children[0].text, "AB&");
    assert_eq!(root.attribute("missing"), None);
    assert_eq!(root.children_named("v").len(), 1);
    // A CDATA section as the document element.
    let cdata = parse_root("<![CDATA[xy]]>").unwrap();
    assert_eq!(cdata.name, "#cdata");
    assert_eq!(cdata.text, "xy");
}

#[test]
fn cdata_in_content_is_a_child() {
    let root = parse_root("<a>t<![CDATA[x<y]]><b/></a>").unwrap();
    assert_eq!(root.children.len(), 2);
    assert_eq!(root.children[0].name, "#cdata");
    assert_eq!(root.children[0].text, "x<y");
    assert_eq!(root.children[1].name, "b");
    assert_eq!(root.text, "t");
}

#[test]
fn malformed_documents_are_reported() {
    match parse_root("<a></b>") {
        Err(NetconfError::XmlParse(m)) => {
            assert_eq!(m, "malformed xml: mismatched closing tag </b> for <a>")
        }
        _ => panic!("expected a parse error"),
    }
    match parse_root("<a x=1/>") {
        Err(NetconfError::XmlParse(m)) => assert_eq!(m, "malformed xml: expected quote in attribute"),
        _ => panic!("expected a parse error"),
    }
    match parse_root("<a>text") {
        Err(NetconfError::XmlParse(m)) => assert_eq!(m, "unexpected end of input"),
        _ => panic!("expected a parse error"),
    }
    match parse_root("plain") {
        Err(NetconfError::XmlParse(m)) => assert_eq!(m, "malformed xml: expected `<`"),
        _ => panic!("expected a parse error"),
    }
}

/// Character references name code points in decimal or after `#x` in
/// hexadecimal; one that names no character gives nothing.
#[test]
fn character_references() {
    let root = parse_root("<a>&#x3c;&#X41;&#x1F600;&#xD800;&#+66;&#x;</a>").unwrap();
    assert_eq!(root.text, "<\u{1F600}B");
}

/// Markup the reader cannot step over is reported, not left hanging.
#[test]
fn unsupported_markup_is_an_error() {
    for doc in ["<a><!x></a>", "<a><![CDATAxyz", "<![nothing"] {
        match parse_root(doc) {
            Err(NetconfError::XmlParse(m)) => assert_eq!(m, "malformed xml: unsupported or unterminated markup"),
            other => panic!("unexpected {:?}", other),
        }
    }
}
