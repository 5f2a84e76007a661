//! Codec tests for the BER layer: what a cut encoding decodes to.

use tpt_protocols::ldap::ber::{BerElement, BerError};

/// Every proper prefix of an encoding reports the input truncated, and the
/// whole encoding decodes back.
#[test]
fn proper_prefixes_are_truncated() {
    let long = vec![7u8; 300];
    let e = BerElement::sequence(vec![
        BerElement::integer(-129),
        BerElement::octet_string(&long),
        BerElement::context_primitive(40, b"hi"),
    ]);
    let bytes = e.encode();
    for k in 0..bytes.len() {
        match BerElement::decode_partial(&bytes[..k]) {
            Err(BerError::Truncated) => {}
            other => panic!("prefix {} gave {:?}", k, other.map(|(_, n)| n)),
        }
    }
    let (back, n) = BerElement::decode_partial(&bytes).unwrap();
    assert_eq!(n, bytes.len());
    assert_eq!(back.encode(), bytes);
}
