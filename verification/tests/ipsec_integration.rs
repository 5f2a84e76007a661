//! Integration tests for the IKEv2 / IPsec library: key expansion,
//! Diffie-Hellman agreement and proposal negotiation.

use tpt_protocols::ipsec::transforms::{default_esp_proposal, Proposal, Transform};
use tpt_protocols::ipsec::types::{ProtocolId, TransformType};
use tpt_protocols::ipsec::message::NoncePayload;

use tpt_protocols::ipsec::crypto::{Dh, Prf};
use tpt_protocols::ipsec::transforms::{default_ike_proposal, SaPayload};
use tpt_protocols::ipsec::message::{Header, Message, Payload};
use tpt_protocols::ipsec::types::{DhGroup, ExchangeType, PayloadType, IKE_VERSION};
use tpt_protocols::ipsec::message::decode_id_body;
use tpt_protocols::ipsec::Error;
use tpt_protocols::ipsec::crypto::{Encr, Integ};
use tpt_protocols::ipsec::message::EncryptedPayload;

#[test]
fn prf_plus_expansion_is_well_formed() {
    // prf+(K, seed) must begin with prf(K, seed) and grow in 32-byte blocks.
    let prf = Prf::Sha256;
    let key = [0x11u8; 32];
    let seed = b"ikeyseed-seed".to_vec();
    let full = prf.prf_plus(&key, &seed, 96);
    assert_eq!(full.len(), 96);
    let first = prf.prf(&key, &seed);
    assert_eq!(&full[..32], first.as_slice());
    // Ti = prf(K, T{i-1} | seed): third block derived from second block.
    let mut data1 = first.clone();
    data1.extend_from_slice(&seed);
    let second = prf.prf(&key, &data1);
    assert_eq!(&full[32..64], second.as_slice());
    let mut data = second.clone();
    data.extend_from_slice(&seed);
    let third = prf.prf(&key, &data);
    assert_eq!(&full[64..96], third.as_slice());
}

#[test]
fn dh_shared_secret_is_symmetric() {
    let a = Dh::generate(DhGroup::Curve25519).unwrap();
    let b = Dh::generate(DhGroup::Curve25519).unwrap();
    let sa = a.shared(&b.public).unwrap();
    let sb = b.shared(&a.public).unwrap();
    assert_eq!(sa, sb);
    assert!(!sa.iter().all(|&x| x == 0));
}

#[test]
fn default_proposal_negotiates() {
    let offer = SaPayload {
        proposals: vec![default_ike_proposal()],
    };
    let chosen = offer
        .select(&SaPayload {
            proposals: vec![default_ike_proposal()],
        })
        .unwrap();
    assert_eq!(chosen.proposals.len(), 1);
}

#[test]
fn header_codec_round_trip() {
    let h = Header {
        spi_i: [1, 2, 3, 4, 5, 6, 7, 8],
        spi_r: [8, 7, 6, 5, 4, 3, 2, 1],
        next_payload: PayloadType::Sa,
        version: IKE_VERSION,
        exchange: ExchangeType::IkeSaInit,
        flags: 0x08,
        message_id: 7,
        length: 64,
    };
    let bytes = h.encode();
    let decoded = Header::decode(&bytes).unwrap();
    assert_eq!(decoded, h);
    assert!(decoded.is_initiator());
    assert!(!decoded.is_response());
}

#[test]
fn sa_payload_codec_round_trip() {
    let sa = SaPayload {
        proposals: vec![default_ike_proposal()],
    };
    let body = tpt_protocols::ipsec::message::encode_sa_body(&sa);
    let decoded = tpt_protocols::ipsec::message::decode_sa_body(&body).unwrap();
    assert_eq!(decoded.proposals.len(), 1);
    assert_eq!(decoded.proposals[0].transforms.len(), 5);
}

#[test]
fn message_codec_round_trip() {
    let sa = SaPayload {
        proposals: vec![default_ike_proposal()],
    };
    let dh = Dh::generate(DhGroup::Curve25519).unwrap();
    let msg = Message {
        header: Header {
            spi_i: [9u8; 8],
            spi_r: [0u8; 8],
            next_payload: PayloadType::Sa,
            version: IKE_VERSION,
            exchange: ExchangeType::IkeSaInit,
            flags: 0x08,
            message_id: 0,
            length: 0,
        },
        payloads: vec![
            Payload::Sa(sa),
            Payload::Ke(tpt_protocols::ipsec::message::KePayload {
                group: DhGroup::Curve25519,
                public_key: dh.public.clone(),
            }),
            Payload::Nonce(tpt_protocols::ipsec::message::NoncePayload {
                nonce: vec![0xaa; 16],
            }),
        ],
    };
    let bytes = msg.encode();
    let decoded = Message::decode(&bytes).unwrap();
    assert_eq!(decoded.payloads.len(), 3);
    assert!(matches!(decoded.payloads[0], Payload::Sa(_)));
    assert!(matches!(decoded.payloads[1], Payload::Ke(_)));
    assert!(matches!(decoded.payloads[2], Payload::Nonce(_)));
}

/// The SA body follows RFC 7296 §3.3: an eight-octet proposal header with its
/// length, and the key length as a fixed-length (TV) attribute.
#[test]
fn sa_body_has_rfc7296_layout() {
    let sa = SaPayload { proposals: vec![default_ike_proposal()] };
    let body = tpt_protocols::ipsec::message::encode_sa_body(&sa);
    assert_eq!(
        body,
        vec![
            0, 0, 0, 52, 1, 1, 0, 5, 3, 0, 0, 12, 1, 0, 0, 12, 0x80, 0x0E, 0x00, 0x80, 3, 0, 0, 8, 2, 0, 0, 2, 3, 0,
            0, 8, 3, 0, 0, 12, 3, 0, 0, 8, 4, 0, 0, 31, 0, 0, 0, 8, 5, 0, 0, 0
        ]
    );
}

/// Each transform's attributes are read within its own length.
#[test]
fn key_length_stays_with_its_transform() {
    let p = Proposal::new(
        ProtocolId::Ike,
        vec![Transform::new(TransformType::Prf, 2), Transform::new(TransformType::Encr, 12).with_key(16)],
    );
    let sa = SaPayload { proposals: vec![p] };
    let body = tpt_protocols::ipsec::message::encode_sa_body(&sa);
    let d = tpt_protocols::ipsec::message::decode_sa_body(&body).unwrap();
    assert_eq!(d, sa);
    assert_eq!(d.proposals[0].transforms[0].key_len, None);
}

/// An ESP proposal is selected when it agrees with the policy on the
/// transforms ESP requires.
#[test]
fn esp_proposal_is_selected() {
    let offer = SaPayload { proposals: vec![default_esp_proposal(&[1, 2, 3, 4])] };
    let chosen = offer.select(&offer).unwrap();
    assert_eq!(chosen.proposals.len(), 1);
    assert_eq!(chosen.proposals[0].transforms.len(), 3);
}

/// A payload length need not be a multiple of four (RFC 7296 §3.2).
#[test]
fn odd_length_nonce_decodes() {
    let msg = Message {
        header: Header {
            spi_i: [1u8; 8],
            spi_r: [0u8; 8],
            next_payload: PayloadType::Nonce,
            version: IKE_VERSION,
            exchange: ExchangeType::IkeSaInit,
            flags: 0x08,
            message_id: 0,
            length: 0,
        },
        payloads: vec![Payload::Nonce(NoncePayload { nonce: vec![0xaa; 17] })],
    };
    let bytes = msg.encode();
    assert_eq!(bytes.len(), 28 + 4 + 17);
    let d = Message::decode(&bytes).unwrap();
    match &d.payloads[0] {
        Payload::Nonce(n) => assert_eq!(n.nonce, vec![0xaa; 17]),
        other => panic!("unexpected {:?}", other),
    }
}

/// An ID body too short for its three reserved octets is truncated.
#[test]
fn short_id_body_is_truncated() {
    assert!(matches!(decode_id_body(&[11]), Err(Error::Truncated { needed: 4, have: 1 })));
    assert!(matches!(decode_id_body(&[]), Err(Error::Truncated { needed: 1, have: 0 })));
    assert!(matches!(decode_id_body(&[200, 0, 0, 0]), Err(Error::UnsupportedIdType(200))));
    match decode_id_body(&[11, 0, 0, 0, 7]) {
        Ok(id) => assert_eq!(id.data, vec![7]),
        Err(e) => panic!("unexpected {:?}", e),
    }
}

fn sk_header() -> Header {
    Header {
        spi_i: [3u8; 8],
        spi_r: [4u8; 8],
        next_payload: PayloadType::Sk,
        version: IKE_VERSION,
        exchange: ExchangeType::IkeAuth,
        flags: 0x08,
        message_id: 1,
        length: 0,
    }
}

/// Decrypting a CBC SK payload gives back the payloads it was built from.
#[test]
fn sk_cbc_round_trip() {
    let inner = vec![Payload::Nonce(NoncePayload { nonce: vec![5u8; 21] })];
    let h = sk_header();
    let encr = Encr::AesCbc { key_len: 16 };
    let integ = Some(Integ::HmacSha256_128);
    let sk_e = [1u8; 16];
    let sk_a = [2u8; 32];
    let e = EncryptedPayload::encrypt(encr, integ, &h, PayloadType::Nonce, &inner, &sk_e, &sk_a, None, None).unwrap();
    assert_eq!(e.iv.len(), 16);
    assert_eq!(e.ciphertext.len() % 16, 0);
    assert_eq!(e.icv.len(), 16);
    let back = e.decrypt(encr, integ, &h, &sk_e, &sk_a, &[]).unwrap();
    assert_eq!(back.len(), 1);
    match &back[0] {
        Payload::Nonce(n) => assert_eq!(n.nonce, vec![5u8; 21]),
        other => panic!("unexpected {:?}", other),
    }
    // A flipped ciphertext octet fails the integrity check.
    let mut bad = e.clone();
    bad.ciphertext[0] ^= 1;
    assert!(matches!(bad.decrypt(encr, integ, &h, &sk_e, &sk_a, &[]), Err(Error::IntegrityCheckFailed)));
}

/// Decrypting a GCM SK payload under its salt gives back its payloads.
#[test]
fn sk_gcm_round_trip() {
    let inner = vec![Payload::Nonce(NoncePayload { nonce: vec![9u8; 3] })];
    let h = sk_header();
    let encr = Encr::AesGcm { key_len: 32 };
    let sk_e = [6u8; 32];
    let salt = [7u8, 7, 7, 7];
    let e = EncryptedPayload::encrypt(encr, None, &h, PayloadType::Nonce, &inner, &sk_e, &[], None, Some(&salt)).unwrap();
    assert_eq!(e.iv.len(), 8);
    assert_eq!(e.icv.len(), 16);
    let back = e.decrypt(encr, None, &h, &sk_e, &[], &salt).unwrap();
    match &back[0] {
        Payload::Nonce(n) => assert_eq!(n.nonce, vec![9u8; 3]),
        other => panic!("unexpected {:?}", other),
    }
}
