use tpt_protocols::kerberos::asn1::{Cursor, PrincipalName, Tlv};
use tpt_protocols::kerberos::types::{
    decode_pa_data, decode_ticket, encode_pa_data, Checksum, EncKdcRepPart, EncryptedData, EncryptionKey,
    AuthorizationDataElement, EncTicketPart, HostAddress, KdcRep, KdcReq, KdcReqBody, LastReq, PaData, Ticket,
    TransitedEncoding,
};
use tpt_protocols::kerberos::Error;

fn element(bytes: &[u8]) -> Tlv {
    let mut c = Cursor::new(bytes);
    c.take().expect("one element")
}

#[test]
fn encrypted_data_exact_encoding() {
    let ed = EncryptedData { etype: 18, kvno: Some(2), cipher: vec![1, 2, 3] };
    let der = ed.encode_implicit(2);
    assert_eq!(
        der,
        vec![0x82, 0x0d, 0x30, 0x0b, 0x02, 0x01, 0x12, 0x02, 0x01, 0x02, 0x04, 0x03, 1, 2, 3]
    );
}

#[test]
fn encrypted_data_round_trip_with_and_without_kvno() {
    for kvno in [None, Some(0u32), Some(5), Some(0x7fff_ffff)] {
        let ed = EncryptedData { etype: 17, kvno, cipher: vec![0xaa; 40] };
        let back = EncryptedData::decode_implicit(3, &element(&ed.encode_implicit(3))).unwrap();
        assert_eq!(back, ed);
    }
}

#[test]
fn encrypted_data_wrong_tag_is_refused() {
    let ed = EncryptedData { etype: 17, kvno: None, cipher: vec![9] };
    let der = ed.encode_implicit(2);
    assert!(matches!(EncryptedData::decode_implicit(3, &element(&der)), Err(Error::Asn1(_))));
    assert!(matches!(EncryptedData::decode_implicit(31, &element(&der)), Err(Error::Asn1(_))));
}

#[test]
fn encrypted_data_empty_cipher_is_missing() {
    let ed = EncryptedData { etype: 17, kvno: None, cipher: vec![] };
    let der = ed.encode_implicit(2);
    assert!(matches!(
        EncryptedData::decode_implicit(2, &element(&der)),
        Err(Error::MissingField("EncryptedData.cipher"))
    ));
}

#[test]
fn encrypted_data_stray_field_is_unexpected() {
    // [2] { SEQUENCE { INTEGER 17, BOOLEAN TRUE, OCTET STRING 01 } }
    let der = [0x82, 0x0b, 0x30, 0x09, 0x02, 0x01, 0x11, 0x01, 0x01, 0xff, 0x04, 0x01, 0x01];
    assert!(matches!(
        EncryptedData::decode_implicit(2, &element(&der)),
        Err(Error::Unexpected("EncryptedData field"))
    ));
}

#[test]
fn encrypted_data_later_octet_string_wins() {
    // [0] { SEQUENCE { INTEGER 1, OCTET STRING 01, INTEGER 7, OCTET STRING 02 02 } }
    let der = [
        0x80, 0x0f, 0x30, 0x0d, 0x02, 0x01, 0x01, 0x04, 0x01, 0x01, 0x02, 0x01, 0x07, 0x04, 0x02, 0x02, 0x02,
    ];
    let ed = EncryptedData::decode_implicit(0, &element(&der)).unwrap();
    assert_eq!(ed, EncryptedData { etype: 1, kvno: Some(7), cipher: vec![2, 2] });
}

#[test]
fn checksum_round_trip_and_encoding() {
    let ck = Checksum { cksumtype: 16, checksum: vec![0x55; 12] };
    let der = ck.encode_implicit(1);
    assert_eq!(&der[..7], &[0x81, 0x13, 0x30, 0x11, 0x02, 0x01, 0x10]);
    assert_eq!(Checksum::decode_implicit(1, &element(&der)).unwrap(), ck);
}

#[test]
fn checksum_without_octet_string_is_refused() {
    // [1] { SEQUENCE { INTEGER 16, INTEGER 1 } }
    let der = [0x81, 0x08, 0x30, 0x06, 0x02, 0x01, 0x10, 0x02, 0x01, 0x01];
    assert!(matches!(Checksum::decode_implicit(1, &element(&der)), Err(Error::Asn1(_))));
}

#[test]
fn pa_data_encode_decode_and_set() {
    let a = PaData { padata_type: 2, padata_value: vec![1, 2] };
    let b = PaData { padata_type: 128, padata_value: vec![0x30, 0x00] };
    assert_eq!(a.encode(), vec![0x30, 0x07, 0x02, 0x01, 0x02, 0x04, 0x02, 1, 2]);
    let enc = a.encode();
    let mut cur = Cursor::new(&enc[..]);
    assert_eq!(PaData::decode(&mut cur).unwrap(), a);
    assert!(cur.at_end());
    let set = encode_pa_data(&[b.clone(), a.clone()]);
    assert_eq!(set[0], 0x31);
    let back = decode_pa_data(&element(&set)).unwrap();
    // DER orders a SET OF by encoding: `a` (INTEGER 2) sorts before `b` (INTEGER 128).
    assert_eq!(back, vec![a, b]);
}

#[test]
fn pa_data_set_with_wrong_tag_is_refused() {
    let a = PaData { padata_type: 2, padata_value: vec![1] };
    let seq = a.encode();
    assert!(matches!(decode_pa_data(&element(&seq)), Err(Error::Asn1(_))));
}

#[test]
fn encryption_key_round_trip() {
    let k = EncryptionKey { keytype: 18, keyvalue: vec![0x42; 32] };
    let plain = k.encode();
    assert_eq!(&plain[..7], &[0x30, 0x25, 0x02, 0x01, 0x12, 0x04, 0x20]);
    let der = k.encode_key_implicit(1);
    assert_eq!(der[0], 0x81);
    assert_eq!(EncryptionKey::decode_implicit(1, &element(&der)).unwrap(), k);
}

fn sample_ticket() -> Ticket {
    Ticket {
        tkt_vno: 5,
        realm: "EXAMPLE.COM".to_string(),
        sname: PrincipalName { name_type: 2, name_string: vec!["krbtgt".to_string(), "EXAMPLE.COM".to_string()] },
        enc_part: EncryptedData { etype: 18, kvno: Some(1), cipher: vec![0xde, 0xad, 0xbe, 0xef] },
    }
}

#[test]
fn ticket_round_trip() {
    let t = sample_ticket();
    let der = t.encode_application(1);
    assert_eq!(der[0], 0x61);
    // tkt-vno, then the realm as a GeneralString.
    assert_eq!(&der[4..9], &[0x02, 0x01, 0x05, 0x1b, 0x0b]);
    assert_eq!(decode_ticket(&der).unwrap(), t);
}

#[test]
fn ticket_with_wrong_application_tag_is_refused() {
    let der = sample_ticket().encode_application(2);
    assert_eq!(der[0], 0x62);
    assert!(matches!(decode_ticket(&der), Err(Error::Asn1(_))));
}

#[test]
fn truncated_ticket_is_malformed() {
    let der = sample_ticket().encode_application(1);
    assert!(matches!(decode_ticket(&der[..der.len() - 1]), Err(Error::Asn1("malformed DER element"))));
}

#[test]
fn ticket_with_empty_cipher_is_refused() {
    let mut t = sample_ticket();
    t.enc_part.cipher = vec![];
    let der = t.encode_application(1);
    assert!(matches!(decode_ticket(&der), Err(Error::MissingField("EncryptedData.cipher"))));
}

fn sample_rep_part() -> EncKdcRepPart {
    EncKdcRepPart {
        key: EncryptionKey { keytype: 18, keyvalue: vec![0x11; 32] },
        last_req: vec![LastReq { lr_type: 0, lr_value: 1_700_000_000 }],
        nonce: 12345,
        key_expiration: Some(1_800_000_000),
        flags: 0x5080_0000,
        authtime: 1_700_000_100,
        starttime: Some(1_700_000_100),
        endtime: 1_700_036_100,
        renew_till: None,
        srealm: "EXAMPLE.COM".to_string(),
        sname: PrincipalName { name_type: 2, name_string: vec!["krbtgt".to_string(), "EXAMPLE.COM".to_string()] },
        caddr: Some(vec![HostAddress { addr_type: 2, address: vec![127, 0, 0, 1] }]),
    }
}

#[test]
fn enc_kdc_rep_part_round_trip() {
    let part = sample_rep_part();
    let der = part.encode();
    assert_eq!(der[0], 0x30);
    let mut cur = Cursor::new(&der[..]);
    assert_eq!(EncKdcRepPart::decode(&mut cur).unwrap(), part);
    assert!(cur.at_end());
}

#[test]
fn enc_kdc_rep_part_without_optional_fields_round_trips() {
    let mut part = sample_rep_part();
    part.key_expiration = None;
    part.starttime = None;
    part.caddr = None;
    part.last_req = vec![];
    let der = part.encode();
    let mut cur = Cursor::new(&der[..]);
    assert_eq!(EncKdcRepPart::decode(&mut cur).unwrap(), part);
}

#[test]
fn enc_kdc_rep_part_unknown_field_is_unexpected() {
    let der = [0x30, 0x03, 0xab, 0x01, 0x00];
    let mut cur = Cursor::new(&der[..]);
    assert!(matches!(EncKdcRepPart::decode(&mut cur), Err(Error::Unexpected("EncKDCRepPart field"))));
}

#[test]
fn enc_kdc_rep_part_short_flags_are_refused() {
    let der = [0x30, 0x06, 0xa3, 0x04, 0x03, 0x02, 0x00, 0x01];
    let mut cur = Cursor::new(&der[..]);
    assert!(matches!(
        EncKdcRepPart::decode(&mut cur),
        Err(Error::Unexpected("BIT STRING length/used-bits"))
    ));
}

#[test]
fn enc_kdc_rep_part_flags_are_read_big_endian() {
    // SEQUENCE { [1] INTEGER 7, [3] BIT STRING 00 40 81 00 10 }
    let der = [0x30, 0x0e, 0xa1, 0x03, 0x02, 0x01, 0x07, 0xa3, 0x07, 0x03, 0x05, 0x00, 0x40, 0x81, 0x00, 0x10];
    let mut cur = Cursor::new(&der[..]);
    let part = EncKdcRepPart::decode(&mut cur).unwrap();
    assert_eq!(part.nonce, 7);
    assert_eq!(part.flags, 0x4081_0010);
    assert_eq!(part.endtime, 0);
}

fn sample_req_body() -> KdcReqBody {
    KdcReqBody {
        kdc_options: 0x4081_0010,
        cname: Some(PrincipalName { name_type: 1, name_string: vec!["alice".to_string()] }),
        realm: "EXAMPLE.COM".to_string(),
        sname: Some(PrincipalName {
            name_type: 2,
            name_string: vec!["krbtgt".to_string(), "EXAMPLE.COM".to_string()],
        }),
        from: None,
        till: 1_700_086_400,
        rtime: Some(1_700_600_000),
        nonce: 0x1234_5678,
        etype: vec![18, 17, 20],
        addresses: Some(vec![HostAddress { addr_type: 2, address: vec![10, 0, 0, 1] }]),
        enc_authorization_data: Some(EncryptedData { etype: 18, kvno: None, cipher: vec![7; 20] }),
        additional_tickets: Some(vec![sample_ticket()]),
    }
}

#[test]
fn kdc_req_body_round_trip() {
    let body = sample_req_body();
    let der = body.encode();
    // More than 127 octets of fields: one length octet after 0x81.
    assert_eq!(&der[..2], &[0x30, 0x81]);
    // [0] kdc-options comes first, as a BIT STRING.
    assert_eq!(&der[3..12], &[0xa0, 0x07, 0x03, 0x05, 0x00, 0x40, 0x81, 0x00, 0x10]);
    let mut cur = Cursor::new(&der[..]);
    assert_eq!(KdcReqBody::decode(&mut cur).unwrap(), body);
    assert!(cur.at_end());
}

#[test]
fn kdc_req_body_minimal_round_trip() {
    let mut body = sample_req_body();
    body.cname = None;
    body.sname = None;
    body.rtime = None;
    body.addresses = None;
    body.enc_authorization_data = None;
    body.etype = vec![];
    body.additional_tickets = None;
    let der = body.encode();
    let mut cur = Cursor::new(&der[..]);
    assert_eq!(KdcReqBody::decode(&mut cur).unwrap(), body);
}

#[test]
fn kdc_req_body_unknown_field_is_unexpected() {
    let der = [0x30, 0x03, 0xac, 0x01, 0x00];
    let mut cur = Cursor::new(&der[..]);
    assert!(matches!(KdcReqBody::decode(&mut cur), Err(Error::Unexpected("KDC-REQ-BODY field"))));
}

#[test]
fn kdc_req_body_etype_lists_accumulate() {
    // SEQUENCE { [8] { SEQUENCE { INTEGER 18 } }, [8] { SEQUENCE { INTEGER 17 } } }
    let der = [
        0x30, 0x0e, 0xa8, 0x05, 0x30, 0x03, 0x02, 0x01, 0x12, 0xa8, 0x05, 0x30, 0x03, 0x02, 0x01, 0x11,
    ];
    let mut cur = Cursor::new(&der[..]);
    assert_eq!(KdcReqBody::decode(&mut cur).unwrap().etype, vec![18, 17]);
}

#[test]
fn as_req_round_trip() {
    let req = KdcReq {
        pvno: 5,
        msg_type: 10,
        padata: Some(vec![
            PaData { padata_type: 128, padata_value: vec![0x30, 0x05, 0xa0, 0x03, 0x01, 0x01, 0xff] },
            PaData { padata_type: 2, padata_value: vec![1, 2, 3] },
        ]),
        req_body: sample_req_body(),
    };
    let der = req.encode_application(10);
    assert_eq!(der[0], 0x6a);
    let back = KdcReq::decode_application(10, &der).unwrap();
    // The SET OF is written in DER order, so the PA-DATA come back sorted.
    assert_eq!(back.padata.as_ref().unwrap()[0].padata_type, 2);
    assert_eq!(back.padata.as_ref().unwrap()[1].padata_type, 128);
    assert_eq!(back.req_body, req.req_body);
    assert_eq!((back.pvno, back.msg_type), (5, 10));
}

#[test]
fn tgs_req_without_padata_round_trip() {
    let req = KdcReq { pvno: 5, msg_type: 12, padata: None, req_body: sample_req_body() };
    let der = req.encode_application(12);
    assert_eq!(KdcReq::decode_application(12, &der).unwrap(), req);
    assert!(matches!(KdcReq::decode_application(10, &der), Err(Error::Asn1(_))));
}

#[test]
fn kdc_req_without_body_is_missing() {
    // [APPLICATION 10] { SEQUENCE { INTEGER 5, INTEGER 10 } }
    let der = [0x6a, 0x08, 0x30, 0x06, 0x02, 0x01, 0x05, 0x02, 0x01, 0x0a];
    assert!(matches!(KdcReq::decode_application(10, &der), Err(Error::MissingField("KDC-REQ.req-body"))));
}

fn sample_rep() -> KdcRep {
    KdcRep {
        pvno: 5,
        msg_type: 11,
        padata: None,
        crealm: "EXAMPLE.COM".to_string(),
        cname: PrincipalName { name_type: 1, name_string: vec!["alice".to_string()] },
        ticket: sample_ticket(),
        enc_part: EncryptedData { etype: 18, kvno: Some(3), cipher: vec![0x5a; 48] },
    }
}

#[test]
fn as_rep_round_trip() {
    let rep = sample_rep();
    let der = rep.encode_application(11);
    assert_eq!(der[0], 0x6b);
    assert_eq!(KdcRep::decode_application(11, &der).unwrap(), rep);
}

#[test]
fn kdc_rep_with_padata_round_trip() {
    let mut rep = sample_rep();
    rep.padata = Some(vec![PaData { padata_type: 19, padata_value: vec![0x30, 0x00] }]);
    let der = rep.encode_application(13);
    assert_eq!(KdcRep::decode_application(13, &der).unwrap(), rep);
}

#[test]
fn kdc_rep_without_ticket_is_missing() {
    // [APPLICATION 11] { SEQUENCE { INTEGER 5, INTEGER 11, [2] { SEQUENCE { INTEGER 1, SEQUENCE {} } } } }
    let der = [
        0x6b, 0x11, 0x30, 0x0f, 0x02, 0x01, 0x05, 0x02, 0x01, 0x0b, 0xa2, 0x07, 0x30, 0x05, 0x02, 0x01, 0x01, 0x30,
        0x00,
    ];
    assert!(matches!(KdcRep::decode_application(11, &der), Err(Error::MissingField("KDC-REP.ticket"))));
}

#[test]
fn kdc_rep_without_cname_is_missing_cname_first() {
    // [APPLICATION 11] { SEQUENCE { INTEGER 5, INTEGER 11 } }
    let der = [0x6b, 0x08, 0x30, 0x06, 0x02, 0x01, 0x05, 0x02, 0x01, 0x0b];
    assert!(matches!(KdcRep::decode_application(11, &der), Err(Error::MissingField("KDC-REP.cname"))));
}

fn sample_ticket_part() -> EncTicketPart {
    EncTicketPart {
        flags: 0x5080_0000,
        key: EncryptionKey { keytype: 18, keyvalue: vec![0x33; 32] },
        crealm: "EXAMPLE.COM".to_string(),
        cname: PrincipalName { name_type: 1, name_string: vec!["alice".to_string()] },
        transited: TransitedEncoding { tr_type: 1, contents: vec![] },
        authtime: 1_700_000_000,
        starttime: None,
        endtime: 1_700_036_000,
        renew_till: Some(1_700_600_000),
        caddr: None,
        authorization_data: Some(vec![AuthorizationDataElement { ad_type: 1, ad_data: vec![0x30, 0x00] }]),
    }
}

#[test]
fn enc_ticket_part_round_trip() {
    let part = sample_ticket_part();
    let der = part.encode();
    // The flags come first, untagged; the key follows under [0] IMPLICIT.
    assert_eq!(&der[..3], &[0x30, 0x81, 0x9e]);
    assert_eq!(&der[3..10], &[0x03, 0x05, 0x00, 0x50, 0x80, 0x00, 0x00]);
    assert_eq!(der[10], 0x80);
    let mut cur = Cursor::new(&der[..]);
    assert_eq!(EncTicketPart::decode(&mut cur).unwrap(), part);
}

#[test]
fn enc_ticket_part_unknown_field_is_unexpected() {
    let der = [0x30, 0x03, 0xaa, 0x01, 0x00];
    let mut cur = Cursor::new(&der[..]);
    assert!(matches!(EncTicketPart::decode(&mut cur), Err(Error::Unexpected("EncTicketPart field"))));
}
