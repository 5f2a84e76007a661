# tpt_protocols

Protocol codecs, stores and cryptographic glue for LDAP, NETCONF, IKEv2 and
Kerberos, written in Verus: every function in `src/` carries a contract over a
mathematical model (sequences of octets, characters and records), and Verus
proves the code meets it.

## Layout

- `src/ldap/` — BER codec (`ber`, with the decode-of-encode and truncation
  laws in `ber/round_trip.rs`), the LDAP message model and its encoder and
  decoder (`protocol/`), filter evaluation and search scopes, an in-memory
  directory kept sorted by DN (`memory.rs`) and the request/response session.
- `src/netconf/` — end-of-message and chunked framing with an incremental
  decoder (`framing.rs`), a small XML reader and writer (`xml.rs`, round trip
  in `xml/round_trip.rs`), the RPC / hello / reply model (`message.rs`) and an
  in-memory datastore server (`server.rs`).
- `src/ipsec/` — IKEv2 header and payload codecs (`message/`: SA proposals,
  payload chains, the encrypted SK payload), proposal selection, key material
  derivation, Diffie-Hellman and the CBC / GCM envelopes (`crypto.rs`), and the
  security policy database (`spd.rs`).
- `src/kerberos/` — the DER layer for Kerberos messages (`asn1.rs`), the
  message types built on it (`types.rs`: `EncryptedData`, `Checksum`,
  `PA-DATA`, `EncryptionKey`, `Ticket`, `EncTicketPart`, `KDC-REQ-BODY`,
  `KDC-REQ`, `KDC-REP`, `EncKDCRepPart`, with decode-of-encode laws for the
  first five) and the AES
  encryption types of RFC 3962 and RFC 8009 (`crypto.rs`: string-to-key, key
  derivation, AES-CTS, encrypt / decrypt / checksum).
- `src/primitives.rs`, `src/text.rs` — the trusted wrappers around the outside
  crates (AES, AES-GCM, HMAC, X25519, big integers, random octets) and a few
  `std` string functions, each with the contract it is trusted for.
- `tests/` — scenario tests run against the compiled library.
- `app/` — the parts that do I/O: a TCP loop serving LDAP sessions, and
  conversions between `std::net` addresses and the policy database model.

## Not included

- The JMAP server side (core methods and the mail API).
- The Kerberos KDC, the AS / TGS / AP client exchanges and SPNEGO, and the
  message types they alone use (`Authenticator`, `AP-REQ`, `AP-REP`,
  `EncAPRepPart`, the `PA-ENC-TIMESTAMP` and `ETYPE-INFO2` values).
- The IKEv2 exchange state machines (IKE_SA_INIT, IKE_AUTH,
  CREATE_CHILD_SA and rekeying) and PSK / signature authentication.
- The NETCONF SSH transport.
