//! Key-usage values (RFC 4120 §7.5.1, RFC 3961 §6): the usage numbers this
//! library encrypts and decrypts each `EncryptedData` field under.

use vstd::prelude::*;

verus! {

/// AS-REQ PA-ENC-TIMESTAMP (RFC 4120 §5.2.7.2).
pub const PA_ENC_TIMESTAMP: u32 = 1;

/// Ticket (both AS-REP TGT and TGS-REP service ticket).
pub const TICKET: u32 = 2;

/// AS-REP encrypted part (EncASRepPart).
pub const AS_REP: u32 = 3;

/// TGS-REQ KDC-REQ-BODY (enc-authorization-data, when present).
pub const TGS_REQ_BODY: u32 = 4;

/// TGS-REP ticket.
pub const TGS_REP_TICKET: u32 = 6;

/// AP-REQ authenticator (encrypted with the ticket session key).
pub const AP_REQ_AUTH: u32 = 7;

/// AP-REP encrypted part (EncAPRepPart).
pub const AP_REP: u32 = 8;

/// TGS-REP encrypted part (EncTGSRepPart).
pub const TGS_REP: u32 = 8;

/// GSSAPI MIC (RFC 4121).
pub const GSS_MIC: u32 = 23;

} // verus!
