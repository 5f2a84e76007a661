//! IKEv2 header flags (RFC 7296 §3.1).

use vstd::prelude::*;

verus! {

/// Set if the message is from the original initiator of the IKE_SA.
pub const INITIATOR: u8 = 0x08;

/// Set if the message is a response.
pub const RESPONSE: u8 = 0x20;

/// Set if the message is an IKEv2 version negotiation attempt.
pub const VERSION: u8 = 0x10;

/// Critical bit in a payload's flags octet.
pub const CRITICAL: u8 = 0x80;

} // verus!
