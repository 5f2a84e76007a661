//! Traffic selector types (RFC 7296 §3.13.1).

use vstd::prelude::*;

verus! {

/// A range of IPv4 addresses.
pub const IPV4_ADDR: u8 = 7;

/// A range of IPv6 addresses.
pub const IPV6_ADDR: u8 = 8;

/// An IPv4 address range.
pub const IPV4_ADDR_RANGE: u8 = 9;

/// An IPv6 address range.
pub const IPV6_ADDR_RANGE: u8 = 10;

/// A fully-qualified domain name.
pub const FQDN: u8 = 11;

/// A user FQDN (e-mail address).
pub const USER_FQDN: u8 = 12;

} // verus!
