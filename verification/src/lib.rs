//! Verified protocol codecs and state machines: LDAP (RFC 4511), NETCONF
//! (RFC 6241/6242) and IKEv2 (RFC 7296).

pub mod digits;
pub mod primitives;
pub mod text;

pub mod ldap;
pub mod ipsec;
pub mod kerberos;
pub mod netconf;
