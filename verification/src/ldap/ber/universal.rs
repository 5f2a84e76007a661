//! Universal tag numbers used by the LDAP codec.

use vstd::prelude::*;

verus! {

/// INTEGER / ENUMERATED
pub const INTEGER: u32 = 2;

/// BIT STRING
pub const BIT_STRING: u32 = 3;

/// OCTET STRING
pub const OCTET_STRING: u32 = 4;

/// ENUMERATED (encoded identically to INTEGER)
pub const ENUMERATED: u32 = 10;

/// NULL
pub const NULL: u32 = 5;

/// OBJECT IDENTIFIER
pub const OBJECT_IDENTIFIER: u32 = 6;

/// BOOLEAN
pub const BOOLEAN: u32 = 1;

/// SEQUENCE / SEQUENCE OF
pub const SEQUENCE: u32 = 16;

/// SET / SET OF
pub const SET: u32 = 17;

} // verus!
