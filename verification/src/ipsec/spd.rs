//! RFC 4301 IPsec Security Policy Database (SPD) and Security Association
//! Database (SAD) data model.
//!
//! This module models the policy/SA data structures described in RFC 4301
//! §4.4 (SPD) and §4.3 (SAD). It does not perform packet processing or
//! ESP/AH encapsulation; it exists so that an IKEv2 implementation can
//! record negotiated SAs and express the policy that governs them, ready for
//! hand-off to a data plane.

use vstd::prelude::*;
use crate::ipsec::types::ProtocolId;

verus! {

/// IPsec protocol carried by an SA.
#[derive(Debug, Clone, Copy, PartialEq, Eq, Structural)]
pub enum IpSecProtocol {
    /// Authentication Header.
    Ah,
    /// Encapsulating Security Payload.
    Esp,
}

impl IpSecProtocol {
    /// The IPsec protocol of an SA-payload protocol id (none for IKE).
    pub fn from_protocol_id(p: ProtocolId) -> (r: Option<IpSecProtocol>)
        ensures
            r == (match p {
                ProtocolId::Ah => Some(IpSecProtocol::Ah),
                ProtocolId::Esp => Some(IpSecProtocol::Esp),
                ProtocolId::Ike => None::<IpSecProtocol>,
            }),
    {
        match p {
            ProtocolId::Ah => Some(IpSecProtocol::Ah),
            ProtocolId::Esp => Some(IpSecProtocol::Esp),
            _ => None,
        }
    }

    /// The SA-payload protocol id of this IPsec protocol.
    pub fn protocol_id(self) -> (p: ProtocolId)
        ensures
            p == (match self {
                IpSecProtocol::Ah => ProtocolId::Ah,
                IpSecProtocol::Esp => ProtocolId::Esp,
            }),
    {
        match self {
            IpSecProtocol::Ah => ProtocolId::Ah,
            IpSecProtocol::Esp => ProtocolId::Esp,
        }
    }
}

/// SA mode (RFC 4301 §4.1).
#[derive(Debug, Clone, Copy, PartialEq, Eq, Structural)]
pub enum SaMode {
    /// Transport mode.
    Transport,
    /// Tunnel mode.
    Tunnel,
}

/// Action applied to traffic matched by an SPD entry (RFC 4301 §4.4.1).
#[derive(Debug, Clone, Copy, PartialEq, Eq, Structural)]
pub enum SpdAction {
    /// Bypass IPsec; process as cleartext.
    Bypass,
    /// Discard the traffic.
    Discard,
    /// Apply IPsec using the referenced SA (or negotiate one).
    Protect,
}

/// An IP address: four octets (IPv4) or sixteen (IPv6), in network order.
#[derive(Debug, Clone, Copy, PartialEq, Eq)]
pub enum IpAddress {
    /// An IPv4 address.
    V4([u8; 4]),
    /// An IPv6 address.
    V6([u8; 16]),
}

/// A traffic selector used by the SPD/SAD (IPv4/IPv6 address + port range).
#[derive(Debug, Clone, Copy, PartialEq, Eq)]
pub struct SpdSelector {
    /// The IPsec protocol the selector applies to, if restricted.
    pub protocol: Option<IpSecProtocol>,
    /// Source address.
    pub src_addr: IpAddress,
    /// Source prefix length.
    pub src_prefix: u8,
    /// Destination address.
    pub dst_addr: IpAddress,
    /// Destination prefix length.
    pub dst_prefix: u8,
    /// Source port range (inclusive).
    pub src_port_range: (u16, u16),
    /// Destination port range (inclusive).
    pub dst_port_range: (u16, u16),
}

/// An SPD entry: a selector plus the action and (for Protect) the SA bundle
/// parameters to apply.
#[derive(Debug, Clone)]
pub struct SpdEntry {
    /// The traffic the entry governs.
    pub selector: SpdSelector,
    /// What is done with that traffic.
    pub action: SpdAction,
    /// For `Protect`: the IPsec protocol and mode to apply.
    pub ipsec: Option<(IpSecProtocol, SaMode)>,
    /// For `Protect`: an optional name of an SA or SA bundle to use.
    pub sa_name: Option<String>,
}

/// A Security Association entry in the SAD (RFC 4301 §4.3).
#[derive(Debug, Clone)]
pub struct SadEntry {
    /// The SA's SPI.
    pub spi: u32,
    /// The IPsec protocol.
    pub protocol: IpSecProtocol,
    /// The SA mode.
    pub mode: SaMode,
    /// Sequence number counter for outbound traffic.
    pub seq: u32,
    /// Anti-replay window size (0 disables anti-replay).
    pub replay_window: u32,
    /// Encryption key (for ESP/AH transforms that need one).
    pub encr_key: Vec<u8>,
    /// Integrity key (for ESP/AH transforms that need one).
    pub integ_key: Vec<u8>,
    /// Lifetime (soft) in seconds, if bounded.
    pub lifetime_seconds: Option<u64>,
}

impl SadEntry {
    /// Build a SAD entry from IKEv2-derived CHILD SA keying material.
    /// `keymat` is the KEYMAT of a CHILD SA; `encr_len` and `integ_len` are
    /// the key lengths in bytes: the encryption key comes first, the
    /// integrity key right after it.
    pub fn from_keymat(
        spi: u32,
        protocol: IpSecProtocol,
        mode: SaMode,
        keymat: &[u8],
        encr_len: usize,
        integ_len: usize,
    ) -> (e: SadEntry)
        requires
            encr_len + integ_len <= keymat@.len(),
        ensures
            e.spi == spi,
            e.protocol == protocol,
            e.mode == mode,
            e.seq == 1,
            e.replay_window == 64,
            e.encr_key@ == keymat@.subrange(0, encr_len as int),
            e.integ_key@ == keymat@.subrange(encr_len as int, encr_len + integ_len),
            e.lifetime_seconds is None,
    {
        assert(keymat@.len() == keymat.len());
        let encr_key = vstd::slice::slice_to_vec(&keymat[0..encr_len]);
        let integ_key = vstd::slice::slice_to_vec(&keymat[encr_len..encr_len + integ_len]);
        SadEntry {
            spi,
            protocol,
            mode,
            seq: 1,
            replay_window: 64,
            encr_key,
            integ_key,
            lifetime_seconds: None,
        }
    }
}

} // verus!
