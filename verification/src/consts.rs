//! EtherTypes, well-known ports, and the program's identity and limits.
use vstd::prelude::*;

verus! {

// ---- EtherTypes ---------------------------------------------------------
/// IEEE 802.1Q VLAN tag.
pub const ET_VLAN: u16 = 0x8100;

/// IEEE 802.1ad QinQ (service VLAN) tag.
pub const ET_QINQ: u16 = 0x88A8;

/// IEC 61850-8-1 GOOSE.
pub const ET_GOOSE: u16 = 0x88B8;

/// IEC 61850-9-2 Sampled Values.
pub const ET_SV: u16 = 0x88BA;

/// Legacy GSSE (UCA 2.0).
pub const ET_GSSE: u16 = 0x88B9;

/// IEEE 1588 PTP.
pub const ET_PTP: u16 = 0x88F7;

/// IEC 62439-3 HSR in-frame tag.
pub const ET_HSR: u16 = 0x892F;

pub const ET_IPV4: u16 = 0x0800;

pub const ET_IPV6: u16 = 0x86DD;

pub const ET_ARP: u16 = 0x0806;

pub const ET_LLDP: u16 = 0x88CC;

/// PRP Redundancy Control Trailer suffix (last 2 bytes of the frame).
pub const PRP_SUF: u16 = 0x88FB;

// ---- Well-known transport ports ----------------------------------------
/// ISO/COTP-encapsulated MMS (RFC 1006), IEC 61850-8-1.
pub const PORT_MMS: u16 = 102;

/// Network Time Protocol.
pub const PORT_NTP: u16 = 123;

/// Modbus TCP.
pub const PORT_MODBUS: u16 = 502;

/// IEC 60870-5-104.
pub const PORT_IEC104: u16 = 2404;

/// DNP3, over TCP or UDP.
pub const PORT_DNP3: u16 = 20000;

// ---- IP protocol numbers ------------------------------------------------
pub const IPPROTO_TCP: u8 = 6;

pub const IPPROTO_UDP: u8 = 17;

// ---- Identity -----------------------------------------------------------
pub const SOFTWARE_NAME: &'static str = "Network Load Monitor V2";

pub const VERSION: &'static str = "0.0.1";

pub const LICENSE_NAME: &'static str = "MIT";

// ---- Batching -----------------------------------------------------------
/// Flush a capture thread's batch after this many packets.
pub const BATCH_PKTS: usize = 200;

/// ...or after this many nanoseconds, whichever comes first.
pub const BATCH_NS: u64 = 100_000_000;

/// Report offline-load progress every this many packets.
pub const PCAP_PROGRESS_EVERY: u64 = 2000;

} // verus!
