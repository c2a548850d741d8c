//! Sizes and code points of the ALEPKT protocol.
use vstd::prelude::*;

verus! {

/// Fixed ALEPKT header size in octets.
pub const ALE_HEADER_SIZE: usize = 10;

/// Number of octets covered by the checksum:
/// PacketLength(2) + Version(1) + AppType(1) + TSeq(2) + NR(1) + PktType(1).
/// As many header octets follow the Packet Length field, the checksum among them.
pub const ALE_CHECKSUM_COVERED_SIZE: usize = 8;

/// Default ALE protocol version.
pub const ALE_VERSION: u8 = 1;

/// N/R flag value for the normal link; the single-link profile always uses it.
pub const ALE_NR_FLAG_NORMAL: u8 = 1;

/// Maximum ALEPKT user data size (Subset-098 6.5.3.1.3).
pub const ALE_MAX_USER_DATA: usize = 65_000;

/// AU1: Connection Request (CR).
pub const ALE_PKT_AU1: u8 = 1;

/// AU2: Connection Confirm (CC).
pub const ALE_PKT_AU2: u8 = 2;

/// DT: Data Transfer.
pub const ALE_PKT_DT: u8 = 3;

/// DI: Disconnect Indication.
pub const ALE_PKT_DI: u8 = 4;

/// Class D single-link coded value of the AU1 Class of Service field (Subset-037 8.3.2).
/// Subset-098 6.6.2.1.6 gives 0x03 to dual-link Class D.
pub const ALE_CLASS_D: u8 = 0x01;

/// The sizes and code points that Subset-098 and Subset-037 give.
pub proof fn code_points()
    ensures
        ALE_HEADER_SIZE == 10,
        ALE_CHECKSUM_COVERED_SIZE == 8,
        ALE_VERSION == 1,
        ALE_NR_FLAG_NORMAL == 1,
        ALE_MAX_USER_DATA == 65000,
        ALE_PKT_AU1 == 1,
        ALE_PKT_AU2 == 2,
        ALE_PKT_DT == 3,
        ALE_PKT_DI == 4,
        ALE_CLASS_D == 1,
{
}

} // verus!
