//! Datalink (link-layer) types of captured packets.
//!
//! The datalink type tells what the bytes of a captured packet represent:
//! Ethernet, raw IP, loopback and so on.

use vstd::prelude::*;

verus! {

pub const DLT_NULL: i32 = 0;
/// Ethernet (10Mb, 100Mb, 1000Mb, and up).
pub const DLT_EN10MB: i32 = 1;
pub const DLT_EN3MB: i32 = 2;
pub const DLT_AX25: i32 = 3;
pub const DLT_PRONET: i32 = 4;
pub const DLT_CHAOS: i32 = 5;
pub const DLT_IEEE802: i32 = 6;
pub const DLT_ARCNET: i32 = 7;
pub const DLT_SLIP: i32 = 8;
pub const DLT_PPP: i32 = 9;
pub const DLT_FDDI: i32 = 10;
pub const DLT_ATM_RFC1483: i32 = 11;
pub const DLT_RAW: i32 = 12;
pub const DLT_SLIP_BSDOS: i32 = 15;
pub const DLT_PPP_BSDOS: i32 = 16;
pub const DLT_ATM_CLIP: i32 = 19;
pub const DLT_PPP_SERIAL: i32 = 50;
pub const DLT_PPP_ETHER: i32 = 51;
pub const DLT_IEEE802_11: i32 = 105;
pub const DLT_IEEE802_11_RADIO: i32 = 127;
pub const DLT_LOOP: i32 = 108;
pub const DLT_LINUX_SLL: i32 = 113;
pub const DLT_IPV4: i32 = 228;
pub const DLT_IPV6: i32 = 229;

/// The name of a datalink type.
pub open spec fn datalink_name(dlt: i32) -> Seq<char> {
    match dlt {
        DLT_NULL => "NULL"@,
        DLT_EN10MB => "EN10MB"@,
        DLT_IEEE802 => "IEEE802"@,
        DLT_ARCNET => "ARCNET"@,
        DLT_SLIP => "SLIP"@,
        DLT_PPP => "PPP"@,
        DLT_FDDI => "FDDI"@,
        DLT_RAW => "RAW"@,
        DLT_LOOP => "LOOP"@,
        DLT_LINUX_SLL => "LINUX_SLL"@,
        DLT_IEEE802_11 => "IEEE802_11"@,
        DLT_IEEE802_11_RADIO => "IEEE802_11_RADIO"@,
        DLT_IPV4 => "IPV4"@,
        DLT_IPV6 => "IPV6"@,
        _ => "UNKNOWN"@,
    }
}

/// Human-readable names for common datalink types.
pub fn datalink_ntop(dlt: i32) -> (name: &'static str)
    ensures
        name@ == datalink_name(dlt),
{
    match dlt {
        DLT_NULL => "NULL",
        DLT_EN10MB => "EN10MB",
        DLT_IEEE802 => "IEEE802",
        DLT_ARCNET => "ARCNET",
        DLT_SLIP => "SLIP",
        DLT_PPP => "PPP",
        DLT_FDDI => "FDDI",
        DLT_RAW => "RAW",
        DLT_LOOP => "LOOP",
        DLT_LINUX_SLL => "LINUX_SLL",
        DLT_IEEE802_11 => "IEEE802_11",
        DLT_IEEE802_11_RADIO => "IEEE802_11_RADIO",
        DLT_IPV4 => "IPV4",
        DLT_IPV6 => "IPV6",
        _ => "UNKNOWN",
    }
}

/// How many bytes of link-layer header stand before the IP header.
pub open spec fn header_len(dlt: i32) -> int {
    if dlt == DLT_LINUX_SLL {
        16
    } else if dlt == DLT_IEEE802_11_RADIO {
        32
    } else if dlt == DLT_RAW || dlt == DLT_IPV4 || dlt == DLT_IPV6 || dlt == DLT_LOOP || dlt
        == DLT_NULL {
        0
    } else {
        14
    }
}

/// The offset from the start of a captured frame to the start of the IP
/// header for a given datalink type. This drives L2 stripping in captures.
pub fn link_header_len(dlt: i32) -> (n: usize)
    ensures
        n == header_len(dlt),
{
    match dlt {
        DLT_EN10MB => 14,
        DLT_LINUX_SLL => 16,
        DLT_IEEE802_11_RADIO => 32,
        DLT_RAW | DLT_IPV4 | DLT_IPV6 | DLT_LOOP | DLT_NULL => 0,
        _ => 14,
    }
}

/// Where the IP header starts: at once in raw IP and loopback captures (types 0,
/// 12, 108, 228 and 229), behind 16 bytes in Linux cooked ones (113), behind 32
/// in radiotap ones (127), and behind 14 in Ethernet (1) and all other ones.
pub proof fn law_link_offsets(dlt: i32)
    ensures
        header_len(0) == 0 && header_len(12) == 0 && header_len(108) == 0 && header_len(228) == 0
            && header_len(229) == 0,
        header_len(113) == 16,
        header_len(127) == 32,
        header_len(1) == 14,
        dlt != 0 && dlt != 12 && dlt != 108 && dlt != 228 && dlt != 229 && dlt != 113 && dlt != 127
            ==> header_len(dlt) == 14,
{
}

/// The names of the types that have one, by their numbers; all others are
/// unknown.
pub proof fn law_link_names(dlt: i32)
    ensures
        datalink_name(0) == "NULL"@,
        datalink_name(1) == "EN10MB"@,
        datalink_name(6) == "IEEE802"@,
        datalink_name(7) == "ARCNET"@,
        datalink_name(8) == "SLIP"@,
        datalink_name(9) == "PPP"@,
        datalink_name(10) == "FDDI"@,
        datalink_name(12) == "RAW"@,
        datalink_name(105) == "IEEE802_11"@,
        datalink_name(108) == "LOOP"@,
        datalink_name(113) == "LINUX_SLL"@,
        datalink_name(127) == "IEEE802_11_RADIO"@,
        datalink_name(228) == "IPV4"@,
        datalink_name(229) == "IPV6"@,
        dlt < 0 || 2 <= dlt <= 5 || dlt == 11 || 13 <= dlt <= 104 || 106 <= dlt <= 107 || 109 <= dlt
            <= 112 || 114 <= dlt <= 126 || 128 <= dlt <= 227 || 230 <= dlt ==> datalink_name(dlt)
            == "UNKNOWN"@,
{
}

} // verus!
