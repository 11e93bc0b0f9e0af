//! Network interfaces.
//!
//! An interface entry carries the interface name, type, flags, MTU, address,
//! link-layer address and aliases. The operating system's own records of the
//! interfaces are turned into entries here; asking for the records is up to
//! the caller.

use vstd::prelude::*;

use crate::addr::{Addr, Address, ADDR_TYPE_HW, ADDR_TYPE_IP, ADDR_TYPE_IP6, ADDR_TYPE_NONE};
use crate::eth::six_bytes;
use crate::ip::{segments_of, IpAddr, Ipv4Addr, Ipv6Addr, SocketAddr};

verus! {

/// Maximum length of an interface name string.
pub const INTF_NAME_LEN: usize = 16;

/// MIB-II interface types (IANA ifType).
pub const INTF_TYPE_OTHER: u16 = 1;
pub const INTF_TYPE_ETH: u16 = 6;
pub const INTF_TYPE_TOKENRING: u16 = 9;
pub const INTF_TYPE_FDDI: u16 = 15;
pub const INTF_TYPE_PPP: u16 = 23;
pub const INTF_TYPE_LOOPBACK: u16 = 24;
pub const INTF_TYPE_SLIP: u16 = 28;
pub const INTF_TYPE_TUN: u16 = 53;

/// Interface flags.
pub const INTF_FLAG_UP: u16 = 0x01;
pub const INTF_FLAG_LOOPBACK: u16 = 0x02;
pub const INTF_FLAG_POINTOPOINT: u16 = 0x04;
pub const INTF_FLAG_NOARP: u16 = 0x08;
pub const INTF_FLAG_BROADCAST: u16 = 0x10;
pub const INTF_FLAG_MULTICAST: u16 = 0x20;

/// A single interface entry.
#[derive(Clone, Debug)]
pub struct IntfEntry {
    /// Interface name.
    pub name: String,
    /// Interface type (MIB-II).
    pub intf_type: u16,
    /// Interface flags.
    pub flags: u16,
    /// Interface MTU.
    pub mtu: u32,
    /// Primary interface address.
    pub addr: Addr,
    /// Point-to-point destination address (if point-to-point).
    pub dst_addr: Addr,
    /// Link-layer (hardware) address.
    pub link_addr: Addr,
    /// Additional / alias addresses.
    pub alias_addrs: Vec<Addr>,
}

/// An [`IntfEntry`] with its name and addresses as sequences.
#[verifier::ext_equal]
pub struct Interface {
    pub name: Seq<char>,
    pub intf_type: u16,
    pub flags: u16,
    pub mtu: u32,
    pub addr: Address,
    pub dst_addr: Address,
    pub link_addr: Address,
    pub alias_addrs: Seq<Address>,
}

/// Addresses with their bytes as sequences.
pub open spec fn addresses(s: Seq<Addr>) -> Seq<Address> {
    s.map_values(|a: Addr| a@)
}

impl View for IntfEntry {
    type V = Interface;

    open spec fn view(&self) -> Interface {
        Interface {
            name: self.name@,
            intf_type: self.intf_type,
            flags: self.flags,
            mtu: self.mtu,
            addr: self.addr@,
            dst_addr: self.dst_addr@,
            link_addr: self.link_addr@,
            alias_addrs: addresses(self.alias_addrs@),
        }
    }
}

impl Interface {
    /// An entry that says nothing yet.
    pub open spec fn blank() -> Interface {
        Interface {
            name: Seq::empty(),
            intf_type: 0,
            flags: 0,
            mtu: 0,
            addr: Address::none(),
            dst_addr: Address::none(),
            link_addr: Address::none(),
            alias_addrs: Seq::empty(),
        }
    }
}

impl Default for IntfEntry {
    fn default() -> (r: Self)
        ensures
            r@ == Interface::blank(),
    {
        let r: IntfEntry = IntfEntry {
            name: String::new(),
            intf_type: 0,
            flags: 0,
            mtu: 0,
            addr: Addr::default(),
            dst_addr: Addr::default(),
            link_addr: Addr::default(),
            alias_addrs: Vec::new(),
        };
        assert(r@ =~= Interface::blank());
        r
    }
}

impl IntfEntry {
    /// True if the interface is administratively up.
    pub fn is_up(&self) -> (r: bool)
        ensures
            r == (self.flags & INTF_FLAG_UP != 0),
    {
        self.flags & INTF_FLAG_UP != 0
    }

    pub fn is_loopback(&self) -> (r: bool)
        ensures
            r == (self.flags & INTF_FLAG_LOOPBACK != 0),
    {
        self.flags & INTF_FLAG_LOOPBACK != 0
    }

    pub fn is_point_to_point(&self) -> (r: bool)
        ensures
            r == (self.flags & INTF_FLAG_POINTOPOINT != 0),
    {
        self.flags & INTF_FLAG_POINTOPOINT != 0
    }

    pub fn link_addr_slice(&self) -> (r: Option<[u8; 6]>)
        ensures
            match r {
                Some(b) => self.link_addr.addr_type == ADDR_TYPE_HW && b@
                    == self.link_addr.data@.take(6),
                None => self.link_addr.addr_type != ADDR_TYPE_HW,
            },
    {
        self.link_addr.to_hw()
    }
}

// ---------------------------------------------------------------------------
// Unix records

/// The bits that stand for interface flags on a Unix system (`IFF_*`).
#[derive(Clone, Copy, Debug, PartialEq, Eq, Structural)]
pub struct FlagBits {
    pub up: u32,
    pub loopback: u32,
    pub point_to_point: u32,
    pub noarp: u32,
    pub broadcast: u32,
    pub multicast: u32,
}

/// A socket address as the system lays it out in memory.
#[derive(Debug)]
pub enum RawSockaddr {
    /// There is none.
    Absent,
    /// `sockaddr_in`: the address stands at 4.
    Inet([u8; 16]),
    /// `sockaddr_in6`: the address stands at 8.
    Inet6([u8; 28]),
    /// `sockaddr_ll`: the address length stands at 11, the address at 12.
    Packet([u8; 20]),
    /// `sockaddr_dl`: the name length stands at 5, the address length at 6; the
    /// name stands at 8, and the address behind it.
    Link(Vec<u8>),
    /// One of another family.
    Other,
}

/// One record of `getifaddrs`.
#[derive(Debug)]
pub struct UnixRecord {
    pub name: String,
    pub flags: u32,
    pub addr: RawSockaddr,
}

/// One flag, where its bit is set.
pub open spec fn flag_if(flags: u32, bit: u32, flag: u16) -> u16 {
    if flags & bit != 0 {
        flag
    } else {
        0
    }
}

/// The interface flags for the flags of a Unix record.
pub open spec fn unix_flags(flags: u32, bits: FlagBits) -> u16 {
    flag_if(flags, bits.up, INTF_FLAG_UP) | flag_if(flags, bits.loopback, INTF_FLAG_LOOPBACK)
        | flag_if(flags, bits.point_to_point, INTF_FLAG_POINTOPOINT) | flag_if(
        flags,
        bits.noarp,
        INTF_FLAG_NOARP,
    ) | flag_if(flags, bits.broadcast, INTF_FLAG_BROADCAST) | flag_if(
        flags,
        bits.multicast,
        INTF_FLAG_MULTICAST,
    )
}

/// The protocol address in a socket address.
pub open spec fn protocol_addr(a: RawSockaddr) -> Address {
    match a {
        RawSockaddr::Inet(raw) => Address::ipv4(raw@.subrange(4, 8)),
        RawSockaddr::Inet6(raw) => Address::ipv6(raw@.subrange(8, 24)),
        _ => Address::none(),
    }
}

/// The Ethernet address in a socket address.
pub open spec fn hardware_addr(a: RawSockaddr) -> Address {
    match a {
        RawSockaddr::Packet(raw) => if raw@[11] == 6 {
            Address::hw(raw@.subrange(12, 18))
        } else {
            Address::none()
        },
        RawSockaddr::Link(raw) => if raw@.len() >= 8 && raw@[6] == 6 && raw@.len() >= 14 + raw@[5] {
            Address::hw(raw@.subrange(8 + raw@[5], 14 + raw@[5]))
        } else {
            Address::none()
        },
        _ => Address::none(),
    }
}

/// The interface that a Unix record describes.
pub open spec fn unix_interface(name: Seq<char>, flags: u32, a: RawSockaddr, bits: FlagBits) -> Interface {
    Interface {
        name,
        flags: unix_flags(flags, bits),
        addr: protocol_addr(a),
        link_addr: hardware_addr(a),
        ..Interface::blank()
    }
}

/// One flag, where its bit is set.
fn pick_flag(flags: u32, bit: u32, flag: u16) -> (r: u16)
    ensures
        r == flag_if(flags, bit, flag),
{
    if flags & bit != 0 {
        flag
    } else {
        0
    }
}

/// The IPv6 address at `at`.
fn ipv6_at(raw: &[u8], at: usize) -> (r: Addr)
    requires
        at + 16 <= raw@.len(),
    ensures
        r@ == Address::ipv6(raw@.subrange(at as int, at + 16)),
{
    let n: usize = raw.len();
    let mut octets: [u8; 16] = [0u8; 16];
    let mut i: usize = 0;
    while i < 16
        invariant
            i <= 16,
            at + 16 <= raw@.len() == n,
            forall|k: int| 0 <= k < i ==> octets@[k] == raw@[at + k],
        decreases 16 - i,
    {
        octets[i] = raw[at + i];
        i = i + 1;
    }
    assert(octets@ =~= raw@.subrange(at as int, at + 16));
    Addr::ipv6(Ipv6Addr { octets })
}

/// The entry that a Unix record describes.
pub fn unix_entry(rec: UnixRecord, bits: FlagBits) -> (r: IntfEntry)
    ensures
        r@ == unix_interface(rec.name@, rec.flags, rec.addr, bits),
{
    let mut entry: IntfEntry = IntfEntry::default();
    entry.name = rec.name;
    entry.flags = pick_flag(rec.flags, bits.up, INTF_FLAG_UP) | pick_flag(
        rec.flags,
        bits.loopback,
        INTF_FLAG_LOOPBACK,
    ) | pick_flag(rec.flags, bits.point_to_point, INTF_FLAG_POINTOPOINT) | pick_flag(
        rec.flags,
        bits.noarp,
        INTF_FLAG_NOARP,
    ) | pick_flag(rec.flags, bits.broadcast, INTF_FLAG_BROADCAST) | pick_flag(
        rec.flags,
        bits.multicast,
        INTF_FLAG_MULTICAST,
    );
    match &rec.addr {
        RawSockaddr::Inet(raw) => {
            let ip: Ipv4Addr = Ipv4Addr::new(raw[4], raw[5], raw[6], raw[7]);
            assert(ip.octets@ =~= raw@.subrange(4, 8));
            entry.addr = Addr::ipv4(ip);
        },
        RawSockaddr::Inet6(raw) => {
            entry.addr = ipv6_at(raw.as_slice(), 8);
        },
        RawSockaddr::Packet(raw) => {
            if raw[11] == 6 {
                entry.link_addr = Addr::hw(six_bytes(raw.as_slice(), 12));
            }
        },
        RawSockaddr::Link(raw) => {
            if raw.len() >= 8 && raw[6] == 6 {
                let at: usize = 8 + raw[5] as usize;
                if raw.len() >= at + 6 {
                    entry.link_addr = Addr::hw(six_bytes(raw.as_slice(), at));
                }
            }
        },
        _ => {},
    }
    assert(entry@ =~= unix_interface(rec.name@, rec.flags, rec.addr, bits));
    entry
}

/// The interfaces that Unix records describe, one each.
pub open spec fn unix_list(recs: Seq<UnixRecord>, bits: FlagBits) -> Seq<Interface> {
    recs.map_values(|r: UnixRecord| unix_interface(r.name@, r.flags, r.addr, bits))
}

/// Entries with their names and addresses as sequences.
pub open spec fn interfaces(s: Seq<IntfEntry>) -> Seq<Interface> {
    s.map_values(|e: IntfEntry| e@)
}

/// The entries that Unix records describe, in their order.
pub fn unix_interfaces(recs: Vec<UnixRecord>, bits: FlagBits) -> (r: Vec<IntfEntry>)
    ensures
        interfaces(r@) == unix_list(recs@, bits),
{
    let mut recs: Vec<UnixRecord> = recs;
    let ghost all = recs@;
    let mut out: Vec<IntfEntry> = Vec::new();
    assert(interfaces(out@) =~= unix_list(all.take(0), bits));
    while recs.len() > 0
        invariant
            recs@.len() <= all.len(),
            recs@ == all.skip(all.len() - recs@.len()),
            interfaces(out@) == unix_list(all.take(all.len() - recs@.len()), bits),
        decreases recs@.len(),
    {
        let ghost done = all.len() - recs@.len();
        let rec: UnixRecord = recs.remove(0);
        assert(rec == all[done]);
        let ghost before = out@;
        out.push(unix_entry(rec, bits));
        assert(interfaces(out@) =~= interfaces(before).push(out@.last()@));
        assert(interfaces(out@) =~= unix_list(all.take(done + 1), bits));
        assert(recs@ =~= all.skip(done + 1));
    }
    assert(all.take(all.len() as int) =~= all);
    out
}

// ---------------------------------------------------------------------------
// Windows records

/// A unicast address of an adapter.
#[derive(Debug)]
pub enum AdapterAddr {
    /// The four octets of an IPv4 address.
    Inet([u8; 4]),
    /// The sixteen octets of an IPv6 address.
    Inet6([u8; 16]),
    /// An address of another family.
    Other,
}

/// One record of `GetAdaptersAddresses`.
#[derive(Debug)]
pub struct AdapterRecord {
    pub friendly_name: String,
    pub adapter_name: String,
    pub if_type: u32,
    pub oper_status: i32,
    pub mtu: u32,
    pub physical_len: u32,
    pub physical: [u8; 8],
    pub unicast: Vec<AdapterAddr>,
}

/// The address that an adapter lists, if its family is known.
pub open spec fn adapter_addr(a: AdapterAddr) -> Option<Address> {
    match a {
        AdapterAddr::Inet(o) => Some(Address::ipv4(o@)),
        AdapterAddr::Inet6(o) => Some(Address::ipv6(o@)),
        AdapterAddr::Other => None,
    }
}

/// The addresses of known families, in order.
pub open spec fn adapter_addrs(s: Seq<AdapterAddr>) -> Seq<Address>
    decreases s.len(),
{
    if s.len() == 0 {
        Seq::empty()
    } else {
        match adapter_addr(s.last()) {
            Some(a) => adapter_addrs(s.drop_last()).push(a),
            None => adapter_addrs(s.drop_last()),
        }
    }
}

/// The interface that an adapter record describes. Its first address is the
/// primary one, the others are aliases.
pub open spec fn adapter_interface(r: AdapterRecord) -> Interface {
    let known = adapter_addrs(r.unicast@);
    let loopback = r.if_type == 24;
    Interface {
        name: if r.friendly_name@.len() > 0 {
            r.friendly_name@
        } else if r.adapter_name@.len() > 0 {
            r.adapter_name@
        } else {
            "iface"@
        },
        mtu: r.mtu,
        intf_type: if loopback {
            INTF_TYPE_LOOPBACK
        } else {
            INTF_TYPE_ETH
        },
        flags: (if loopback {
            INTF_FLAG_LOOPBACK
        } else {
            0
        }) | (if r.oper_status == 1 {
            INTF_FLAG_UP
        } else {
            0
        }),
        link_addr: if r.physical_len >= 6 {
            Address::hw(r.physical@.take(6))
        } else {
            Address::none()
        },
        addr: if known.len() > 0 {
            known[0]
        } else {
            Address::none()
        },
        alias_addrs: if known.len() > 0 {
            known.skip(1)
        } else {
            Seq::empty()
        },
        ..Interface::blank()
    }
}

/// Whether a string is empty.
fn is_empty(s: &String) -> (r: bool)
    ensures
        r == (s@.len() == 0),
{
    let chars: Vec<char> = crate::text::chars_of(s.as_str());
    chars.len() == 0
}

/// The entry that an adapter record describes.
pub fn adapter_entry(rec: AdapterRecord) -> (r: IntfEntry)
    ensures
        r@ == adapter_interface(rec),
{
    let ghost want = adapter_interface(rec);
    let mut ent: IntfEntry = IntfEntry::default();
    if !is_empty(&rec.friendly_name) {
        ent.name = rec.friendly_name;
    } else if !is_empty(&rec.adapter_name) {
        ent.name = rec.adapter_name;
    } else {
        ent.name.append("iface");
        assert(ent.name@ =~= "iface"@);
    }
    ent.mtu = rec.mtu;
    let loopback: u16 = if rec.if_type == 24 {
        ent.intf_type = INTF_TYPE_LOOPBACK;
        INTF_FLAG_LOOPBACK
    } else {
        ent.intf_type = INTF_TYPE_ETH;
        0
    };
    let up: u16 = if rec.oper_status == 1 {
        INTF_FLAG_UP
    } else {
        0
    };
    ent.flags = loopback | up;
    if rec.physical_len >= 6 {
        let mac: [u8; 6] = six_bytes(rec.physical.as_slice(), 0);
        assert(mac@ =~= rec.physical@.take(6));
        ent.link_addr = Addr::hw(mac);
    }
    let ghost fixed = ent@;
    let mut i: usize = 0;
    assert(adapter_addrs(rec.unicast@.take(0)) =~= Seq::<Address>::empty());
    while i < rec.unicast.len()
        invariant
            i <= rec.unicast@.len(),
            ent@ == (Interface { addr: ent@.addr, alias_addrs: ent@.alias_addrs, ..fixed }),
            ({
                let known = adapter_addrs(rec.unicast@.take(i as int));
                if known.len() > 0 {
                    ent@.addr == known[0] && ent@.alias_addrs == known.skip(1)
                        && ent.addr.addr_type != ADDR_TYPE_NONE
                } else {
                    ent@.addr == Address::none() && ent@.alias_addrs == Seq::<Address>::empty()
                }
            }),
        decreases rec.unicast@.len() - i,
    {
        let ghost known = adapter_addrs(rec.unicast@.take(i as int));
        let ghost next = adapter_addrs(rec.unicast@.take(i + 1));
        assert(rec.unicast@.take(i + 1).drop_last() =~= rec.unicast@.take(i as int));
        let found: Option<Addr> = match &rec.unicast[i] {
            AdapterAddr::Inet(o) => Some(Addr::ipv4(Ipv4Addr { octets: *o })),
            AdapterAddr::Inet6(o) => Some(Addr::ipv6(Ipv6Addr { octets: *o })),
            AdapterAddr::Other => None,
        };
        match found {
            Some(addr) => {
                assert(next == known.push(addr@));
                if ent.addr.addr_type == ADDR_TYPE_NONE {
                    ent.addr = addr;
                    assert(next.skip(1) =~= Seq::<Address>::empty());
                } else {
                    let ghost before = ent.alias_addrs@;
                    ent.alias_addrs.push(addr);
                    assert(addresses(ent.alias_addrs@) =~= addresses(before).push(addr@));
                    assert(next.skip(1) =~= known.skip(1).push(addr@));
                }
            },
            None => {},
        }
        i = i + 1;
    }
    assert(rec.unicast@.take(rec.unicast@.len() as int) =~= rec.unicast@);
    assert(ent@ =~= want);
    ent
}

/// The interfaces that adapter records describe, one each.
pub open spec fn adapter_list(recs: Seq<AdapterRecord>) -> Seq<Interface> {
    recs.map_values(|r: AdapterRecord| adapter_interface(r))
}

/// The entries that adapter records describe, in their order.
pub fn windows_interfaces(recs: Vec<AdapterRecord>) -> (r: Vec<IntfEntry>)
    ensures
        interfaces(r@) == adapter_list(recs@),
{
    let mut recs: Vec<AdapterRecord> = recs;
    let ghost all = recs@;
    let mut out: Vec<IntfEntry> = Vec::new();
    assert(interfaces(out@) =~= adapter_list(all.take(0)));
    while recs.len() > 0
        invariant
            recs@.len() <= all.len(),
            recs@ == all.skip(all.len() - recs@.len()),
            interfaces(out@) == adapter_list(all.take(all.len() - recs@.len())),
        decreases recs@.len(),
    {
        let ghost done = all.len() - recs@.len();
        let rec: AdapterRecord = recs.remove(0);
        assert(rec == all[done]);
        let ghost before = out@;
        out.push(adapter_entry(rec));
        assert(interfaces(out@) =~= interfaces(before).push(out@.last()@));
        assert(interfaces(out@) =~= adapter_list(all.take(done + 1)));
        assert(recs@ =~= all.skip(done + 1));
    }
    assert(all.take(all.len() as int) =~= all);
    out
}

/// The size of the buffer that adapter records are first asked for with.
pub const ADAPTER_BUFFER: u32 = 15360;

/// What to do after asking for adapter records.
#[derive(Clone, Copy, Debug, PartialEq, Eq, Structural)]
pub enum AdapterStep {
    /// The records are there.
    Read,
    /// The buffer was too small: ask again with one of this size.
    Grow(u32),
    /// There is nothing to be had.
    GiveUp,
}

/// Decide by the answer: done, too small a buffer, or another failure. `size`
/// is what the system says the buffer should have.
pub fn adapter_step(ok: bool, overflow: bool, size: u32) -> (r: AdapterStep)
    requires
        !ok && overflow ==> size <= u32::MAX - 8192,
    ensures
        r == (if ok {
            AdapterStep::Read
        } else if overflow {
            AdapterStep::Grow((size + 8192) as u32)
        } else {
            AdapterStep::GiveUp
        }),
{
    if ok {
        AdapterStep::Read
    } else if overflow {
        AdapterStep::Grow(size + 8192)
    } else {
        AdapterStep::GiveUp
    }
}

// ---------------------------------------------------------------------------
// Looking up

/// What the operating system says of its interfaces.
#[derive(Debug)]
pub enum SystemRecords {
    Unix(Vec<UnixRecord>, FlagBits),
    Windows(Vec<AdapterRecord>),
}

/// The interfaces that the records describe.
pub open spec fn described(records: SystemRecords) -> Seq<Interface> {
    match records {
        SystemRecords::Unix(recs, bits) => unix_list(recs@, bits),
        SystemRecords::Windows(recs) => adapter_list(recs@),
    }
}

/// All network interfaces of the host, from the system's records of them. With
/// no records there are no interfaces.
pub fn interface_list(records: SystemRecords) -> (r: Vec<IntfEntry>)
    ensures
        interfaces(r@) == described(records),
{
    match records {
        SystemRecords::Unix(recs, bits) => unix_interfaces(recs, bits),
        SystemRecords::Windows(recs) => windows_interfaces(recs),
    }
}

/// Where the first interface with a name is.
pub open spec fn named(s: Seq<Interface>, name: Seq<char>) -> Option<int>
    decreases s.len(),
{
    if s.len() == 0 {
        None
    } else {
        match named(s.drop_last(), name) {
            Some(i) => Some(i),
            None => if s.last().name == name {
                Some(s.len() - 1)
            } else {
                None
            },
        }
    }
}

/// Whether two strings are the same.
pub fn same_string(a: &str, b: &str) -> (r: bool)
    ensures
        r == (a@ == b@),
{
    let x: Vec<char> = crate::text::chars_of(a);
    crate::text::same_text(x.as_slice(), b)
}

/// Where the first interface with a name is.
pub fn find_named(list: &Vec<IntfEntry>, name: &str) -> (r: Option<usize>)
    ensures
        match r {
            Some(i) => named(interfaces(list@), name@) == Some(i as int) && i < list@.len(),
            None => named(interfaces(list@), name@) is None,
        },
{
    let ghost s = interfaces(list@);
    let mut i: usize = 0;
    assert(s.take(0) =~= Seq::<Interface>::empty());
    while i < list.len()
        invariant
            i <= list@.len(),
            s == interfaces(list@),
            named(s.take(i as int), name@) is None,
        decreases list@.len() - i,
    {
        assert(s.take(i + 1).drop_last() =~= s.take(i as int));
        assert(s.take(i + 1).last() == list@[i as int]@);
        if same_string(list[i].name.as_str(), name) {
            proof {
                lemma_named_prefix(s, name@, i + 1);
            }
            return Some(i);
        }
        i = i + 1;
    }
    assert(s.take(s.len() as int) =~= s);
    None
}

/// What is found among the first interfaces is found among all.
proof fn lemma_named_prefix(s: Seq<Interface>, name: Seq<char>, n: int)
    requires
        0 <= n <= s.len(),
        named(s.take(n), name) is Some,
    ensures
        named(s, name) == named(s.take(n), name),
    decreases s.len() - n,
{
    if n < s.len() {
        assert(s.take(n + 1).drop_last() =~= s.take(n));
        lemma_named_prefix(s, name, n + 1);
    } else {
        assert(s.take(n) =~= s);
    }
}

/// Look up a single interface entry by name. Returns `None` if no interface
/// with that name exists.
pub fn interface_by_name(list: Vec<IntfEntry>, name: &str) -> (r: Option<IntfEntry>)
    ensures
        match r {
            Some(e) => named(interfaces(list@), name@) matches Some(i) && e == list@[i],
            None => named(interfaces(list@), name@) is None,
        },
{
    let mut list: Vec<IntfEntry> = list;
    match find_named(&list, name) {
        Some(i) => Some(list.remove(i)),
        None => None,
    }
}

/// The port that probes are sent to (discard).
pub const DISCARD_PORT: u16 = 9;

/// The socket address of an IP address, with the discard port.
pub open spec fn discard_target(a: Address, sa: SocketAddr) -> bool {
    &&& sa.port == DISCARD_PORT
    &&& match sa.ip {
        IpAddr::V4(ip) => a.addr_type == ADDR_TYPE_IP && ip.octets@ == a.data.take(4),
        IpAddr::V6(ip) => a.addr_type == ADDR_TYPE_IP6 && ip.octets@ == a.data,
    }
}

/// The address of a socket, without its port.
pub open spec fn socket_ip(sa: SocketAddr) -> Address {
    match sa.ip {
        IpAddr::V4(ip) => Address::ipv4(ip.octets@),
        IpAddr::V6(ip) => Address::ipv6(ip.octets@),
    }
}

/// Convert an [`Addr`] to a [`SocketAddr`] with the discard port. Only IP
/// addresses have one.
pub fn addr_to_sockaddr(a: &Addr) -> (r: Option<SocketAddr>)
    ensures
        match r {
            Some(sa) => discard_target(a@, sa),
            None => a.addr_type != ADDR_TYPE_IP && a.addr_type != ADDR_TYPE_IP6,
        },
{
    match a.addr_type {
        ADDR_TYPE_IP => match a.to_ipv4() {
            Some(ip) => Some(SocketAddr { ip: IpAddr::V4(ip), port: DISCARD_PORT }),
            None => None,
        },
        ADDR_TYPE_IP6 => match a.to_ipv6() {
            Some(ip) => Some(SocketAddr { ip: IpAddr::V6(ip), port: DISCARD_PORT }),
            None => None,
        },
        _ => None,
    }
}

/// Convert a [`SocketAddr`] back to an [`Addr`], dropping the port.
pub fn sockaddr_to_addr(sa: &SocketAddr) -> (r: Addr)
    ensures
        r@ == socket_ip(*sa),
{
    match sa.ip {
        IpAddr::V4(ip) => Addr::ipv4(ip),
        IpAddr::V6(ip) => Addr::ipv6(ip),
    }
}

/// A plain IP address comes back from its socket address.
pub proof fn law_sockaddr_roundtrip(a: Address, sa: SocketAddr)
    requires
        discard_target(a, sa),
        a == Address::ipv4(a.data.take(4)) || a.addr_type == ADDR_TYPE_IP6 && a.addr_bits == 128,
    ensures
        socket_ip(sa) == a,
{
}

/// The address to bind a datagram socket to before it is connected to `target`.
pub fn probe_bind(target: &SocketAddr) -> (r: &'static str)
    ensures
        r@ == (if target.ip is V4 {
            "0.0.0.0:0"@
        } else {
            "[::]:0"@
        }),
{
    match target.ip {
        IpAddr::V4(_) => "0.0.0.0:0",
        IpAddr::V6(_) => "[::]:0",
    }
}

/// The local source address the kernel would use to reach `dest`.
///
/// `local` is the address of a datagram socket after it was connected to the
/// [`addr_to_sockaddr`] of `dest`, which sends no packets; nothing where that
/// failed.
pub fn source_addr_for_dest(dest: &Addr, local: Option<SocketAddr>) -> (r: Option<Addr>)
    ensures
        match r {
            Some(a) => (dest.addr_type == ADDR_TYPE_IP || dest.addr_type == ADDR_TYPE_IP6)
                && local is Some && a@ == socket_ip(local->0),
            None => !(dest.addr_type == ADDR_TYPE_IP || dest.addr_type == ADDR_TYPE_IP6)
                || local is None,
        },
{
    match addr_to_sockaddr(dest) {
        None => None,
        Some(_) => match local {
            Some(sa) => Some(sockaddr_to_addr(&sa)),
            None => None,
        },
    }
}

/// Whether `family` is `AF_INET` (2) or `AF_INET6` (10, or 23 on Windows).
pub open spec fn known_family(family: u16) -> bool {
    family == 2 || family == 10 || family == 23
}

/// The address that stands for the default route of an address family: the
/// broadcast address for IPv4, the all-nodes multicast address for IPv6.
pub fn family_target(family: u16) -> (r: Option<Addr>)
    ensures
        match r {
            Some(a) => known_family(family) && (if family == 2 {
                a@ == Address::ipv4(seq![255u8, 255u8, 255u8, 255u8])
            } else {
                a@ == Address::ipv6(a@.data) && segments_of(a@.data) == seq![
                    0xff01u16,
                    0u16,
                    0u16,
                    0u16,
                    0u16,
                    0u16,
                    0u16,
                    1u16,
                ]
            }),
            None => !known_family(family),
        },
{
    match family {
        2 => Some(Addr::ipv4(Ipv4Addr::new(255, 255, 255, 255))),
        10 | 23 => Some(Addr::ipv6(Ipv6Addr::new(0xff01, 0, 0, 0, 0, 0, 0, 1))),
        _ => None,
    }
}

/// The local source address the kernel would use to reach the default route
/// for a given address family (`AF_INET` = 2, `AF_INET6` = 10).
///
/// `local` is the address of a datagram socket after it was connected to the
/// [`family_target`]; nothing where that failed.
pub fn source_addr_for_family(family: u16, local: Option<SocketAddr>) -> (r: Option<Addr>)
    ensures
        match r {
            Some(a) => known_family(family) && local is Some && a@ == socket_ip(local->0),
            None => !known_family(family) || local is None,
        },
{
    match family_target(family) {
        None => None,
        Some(dest) => source_addr_for_dest(&dest, local),
    }
}

/// Set attributes on an interface.
///
/// Reconfiguring a live interface (changing its MTU, flags, or IP address)
/// requires elevated privileges. The entry is validated against the interfaces
/// of the host, and the mutation itself is reported to need those privileges.
pub fn intf_set(entry: &IntfEntry, list: &Vec<IntfEntry>) -> (r: Result<(), String>)
    ensures
        r is Err,
        r->Err_0@ == (if entry.name@.len() == 0 {
            "intf_set: empty interface name"@
        } else if named(interfaces(list@), entry.name@) is None {
            "intf_set: no such interface '"@ + entry.name@ + "'"@
        } else {
            "intf_set: applying interface configuration (MTU/flags/address) requires elevated privileges; set them via the OS instead"@
        }),
{
    let mut e: String = String::new();
    if is_empty(&entry.name) {
        e.append("intf_set: empty interface name");
        assert(e@ =~= "intf_set: empty interface name"@);
        return Err(e);
    }
    if find_named(list, entry.name.as_str()).is_none() {
        e.append("intf_set: no such interface '");
        e.append(entry.name.as_str());
        e.append("'");
        assert(e@ =~= "intf_set: no such interface '"@ + entry.name@ + "'"@);
        return Err(e);
    }
    e.append(
        "intf_set: applying interface configuration (MTU/flags/address) requires elevated privileges; set them via the OS instead",
    );
    assert(e@
        =~= "intf_set: applying interface configuration (MTU/flags/address) requires elevated privileges; set them via the OS instead"@);
    Err(e)
}

// ---------------------------------------------------------------------------
// Laws on records

/// The flags of an interface, by their bits: each is set exactly where the
/// system's own bit for it is.
pub proof fn law_unix_flags(flags: u32, bits: FlagBits)
    ensures
        ({
            let f = unix_flags(flags, bits);
            &&& f & 0x01u16 != 0 <==> flags & bits.up != 0
            &&& f & 0x02u16 != 0 <==> flags & bits.loopback != 0
            &&& f & 0x04u16 != 0 <==> flags & bits.point_to_point != 0
            &&& f & 0x08u16 != 0 <==> flags & bits.noarp != 0
            &&& f & 0x10u16 != 0 <==> flags & bits.broadcast != 0
            &&& f & 0x20u16 != 0 <==> flags & bits.multicast != 0
            &&& f < 0x40
        }),
{
    let a = flag_if(flags, bits.up, INTF_FLAG_UP);
    let b = flag_if(flags, bits.loopback, INTF_FLAG_LOOPBACK);
    let c = flag_if(flags, bits.point_to_point, INTF_FLAG_POINTOPOINT);
    let d = flag_if(flags, bits.noarp, INTF_FLAG_NOARP);
    let e = flag_if(flags, bits.broadcast, INTF_FLAG_BROADCAST);
    let g = flag_if(flags, bits.multicast, INTF_FLAG_MULTICAST);
    let f = a | b | c | d | e | g;
    assert((f & 0x01u16 != 0 <==> a != 0) && (f & 0x02u16 != 0 <==> b != 0) && (f & 0x04u16 != 0
        <==> c != 0) && (f & 0x08u16 != 0 <==> d != 0) && (f & 0x10u16 != 0 <==> e != 0) && (f
        & 0x20u16 != 0 <==> g != 0) && f < 0x40) by (bit_vector)
        requires
            f == a | b | c | d | e | g,
            a == 0 || a == 0x01,
            b == 0 || b == 0x02,
            c == 0 || c == 0x04,
            d == 0 || d == 0x08,
            e == 0 || e == 0x10,
            g == 0 || g == 0x20,
    ;
}

/// The protocol address in a socket address: four bytes behind the first four
/// for IPv4, sixteen behind the first eight for IPv6. Others have none.
pub proof fn law_protocol_addr(v4: [u8; 16], v6: [u8; 28], other: RawSockaddr, i: int)
    requires
        0 <= i < 16,
        !(other is Inet) && !(other is Inet6),
    ensures
        ({
            let a = protocol_addr(RawSockaddr::Inet(v4));
            let b = protocol_addr(RawSockaddr::Inet6(v6));
            &&& a.addr_type == 2 && a.addr_bits == 32 && a.data.len() == 16
            &&& a.data[i] == (if i < 4 {
                v4@[4 + i]
            } else {
                0
            })
            &&& b.addr_type == 3 && b.addr_bits == 128 && b.data.len() == 16
            &&& b.data[i] == v6@[8 + i]
            &&& protocol_addr(other).addr_type == 0
        }),
{
}

/// The Ethernet address in a socket address. On Linux its length stands at 11
/// and the address at 12. On BSD its length stands at 6 and the address behind
/// the interface name, which begins at 8 and whose length stands at 5. An
/// address of another length than six is none.
pub proof fn law_hardware_addr(p: [u8; 20], l: Vec<u8>, i: int)
    requires
        0 <= i < 6,
    ensures
        ({
            let a = hardware_addr(RawSockaddr::Packet(p));
            let b = hardware_addr(RawSockaddr::Link(l));
            let whole = l@.len() >= 8 && l@[6] == 6 && l@.len() >= 8 + l@[5] + 6;
            &&& p@[11] == 6 ==> a.addr_type == 4 && a.addr_bits == 48 && a.data.len() == 16
                && a.data[i] == p@[12 + i]
            &&& p@[11] != 6 ==> a.addr_type == 0
            &&& whole ==> b.addr_type == 4 && b.addr_bits == 48 && b.data.len() == 16 && b.data[i]
                == l@[8 + l@[5] + i]
            &&& !whole ==> b.addr_type == 0
        }),
{
}

/// What a Unix record says of an interface, and what it leaves unsaid.
pub proof fn law_unix_interface(name: Seq<char>, flags: u32, a: RawSockaddr, bits: FlagBits)
    ensures
        ({
            let i = unix_interface(name, flags, a, bits);
            &&& i.name == name
            &&& i.flags == unix_flags(flags, bits)
            &&& i.addr == protocol_addr(a)
            &&& i.link_addr == hardware_addr(a)
            &&& i.intf_type == 0 && i.mtu == 0
            &&& i.dst_addr.addr_type == 0
            &&& i.alias_addrs.len() == 0
        }),
{
}

/// Records describe one interface each, in their order.
pub proof fn law_records_described(u: Vec<UnixRecord>, bits: FlagBits, w: Vec<AdapterRecord>, i: int)
    ensures
        described(SystemRecords::Unix(u, bits)).len() == u@.len(),
        described(SystemRecords::Windows(w)).len() == w@.len(),
        0 <= i < u@.len() ==> described(SystemRecords::Unix(u, bits))[i] == unix_interface(
            u@[i].name@,
            u@[i].flags,
            u@[i].addr,
            bits,
        ),
        0 <= i < w@.len() ==> described(SystemRecords::Windows(w))[i] == adapter_interface(w@[i]),
{
}

/// The addresses of an adapter, in the order in which it lists them. Those of
/// other families are left out.
pub proof fn law_adapter_addrs(s: Seq<AdapterAddr>, v4: [u8; 4], v6: [u8; 16])
    ensures
        adapter_addrs(Seq::empty()).len() == 0,
        adapter_addrs(s.push(AdapterAddr::Inet(v4))) == adapter_addrs(s).push(Address::ipv4(v4@)),
        adapter_addrs(s.push(AdapterAddr::Inet6(v6))) == adapter_addrs(s).push(Address::ipv6(v6@)),
        adapter_addrs(s.push(AdapterAddr::Other)) == adapter_addrs(s),
{
    assert(s.push(AdapterAddr::Inet(v4)).drop_last() =~= s);
    assert(s.push(AdapterAddr::Inet6(v6)).drop_last() =~= s);
    assert(s.push(AdapterAddr::Other).drop_last() =~= s);
}

/// What an adapter record says of an interface. Its name is the friendly one,
/// else the adapter's, else `iface`. The type with the number 24 is a loopback
/// adapter, any other counts as Ethernet. The status 1 is up. A physical address
/// of six or more bytes is an Ethernet address. The first listed address is the
/// primary one and the others are aliases.
pub proof fn law_adapter_interface(r: AdapterRecord, k: int)
    requires
        0 <= k < 6,
    ensures
        ({
            let i = adapter_interface(r);
            let known = adapter_addrs(r.unicast@);
            &&& r.friendly_name@.len() > 0 ==> i.name == r.friendly_name@
            &&& r.friendly_name@.len() == 0 && r.adapter_name@.len() > 0 ==> i.name
                == r.adapter_name@
            &&& r.friendly_name@.len() == 0 && r.adapter_name@.len() == 0 ==> i.name == "iface"@
            &&& i.mtu == r.mtu
            &&& i.intf_type == (if r.if_type == 24 {
                24u16
            } else {
                6u16
            })
            &&& i.flags & 0x02u16 != 0 <==> r.if_type == 24
            &&& i.flags & 0x01u16 != 0 <==> r.oper_status == 1
            &&& i.flags < 4
            &&& r.physical_len >= 6 ==> i.link_addr.addr_type == 4 && i.link_addr.addr_bits == 48
                && i.link_addr.data[k] == r.physical@[k]
            &&& r.physical_len < 6 ==> i.link_addr.addr_type == 0
            &&& known.len() == 0 ==> i.addr.addr_type == 0 && i.alias_addrs.len() == 0
            &&& known.len() > 0 ==> i.addr == known[0] && i.alias_addrs == known.subrange(
                1,
                known.len() as int,
            )
            &&& i.dst_addr.addr_type == 0
        }),
{
    let known = adapter_addrs(r.unicast@);
    if known.len() > 0 {
        assert(known.skip(1) =~= known.subrange(1, known.len() as int));
    }
    let a: u16 = if r.if_type == 24 {
        0x02u16
    } else {
        0
    };
    let b: u16 = if r.oper_status == 1 {
        0x01u16
    } else {
        0
    };
    assert(((a | b) & 0x02u16 != 0 <==> a != 0) && ((a | b) & 0x01u16 != 0 <==> b != 0) && (a | b)
        < 4) by (bit_vector)
        requires
            a == 0 || a == 0x02,
            b == 0 || b == 0x01,
    ;
}

/// An interface is found by its name where it is the first that has it.
pub proof fn law_named(s: Seq<Interface>, name: Seq<char>, i: int)
    requires
        0 <= i <= s.len(),
        forall|k: int| 0 <= k < i ==> (#[trigger] s[k]).name != name,
        i < s.len() ==> s[i].name == name,
    ensures
        i < s.len() ==> named(s, name) == Some(i),
        i == s.len() ==> named(s, name) is None,
    decreases s.len(),
{
    if s.len() > 0 {
        let b = s.drop_last();
        if i < s.len() - 1 {
            assert forall|k: int| 0 <= k < i implies (#[trigger] b[k]).name != name by {
                assert(b[k] == s[k]);
            }
            law_named(b, name, i);
        } else {
            assert forall|k: int| 0 <= k < b.len() implies (#[trigger] b[k]).name != name by {
                assert(b[k] == s[k]);
            }
            law_named(b, name, b.len() as int);
            assert(s.last() == s[s.len() - 1]);
        }
    }
}

/// The socket address to probe an address with has its octets and the port 9.
pub proof fn law_discard_target(a: Address, sa: SocketAddr, i: int)
    requires
        discard_target(a, sa),
        a.data.len() == 16,
        0 <= i < 4,
    ensures
        sa.port == 9,
        sa.ip is V4 <==> a.addr_type == 2,
        sa.ip is V6 <==> a.addr_type == 3,
        sa.ip matches IpAddr::V4(ip) ==> ip.octets@[i] == a.data[i],
        sa.ip matches IpAddr::V6(ip) ==> ip.octets@ == a.data,
{
    if sa.ip is V4 {
        assert(a.data.take(4)[i] == a.data[i]);
    }
}

/// The address of a socket is its octets, with the number and the length of its
/// family.
pub proof fn law_socket_ip(v4: Ipv4Addr, v6: Ipv6Addr, port: u16, i: int)
    requires
        0 <= i < 16,
    ensures
        ({
            let a = socket_ip(SocketAddr { ip: IpAddr::V4(v4), port });
            let b = socket_ip(SocketAddr { ip: IpAddr::V6(v6), port });
            &&& a.addr_type == 2 && a.addr_bits == 32 && a.data.len() == 16
            &&& a.data[i] == (if i < 4 {
                v4.octets@[i]
            } else {
                0
            })
            &&& b.addr_type == 3 && b.addr_bits == 128 && b.data == v6.octets@
        }),
{
}

/// The numbers of the address families: 2 for IPv4; 10, or 23 on Windows, for
/// IPv6.
pub proof fn law_known_family(family: u16)
    ensures
        known_family(family) <==> family == 2 || family == 10 || family == 23,
{
}

} // verus!
