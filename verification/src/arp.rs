//! Address Resolution Protocol.
//!
//! RFC 826 ARP message structures, packing/unpacking helpers, and a userspace
//! ARP cache (the operating system kernel owns the real cache; this is a
//! portable data model of it).

use vstd::prelude::*;

use crate::addr::{law_address_kinds, Addr, Address, ADDR_TYPE_IP, HW_ADDR_LEN, IP_ADDR_LEN};
use crate::eth::{six_bytes, EthAddr};
use crate::ip::Ipv4Addr;
use crate::wire::{
    be16, be16_bytes, get_be16, law_big_endian, law_integer_bytes, overwritten, put_be16, put_bytes,
};

verus! {

/// Base ARP header length.
pub const ARP_HDR_LEN: usize = 8;
/// Base ARP message length for Ethernet/IP.
pub const ARP_ETHIP_LEN: usize = 20;

/// Hardware address format.
pub const ARP_HRD_ETH: u16 = 0x0001;
pub const ARP_HRD_IEEE802: u16 = 0x0006;
pub const ARP_HRD_IEEE80211_RADIOTAP: u16 = 0x0323;

/// Protocol address format.
pub const ARP_PRO_IP: u16 = 0x0800;

/// ARP operation.
pub const ARP_OP_REQUEST: u16 = 1;
pub const ARP_OP_REPLY: u16 = 2;
pub const ARP_OP_REVREQUEST: u16 = 3;
pub const ARP_OP_REVREPLY: u16 = 4;

/// Base ARP header.
#[derive(Clone, Copy, Debug, PartialEq, Eq, Structural)]
pub struct ArpHdr {
    /// Hardware format.
    pub hrd: u16,
    /// Protocol format.
    pub pro: u16,
    /// Hardware address length.
    pub hln: u8,
    /// Protocol address length.
    pub pln: u8,
    /// Operation.
    pub op: u16,
}

/// The bytes of an ARP header.
pub open spec fn hdr_bytes(h: ArpHdr) -> Seq<u8> {
    be16_bytes(h.hrd) + be16_bytes(h.pro) + seq![h.hln, h.pln] + be16_bytes(h.op)
}

/// The ARP header at the start of `s`.
pub open spec fn hdr_at(s: Seq<u8>) -> ArpHdr {
    ArpHdr {
        hrd: be16(s, 0) as u16,
        pro: be16(s, 2) as u16,
        hln: s[4],
        pln: s[5],
        op: be16(s, 6) as u16,
    }
}

impl ArpHdr {
    /// Parse from the first `ARP_HDR_LEN` bytes (network byte order).
    pub fn parse(buf: &[u8]) -> (r: Option<ArpHdr>)
        ensures
            r == (if buf@.len() < 8 {
                None
            } else {
                Some(hdr_at(buf@))
            }),
    {
        if buf.len() < ARP_HDR_LEN {
            return None;
        }
        Some(
            ArpHdr {
                hrd: get_be16(buf, 0),
                pro: get_be16(buf, 2),
                hln: buf[4],
                pln: buf[5],
                op: get_be16(buf, 6),
            },
        )
    }

    /// Serialize this header to the front of a buffer (needs `ARP_HDR_LEN`).
    pub fn encode(&self, buf: &mut [u8])
        requires
            old(buf)@.len() >= 8,
        ensures
            final(buf)@ == overwritten(old(buf)@, 0, hdr_bytes(*self)),
    {
        put_be16(buf, 0, self.hrd);
        put_be16(buf, 2, self.pro);
        let lens: [u8; 2] = [self.hln, self.pln];
        assert(lens@ =~= seq![self.hln, self.pln]);
        put_bytes(buf, 4, lens.as_slice());
        put_be16(buf, 6, self.op);
        assert(buf@ =~= overwritten(old(buf)@, 0, hdr_bytes(*self)));
    }
}

/// Ethernet/IP ARP message body.
#[derive(Clone, Copy, Debug, PartialEq, Eq)]
pub struct ArpEthIp {
    /// Sender hardware address.
    pub sha: EthAddr,
    /// Sender protocol address.
    pub spa: Addr,
    /// Target hardware address.
    pub tha: EthAddr,
    /// Target protocol address.
    pub tpa: Addr,
}

/// The octets of an IPv4 address; zeros for any other address.
pub open spec fn octets_or_zero(a: Address) -> Seq<u8> {
    if a.addr_type == ADDR_TYPE_IP {
        a.data.take(4)
    } else {
        seq![0u8, 0u8, 0u8, 0u8]
    }
}

/// The bytes of an ARP message body.
pub open spec fn body_bytes(b: ArpEthIp) -> Seq<u8> {
    b.sha.data@ + octets_or_zero(b.spa@) + b.tha.data@ + octets_or_zero(b.tpa@)
}

/// Whether a body is the one at the start of `s`.
pub open spec fn body_at(b: ArpEthIp, s: Seq<u8>) -> bool {
    &&& b.sha.data@ == s.subrange(0, 6)
    &&& b.spa@ == Address::ipv4(s.subrange(6, 10))
    &&& b.tha.data@ == s.subrange(10, 16)
    &&& b.tpa@ == Address::ipv4(s.subrange(16, 20))
}

/// The octets of an IPv4 address; zeros for any other address.
fn octets_of(a: &Addr) -> (r: Ipv4Addr)
    ensures
        r.octets@ == octets_or_zero(a@),
{
    match a.to_ipv4() {
        Some(ip) => ip,
        None => Ipv4Addr::new(0, 0, 0, 0),
    }
}

/// The IPv4 address at `at`.
fn ipv4_at(buf: &[u8], at: usize) -> (r: Addr)
    requires
        at + 4 <= buf@.len(),
    ensures
        r@ == Address::ipv4(buf@.subrange(at as int, at + 4)),
{
    let ip: Ipv4Addr = Ipv4Addr::new(buf[at], buf[at + 1], buf[at + 2], buf[at + 3]);
    assert(ip.octets@ =~= buf@.subrange(at as int, at + 4));
    Addr::ipv4(ip)
}

impl ArpEthIp {
    /// Parse the body that follows the ARP header for Ethernet/IP.
    pub fn parse(buf: &[u8]) -> (r: Option<ArpEthIp>)
        ensures
            match r {
                Some(b) => buf@.len() >= 20 && body_at(b, buf@),
                None => buf@.len() < 20,
            },
    {
        if buf.len() < ARP_ETHIP_LEN {
            return None;
        }
        Some(
            ArpEthIp {
                sha: EthAddr::new(six_bytes(buf, 0)),
                spa: ipv4_at(buf, 6),
                tha: EthAddr::new(six_bytes(buf, 10)),
                tpa: ipv4_at(buf, 16),
            },
        )
    }

    /// Serialize this body to the front of a buffer (needs `ARP_ETHIP_LEN`).
    pub fn encode(&self, buf: &mut [u8])
        requires
            old(buf)@.len() >= 20,
        ensures
            final(buf)@ == overwritten(old(buf)@, 0, body_bytes(*self)),
    {
        self.encode_at(buf, 0);
    }

    /// Serialize this body into a buffer from `at` on.
    fn encode_at(&self, buf: &mut [u8], at: usize)
        requires
            at + 20 <= old(buf)@.len(),
        ensures
            final(buf)@ == overwritten(old(buf)@, at as int, body_bytes(*self)),
    {
        let n: usize = buf.len();
        let sp: Ipv4Addr = octets_of(&self.spa);
        let tp: Ipv4Addr = octets_of(&self.tpa);
        put_bytes(buf, at, self.sha.data.as_slice());
        put_bytes(buf, at + 6, sp.octets.as_slice());
        put_bytes(buf, at + 10, self.tha.data.as_slice());
        put_bytes(buf, at + 16, tp.octets.as_slice());
        assert(buf@ =~= overwritten(old(buf)@, at as int, body_bytes(*self)));
    }
}

/// Full Ethernet/IP ARP message (header + body).
#[derive(Clone, Copy, Debug, PartialEq, Eq)]
pub struct ArpMsg {
    pub hdr: ArpHdr,
    pub body: ArpEthIp,
}

/// The bytes of an ARP message.
pub open spec fn msg_bytes(m: ArpMsg) -> Seq<u8> {
    hdr_bytes(m.hdr) + body_bytes(m.body)
}

impl ArpMsg {
    /// Build an Address Resolution request.
    pub fn request(spa: Addr, tpa: Addr, sha: EthAddr) -> (r: ArpMsg)
        ensures
            r.hdr == (ArpHdr {
                hrd: ARP_HRD_ETH,
                pro: ARP_PRO_IP,
                hln: 6,
                pln: 4,
                op: ARP_OP_REQUEST,
            }),
            r.body.sha == sha,
            r.body.spa == spa,
            r.body.tha.data@ == seq![0u8, 0u8, 0u8, 0u8, 0u8, 0u8],
            r.body.tpa == tpa,
    {
        ArpMsg {
            hdr: ArpHdr {
                hrd: ARP_HRD_ETH,
                pro: ARP_PRO_IP,
                hln: HW_ADDR_LEN as u8,
                pln: IP_ADDR_LEN as u8,
                op: ARP_OP_REQUEST,
            },
            body: ArpEthIp { sha, spa, tha: EthAddr::default(), tpa },
        }
    }

    /// Serialize into a buffer big enough for `ARP_ETHIP_LEN + ARP_HDR_LEN`.
    pub fn encode(&self, buf: &mut [u8])
        requires
            old(buf)@.len() >= 28,
        ensures
            final(buf)@ == overwritten(old(buf)@, 0, msg_bytes(*self)),
    {
        self.hdr.encode(buf);
        self.body.encode_at(buf, ARP_HDR_LEN);
        assert(buf@ =~= overwritten(old(buf)@, 0, msg_bytes(*self)));
    }

    pub fn total_len(&self) -> (r: usize)
        ensures
            r == 28,
            r == msg_bytes(*self).len(),
    {
        ARP_HDR_LEN + ARP_ETHIP_LEN
    }
}

/// Parsing undoes encoding: the header and the body of a message are found
/// where it was written, whatever the buffer held before. Protocol addresses
/// come back where they are plain IPv4 addresses.
pub proof fn law_arp_roundtrip(m: ArpMsg, before: Seq<u8>)
    requires
        before.len() >= 28,
        m.body.spa@ == Address::ipv4(m.body.spa.data@.take(4)),
        m.body.tpa@ == Address::ipv4(m.body.tpa.data@.take(4)),
    ensures
        overwritten(before, 0, msg_bytes(m)).len() == before.len(),
        hdr_at(overwritten(before, 0, msg_bytes(m))) == m.hdr,
        body_at(m.body, overwritten(before, 0, msg_bytes(m)).skip(8)),
{
    let s = overwritten(before, 0, msg_bytes(m));
    let t = s.skip(8);
    let h = hdr_bytes(m.hdr);
    assert forall|i: int| 0 <= i < 8 implies s[i] == h[i] by {}
    assert(t.subrange(0, 6) =~= m.body.sha.data@);
    assert(t.subrange(6, 10) =~= m.body.spa.data@.take(4));
    assert(t.subrange(10, 16) =~= m.body.tha.data@);
    assert(t.subrange(16, 20) =~= m.body.tpa.data@.take(4));
}

// ---------------------------------------------------------------------------
// Cache

/// A mapping of a protocol address to a hardware address.
#[derive(Clone, Copy, Debug, PartialEq, Eq)]
pub struct ArpEntry {
    /// Protocol (IP) address.
    pub pa: Addr,
    /// Hardware (Ethernet) address.
    pub ha: Addr,
}

/// Whether no protocol address has two entries.
pub open spec fn distinct(s: Seq<ArpEntry>) -> bool {
    forall|i: int, j: int| 0 <= i < j < s.len() ==> (#[trigger] s[i]).pa != (#[trigger] s[j]).pa
}

/// Where the entry of a protocol address is.
pub open spec fn position(s: Seq<ArpEntry>, pa: Addr) -> Option<int>
    decreases s.len(),
{
    if s.len() == 0 {
        None
    } else if s.last().pa == pa {
        Some(s.len() - 1)
    } else {
        position(s.drop_last(), pa)
    }
}

/// The hardware address for a protocol address.
pub open spec fn lookup(s: Seq<ArpEntry>, pa: Addr) -> Option<Addr> {
    match position(s, pa) {
        Some(i) => Some(s[i].ha),
        None => None,
    }
}

/// The entries with one added at the end, or put in place of the one that has
/// its protocol address.
pub open spec fn added(s: Seq<ArpEntry>, e: ArpEntry) -> Seq<ArpEntry> {
    match position(s, e.pa) {
        Some(i) => s.update(i, e),
        None => s.push(e),
    }
}

/// The entries without those of a protocol address, in their order.
pub open spec fn deleted(s: Seq<ArpEntry>, pa: Addr) -> Seq<ArpEntry>
    decreases s.len(),
{
    if s.len() == 0 {
        Seq::empty()
    } else if s.last().pa == pa {
        deleted(s.drop_last(), pa)
    } else {
        deleted(s.drop_last(), pa).push(s.last())
    }
}

/// A found position holds the address, and where none is found no entry does.
proof fn lemma_position(s: Seq<ArpEntry>, pa: Addr)
    ensures
        match position(s, pa) {
            Some(i) => 0 <= i < s.len() && s[i].pa == pa,
            None => forall|i: int| 0 <= i < s.len() ==> (#[trigger] s[i]).pa != pa,
        },
    decreases s.len(),
{
    if s.len() > 0 && s.last().pa != pa {
        lemma_position(s.drop_last(), pa);
        if position(s.drop_last(), pa) is None {
            assert forall|i: int| 0 <= i < s.len() implies (#[trigger] s[i]).pa != pa by {
                if i < s.len() - 1 {
                    assert(s[i] == s.drop_last()[i]);
                }
            }
        }
    }
}

/// Every entry that is left was there before, and not for the address.
proof fn lemma_deleted(s: Seq<ArpEntry>, pa: Addr)
    ensures
        deleted(s, pa).len() <= s.len(),
        forall|i: int|
            0 <= i < deleted(s, pa).len() ==> (#[trigger] deleted(s, pa)[i]).pa != pa && s.contains(
                deleted(s, pa)[i],
            ),
        distinct(s) ==> distinct(deleted(s, pa)),
    decreases s.len(),
{
    if s.len() > 0 {
        let b = s.drop_last();
        lemma_deleted(b, pa);
        let d = deleted(s, pa);
        assert forall|i: int| 0 <= i < d.len() implies (#[trigger] d[i]).pa != pa && s.contains(
            d[i],
        ) by {
            if i < deleted(b, pa).len() {
                assert(d[i] == deleted(b, pa)[i]);
                let k = choose|k: int| 0 <= k < b.len() && b[k] == d[i];
                assert(s[k] == d[i]);
            } else {
                assert(s[s.len() - 1] == d[i]);
            }
        }
        if distinct(s) {
            assert forall|i: int, j: int| 0 <= i < j < b.len() implies (#[trigger] b[i]).pa != (
            #[trigger] b[j]).pa by {
                assert(s[i].pa != s[j].pa);
            }
            assert forall|i: int, j: int| 0 <= i < j < d.len() implies (#[trigger] d[i]).pa != (
            #[trigger] d[j]).pa by {
                let db = deleted(b, pa);
                if j < db.len() {
                    assert(d[i] == db[i] && d[j] == db[j]);
                } else {
                    assert(d[i] == db[i]);
                    let k = choose|k: int| 0 <= k < b.len() && b[k] == db[i];
                    assert(s[k].pa != s[s.len() - 1].pa);
                }
            }
        }
    }
}

/// After an entry is added, looking up its protocol address finds it and every
/// other address is as before; no address gets a second entry.
pub proof fn law_arp_add(s: Seq<ArpEntry>, e: ArpEntry, pa: Addr)
    requires
        distinct(s),
    ensures
        distinct(added(s, e)),
        lookup(added(s, e), pa) == (if pa == e.pa {
            Some(e.ha)
        } else {
            lookup(s, pa)
        }),
{
    let t = added(s, e);
    lemma_position(s, e.pa);
    lemma_position(s, pa);
    lemma_position(t, pa);
    match position(s, e.pa) {
        Some(k) => {
            assert forall|i: int| 0 <= i < s.len() implies (#[trigger] t[i]).pa == s[i].pa by {}
            assert(t[k] == e);
        },
        None => {
            assert(t[s.len() as int] == e);
            assert forall|i: int| 0 <= i < s.len() implies #[trigger] t[i] == s[i] by {}
        },
    }
    assert(distinct(t)) by {
        assert forall|i: int, j: int| 0 <= i < j < t.len() implies (#[trigger] t[i]).pa != (
        #[trigger] t[j]).pa by {
            if j < s.len() {
                assert(s[i].pa != s[j].pa);
            }
        }
    }
    match position(s, pa) {
        Some(i) => {
            assert(t[i].pa == pa);
        },
        None => {},
    }
}

/// After a protocol address is deleted, looking it up finds nothing and every
/// other address is as before.
pub proof fn law_arp_delete(s: Seq<ArpEntry>, gone: Addr, pa: Addr)
    requires
        distinct(s),
    ensures
        distinct(deleted(s, gone)),
        lookup(deleted(s, gone), pa) == (if pa == gone {
            None
        } else {
            lookup(s, pa)
        }),
    decreases s.len(),
{
    lemma_deleted(s, gone);
    let d = deleted(s, gone);
    if s.len() > 0 {
        let b = s.drop_last();
        assert(distinct(b)) by {
            assert forall|i: int, j: int| 0 <= i < j < b.len() implies (#[trigger] b[i]).pa != (
            #[trigger] b[j]).pa by {
                assert(s[i].pa != s[j].pa);
            }
        }
        law_arp_delete(b, gone, pa);
        lemma_position(b, pa);
        if s.last().pa != gone {
            assert(d.drop_last() =~= deleted(b, gone));
            lemma_position(deleted(b, gone), pa);
        }
    }
}

/// A simple in-memory ARP cache.
///
/// The real ARP table is maintained by the operating system kernel. This
/// structure models the same operations for user-space coordination.
#[derive(Debug)]
pub struct ArpCache {
    entries: Vec<ArpEntry>,
}

impl View for ArpCache {
    type V = Seq<ArpEntry>;

    closed spec fn view(&self) -> Seq<ArpEntry> {
        self.entries@
    }
}

impl Default for ArpCache {
    fn default() -> (r: Self)
        ensures
            r@ == Seq::<ArpEntry>::empty(),
    {
        ArpCache { entries: Vec::new() }
    }
}

impl ArpCache {
    /// No protocol address has two entries.
    pub open spec fn well_formed(&self) -> bool {
        distinct(self@)
    }

    pub fn new() -> (r: Self)
        ensures
            r@ == Seq::<ArpEntry>::empty(),
            r.well_formed(),
    {
        ArpCache::default()
    }

    /// Add or replace an entry.
    pub fn add(&mut self, entry: ArpEntry)
        requires
            old(self).well_formed(),
        ensures
            final(self)@ == added(old(self)@, entry),
            final(self).well_formed(),
    {
        proof {
            law_arp_add(self@, entry, entry.pa);
            lemma_position(self@, entry.pa);
        }
        match self.find(&entry.pa) {
            Some(i) => {
                self.entries[i].ha = entry.ha;
                assert(self@ =~= added(old(self)@, entry));
            },
            None => {
                self.entries.push(entry);
            },
        }
    }

    /// Delete an entry by protocol address.
    pub fn delete(&mut self, pa: &Addr)
        requires
            old(self).well_formed(),
        ensures
            final(self)@ == deleted(old(self)@, *pa),
            final(self).well_formed(),
    {
        proof {
            lemma_deleted(self@, *pa);
        }
        let mut kept: Vec<ArpEntry> = Vec::new();
        let mut i: usize = 0;
        while i < self.entries.len()
            invariant
                i <= self.entries@.len(),
                self.entries@ == old(self)@,
                kept@ == deleted(self.entries@.take(i as int), *pa),
            decreases self.entries@.len() - i,
        {
            let e: ArpEntry = self.entries[i];
            assert(self.entries@.take(i + 1).drop_last() =~= self.entries@.take(i as int));
            if e.pa != *pa {
                kept.push(e);
            }
            i = i + 1;
        }
        assert(self.entries@.take(self.entries@.len() as int) =~= self.entries@);
        self.entries = kept;
    }

    /// Where the entry of a protocol address is.
    fn find(&self, pa: &Addr) -> (r: Option<usize>)
        ensures
            match r {
                Some(i) => position(self@, *pa) == Some(i as int) && i < self@.len(),
                None => position(self@, *pa) is None,
            },
    {
        let mut i: usize = self.entries.len();
        assert(self.entries@.take(i as int) =~= self.entries@);
        while i > 0
            invariant
                i <= self.entries@.len(),
                position(self@, *pa) == position(self.entries@.take(i as int), *pa),
            decreases i,
        {
            assert(self.entries@.take(i as int).drop_last() =~= self.entries@.take(i - 1));
            i = i - 1;
            if self.entries[i].pa == *pa {
                return Some(i);
            }
        }
        None
    }

    /// Look up the entry for a protocol address.
    pub fn get(&self, pa: &Addr) -> (r: Option<&ArpEntry>)
        ensures
            match r {
                Some(e) => position(self@, *pa) matches Some(i) && *e == self@[i],
                None => position(self@, *pa) is None,
            },
    {
        match self.find(pa) {
            Some(i) => Some(&self.entries[i]),
            None => None,
        }
    }

    /// All entries, in the order in which they came.
    pub fn entries(&self) -> (r: &[ArpEntry])
        ensures
            r@ == self@,
    {
        self.entries.as_slice()
    }

    pub fn len(&self) -> (r: usize)
        ensures
            r == self@.len(),
    {
        self.entries.len()
    }

    pub fn is_empty(&self) -> (r: bool)
        ensures
            r == (self@.len() == 0),
    {
        self.entries.len() == 0
    }
}

// ---------------------------------------------------------------------------
// Laws on the layout

/// The layout of an ARP message for Ethernet and IPv4: the formats of hardware
/// and protocol, their address lengths, the operation, and then hardware and
/// protocol address of the sender and of the target. Integers have their more
/// significant byte first.
pub proof fn law_arp_layout(m: ArpMsg, i: int)
    requires
        0 <= i < 6,
    ensures
        ({
            let b = msg_bytes(m);
            &&& b.len() == 28
            &&& b[0] * 256 + b[1] == m.hdr.hrd
            &&& b[2] * 256 + b[3] == m.hdr.pro
            &&& b[4] == m.hdr.hln
            &&& b[5] == m.hdr.pln
            &&& b[6] * 256 + b[7] == m.hdr.op
            &&& b[8 + i] == m.body.sha.data@[i]
            &&& b[18 + i] == m.body.tha.data@[i]
            &&& i < 4 ==> b[14 + i] == (if m.body.spa.addr_type == 2 {
                m.body.spa.data@[i]
            } else {
                0
            })
            &&& i < 4 ==> b[24 + i] == (if m.body.tpa.addr_type == 2 {
                m.body.tpa.data@[i]
            } else {
                0
            })
        }),
{
    law_integer_bytes(m.hdr.hrd, 0);
    law_integer_bytes(m.hdr.pro, 0);
    law_integer_bytes(m.hdr.op, 0);
    let b = msg_bytes(m);
    let h = hdr_bytes(m.hdr);
    assert(h.len() == 8);
    assert(b[0] == h[0] && b[1] == h[1] && b[2] == h[2] && b[3] == h[3] && b[4] == h[4] && b[5]
        == h[5] && b[6] == h[6] && b[7] == h[7]);
}

/// What the fields of an ARP message are read from, by their bytes.
pub proof fn law_arp_fields(b: ArpEthIp, s: Seq<u8>, i: int)
    requires
        s.len() >= 20,
        0 <= i < 6,
    ensures
        hdr_at(s).hrd == s[0] * 256 + s[1],
        hdr_at(s).pro == s[2] * 256 + s[3],
        hdr_at(s).hln == s[4],
        hdr_at(s).pln == s[5],
        hdr_at(s).op == s[6] * 256 + s[7],
        body_at(b, s) ==> b.sha.data@[i] == s[i] && b.tha.data@[i] == s[10 + i],
        body_at(b, s) ==> b.spa.addr_type == 2 && b.spa.addr_bits == 32 && b.tpa.addr_type == 2
            && b.tpa.addr_bits == 32,
        body_at(b, s) && i < 4 ==> b.spa.data@[i] == s[6 + i] && b.tpa.data@[i] == s[16 + i],
{
    law_big_endian(s, 0);
    law_big_endian(s, 2);
    law_big_endian(s, 6);
    if body_at(b, s) {
        let x = s.subrange(6, 10);
        let y = s.subrange(16, 20);
        law_address_kinds(x, i);
        law_address_kinds(y, i);
        assert(b.spa@.data == b.spa.data@);
        assert(b.tpa@.data == b.tpa.data@);
    }
}

/// The numbers that ARP messages are made with.
pub proof fn law_arp_numbers()
    ensures
        ARP_HRD_ETH == 1,
        ARP_PRO_IP == 0x0800,
        ARP_OP_REQUEST == 1,
        ARP_OP_REPLY == 2,
        ARP_OP_REVREQUEST == 3,
        ARP_OP_REVREPLY == 4,
{
}

/// An entry of a new protocol address is put behind the others; one of an address
/// that has an entry takes its place.
pub proof fn law_arp_place(s: Seq<ArpEntry>, e: ArpEntry, i: int)
    requires
        distinct(s),
    ensures
        (forall|k: int| 0 <= k < s.len() ==> (#[trigger] s[k]).pa != e.pa) ==> added(s, e)
            == s.push(e),
        0 <= i < s.len() && s[i].pa == e.pa ==> added(s, e) == s.update(i, e),
{
    lemma_position(s, e.pa);
    if position(s, e.pa) is Some && 0 <= i < s.len() && s[i].pa == e.pa {
        let k = position(s, e.pa)->0;
        assert(s[k].pa == s[i].pa);
    }
}

/// Deleting takes out the entries of an address and leaves the others in
/// their order.
pub proof fn law_arp_deleted(a: Seq<ArpEntry>, b: Seq<ArpEntry>, pa: Addr)
    ensures
        deleted(a + b, pa) == deleted(a, pa) + deleted(b, pa),
        a.len() == 1 && a[0].pa == pa ==> deleted(a, pa).len() == 0,
        a.len() == 1 && a[0].pa != pa ==> deleted(a, pa) == a,
    decreases b.len(),
{
    if b.len() == 0 {
        assert(a + b =~= a);
        assert(deleted(a, pa) + deleted(b, pa) =~= deleted(a, pa));
    } else {
        law_arp_deleted(a, b.drop_last(), pa);
        assert((a + b).drop_last() =~= a + b.drop_last());
        assert(deleted(a + b, pa) =~= deleted(a, pa) + deleted(b, pa));
    }
    if a.len() == 1 {
        reveal_with_fuel(deleted, 2);
        if a[0].pa != pa {
            assert(deleted(a, pa) =~= a);
        }
    }
}

} // verus!
