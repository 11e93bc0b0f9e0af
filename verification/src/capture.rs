//! Packet capture.
//!
//! A [`Capture`] gives packets one by one. Its packets come from one of two
//! sources:
//!
//! * **Offline**: the contents of a pcap savefile.
//! * **Live**: frames received from a raw socket (see [`crate::raw`]), which
//!   the caller hands over with [`Capture::receive`].
//!
//! A filter drops the packets that do not match.

use vstd::prelude::*;

use crate::addr::Addr;
use crate::bpf::{accepts, BpfInsn, BpfProgram, BpfVm};
use crate::datalink::{header_len, link_header_len, DLT_EN10MB, DLT_RAW};
use crate::filter::{compiled, FilterBuilder};
use crate::intf::{
    addresses, interfaces, Interface, IntfEntry, INTF_FLAG_LOOPBACK, INTF_TYPE_ETH,
    INTF_TYPE_LOOPBACK, INTF_TYPE_PPP,
};
use crate::savefile::{
    file_header, header_bytes, next_record, record_bytes, records, records_bytes, Frame, Packet,
    PcapFileHeader, PcapPacket, SavefileError, SavefileReader, SavefileWriter,
};
use crate::sendqueue::packets;

verus! {

/// Metadata of a captured packet.
#[derive(Clone, Copy, Debug, PartialEq, Eq, Structural)]
pub struct PacketHeader {
    /// Timestamp seconds.
    pub ts_sec: u32,
    /// Timestamp sub-seconds (microseconds or nanoseconds, source-dependent).
    pub ts_frac: u32,
    /// Number of bytes actually captured (<= snaplen).
    pub caplen: u32,
    /// Number of bytes on the wire.
    pub len: u32,
}

/// The metadata of a packet.
pub open spec fn header_of(p: Packet) -> PacketHeader {
    PacketHeader { ts_sec: p.ts_sec, ts_frac: p.ts_frac, caplen: p.caplen, len: p.origlen }
}

/// A network device description.
#[derive(Clone, Debug)]
pub struct Device {
    pub name: String,
    pub description: String,
    pub addresses: Vec<Addr>,
    pub flags: u16,
}

// ---------------------------------------------------------------------------
// Devices

/// What an interface of a type is called.
pub open spec fn type_description(intf_type: u16) -> Seq<char> {
    if intf_type == INTF_TYPE_LOOPBACK {
        "Loopback interface"@
    } else if intf_type == INTF_TYPE_ETH {
        "Ethernet"@
    } else if intf_type == INTF_TYPE_PPP {
        "Point-to-point"@
    } else {
        "Network interface"@
    }
}

/// Whether a device describes an interface.
pub open spec fn device_of(d: Device, i: Interface) -> bool {
    &&& d.name@ == i.name
    &&& d.description@ == type_description(i.intf_type)
    &&& addresses(d.addresses@) == seq![i.addr] + i.alias_addrs
    &&& d.flags == i.flags
}

/// The device for an interface.
fn make_device(intf: IntfEntry) -> (r: Device)
    ensures
        device_of(r, intf@),
{
    let mut all: Vec<Addr> = Vec::new();
    all.push(intf.addr);
    let mut i: usize = 0;
    let ghost want = seq![intf@.addr] + intf@.alias_addrs;
    assert(addresses(all@) =~= want.take(1));
    while i < intf.alias_addrs.len()
        invariant
            i <= intf.alias_addrs@.len(),
            want == seq![intf@.addr] + intf@.alias_addrs,
            addresses(all@) == want.take(i + 1),
        decreases intf.alias_addrs@.len() - i,
    {
        let ghost before = all@;
        all.push(intf.alias_addrs[i]);
        assert(addresses(all@) =~= addresses(before).push(intf.alias_addrs@[i as int]@));
        assert(addresses(all@) =~= want.take(i + 2));
        i = i + 1;
    }
    assert(want.take(want.len() as int) =~= want);
    let mut description: String = String::new();
    match intf.intf_type {
        INTF_TYPE_LOOPBACK => {
            description.append("Loopback interface");
            assert(description@ =~= "Loopback interface"@);
        },
        INTF_TYPE_ETH => {
            description.append("Ethernet");
            assert(description@ =~= "Ethernet"@);
        },
        INTF_TYPE_PPP => {
            description.append("Point-to-point");
            assert(description@ =~= "Point-to-point"@);
        },
        _ => {
            description.append("Network interface");
            assert(description@ =~= "Network interface"@);
        },
    }
    Device { name: intf.name, description, addresses: all, flags: intf.flags }
}

/// The capture devices: one for each interface of the host.
pub fn findalldevs(list: Vec<IntfEntry>) -> (r: Vec<Device>)
    ensures
        r@.len() == list@.len(),
        forall|i: int| 0 <= i < r@.len() ==> device_of(#[trigger] r@[i], list@[i]@),
{
    let mut list: Vec<IntfEntry> = list;
    let ghost all = list@;
    let mut out: Vec<Device> = Vec::new();
    while list.len() > 0
        invariant
            out@.len() + list@.len() == all.len(),
            list@ == all.skip(out@.len() as int),
            forall|i: int| 0 <= i < out@.len() ==> device_of(#[trigger] out@[i], all[i]@),
        decreases list@.len(),
    {
        let intf: IntfEntry = list.remove(0);
        assert(intf == all[out@.len() as int]);
        out.push(make_device(intf));
        assert(list@ =~= all.skip(out@.len() as int));
    }
    out
}

/// Where the default device is: the first that is not a loopback one, or else
/// the first.
pub open spec fn default_device(s: Seq<Interface>) -> int
    decreases s.len(),
{
    if s.len() == 0 {
        0
    } else {
        let i = default_device(s.drop_last());
        if i < s.len() - 1 && s[i].flags & INTF_FLAG_LOOPBACK == 0 {
            i
        } else if s.last().flags & INTF_FLAG_LOOPBACK == 0 {
            s.len() - 1
        } else {
            0
        }
    }
}

/// Look up the default capture device (first non-loopback).
pub fn lookupdev(list: Vec<IntfEntry>) -> (r: Option<String>)
    ensures
        match r {
            Some(name) => list@.len() > 0 && name@ == list@[default_device(
                interfaces(list@),
            )].name@,
            None => list@.len() == 0,
        },
{
    let ghost all = interfaces(list@);
    let ghost entries = list@;
    let mut devices: Vec<Device> = findalldevs(list);
    if devices.len() == 0 {
        return None;
    }
    let mut i: usize = 0;
    let n: usize = devices.len();
    assert(default_device(all.take(0)) == 0);
    while i < n && devices[i].flags & INTF_FLAG_LOOPBACK != 0
        invariant
            i <= n == devices@.len() == all.len(),
            all == interfaces(entries),
            entries.len() == n,
            forall|k: int| 0 <= k < devices@.len() ==> device_of(#[trigger] devices@[k], entries[k]@),
            forall|k: int| 0 <= k < i ==> (#[trigger] all[k]).flags & INTF_FLAG_LOOPBACK != 0,
        decreases n - i,
    {
        assert(device_of(devices@[i as int], entries[i as int]@));
        assert(all[i as int] == entries[i as int]@);
        i = i + 1;
    }
    let at: usize = if i < n {
        i
    } else {
        0
    };
    assert(device_of(devices@[at as int], entries[at as int]@));
    proof {
        if i < n {
            assert(all[i as int] == entries[i as int]@);
            lemma_default_device(all, i as int);
        } else {
            lemma_no_default(all);
        }
    }
    let d: Device = devices.remove(at);
    Some(d.name)
}

/// The first interface that is not a loopback one is the default.
proof fn lemma_default_device(s: Seq<Interface>, i: int)
    requires
        0 <= i < s.len(),
        s[i].flags & INTF_FLAG_LOOPBACK == 0,
        forall|k: int| 0 <= k < i ==> (#[trigger] s[k]).flags & INTF_FLAG_LOOPBACK != 0,
    ensures
        default_device(s) == i,
    decreases s.len(),
{
    let b = s.drop_last();
    if i < s.len() - 1 {
        assert forall|k: int| 0 <= k < i implies (#[trigger] b[k]).flags & INTF_FLAG_LOOPBACK
            != 0 by {
            assert(b[k] == s[k]);
        }
        lemma_default_device(b, i);
    } else {
        assert forall|k: int| 0 <= k < b.len() implies (#[trigger] b[k]).flags & INTF_FLAG_LOOPBACK
            != 0 by {
            assert(b[k] == s[k]);
        }
        lemma_no_default(b);
    }
}

/// Among loopback interfaces the first is the default.
proof fn lemma_no_default(s: Seq<Interface>)
    requires
        forall|k: int| 0 <= k < s.len() ==> (#[trigger] s[k]).flags & INTF_FLAG_LOOPBACK != 0,
    ensures
        default_device(s) == 0,
    decreases s.len(),
{
    if s.len() > 0 {
        let b = s.drop_last();
        assert forall|k: int| 0 <= k < b.len() implies (#[trigger] b[k]).flags & INTF_FLAG_LOOPBACK
            != 0 by {
            assert(b[k] == s[k]);
        }
        lemma_no_default(b);
        assert(s[0].flags & INTF_FLAG_LOOPBACK != 0);
        assert(s[s.len() - 1].flags & INTF_FLAG_LOOPBACK != 0);
    }
}

// ---------------------------------------------------------------------------
// Captures

/// Where the packets of a capture come from.
#[verifier::ext_equal]
pub enum Source {
    /// A savefile: its header and what is left of it.
    Offline(PcapFileHeader, Seq<u8>),
    /// A raw socket: the packets received and not yet given.
    Live(Seq<Packet>),
}

/// What a capture holds.
#[verifier::ext_equal]
pub struct CaptureState {
    pub source: Source,
    pub snaplen: u32,
    pub linktype: i32,
    pub filter: Option<Seq<BpfInsn>>,
}

/// Whether a filter passes a packet on; no filter passes every one.
pub open spec fn passes(filter: Option<Seq<BpfInsn>>, p: Packet) -> bool {
    filter is None || accepts(filter->0, p.data)
}

/// The next packet from a source without regard to a filter, and the source
/// behind it.
pub open spec fn fetched(s: Source) -> (Result<Option<Packet>, SavefileError>, Source) {
    match s {
        Source::Offline(h, rest) => {
            let (r, left) = next_record(h, rest);
            (r, Source::Offline(h, left))
        },
        Source::Live(ready) => if ready.len() == 0 {
            (Ok(None), s)
        } else {
            (Ok(Some(ready[0])), Source::Live(ready.skip(1)))
        },
    }
}

/// How much is left of a source.
pub open spec fn left(s: Source) -> nat {
    match s {
        Source::Offline(_, rest) => rest.len(),
        Source::Live(ready) => ready.len(),
    }
}

/// The next packet that the filter passes on, and the source behind it.
/// Packets that it does not pass on are dropped.
#[verifier::opaque]
pub open spec fn next_passing(s: Source, filter: Option<Seq<BpfInsn>>) -> (
    Result<Option<Packet>, SavefileError>,
    Source,
)
    decreases left(s),
{
    let (r, behind) = fetched(s);
    match r {
        Ok(Some(p)) if !passes(filter, p) && left(behind) < left(s) => next_passing(
            behind,
            filter,
        ),
        _ => (r, behind),
    }
}

/// The packets that the filter passes on, up to the end of the source or the
/// first error.
#[verifier::opaque]
pub open spec fn all_passing(s: Source, filter: Option<Seq<BpfInsn>>) -> Seq<Packet>
    decreases left(s),
{
    let (r, behind) = fetched(s);
    match r {
        Ok(Some(p)) if left(behind) < left(s) => if passes(filter, p) {
            seq![p] + all_passing(behind, filter)
        } else {
            all_passing(behind, filter)
        },
        _ => Seq::empty(),
    }
}

/// The source behind all its packets, or the first error.
#[verifier::opaque]
pub open spec fn exhausted(s: Source) -> Source
    decreases left(s),
{
    let (r, behind) = fetched(s);
    match r {
        Ok(Some(p)) if left(behind) < left(s) => exhausted(behind),
        _ => behind,
    }
}

/// A packet leaves less of the source.
proof fn lemma_fetched(s: Source)
    ensures
        fetched(s).0 matches Ok(Some(_)) ==> left(fetched(s).1) < left(s),
{
    match s {
        Source::Offline(h, rest) => {
            let swap = h.swapped();
            if rest.len() >= 16 {
                assert(crate::savefile::field32(swap, rest, 8) >= 0);
            }
        },
        Source::Live(_) => {},
    }
}

/// The next packet is the first of all that follow, which are those of the
/// source behind it; where there is none, none follow.
proof fn lemma_next_passing(s: Source, filter: Option<Seq<BpfInsn>>)
    ensures
        match next_passing(s, filter) {
            (Ok(Some(p)), behind) => all_passing(s, filter) == seq![p] + all_passing(behind, filter)
                && exhausted(s) == exhausted(behind) && left(behind) < left(s),
            (_, behind) => all_passing(s, filter) == Seq::<Packet>::empty() && exhausted(s)
                == behind,
        },
    decreases left(s),
{
    reveal(next_passing);
    reveal(all_passing);
    reveal(exhausted);
    lemma_fetched(s);
    let (r, behind) = fetched(s);
    match r {
        Ok(Some(p)) => {
            if !passes(filter, p) {
                lemma_next_passing(behind, filter);
            }
        },
        _ => {},
    }
}

/// There are no more packets than there is left of the source.
pub proof fn lemma_at_most(s: Source, filter: Option<Seq<BpfInsn>>)
    ensures
        all_passing(s, filter).len() <= left(s),
    decreases left(s),
{
    reveal(all_passing);
    lemma_fetched(s);
    let (r, behind) = fetched(s);
    match r {
        Ok(Some(p)) => {
            lemma_at_most(behind, filter);
        },
        _ => {},
    }
}

/// A capture handle, on a savefile or a live raw socket.
pub struct Capture {
    kind: CaptureKind,
    snaplen: u32,
    linktype: i32,
    /// Optional compiled filter applied to every frame.
    filter: Option<BpfProgram>,
    /// Reused interpreter for applying `filter` across frames.
    filter_vm: BpfVm,
}

enum CaptureKind {
    Offline(SavefileReader),
    Live(Vec<PcapPacket>),
}

/// The platform that a live capture runs on.
#[derive(Clone, Copy, Debug, PartialEq, Eq, Structural)]
pub enum Platform {
    Unix,
    Windows,
    Other,
}

/// Why a live capture cannot be opened: what the raw socket said, or that
/// there is none on this platform.
pub open spec fn live_error(platform: Platform, device: Seq<char>, e: Seq<char>) -> Seq<char> {
    match platform {
        Platform::Unix => "unable to open device: "@ + e,
        Platform::Windows => "unable to open device ("@ + e
            + "), try `--interfaces` to list devices"@,
        Platform::Other => "live capture on '"@ + device
            + "' is unsupported on this platform; use `wnr_pcap::open_offline` for savefile reading"@,
    }
}

impl View for Capture {
    type V = CaptureState;

    closed spec fn view(&self) -> CaptureState {
        CaptureState {
            source: match self.kind {
                CaptureKind::Offline(r) => Source::Offline(r.head(), r.rest()),
                CaptureKind::Live(ready) => Source::Live(packets(ready@)),
            },
            snaplen: self.snaplen,
            linktype: self.linktype,
            filter: match self.filter {
                Some(p) => Some(p.insns@),
                None => None,
            },
        }
    }
}

impl Capture {
    /// Open a live capture, by what came of opening a raw socket on `device`.
    /// Unix sockets deliver Ethernet frames, Windows ones IP datagrams with no
    /// link-layer header.
    pub fn open_live(
        platform: Platform,
        device: &str,
        snaplen: u32,
        opened: Result<(), String>,
    ) -> (r: Result<Capture, String>)
        ensures
            match (r, opened) {
                (Ok(c), Ok(_)) => platform != Platform::Other && c@ == (CaptureState {
                    source: Source::Live(Seq::empty()),
                    snaplen,
                    linktype: if platform == Platform::Unix {
                        DLT_EN10MB
                    } else {
                        DLT_RAW
                    },
                    filter: None,
                }),
                (Ok(_), Err(_)) => false,
                (Err(e), Ok(_)) => platform == Platform::Other && e@ == live_error(
                    platform,
                    device@,
                    Seq::empty(),
                ),
                (Err(e), Err(cause)) => e@ == live_error(platform, device@, cause@),
            },
    {
        let mut e: String = String::new();
        match platform {
            Platform::Other => {
                e.append("live capture on '");
                e.append(device);
                e.append(
                    "' is unsupported on this platform; use `wnr_pcap::open_offline` for savefile reading",
                );
                assert(e@ =~= live_error(platform, device@, Seq::empty()));
                return Err(e);
            },
            Platform::Unix => {
                match &opened {
                    Ok(_) => {},
                    Err(cause) => {
                        e.append("unable to open device: ");
                        e.append(cause.as_str());
                        assert(e@ =~= live_error(platform, device@, cause@));
                        return Err(e);
                    },
                }
            },
            Platform::Windows => {
                match &opened {
                    Ok(_) => {},
                    Err(cause) => {
                        e.append("unable to open device (");
                        e.append(cause.as_str());
                        e.append("), try `--interfaces` to list devices");
                        assert(e@ =~= live_error(platform, device@, cause@));
                        return Err(e);
                    },
                }
            },
        }
        let c: Capture = Capture {
            kind: CaptureKind::Live(Vec::new()),
            snaplen,
            linktype: if platform == Platform::Unix {
                DLT_EN10MB
            } else {
                DLT_RAW
            },
            filter: None,
            filter_vm: BpfVm::new(),
        };
        assert(c@.source =~= Source::Live(Seq::empty()));
        Ok(c)
    }

    /// Open the contents of a savefile for offline reading.
    pub fn open_offline(data: Vec<u8>) -> (r: Result<Capture, String>)
        ensures
            match (r, file_header(data@)) {
                (Ok(c), Ok(h)) => c@ == (CaptureState {
                    source: Source::Offline(h, data@.skip(24)),
                    snaplen: h.snaplen,
                    linktype: h.linktype as i32,
                    filter: None,
                }),
                (Err(e), Err(cause)) => e@ == cause.text(),
                _ => false,
            },
    {
        match SavefileReader::open(data) {
            Ok(reader) => {
                let linktype: i32 = reader.header().linktype as i32;
                let snaplen: u32 = reader.header().snaplen;
                Ok(
                    Capture {
                        kind: CaptureKind::Offline(reader),
                        snaplen,
                        linktype,
                        filter: None,
                        filter_vm: BpfVm::new(),
                    },
                )
            },
            Err(cause) => Err(error_text(cause)),
        }
    }

    /// Set a filter. Where the expression is not one, the filter stays as it
    /// was.
    pub fn set_filter(&mut self, expr: &str) -> (r: Result<(), String>)
        ensures
            match (r, compiled(expr@, old(self)@.linktype)) {
                (Ok(_), Ok(insns)) => final(self)@ == (CaptureState {
                    filter: Some(insns),
                    ..old(self)@
                }),
                (Err(e), Err(cause)) => e@ == cause && final(self)@ == old(self)@,
                _ => false,
            },
    {
        match FilterBuilder::compile(expr, self.linktype) {
            Ok(prog) => {
                self.filter = Some(prog);
                self.filter_vm = BpfVm::new();
                Ok(())
            },
            Err(e) => Err(e),
        }
    }

    /// The datalink type of this capture.
    pub fn datalink(&self) -> (r: i32)
        ensures
            r == self@.linktype,
    {
        self.linktype
    }

    pub fn snaplen(&self) -> (r: u32)
        ensures
            r == self@.snaplen,
    {
        self.snaplen
    }

    /// Hand a received packet to a live capture. A savefile takes none.
    pub fn receive(&mut self, pkt: PcapPacket)
        ensures
            final(self)@ == (match old(self)@.source {
                Source::Live(ready) => CaptureState {
                    source: Source::Live(ready.push(pkt@)),
                    ..old(self)@
                },
                Source::Offline(..) => old(self)@,
            }),
    {
        match &mut self.kind {
            CaptureKind::Live(ready) => {
                let ghost before = ready@;
                ready.push(pkt);
                assert(packets(ready@) =~= packets(before).push(pkt@));
            },
            CaptureKind::Offline(_) => {},
        }
    }

    /// How much is left of the source.
    fn amount_left(&self) -> (r: usize)
        ensures
            r == left(self@.source),
    {
        match &self.kind {
            CaptureKind::Offline(reader) => reader.remaining(),
            CaptureKind::Live(ready) => ready.len(),
        }
    }

    /// Fetch the next packet from the source.
    fn fetch(&mut self) -> (r: Result<Option<PcapPacket>, SavefileError>)
        ensures
            final(self)@ == (CaptureState { source: fetched(old(self)@.source).1, ..old(self)@ }),
            match r {
                Ok(Some(p)) => fetched(old(self)@.source).0 == Ok::<Option<Packet>, SavefileError>(
                    Some(p@),
                ),
                Ok(None) => fetched(old(self)@.source).0 == Ok::<Option<Packet>, SavefileError>(
                    None,
                ),
                Err(e) => fetched(old(self)@.source).0 == Err::<Option<Packet>, SavefileError>(e),
            },
    {
        match &mut self.kind {
            CaptureKind::Offline(reader) => reader.next_packet(),
            CaptureKind::Live(ready) => {
                if ready.len() == 0 {
                    Ok(None)
                } else {
                    let ghost before = ready@;
                    let p: PcapPacket = ready.remove(0);
                    assert(packets(ready@) =~= packets(before).skip(1));
                    assert(packets(before)[0] == p@);
                    Ok(Some(p))
                }
            },
        }
    }

    /// Read the next packet that the filter passes on. Returns `Ok(None)` at
    /// the end of a savefile, or while nothing more was received.
    pub fn next_packet(&mut self) -> (r: Result<Option<(PacketHeader, Vec<u8>)>, String>)
        ensures
            ({
                let (next, behind) = next_passing(old(self)@.source, old(self)@.filter);
                &&& final(self)@ == (CaptureState { source: behind, ..old(self)@ })
                &&& match (r, next) {
                    (Ok(Some((hdr, data))), Ok(Some(p))) => hdr == header_of(p) && data@ == p.data,
                    (Ok(None), Ok(None)) => true,
                    (Err(e), Err(cause)) => e@ == cause.text(),
                    _ => false,
                }
            }),
        decreases left(old(self)@.source),
    {
        proof {
            reveal(next_passing);
            lemma_fetched(self@.source);
        }
        let pkt: PcapPacket = match self.fetch() {
            Ok(Some(p)) => p,
            Ok(None) => {
                return Ok(None);
            },
            Err(e) => {
                return Err(error_text(e));
            },
        };
        let ok: bool = match &self.filter {
            Some(prog) => self.filter_vm.filter_ok(prog.insns.as_slice(), pkt.data.as_slice()),
            None => true,
        };
        if !ok {
            // Filtered; skip inwards to the next matching packet.
            return self.next_packet();
        }
        Ok(
            Some(
                (
                    PacketHeader {
                        ts_sec: pkt.ts_sec,
                        ts_frac: pkt.ts_frac,
                        caplen: pkt.caplen,
                        len: pkt.origlen,
                    },
                    pkt.data,
                ),
            ),
        )
    }

    /// Read the next packet that the filter passes on, if there is one before
    /// the end or the first error.
    pub fn pull(&mut self) -> (r: Option<(PacketHeader, Vec<u8>)>)
        ensures
            final(self)@ == (CaptureState { source: final(self)@.source, ..old(self)@ }),
            ({
                let all = all_passing(old(self)@.source, old(self)@.filter);
                match r {
                    Some((hdr, data)) => all.len() > 0 && hdr == header_of(all[0]) && data@
                        == all[0].data && all_passing(final(self)@.source, old(self)@.filter)
                        == all.skip(1) && exhausted(final(self)@.source) == exhausted(
                        old(self)@.source,
                    ) && left(final(self)@.source) < left(old(self)@.source),
                    None => all.len() == 0 && final(self)@.source == exhausted(old(self)@.source),
                }
            }),
    {
        proof {
            lemma_next_passing(self@.source, self@.filter);
        }
        match self.next_packet() {
            Ok(Some(x)) => {
                assert(all_passing(self@.source, self@.filter) =~= all_passing(
                    old(self)@.source,
                    old(self)@.filter,
                ).skip(1));
                Some(x)
            },
            _ => None,
        }
    }

    /// Write all captured packets to a pcap savefile until the end. Returns the
    /// bytes of the file, and how many packets it holds.
    pub fn capture_to_file(&mut self, linktype: u32) -> (r: (Vec<u8>, u64))
        ensures
            ({
                let all = all_passing(old(self)@.source, old(self)@.filter);
                let snaplen = old(self)@.snaplen;
                &&& r.0@ == header_bytes(PcapFileHeader::fresh(snaplen, linktype)) + records_bytes(
                    snaplen,
                    frames_of(all),
                )
                &&& r.1 == all.len()
            }),
            final(self)@ == (CaptureState { source: exhausted(old(self)@.source), ..old(self)@ }),
    {
        let ghost s0 = self@;
        let ghost all = all_passing(s0.source, s0.filter);
        let most: usize = self.amount_left();
        proof {
            lemma_at_most(s0.source, s0.filter);
        }
        let mut w: SavefileWriter = SavefileWriter::create(self.snaplen, linktype);
        let ghost head = w.pending();
        let mut count: u64 = 0;
        assert(records_bytes(s0.snaplen, frames_of(all.take(0))) =~= Seq::<u8>::empty());
        assert(all.skip(0) =~= all);
        loop
            invariant_except_break
                all_passing(self@.source, s0.filter) == all.skip(count as int),
                exhausted(self@.source) == exhausted(s0.source),
            invariant
                all == all_passing(s0.source, s0.filter),
                count <= all.len() <= most,
                self@ == (CaptureState { source: self@.source, ..s0 }),
                w.head() == PcapFileHeader::fresh(s0.snaplen, linktype),
                head == header_bytes(w.head()),
                w.pending() == head + records_bytes(
                    s0.snaplen,
                    frames_of(all.take(count as int)),
                ),
            ensures
                count == all.len(),
                self@ == (CaptureState { source: exhausted(s0.source), ..s0 }),
                w.pending() == header_bytes(PcapFileHeader::fresh(s0.snaplen, linktype))
                    + records_bytes(s0.snaplen, frames_of(all)),
            decreases left(self@.source),
        {
            match self.pull() {
                Some((hdr, data)) => {
                    assert(all[count as int] == all.skip(count as int)[0]);
                    assert(all.skip(count as int).skip(1) =~= all.skip(count + 1));
                    w.write_packet(hdr.ts_sec, hdr.ts_frac, data.as_slice());
                    proof {
                        lemma_one_more(s0.snaplen, all, count as int);
                        assert(w.pending() =~= head + records_bytes(
                            s0.snaplen,
                            frames_of(all.take(count + 1)),
                        ));
                    }
                    count = count + 1;
                },
                None => {
                    assert(all.take(count as int) =~= all);
                    break;
                },
            }
        }
        (w.flush(), count)
    }
}

/// What is written of a packet.
pub open spec fn frames_of(s: Seq<Packet>) -> Seq<Frame> {
    s.map_values(|p: Packet| Frame { ts_sec: p.ts_sec, ts_frac: p.ts_frac, data: p.data })
}

/// One more packet adds one more record at the end.
proof fn lemma_one_more(snaplen: u32, all: Seq<Packet>, n: int)
    requires
        0 <= n < all.len(),
    ensures
        records_bytes(snaplen, frames_of(all.take(n + 1))) == records_bytes(
            snaplen,
            frames_of(all.take(n)),
        ) + record_bytes(snaplen, all[n].ts_sec, all[n].ts_frac, all[n].data),
    decreases n,
{
    let a = frames_of(all.take(n));
    let b = frames_of(all.take(n + 1));
    if n == 0 {
        assert(b.skip(1) =~= Seq::<Frame>::empty());
        assert(records_bytes(snaplen, b.skip(1)) =~= Seq::<u8>::empty());
        assert(records_bytes(snaplen, a) =~= Seq::<u8>::empty());
        assert(records_bytes(snaplen, b) =~= record_bytes(
            snaplen,
            all[0].ts_sec,
            all[0].ts_frac,
            all[0].data,
        ));
    } else {
        let rest = all.skip(1);
        lemma_one_more(snaplen, rest, n - 1);
        assert(frames_of(rest.take(n)) =~= b.skip(1));
        assert(frames_of(rest.take(n - 1)) =~= a.skip(1));
        assert(rest[n - 1] == all[n]);
        assert(a[0] == b[0]);
        let first = record_bytes(snaplen, a[0].ts_sec, a[0].ts_frac, a[0].data);
        let last = record_bytes(snaplen, all[n].ts_sec, all[n].ts_frac, all[n].data);
        assert(first + (records_bytes(snaplen, a.skip(1)) + last) =~= (first + records_bytes(
            snaplen,
            a.skip(1),
        )) + last);
    }
}

/// The text of an error.
fn error_text(e: SavefileError) -> (r: String)
    ensures
        r@ == e.text(),
{
    let mut out: String = String::new();
    out.append(e.message());
    assert(out@ =~= e.text());
    out
}

/// Without a filter a savefile gives all its records.
pub proof fn law_unfiltered(h: PcapFileHeader, rest: Seq<u8>)
    ensures
        all_passing(Source::Offline(h, rest), None) == records(h, rest),
    decreases rest.len(),
{
    reveal(all_passing);
    lemma_fetched(Source::Offline(h, rest));
    match next_record(h, rest).0 {
        Ok(Some(p)) => {
            law_unfiltered(h, next_record(h, rest).1);
        },
        _ => {},
    }
}

/// A filter leaves exactly the packets that it accepts, in their order.
pub proof fn law_filtered(s: Source, filter: Seq<BpfInsn>)
    ensures
        all_passing(s, Some(filter)) == all_passing(s, None).filter(
            |p: Packet| accepts(filter, p.data),
        ),
    decreases left(s),
{
    reveal(all_passing);
    lemma_fetched(s);
    let f = |p: Packet| accepts(filter, p.data);
    let (r, behind) = fetched(s);
    let none = Seq::<Packet>::empty();
    reveal(Seq::filter);
    match r {
        Ok(Some(p)) => {
            law_filtered(behind, filter);
            let tail = all_passing(behind, None);
            let one = seq![p];
            Seq::filter_distributes_over_add(one, tail, f);
            assert(one.drop_last() =~= none);
            assert(none.filter(f) =~= none);
            assert(one.filter(f) =~= (if f(p) {
                one
            } else {
                none
            }));
            if !f(p) {
                assert(none + tail.filter(f) =~= tail.filter(f));
            }
        },
        _ => {
            assert(none.filter(f) =~= none);
        },
    }
}

/// Load a capture file fully, for analysis.
pub fn read_all(data: Vec<u8>) -> (r: Result<Vec<(PacketHeader, Vec<u8>)>, String>)
    ensures
        match (r, file_header(data@)) {
            (Ok(list), Ok(h)) => ({
                let all = records(h, data@.skip(24));
                list@.len() == all.len() && forall|i: int|
                    0 <= i < all.len() ==> (#[trigger] list@[i]).0 == header_of(all[i])
                        && list@[i].1@ == all[i].data
            }),
            (Err(e), Err(cause)) => e@ == cause.text(),
            _ => false,
        },
{
    let ghost bytes = data@;
    let mut cap: Capture = match Capture::open_offline(data) {
        Ok(c) => c,
        Err(e) => {
            return Err(e);
        },
    };
    let ghost h = file_header(bytes)->Ok_0;
    let ghost all = records(h, bytes.skip(24));
    proof {
        law_unfiltered(h, bytes.skip(24));
    }
    let mut out: Vec<(PacketHeader, Vec<u8>)> = Vec::new();
    assert(all.skip(0) =~= all);
    loop
        invariant_except_break
            all_passing(cap@.source, None) == all.skip(out@.len() as int),
        invariant
            file_header(bytes) == Ok::<PcapFileHeader, SavefileError>(h),
            out@.len() <= all.len(),
            cap@.filter is None,
            forall|i: int|
                0 <= i < out@.len() ==> (#[trigger] out@[i]).0 == header_of(all[i]) && out@[i].1@
                    == all[i].data,
        ensures
            out@.len() == all.len(),
            forall|i: int|
                0 <= i < out@.len() ==> (#[trigger] out@[i]).0 == header_of(all[i]) && out@[i].1@
                    == all[i].data,
        decreases left(cap@.source),
    {
        match cap.pull() {
            Some((hdr, frame)) => {
                let ghost n = out@.len() as int;
                assert(all[n] == all.skip(n)[0]);
                assert(all.skip(n).skip(1) =~= all.skip(n + 1));
                out.push((hdr, frame));
            },
            None => {
                break;
            },
        }
    }
    Ok(out)
}

/// Writing what was captured to a file and reading that file gives the captured
/// frames back, cut off at the snapshot length.
pub proof fn law_captured_file(s: Seq<Packet>, snaplen: u32, linktype: u32)
    ensures
        ({
            let file = header_bytes(PcapFileHeader::fresh(snaplen, linktype)) + records_bytes(
                snaplen,
                frames_of(s),
            );
            &&& file_header(file) == Ok::<PcapFileHeader, SavefileError>(
                PcapFileHeader::fresh(snaplen, linktype),
            )
            &&& records(PcapFileHeader::fresh(snaplen, linktype), file.skip(24)) == frames_of(
                s,
            ).map_values(|f: Frame| crate::savefile::kept(snaplen, f))
        }),
{
    crate::savefile::law_header_roundtrip(snaplen, linktype, records_bytes(snaplen, frames_of(s)));
    crate::savefile::law_file_roundtrip(snaplen, linktype, frames_of(s));
}

/// Extract the IP payload from a frame given its datalink type. Returns
/// `(l3_offset, l3_len, payload)`: the offset, the length and the bytes behind
/// the link-layer header. Nothing where the frame is shorter than that.
pub fn strip_link_header(dlt: i32, frame: &[u8]) -> (r: Option<(usize, usize, &[u8])>)
    ensures
        match r {
            Some((off, len, payload)) => off == header_len(dlt) && off + len == frame@.len()
                && payload@ == frame@.skip(off as int),
            None => frame@.len() < header_len(dlt),
        },
{
    let off: usize = link_header_len(dlt);
    let n: usize = frame.len();
    if n < off {
        return None;
    }
    let payload: &[u8] = vstd::slice::slice_subrange(frame, off, n);
    assert(payload@ =~= frame@.skip(off as int));
    Some((off, n - off, payload))
}

// ---------------------------------------------------------------------------
// Laws on devices and sources

/// The default device is the first without the loopback flag, which has the
/// number 2; the very first where all have it.
pub proof fn law_default_device(s: Seq<Interface>, i: int)
    requires
        0 <= i <= s.len(),
        forall|k: int| 0 <= k < i ==> (#[trigger] s[k]).flags & 2u16 != 0,
        i < s.len() ==> s[i].flags & 2u16 == 0,
    ensures
        i < s.len() ==> default_device(s) == i,
        i == s.len() ==> default_device(s) == 0,
{
    if i < s.len() {
        lemma_default_device(s, i);
    } else {
        lemma_no_default(s);
    }
}

/// A device has the name and the flags of its interface, all its addresses with
/// the primary one first, and is described by the interface's type.
pub proof fn law_device(d: Device, i: Interface, k: int)
    requires
        device_of(d, i),
        0 <= k < i.alias_addrs.len(),
    ensures
        d.name@ == i.name,
        d.flags == i.flags,
        d.addresses@.len() == 1 + i.alias_addrs.len(),
        d.addresses@[0]@ == i.addr,
        d.addresses@[k + 1]@ == i.alias_addrs[k],
        i.intf_type == 24 ==> d.description@ == "Loopback interface"@,
        i.intf_type == 6 ==> d.description@ == "Ethernet"@,
        i.intf_type == 23 ==> d.description@ == "Point-to-point"@,
        i.intf_type != 24 && i.intf_type != 6 && i.intf_type != 23 ==> d.description@
            == "Network interface"@,
{
    let all = addresses(d.addresses@);
    assert(all.len() == d.addresses@.len());
    assert(all[0] == d.addresses@[0]@);
    assert(all[k + 1] == d.addresses@[k + 1]@);
}

/// What a packet's header says of it.
pub proof fn law_packet_header(p: Packet)
    ensures
        header_of(p).ts_sec == p.ts_sec,
        header_of(p).ts_frac == p.ts_frac,
        header_of(p).caplen == p.caplen,
        header_of(p).len == p.origlen,
{
}

/// From a live source comes the first packet that the filter accepts, in the
/// order in which they were received. Those before it are dropped, and those
/// behind it stay. Where there is none, nothing comes and nothing stays.
pub proof fn law_live_next(ready: Seq<Packet>, filter: Seq<BpfInsn>, i: int)
    requires
        0 <= i <= ready.len(),
        forall|k: int| 0 <= k < i ==> !accepts(filter, (#[trigger] ready[k]).data),
        i < ready.len() ==> accepts(filter, ready[i].data),
    ensures
        i < ready.len() ==> next_passing(Source::Live(ready), Some(filter)) == (
            Ok::<Option<Packet>, SavefileError>(Some(ready[i])),
            Source::Live(ready.subrange(i + 1, ready.len() as int)),
        ),
        i == ready.len() ==> next_passing(Source::Live(ready), Some(filter)) == (
            Ok::<Option<Packet>, SavefileError>(None),
            Source::Live(Seq::empty()),
        ),
    decreases ready.len(),
{
    reveal(next_passing);
    let rest = ready.skip(1);
    if i == 0 {
        if ready.len() > 0 {
            assert(rest =~= ready.subrange(1, ready.len() as int));
        } else {
            assert(ready =~= Seq::<Packet>::empty());
        }
    } else {
        assert forall|k: int| 0 <= k < i - 1 implies !accepts(filter, (#[trigger] rest[k]).data) by {
            assert(rest[k] == ready[k + 1]);
        }
        assert(!accepts(filter, ready[0].data));
        law_live_next(rest, filter, i - 1);
        if i < ready.len() {
            assert(rest.subrange(i, rest.len() as int) =~= ready.subrange(
                i + 1,
                ready.len() as int,
            ));
        }
    }
}

/// Without a filter a live source gives all packets, in the order in which they
/// were received, and nothing is left behind them.
pub proof fn law_live_all(ready: Seq<Packet>)
    ensures
        all_passing(Source::Live(ready), None) == ready,
        exhausted(Source::Live(ready)) == Source::Live(Seq::empty()),
        ready.len() > 0 ==> next_passing(Source::Live(ready), None) == (
            Ok::<Option<Packet>, SavefileError>(Some(ready[0])),
            Source::Live(ready.subrange(1, ready.len() as int)),
        ),
    decreases ready.len(),
{
    reveal(all_passing);
    reveal(exhausted);
    reveal(next_passing);
    let rest = ready.skip(1);
    if ready.len() > 0 {
        law_live_all(rest);
        assert(seq![ready[0]] + rest =~= ready);
        assert(rest =~= ready.subrange(1, ready.len() as int));
    } else {
        assert(ready =~= Seq::<Packet>::empty());
    }
}

/// From a file comes its next record, and what lies behind that is left. A
/// record that the filter does not accept is passed over; the end of the file
/// and an error are handed on.
pub proof fn law_offline_next(h: PcapFileHeader, rest: Seq<u8>, filter: Seq<BpfInsn>)
    ensures
        ({
            let (r, left) = next_record(h, rest);
            let behind = Source::Offline(h, left);
            &&& next_passing(Source::Offline(h, rest), None) == (r, behind)
            &&& (r matches Ok(Some(p)) && !accepts(filter, p.data)) ==> next_passing(
                Source::Offline(h, rest),
                Some(filter),
            ) == next_passing(behind, Some(filter))
            &&& !(r matches Ok(Some(p)) && !accepts(filter, p.data)) ==> next_passing(
                Source::Offline(h, rest),
                Some(filter),
            ) == (r, behind)
        }),
{
    reveal(next_passing);
    lemma_fetched(Source::Offline(h, rest));
}

/// Why a live capture cannot be opened, in words.
pub proof fn law_live_errors(device: Seq<char>, e: Seq<char>)
    ensures
        live_error(Platform::Unix, device, e) == "unable to open device: "@ + e,
        live_error(Platform::Windows, device, e) == "unable to open device ("@ + e
            + "), try `--interfaces` to list devices"@,
        live_error(Platform::Other, device, e) == "live capture on '"@ + device
            + "' is unsupported on this platform; use `wnr_pcap::open_offline` for savefile reading"@,
{
}

/// What is written of packets: their times and their bytes, in their order.
pub proof fn law_frames(s: Seq<Packet>, i: int)
    requires
        0 <= i < s.len(),
    ensures
        frames_of(s).len() == s.len(),
        frames_of(s)[i].ts_sec == s[i].ts_sec,
        frames_of(s)[i].ts_frac == s[i].ts_frac,
        frames_of(s)[i].data == s[i].data,
{
}

} // verus!
