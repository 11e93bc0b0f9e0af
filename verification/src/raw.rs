//! Live raw-socket capture.
//!
//! On Linux live capture reads link-layer frames from an `AF_PACKET` socket, on
//! Windows IP datagrams from a raw IPv4 socket. The system calls are made by
//! the caller; what to call next, and what becomes of the answers, is decided
//! here.

use vstd::prelude::*;

use crate::addr::{Address, ADDR_TYPE_IP};
use crate::intf::{interfaces, same_string, Interface, IntfEntry};
use crate::savefile::{Packet, PcapPacket};
use crate::text::{chars_of, has_char};
use crate::wire::{be32, get_be32, get_le32, le32};

verus! {

/// Packet direction filter.
#[derive(Clone, Copy, Debug, PartialEq, Eq, Structural)]
pub enum Direction {
    /// Capture only packets sent to this host.
    In,
    /// Capture only packets sent by this host.
    Out,
    /// Capture packets travelling in both directions (default).
    InOut,
}

/// Linux `sll_pkttype` values.
pub const PKT_HOST: u16 = 0;
pub const PKT_BROADCAST: u16 = 1;
pub const PKT_MULTICAST: u16 = 2;
pub const PKT_OTHERHOST: u16 = 3;
pub const PKT_OUTGOING: u16 = 4;

/// Whether packets of a type travel in a direction.
pub open spec fn travels(pkttype: u16, dir: Direction) -> bool {
    match dir {
        Direction::In => pkttype != PKT_OUTGOING,
        Direction::Out => pkttype == PKT_OUTGOING,
        Direction::InOut => true,
    }
}

/// Whether a packet with type `pkttype` is admitted by `dir`.
pub fn pkttype_matches_dir(pkttype: u16, dir: Direction) -> (r: bool)
    ensures
        r == travels(pkttype, dir),
{
    match dir {
        Direction::In => pkttype != PKT_OUTGOING,
        Direction::Out => pkttype == PKT_OUTGOING,
        Direction::InOut => true,
    }
}

/// Every packet travels in exactly one of the two directions, and both taken
/// together admit it.
pub proof fn law_directions(pkttype: u16)
    ensures
        travels(pkttype, Direction::In) <==> !travels(pkttype, Direction::Out),
        travels(pkttype, Direction::InOut),
{
}

// ---------------------------------------------------------------------------
// Opening on Linux

/// Why a raw socket cannot be opened.
#[derive(Clone, Copy, Debug, PartialEq, Eq, Structural)]
pub enum OpenError {
    /// What the operating system says last.
    System,
    /// The interface name holds a NUL character.
    BadName,
}

/// The next step in opening a raw socket.
#[derive(Clone, Copy, Debug, PartialEq, Eq, Structural)]
pub enum Opening {
    /// Make a packet socket; the answer is its descriptor, or negative.
    Socket,
    /// Look up the index of the interface; the answer is the index, or zero.
    Index { fd: i32 },
    /// Bind the socket to the interface; the answer is negative on failure.
    Bind { fd: i32, ifindex: i32 },
    /// Get the status flags of the socket; the answer is the flags.
    GetFlags { fd: i32, ifindex: i32 },
    /// Set the status flags of the socket; the answer does not matter.
    SetFlags { fd: i32, ifindex: i32, flags: i32 },
    /// The socket is ready.
    Open { fd: i32, ifindex: i32 },
    /// There is no handle. A socket to be closed first is named; one that was
    /// made for a bad interface name is left open.
    Failed { close: Option<i32>, error: OpenError },
}

/// What follows a step, by its answer. `nonblock` is the flag for non-blocking
/// mode.
pub open spec fn opening_after(state: Opening, device: Seq<char>, answer: i32, nonblock: i32) -> Opening {
    match state {
        Opening::Socket => if answer < 0 {
            Opening::Failed { close: None, error: OpenError::System }
        } else if device.contains('\0') {
            Opening::Failed { close: None, error: OpenError::BadName }
        } else {
            Opening::Index { fd: answer }
        },
        Opening::Index { fd } => if answer == 0 {
            Opening::Failed { close: Some(fd), error: OpenError::System }
        } else {
            Opening::Bind { fd, ifindex: answer }
        },
        Opening::Bind { fd, ifindex } => if answer < 0 {
            Opening::Failed { close: Some(fd), error: OpenError::System }
        } else {
            Opening::GetFlags { fd, ifindex }
        },
        Opening::GetFlags { fd, ifindex } => Opening::SetFlags {
            fd,
            ifindex,
            flags: answer | nonblock,
        },
        Opening::SetFlags { fd, ifindex, .. } => Opening::Open { fd, ifindex },
        Opening::Open { .. } => state,
        Opening::Failed { .. } => state,
    }
}

/// The descriptor that is open at a step, if any.
pub open spec fn open_descriptor(state: Opening) -> Option<i32> {
    match state {
        Opening::Socket => None,
        Opening::Index { fd } => Some(fd),
        Opening::Bind { fd, .. } => Some(fd),
        Opening::GetFlags { fd, .. } => Some(fd),
        Opening::SetFlags { fd, .. } => Some(fd),
        Opening::Open { fd, .. } => Some(fd),
        Opening::Failed { close, .. } => close,
    }
}

/// A socket that was made for an interface name without a NUL character is never
/// lost: every later step still has it, or names it to be closed.
pub proof fn law_no_descriptor_is_lost(
    state: Opening,
    device: Seq<char>,
    answer: i32,
    nonblock: i32,
)
    requires
        !device.contains('\0'),
    ensures
        open_descriptor(state) is Some ==> open_descriptor(
            opening_after(state, device, answer, nonblock),
        ) == open_descriptor(state),
        state == Opening::Socket && answer >= 0 ==> open_descriptor(
            opening_after(state, device, answer, nonblock),
        ) == Some(answer),
{
}

/// A handle to a live raw packet socket.
#[derive(Debug)]
pub struct RawCapture {
    /// The descriptor of the socket.
    pub fd: i32,
    /// The index of the interface that it is bound to.
    pub ifindex: i32,
    /// Which packets are admitted.
    pub direction: Direction,
    /// How many bytes are read of a frame.
    pub buf_len: u32,
}

/// What came of trying to receive a frame.
#[derive(Debug)]
pub enum Received {
    /// A frame and its packet type.
    Frame(Vec<u8>, u16),
    WouldBlock,
    Failed,
}

/// What to do with what was received.
#[derive(Debug)]
pub enum Next {
    /// Try to receive another frame.
    Again,
    /// No frame is ready yet.
    NotReady,
    /// Hand this packet on.
    Packet(PcapPacket),
    /// Report what the operating system says last.
    Fail,
}

/// The packet for a frame.
pub open spec fn frame_packet(ts_sec: u32, ts_frac: u32, pkttype: u16, data: Seq<u8>) -> Packet {
    Packet {
        ts_sec,
        ts_frac,
        caplen: data.len() as u32,
        origlen: data.len() as u32,
        pkttype,
        data,
    }
}

impl RawCapture {
    /// Go on opening a raw socket on `device`, by the answer to the last step.
    pub fn open(state: Opening, device: &str, answer: i32, nonblock: i32) -> (r: Opening)
        ensures
            r == opening_after(state, device@, answer, nonblock),
    {
        match state {
            Opening::Socket => {
                let chars: Vec<char> = chars_of(device);
                if answer < 0 {
                    Opening::Failed { close: None, error: OpenError::System }
                } else if has_char(chars.as_slice(), '\0') {
                    Opening::Failed { close: None, error: OpenError::BadName }
                } else {
                    Opening::Index { fd: answer }
                }
            },
            Opening::Index { fd } => if answer == 0 {
                Opening::Failed { close: Some(fd), error: OpenError::System }
            } else {
                Opening::Bind { fd, ifindex: answer }
            },
            Opening::Bind { fd, ifindex } => if answer < 0 {
                Opening::Failed { close: Some(fd), error: OpenError::System }
            } else {
                Opening::GetFlags { fd, ifindex }
            },
            Opening::GetFlags { fd, ifindex } => Opening::SetFlags {
                fd,
                ifindex,
                flags: nonblock_flags(answer, nonblock, true),
            },
            Opening::SetFlags { fd, ifindex, .. } => Opening::Open { fd, ifindex },
            Opening::Open { .. } => state,
            Opening::Failed { .. } => state,
        }
    }

    /// The handle for an opened socket. Frames are read up to the snapshot
    /// length, and never in less than 64 bytes.
    pub fn new(fd: i32, ifindex: i32, snaplen: u32) -> (r: RawCapture)
        ensures
            r == (RawCapture {
                fd,
                ifindex,
                direction: Direction::InOut,
                buf_len: if snaplen < 64 {
                    64
                } else {
                    snaplen
                },
            }),
    {
        RawCapture {
            fd,
            ifindex,
            direction: Direction::InOut,
            buf_len: if snaplen < 64 {
                64
            } else {
                snaplen
            },
        }
    }

    /// Decide what becomes of what was received. Frames filtered out by the
    /// configured [`Direction`] are skipped, so that [`Next::NotReady`] always
    /// means "no matching frame ready yet".
    pub fn next_packet(&self, received: Received) -> (r: Next)
        ensures
            match received {
                Received::WouldBlock => r is NotReady,
                Received::Failed => r is Fail,
                Received::Frame(data, pkttype) => if travels(pkttype, self.direction) {
                    r matches Next::Packet(p) && p@ == frame_packet(0, 0, pkttype, data@)
                } else {
                    r is Again
                },
            },
    {
        match received {
            Received::WouldBlock => Next::NotReady,
            Received::Failed => Next::Fail,
            Received::Frame(data, pkttype) => {
                if !pkttype_matches_dir(pkttype, self.direction) {
                    return Next::Again;
                }
                let n: u32 = data.len() as u32;
                Next::Packet(
                    PcapPacket { ts_sec: 0, ts_frac: 0, caplen: n, origlen: n, pkttype, data },
                )
            },
        }
    }

    /// Set the packet direction filter.
    pub fn set_direction(&mut self, dir: Direction)
        ensures
            *final(self) == (RawCapture { direction: dir, ..*old(self) }),
    {
        self.direction = dir;
    }

    /// The status flags to set on the socket for non-blocking mode on or off.
    pub fn set_nonblock(&self, flags: i32, nonblock: i32, on: bool) -> (r: i32)
        ensures
            r == (if on {
                flags | nonblock
            } else {
                flags & !nonblock
            }),
    {
        nonblock_flags(flags, nonblock, on)
    }

    /// The packet statistics in the kernel's answer, as `(packets_received,
    /// packets_dropped)`: two 32-bit integers in the byte order of the machine.
    pub fn poll_stats(&self, raw: &[u8], little_endian: bool) -> (r: (u64, u64))
        requires
            raw@.len() >= 8,
        ensures
            r.0 == (if little_endian {
                le32(raw@, 0)
            } else {
                be32(raw@, 0)
            }),
            r.1 == (if little_endian {
                le32(raw@, 4)
            } else {
                be32(raw@, 4)
            }),
    {
        if little_endian {
            (get_le32(raw, 0) as u64, get_le32(raw, 4) as u64)
        } else {
            (get_be32(raw, 0) as u64, get_be32(raw, 4) as u64)
        }
    }
}

/// Status flags with the flag for non-blocking mode set or cleared.
fn nonblock_flags(flags: i32, nonblock: i32, on: bool) -> (r: i32)
    ensures
        r == (if on {
            flags | nonblock
        } else {
            flags & !nonblock
        }),
{
    if on {
        flags | nonblock
    } else {
        flags & !nonblock
    }
}

// ---------------------------------------------------------------------------
// Windows

/// Why a raw IPv4 socket cannot be opened.
#[derive(Clone, Copy, Debug, PartialEq, Eq, Structural)]
pub enum WinOpenError {
    /// The interface has no IPv4 address to bind to.
    NoAddress,
    /// The socket itself was refused.
    Refused,
    /// What the operating system says last.
    System,
    /// Capturing everything was refused.
    CaptureAll,
}

/// The next step in opening a raw IPv4 socket.
#[derive(Clone, Copy, Debug, PartialEq, Eq, Structural)]
pub enum WinOpening {
    /// Make a raw socket.
    Socket,
    /// Bind it to the address of the interface.
    Bind,
    /// Ask for all packets on the interface.
    CaptureAll,
    /// Make it non-blocking; whether that succeeds does not matter.
    NonBlocking,
    /// The socket is ready.
    Open,
    /// There is no socket; one that was made is to be closed.
    Failed { close: bool, error: WinOpenError },
}

/// What follows a step, by whether it succeeded. All packets are asked for only
/// in promiscuous mode.
pub open spec fn win_opening_after(state: WinOpening, promisc: bool, ok: bool) -> WinOpening {
    match state {
        WinOpening::Socket => if ok {
            WinOpening::Bind
        } else {
            WinOpening::Failed { close: false, error: WinOpenError::Refused }
        },
        WinOpening::Bind => if !ok {
            WinOpening::Failed { close: true, error: WinOpenError::System }
        } else if promisc {
            WinOpening::CaptureAll
        } else {
            WinOpening::NonBlocking
        },
        WinOpening::CaptureAll => if ok {
            WinOpening::NonBlocking
        } else {
            WinOpening::Failed { close: true, error: WinOpenError::CaptureAll }
        },
        WinOpening::NonBlocking => WinOpening::Open,
        WinOpening::Open => state,
        WinOpening::Failed { .. } => state,
    }
}

/// The first step in opening a raw IPv4 socket: there must be an address.
pub fn begin_windows(ip: Option<[u8; 4]>) -> (r: WinOpening)
    ensures
        r == (if ip is Some {
            WinOpening::Socket
        } else {
            WinOpening::Failed { close: false, error: WinOpenError::NoAddress }
        }),
{
    if ip.is_some() {
        WinOpening::Socket
    } else {
        WinOpening::Failed { close: false, error: WinOpenError::NoAddress }
    }
}

/// Go on opening a raw IPv4 socket, by whether the last step succeeded.
pub fn open_windows(state: WinOpening, promisc: bool, ok: bool) -> (r: WinOpening)
    ensures
        r == win_opening_after(state, promisc, ok),
{
    match state {
        WinOpening::Socket => if ok {
            WinOpening::Bind
        } else {
            WinOpening::Failed { close: false, error: WinOpenError::Refused }
        },
        WinOpening::Bind => if !ok {
            WinOpening::Failed { close: true, error: WinOpenError::System }
        } else if promisc {
            WinOpening::CaptureAll
        } else {
            WinOpening::NonBlocking
        },
        WinOpening::CaptureAll => if ok {
            WinOpening::NonBlocking
        } else {
            WinOpening::Failed { close: true, error: WinOpenError::CaptureAll }
        },
        WinOpening::NonBlocking => WinOpening::Open,
        WinOpening::Open => state,
        WinOpening::Failed { .. } => state,
    }
}

impl WinOpenError {
    /// The error in words; nothing where the operating system has them.
    pub open spec fn text(self, device: Seq<char>) -> Option<Seq<char>> {
        match self {
            WinOpenError::NoAddress => Some("no IPv4 address for interface '"@ + device + "'"@),
            WinOpenError::Refused => Some(
                "cannot open raw socket (is this process running as Administrator?); live capture without Npcap requires Admin rights"@,
            ),
            WinOpenError::System => None,
            WinOpenError::CaptureAll => Some(
                "SIO_RCVALL failed (raw socket capture-all needs Administrator privileges)"@,
            ),
        }
    }

    pub fn message(&self, device: &str) -> (r: Option<String>)
        ensures
            self.text(device@) == (match r {
                Some(s) => Some(s@),
                None => None,
            }),
    {
        let mut out: String = String::new();
        match self {
            WinOpenError::NoAddress => {
                out.append("no IPv4 address for interface '");
                out.append(device);
                out.append("'");
                assert(out@ =~= self.text(device@)->0);
            },
            WinOpenError::Refused => {
                out.append(
                    "cannot open raw socket (is this process running as Administrator?); live capture without Npcap requires Admin rights",
                );
                assert(out@ =~= self.text(device@)->0);
            },
            WinOpenError::System => {
                return None;
            },
            WinOpenError::CaptureAll => {
                out.append(
                    "SIO_RCVALL failed (raw socket capture-all needs Administrator privileges)",
                );
                assert(out@ =~= self.text(device@)->0);
            },
        }
        Some(out)
    }
}

/// The packet for a received IP datagram, with the time at which it came. An
/// empty one is none.
pub fn datagram(data: Vec<u8>, secs: u64, micros: u32) -> (r: Option<PcapPacket>)
    ensures
        match r {
            Some(p) => data@.len() > 0 && p@ == frame_packet(secs as u32, micros, 0, data@),
            None => data@.len() == 0,
        },
{
    if data.len() == 0 {
        return None;
    }
    let n: u32 = data.len() as u32;
    Some(
        PcapPacket {
            ts_sec: secs as u32,
            ts_frac: micros,
            caplen: n,
            origlen: n,
            pkttype: 0,
            data,
        },
    )
}

/// The octets of the first IPv4 address in a list.
pub open spec fn first_ipv4(s: Seq<Address>) -> Option<Seq<u8>>
    decreases s.len(),
{
    if s.len() == 0 {
        None
    } else if s[0].addr_type == ADDR_TYPE_IP {
        Some(s[0].data.take(4))
    } else {
        first_ipv4(s.skip(1))
    }
}

/// The octets of the first IPv4 address of the interfaces with a name.
pub open spec fn ipv4_of(list: Seq<Interface>, device: Seq<char>) -> Option<Seq<u8>>
    decreases list.len(),
{
    if list.len() == 0 {
        None
    } else {
        match first_ipv4(seq![list[0].addr] + list[0].alias_addrs) {
            Some(o) if list[0].name == device => Some(o),
            _ => ipv4_of(list.skip(1), device),
        }
    }
}

/// Find the first IPv4 address of one interface.
fn entry_ipv4(e: &IntfEntry) -> (r: Option<[u8; 4]>)
    ensures
        first_ipv4(seq![e@.addr] + e@.alias_addrs) == (match r {
            Some(o) => Some(o@),
            None => None,
        }),
{
    let ghost all = seq![e@.addr] + e@.alias_addrs;
    assert(all[0] == e.addr@);
    assert(all.skip(1) =~= e@.alias_addrs);
    match e.addr.to_ipv4() {
        Some(ip) => {
            return Some(ip.octets);
        },
        None => {},
    }
    let mut i: usize = 0;
    assert(e@.alias_addrs.skip(0) =~= e@.alias_addrs);
    while i < e.alias_addrs.len()
        invariant
            i <= e.alias_addrs@.len(),
            first_ipv4(all) == first_ipv4(e@.alias_addrs.skip(i as int)),
            all == seq![e@.addr] + e@.alias_addrs,
        decreases e.alias_addrs@.len() - i,
    {
        assert(e@.alias_addrs.skip(i as int)[0] == e.alias_addrs@[i as int]@);
        assert(e@.alias_addrs.skip(i as int).skip(1) =~= e@.alias_addrs.skip(i + 1));
        match e.alias_addrs[i].to_ipv4() {
            Some(ip) => {
                return Some(ip.octets);
            },
            None => {},
        }
        i = i + 1;
    }
    None
}

/// Find the first IPv4 address (as octets) for the interface `device`.
pub fn interface_ipv4(list: &Vec<IntfEntry>, device: &str) -> (r: Option<[u8; 4]>)
    ensures
        ipv4_of(interfaces(list@), device@) == (match r {
            Some(o) => Some(o@),
            None => None,
        }),
{
    let ghost all = interfaces(list@);
    let mut i: usize = 0;
    assert(all.skip(0) =~= all);
    while i < list.len()
        invariant
            i <= list@.len(),
            all == interfaces(list@),
            ipv4_of(all, device@) == ipv4_of(all.skip(i as int), device@),
        decreases list@.len() - i,
    {
        assert(all.skip(i as int)[0] == list@[i as int]@);
        assert(all.skip(i as int).skip(1) =~= all.skip(i + 1));
        if same_string(list[i].name.as_str(), device) {
            match entry_ipv4(&list[i]) {
                Some(o) => {
                    return Some(o);
                },
                None => {},
            }
        }
        i = i + 1;
    }
    None
}

// ---------------------------------------------------------------------------
// Laws on the numbers and the steps

/// The packet type with the number 4 is the outgoing one; all others are
/// incoming.
pub proof fn law_outgoing(pkttype: u16)
    ensures
        travels(pkttype, Direction::Out) <==> pkttype == 4,
        travels(pkttype, Direction::In) <==> pkttype != 4,
{
}

/// How a raw socket is opened step by step where all goes well: the socket is
/// made, the interface looked up and bound, and the flags read and written back
/// with the one for non-blocking mode added. The answers to the last steps do
/// not matter.
pub proof fn law_opening(
    device: Seq<char>,
    nonblock: i32,
    fd: i32,
    ifindex: i32,
    bound: i32,
    flags: i32,
    last: i32,
)
    requires
        fd >= 0,
        ifindex != 0,
        bound >= 0,
        !device.contains('\0'),
    ensures
        ({
            let a = opening_after(Opening::Socket, device, fd, nonblock);
            let b = opening_after(a, device, ifindex, nonblock);
            let c = opening_after(b, device, bound, nonblock);
            let d = opening_after(c, device, flags, nonblock);
            let e = opening_after(d, device, last, nonblock);
            &&& a == Opening::Index { fd }
            &&& b == Opening::Bind { fd, ifindex }
            &&& c == Opening::GetFlags { fd, ifindex }
            &&& d == Opening::SetFlags { fd, ifindex, flags: flags | nonblock }
            &&& e == Opening::Open { fd, ifindex }
            &&& opening_after(e, device, last, nonblock) == e
        }),
{
}

/// How opening a raw socket fails: where there is no socket, with nothing to
/// close; where the name has a NUL character in it, with the socket left as it
/// is; where there is no such interface or it cannot be bound, with the socket
/// closed. What has failed stays so.
pub proof fn law_opening_fails(
    device: Seq<char>,
    nonblock: i32,
    fd: i32,
    ifindex: i32,
    answer: i32,
    failed: Opening,
)
    requires
        failed is Failed,
    ensures
        answer < 0 ==> opening_after(Opening::Socket, device, answer, nonblock) == (
        Opening::Failed { close: None, error: OpenError::System }),
        answer >= 0 && device.contains('\0') ==> opening_after(
            Opening::Socket,
            device,
            answer,
            nonblock,
        ) == (Opening::Failed { close: None, error: OpenError::BadName }),
        opening_after(Opening::Index { fd }, device, 0, nonblock) == (Opening::Failed {
            close: Some(fd),
            error: OpenError::System,
        }),
        answer < 0 ==> opening_after(Opening::Bind { fd, ifindex }, device, answer, nonblock) == (
        Opening::Failed { close: Some(fd), error: OpenError::System }),
        opening_after(failed, device, answer, nonblock) == failed,
{
}

/// A frame becomes a packet with its bytes, both lengths of which are its own.
pub proof fn law_frame_packet(ts_sec: u32, ts_frac: u32, pkttype: u16, data: Seq<u8>)
    requires
        data.len() <= u32::MAX,
    ensures
        ({
            let p = frame_packet(ts_sec, ts_frac, pkttype, data);
            &&& p.ts_sec == ts_sec && p.ts_frac == ts_frac && p.pkttype == pkttype
            &&& p.data == data
            &&& p.caplen == data.len() && p.origlen == data.len()
        }),
{
}

/// How a raw socket is opened on Windows: made, bound, asked for all packets in
/// promiscuous mode only, and set to non-blocking mode, which may fail.
pub proof fn law_win_opening(promisc: bool, ok: bool)
    ensures
        win_opening_after(WinOpening::Socket, promisc, true) == WinOpening::Bind,
        win_opening_after(WinOpening::Bind, true, true) == WinOpening::CaptureAll,
        win_opening_after(WinOpening::Bind, false, true) == WinOpening::NonBlocking,
        win_opening_after(WinOpening::CaptureAll, promisc, true) == WinOpening::NonBlocking,
        win_opening_after(WinOpening::NonBlocking, promisc, ok) == WinOpening::Open,
        win_opening_after(WinOpening::Open, promisc, ok) == WinOpening::Open,
{
}

/// How that fails: without a socket there is nothing to close; one that cannot
/// be bound or that is refused all packets is closed. What has failed stays so.
pub proof fn law_win_opening_fails(promisc: bool, ok: bool, failed: WinOpening)
    requires
        failed is Failed,
    ensures
        win_opening_after(WinOpening::Socket, promisc, false) == (WinOpening::Failed {
            close: false,
            error: WinOpenError::Refused,
        }),
        win_opening_after(WinOpening::Bind, promisc, false) == (WinOpening::Failed {
            close: true,
            error: WinOpenError::System,
        }),
        win_opening_after(WinOpening::CaptureAll, promisc, false) == (WinOpening::Failed {
            close: true,
            error: WinOpenError::CaptureAll,
        }),
        win_opening_after(failed, promisc, ok) == failed,
{
}

/// The errors on Windows in words.
pub proof fn law_win_errors(device: Seq<char>)
    ensures
        WinOpenError::NoAddress.text(device) == Some(
            "no IPv4 address for interface '"@ + device + "'"@,
        ),
        WinOpenError::Refused.text(device) == Some(
            "cannot open raw socket (is this process running as Administrator?); live capture without Npcap requires Admin rights"@,
        ),
        WinOpenError::System.text(device) is None,
        WinOpenError::CaptureAll.text(device) == Some(
            "SIO_RCVALL failed (raw socket capture-all needs Administrator privileges)"@,
        ),
{
}

/// The first IPv4 address of a list, which is of the family with the number 2,
/// by its four octets.
pub proof fn law_first_ipv4(s: Seq<Address>, i: int)
    requires
        0 <= i <= s.len(),
        forall|k: int| 0 <= k < i ==> (#[trigger] s[k]).addr_type != 2,
        i < s.len() ==> s[i].addr_type == 2,
    ensures
        i == s.len() ==> first_ipv4(s) is None,
        i < s.len() ==> first_ipv4(s) == Some(s[i].data.subrange(0, 4)),
    decreases i,
{
    if i > 0 {
        assert(s[0].addr_type != 2);
        assert forall|k: int| 0 <= k < i - 1 implies (#[trigger] s.skip(1)[k]).addr_type != 2 by {
            assert(s[k + 1].addr_type != 2);
        }
        law_first_ipv4(s.skip(1), i - 1);
    } else if s.len() > 0 {
        assert(s[0].data.take(4) =~= s[0].data.subrange(0, 4));
    }
}

/// The IPv4 address to capture on is that of the first interface which has the
/// device's name and an IPv4 address, primary or alias.
pub proof fn law_device_ipv4(list: Seq<Interface>, device: Seq<char>, i: int)
    requires
        0 <= i <= list.len(),
        forall|k: int|
            0 <= k < i ==> (#[trigger] list[k]).name != device || first_ipv4(
                seq![list[k].addr] + list[k].alias_addrs,
            ) is None,
        i < list.len() ==> list[i].name == device && first_ipv4(
            seq![list[i].addr] + list[i].alias_addrs,
        ) is Some,
    ensures
        i == list.len() ==> ipv4_of(list, device) is None,
        i < list.len() ==> ipv4_of(list, device) == first_ipv4(
            seq![list[i].addr] + list[i].alias_addrs,
        ),
    decreases i,
{
    if i > 0 {
        let t = list.skip(1);
        assert(list[0].name != device || first_ipv4(seq![list[0].addr] + list[0].alias_addrs)
            is None);
        assert forall|k: int| 0 <= k < i - 1 implies (#[trigger] t[k]).name != device || first_ipv4(
            seq![t[k].addr] + t[k].alias_addrs,
        ) is None by {
            assert(t[k] == list[k + 1]);
        }
        law_device_ipv4(t, device, i - 1);
    }
}

} // verus!
