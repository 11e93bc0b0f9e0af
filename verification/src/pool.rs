//! Event pool and loop.
//!
//! A [`Pool`] aggregates I/O descriptors and scheduled events, and decides what
//! becomes of each event: success, error, timeout, cancel.
//!
//! The pool does no I/O and calls no handlers. Time, in nanoseconds since some
//! fixed moment, and the outcomes of socket operations are handed to it; it
//! hands back the operations to try and the events to report. A caller runs
//! the loop like this:
//!
//! 1. [`Pool::begin_run`], once.
//! 2. [`Pool::drain_commands`]: report the events that it gives.
//! 3. [`Pool::begin_pass`]: try each of the socket operations that it asks for.
//! 4. [`Pool::finish_pass`] with their outcomes, in the order of the operations:
//!    report the events that it gives.
//! 5. [`Pool::end_pass`] with the [`run_limit`]: return, or sleep and go on at 2.

use vstd::prelude::*;
use vstd::utf8::encode_utf8;

use crate::event::{EventId, EventStatus, EventType, LoopStatus};
use crate::idmap::{
    increasing, lemma_lists_end, lemma_lists_start, lemma_lists_step, lists, lists_upto, IdMap,
};
use crate::iod::{Iod, IodKind};
use crate::ip::SocketAddr;
use crate::wire::{byte_range, push_bytes};

verus! {

/// A pending asynchronous operation.
struct Pending {
    iod: Option<u64>,
    kind: EventType,
    deadline: Option<u64>,
    /// Bytes accumulated for reads.
    buf: Vec<u8>,
    /// Remaining bytes to send for writes.
    wbuf: Option<Vec<u8>>,
    /// Requested quantity for reads.
    target: usize,
    /// When true, a read completes as soon as a `\n` appears.
    line_read: bool,
    /// A cancelled event is reported no more.
    cancelled: bool,
}

/// A pending operation with its buffers as byte sequences.
#[verifier::ext_equal]
pub struct Event {
    pub iod: Option<u64>,
    pub kind: EventType,
    pub deadline: Option<u64>,
    pub buf: Seq<u8>,
    pub wbuf: Option<Seq<u8>>,
    pub target: usize,
    pub line_read: bool,
    pub cancelled: bool,
}

impl View for Pending {
    type V = Event;

    closed spec fn view(&self) -> Event {
        Event {
            iod: self.iod,
            kind: self.kind,
            deadline: self.deadline,
            buf: self.buf@,
            wbuf: match self.wbuf {
                Some(w) => Some(w@),
                None => None,
            },
            target: self.target,
            line_read: self.line_read,
            cancelled: self.cancelled,
        }
    }
}

/// How a connection attempt ended.
#[derive(Clone, Copy, Debug)]
pub enum ConnectOutcome {
    /// The stream with this descriptor is connected.
    Connected { fd: i32, peer: Option<SocketAddr> },
    Failed,
}

/// Something for the loop to take note of.
#[derive(Clone, Copy, Debug)]
pub enum Cmd {
    /// The connection attempt for an IOD ended.
    ConnectResult(u64, ConnectOutcome),
    /// The loop is to stop.
    Quit,
}

/// What a pool holds.
#[verifier::ext_equal]
pub struct PoolState {
    /// The id of the last IOD.
    pub last_iod: u64,
    /// The id of the last event.
    pub last_event: u64,
    pub iods: Map<u64, Iod>,
    pub events: Map<u64, Event>,
    /// What was read by events that were reported, until it is taken.
    pub read_bufs: Map<u64, Seq<u8>>,
    /// What the streams of IODs gave behind the lines that were read, for the
    /// next read.
    pub surplus: Map<u64, Seq<u8>>,
    /// The commands not yet taken note of.
    pub commands: Seq<Cmd>,
    pub quit: bool,
    pub broadcast: bool,
    pub udata: usize,
}

impl PoolState {
    /// A pool with nothing in it.
    pub open spec fn fresh(udata: usize) -> PoolState {
        PoolState {
            last_iod: 0,
            last_event: 0,
            iods: Map::empty(),
            events: Map::empty(),
            read_bufs: Map::empty(),
            surplus: Map::empty(),
            commands: Seq::empty(),
            quit: false,
            broadcast: false,
            udata,
        }
    }

    /// Ids were given out by this pool, and what an event has read is kept in
    /// one place.
    pub open spec fn valid(self) -> bool {
        &&& forall|k: u64| #[trigger] self.events.contains_key(k) ==> 1 <= k <= self.last_event
        &&& forall|k: u64|
            #[trigger] self.read_bufs.contains_key(k) ==> 1 <= k <= self.last_event
                && !self.events.contains_key(k)
        &&& forall|k: u64| #[trigger] self.iods.contains_key(k) ==> 1 <= k <= self.last_iod
        &&& forall|k: u64| #[trigger] self.surplus.contains_key(k) ==> self.iods.contains_key(k)
    }

    /// Whether an event waits to be reported.
    pub open spec fn live(self, id: u64) -> bool {
        self.events.contains_key(id) && !self.events[id].cancelled
    }

    /// The events that wait to be reported.
    pub open spec fn live_events(self) -> Set<u64> {
        self.events.dom().filter(|k: u64| !self.events[k].cancelled)
    }

    /// This pool with one more event.
    pub open spec fn scheduled(self, e: Event) -> PoolState {
        PoolState {
            last_event: (self.last_event + 1) as u64,
            events: self.events.insert((self.last_event + 1) as u64, e),
            ..self
        }
    }

    /// This pool with one more IOD.
    pub open spec fn with_iod(self, iod: Iod) -> PoolState {
        PoolState {
            last_iod: (self.last_iod + 1) as u64,
            iods: self.iods.insert((self.last_iod + 1) as u64, iod),
            ..self
        }
    }
}

/// Nanoseconds in a millisecond.
pub const MS: u64 = 1_000_000;

/// How long a connection attempt without a timeout may take: one hour.
pub const CONNECT_LIMIT: u64 = 3_600_000_000_000;

/// The longest nap between two passes: five milliseconds.
pub const NAP: u64 = 5_000_000;

/// When an operation with a timeout in milliseconds, started now, times out; a
/// negative timeout is none.
pub open spec fn deadline_after(timeout_ms: int, now: u64) -> Option<int> {
    if timeout_ms < 0 {
        None
    } else {
        Some(now + timeout_ms * 1_000_000)
    }
}

/// When a connection attempt started now times out.
pub open spec fn connect_deadline_after(timeout_ms: int, now: u64) -> int {
    if timeout_ms < 0 {
        now + CONNECT_LIMIT
    } else {
        now + timeout_ms * 1_000_000
    }
}

/// An event of a kind that nothing has happened to yet.
pub open spec fn new_event(
    iod: Option<u64>,
    kind: EventType,
    deadline: Option<int>,
    wbuf: Option<Seq<u8>>,
    target: usize,
    line_read: bool,
) -> Event {
    Event {
        iod,
        kind,
        deadline: match deadline {
            Some(d) => Some(d as u64),
            None => None,
        },
        buf: Seq::empty(),
        wbuf,
        target,
        line_read,
        cancelled: false,
    }
}

/// The larger of a length and one.
pub open spec fn at_least_one(n: usize) -> usize {
    if n < 1 {
        1
    } else {
        n
    }
}

/// The event pool.
pub struct Pool {
    iod_counter: u64,
    event_counter: u64,
    iods: IdMap<Iod>,
    pending: IdMap<Pending>,
    /// Read buffers retained after a Read event is reported, so callers can
    /// fetch the accumulated bytes.
    read_bufs: IdMap<Vec<u8>>,
    /// What was received through an IOD and not yet asked for.
    surplus: IdMap<Vec<u8>>,
    commands: Vec<Cmd>,
    quit: bool,
    broadcast: bool,
    udata: usize,
}

/// Pending operations with their buffers as byte sequences.
closed spec fn events_of(m: Map<u64, Pending>) -> Map<u64, Event> {
    Map::new(|k: u64| m.contains_key(k), |k: u64| m[k]@)
}

/// Buffers as byte sequences.
closed spec fn bufs_of(m: Map<u64, Vec<u8>>) -> Map<u64, Seq<u8>> {
    Map::new(|k: u64| m.contains_key(k), |k: u64| m[k]@)
}

impl View for Pool {
    type V = PoolState;

    closed spec fn view(&self) -> PoolState {
        PoolState {
            last_iod: self.iod_counter,
            last_event: self.event_counter,
            iods: self.iods@,
            events: events_of(self.pending@),
            read_bufs: bufs_of(self.read_bufs@),
            surplus: bufs_of(self.surplus@),
            commands: self.commands@,
            quit: self.quit,
            broadcast: self.broadcast,
            udata: self.udata,
        }
    }
}

impl Default for Pool {
    fn default() -> (r: Self)
        ensures
            r.wf(),
            r@ == PoolState::fresh(0),
    {
        Pool::new(0)
    }
}

/// When an operation with a timeout, started now, times out.
fn deadline_of(timeout_ms: i32, now: u64) -> (r: Option<u64>)
    requires
        now + timeout_ms * 1_000_000 <= u64::MAX,
    ensures
        deadline_after(timeout_ms as int, now) == (match r {
            Some(d) => Some(d as int),
            None => None,
        }),
{
    if timeout_ms < 0 {
        None
    } else {
        Some(now + timeout_ms as u64 * MS)
    }
}

/// When a connection attempt started now is to be given up.
pub fn connect_deadline(timeout_ms: i32, now: u64) -> (r: u64)
    requires
        connect_deadline_after(timeout_ms as int, now) <= u64::MAX,
    ensures
        r == connect_deadline_after(timeout_ms as int, now),
{
    if timeout_ms < 0 {
        now + CONNECT_LIMIT
    } else {
        now + timeout_ms as u64 * MS
    }
}

impl Pool {
    /// The storage is in order, and what the pool holds is valid.
    pub closed spec fn wf(&self) -> bool {
        &&& self.iods.wf()
        &&& self.pending.wf()
        &&& self.read_bufs.wf()
        &&& self.surplus.wf()
        &&& self@.valid()
    }

    /// Create a new event pool.
    pub fn new(udata: usize) -> (r: Pool)
        ensures
            r.wf(),
            r@ == PoolState::fresh(udata),
    {
        let r: Pool = Pool {
            iod_counter: 0,
            event_counter: 0,
            iods: IdMap::new(),
            pending: IdMap::new(),
            read_bufs: IdMap::new(),
            surplus: IdMap::new(),
            commands: Vec::new(),
            quit: false,
            broadcast: false,
            udata,
        };
        assert(r@ =~= PoolState::fresh(udata));
        r
    }

    pub fn set_udata(&mut self, udata: usize)
        requires
            old(self).wf(),
        ensures
            final(self).wf(),
            final(self)@ == (PoolState { udata, ..old(self)@ }),
    {
        self.udata = udata;
    }

    pub fn udata(&self) -> (r: usize)
        ensures
            r == self@.udata,
    {
        self.udata
    }

    /// Enable SO_BROADCAST on UDP sockets created going forward.
    pub fn set_broadcast(&mut self, on: bool)
        requires
            old(self).wf(),
        ensures
            final(self).wf(),
            final(self)@ == (PoolState { broadcast: on, ..old(self)@ }),
    {
        self.broadcast = on;
    }

    /// Whether new UDP sockets are to have SO_BROADCAST.
    pub fn broadcast(&self) -> (r: bool)
        ensures
            r == self@.broadcast,
    {
        self.broadcast
    }

    /// Whether there are ids left for `n` more IODs.
    pub fn has_iod_ids(&self, n: u64) -> (r: bool)
        ensures
            r == (self@.last_iod + n <= u64::MAX),
    {
        n <= u64::MAX - self.iod_counter
    }

    /// Whether there are ids left for `n` more events.
    pub fn has_event_ids(&self, n: u64) -> (r: bool)
        ensures
            r == (self@.last_event + n <= u64::MAX),
    {
        n <= u64::MAX - self.event_counter
    }

    /// Put an IOD in, under the next id.
    fn add_iod(&mut self, iod: Iod) -> (r: u64)
        requires
            old(self).wf(),
            old(self)@.last_iod < u64::MAX,
        ensures
            final(self).wf(),
            r == old(self)@.last_iod + 1,
            final(self)@ == old(self)@.with_iod(Iod { id: r, ..iod }),
    {
        self.iod_counter = self.iod_counter + 1;
        let id: u64 = self.iod_counter;
        let mut iod: Iod = iod;
        iod.id = id;
        self.iods.insert(id, iod);
        assert(self@ =~= old(self)@.with_iod(iod));
        id
    }

    /// Create a TCP IOD (no socket until connected).
    pub fn create_iod_tcp(&mut self) -> (r: u64)
        requires
            old(self).wf(),
            old(self)@.last_iod < u64::MAX,
        ensures
            final(self).wf(),
            r == old(self)@.last_iod + 1,
            final(self)@ == old(self)@.with_iod(Iod::idle(r, IodKind::Tcp)),
    {
        self.add_iod(Iod::new_tcp())
    }

    /// Create a UDP IOD for a bound socket. Where there is none, the IOD has no
    /// socket.
    pub fn create_iod_udp(&mut self, sock: Option<i32>) -> (r: u64)
        requires
            old(self).wf(),
            old(self)@.last_iod < u64::MAX,
        ensures
            final(self).wf(),
            r == old(self)@.last_iod + 1,
            final(self)@ == old(self)@.with_iod(Iod { udp: sock, ..Iod::idle(r, IodKind::Udp) }),
    {
        match sock {
            Some(s) => self.add_iod(Iod::new_udp(s)),
            None => {
                let mut iod: Iod = Iod::new_tcp();
                iod.kind = IodKind::Udp;
                self.add_iod(iod)
            },
        }
    }

    /// Create a TCP IOD wrapping an already-connected stream.
    pub fn create_iod_tcp_from(&mut self, stream: i32, peer: Option<SocketAddr>) -> (r: u64)
        requires
            old(self).wf(),
            old(self)@.last_iod < u64::MAX,
        ensures
            final(self).wf(),
            r == old(self)@.last_iod + 1,
            final(self)@ == old(self)@.with_iod(
                Iod { tcp: Some(stream), peer, connected: true, ..Iod::idle(r, IodKind::Tcp) },
            ),
    {
        let id: u64 = self.iod_counter + 1;
        self.add_iod(Iod::from_tcp_stream(stream, peer, id))
    }

    /// Create a UDP IOD wrapping an existing socket.
    pub fn create_iod_udp_from(&mut self, sock: i32, peer: Option<SocketAddr>) -> (r: u64)
        requires
            old(self).wf(),
            old(self)@.last_iod < u64::MAX,
        ensures
            final(self).wf(),
            r == old(self)@.last_iod + 1,
            final(self)@ == old(self)@.with_iod(
                Iod {
                    udp: Some(sock),
                    peer,
                    connected: peer is Some,
                    ..Iod::idle(r, IodKind::Udp)
                },
            ),
    {
        let id: u64 = self.iod_counter + 1;
        self.add_iod(Iod::from_udp_socket(sock, peer, id))
    }

    /// Put an event in, under the next id.
    fn schedule(&mut self, e: Pending) -> (r: EventId)
        requires
            old(self).wf(),
            old(self)@.last_event < u64::MAX,
        ensures
            final(self).wf(),
            r == old(self)@.last_event + 1,
            final(self)@ == old(self)@.scheduled(e@),
    {
        self.event_counter = self.event_counter + 1;
        let id: u64 = self.event_counter;
        let ghost before = self.pending@;
        self.pending.insert(id, e);
        assert(events_of(self.pending@) =~= events_of(before).insert(id, e@));
        assert(self@ =~= old(self)@.scheduled(e@));
        id
    }

    /// Request an asynchronous TCP connect. The attempt itself runs elsewhere,
    /// until the [`connect_deadline`]; its outcome comes back as a
    /// [`Cmd::ConnectResult`].
    pub fn connect_tcp(&mut self, iod_id: u64, timeout_ms: i32, now: u64) -> (r: EventId)
        requires
            old(self).wf(),
            old(self)@.last_event < u64::MAX,
            connect_deadline_after(timeout_ms as int, now) <= u64::MAX,
        ensures
            final(self).wf(),
            r == old(self)@.last_event + 1,
            final(self)@ == old(self)@.scheduled(
                new_event(
                    Some(iod_id),
                    EventType::Connect,
                    Some(connect_deadline_after(timeout_ms as int, now)),
                    None,
                    0,
                    false,
                ),
            ),
    {
        let deadline: u64 = connect_deadline(timeout_ms, now);
        self.schedule(
            Pending {
                iod: Some(iod_id),
                kind: EventType::Connect,
                deadline: Some(deadline),
                buf: Vec::new(),
                wbuf: None,
                target: 0,
                line_read: false,
                cancelled: false,
            },
        )
    }

    /// Associate a UDP IOD with a remote peer. Returns the socket to connect,
    /// if the IOD has one.
    pub fn connect_udp(&mut self, iod_id: u64, addr: SocketAddr) -> (r: Option<i32>)
        requires
            old(self).wf(),
        ensures
            final(self).wf(),
            final(self)@ == peered(old(self)@, iod_id, addr),
            r == (if old(self)@.iods.contains_key(iod_id) {
                old(self)@.iods[iod_id].udp
            } else {
                None
            }),
    {
        let ghost before = *self;
        match self.iods.get_mut(iod_id) {
            Some(iod) => {
                iod.peer = Some(addr);
                iod.connected = true;
                iod.kind = IodKind::Udp;
                let sock: Option<i32> = iod.udp;
                assert(self@ =~= peered(before@, iod_id, addr));
                sock
            },
            None => None,
        }
    }

    /// Request an async read; completes on the first received byte.
    pub fn read(&mut self, iod_id: u64, timeout_ms: i32, now: u64) -> (r: EventId)
        requires
            old(self).wf(),
            old(self)@.last_event < u64::MAX,
            now + timeout_ms * 1_000_000 <= u64::MAX,
        ensures
            final(self).wf(),
            r == old(self)@.last_event + 1,
            final(self)@ == old(self)@.scheduled(
                new_event(
                    Some(iod_id),
                    EventType::Read,
                    deadline_after(timeout_ms as int, now),
                    None,
                    1,
                    false,
                ),
            ),
    {
        self.read_bytes(iod_id, timeout_ms, 1, now)
    }

    /// Request an async read of at least `nbytes`.
    pub fn read_bytes(&mut self, iod_id: u64, timeout_ms: i32, nbytes: usize, now: u64) -> (r:
        EventId)
        requires
            old(self).wf(),
            old(self)@.last_event < u64::MAX,
            now + timeout_ms * 1_000_000 <= u64::MAX,
        ensures
            final(self).wf(),
            r == old(self)@.last_event + 1,
            final(self)@ == old(self)@.scheduled(
                new_event(
                    Some(iod_id),
                    EventType::Read,
                    deadline_after(timeout_ms as int, now),
                    None,
                    at_least_one(nbytes),
                    false,
                ),
            ),
    {
        let deadline: Option<u64> = deadline_of(timeout_ms, now);
        self.schedule(
            Pending {
                iod: Some(iod_id),
                kind: EventType::Read,
                deadline,
                buf: Vec::new(),
                wbuf: None,
                target: if nbytes < 1 {
                    1
                } else {
                    nbytes
                },
                line_read: false,
                cancelled: false,
            },
        )
    }

    /// Request an asynchronous read of one line.
    ///
    /// Bytes accumulate in the event's read buffer until a `\n` is seen (or the
    /// timeout / EOF occurs). On success the line (including the trailing `\n`)
    /// can be fetched with [`Pool::take_read_buf`]. `maxline` bounds how many
    /// bytes may be accumulated before completing. What comes behind the line
    /// is kept for the next read of the IOD.
    pub fn readlines(&mut self, iod_id: u64, timeout_ms: i32, maxline: usize, now: u64) -> (r:
        EventId)
        requires
            old(self).wf(),
            old(self)@.last_event < u64::MAX,
            now + timeout_ms * 1_000_000 <= u64::MAX,
        ensures
            final(self).wf(),
            r == old(self)@.last_event + 1,
            final(self)@ == old(self)@.scheduled(
                new_event(
                    Some(iod_id),
                    EventType::Read,
                    deadline_after(timeout_ms as int, now),
                    None,
                    at_least_one(maxline),
                    true,
                ),
            ),
    {
        let deadline: Option<u64> = deadline_of(timeout_ms, now);
        self.schedule(
            Pending {
                iod: Some(iod_id),
                kind: EventType::Read,
                deadline,
                buf: Vec::new(),
                wbuf: None,
                target: if maxline < 1 {
                    1
                } else {
                    maxline
                },
                line_read: true,
                cancelled: false,
            },
        )
    }

    /// Request an async write.
    pub fn write(&mut self, iod_id: u64, data: &[u8], timeout_ms: i32, now: u64) -> (r: EventId)
        requires
            old(self).wf(),
            old(self)@.last_event < u64::MAX,
            now + timeout_ms * 1_000_000 <= u64::MAX,
        ensures
            final(self).wf(),
            r == old(self)@.last_event + 1,
            final(self)@ == old(self)@.scheduled(
                new_event(
                    Some(iod_id),
                    EventType::Write,
                    deadline_after(timeout_ms as int, now),
                    Some(data@),
                    data@.len() as usize,
                    false,
                ),
            ),
    {
        let deadline: Option<u64> = deadline_of(timeout_ms, now);
        let copy: Vec<u8> = byte_range(data, 0, data.len());
        assert(copy@ =~= data@);
        self.schedule(
            Pending {
                iod: Some(iod_id),
                kind: EventType::Write,
                deadline,
                buf: Vec::new(),
                wbuf: Some(copy),
                target: data.len(),
                line_read: false,
                cancelled: false,
            },
        )
    }

    /// Async write of a formatted string.
    pub fn write_fmt(&mut self, iod_id: u64, formatted: &str, timeout_ms: i32, now: u64) -> (r:
        EventId)
        requires
            old(self).wf(),
            old(self)@.last_event < u64::MAX,
            now + timeout_ms * 1_000_000 <= u64::MAX,
        ensures
            final(self).wf(),
            r == old(self)@.last_event + 1,
            final(self)@ == old(self)@.scheduled(
                new_event(
                    Some(iod_id),
                    EventType::Write,
                    deadline_after(timeout_ms as int, now),
                    Some(encode_utf8(formatted@)),
                    encode_utf8(formatted@).len() as usize,
                    false,
                ),
            ),
    {
        self.write(iod_id, formatted.as_bytes(), timeout_ms, now)
    }

    /// Async write of a literal string.
    pub fn printf(&mut self, iod_id: u64, text: &str, timeout_ms: i32, now: u64) -> (r: EventId)
        requires
            old(self).wf(),
            old(self)@.last_event < u64::MAX,
            now + timeout_ms * 1_000_000 <= u64::MAX,
        ensures
            final(self).wf(),
            r == old(self)@.last_event + 1,
            final(self)@ == old(self)@.scheduled(
                new_event(
                    Some(iod_id),
                    EventType::Write,
                    deadline_after(timeout_ms as int, now),
                    Some(encode_utf8(text@)),
                    encode_utf8(text@).len() as usize,
                    false,
                ),
            ),
    {
        self.write(iod_id, text.as_bytes(), timeout_ms, now)
    }

    /// Send a UDP datagram to `addr`. The IOD is (re)associated with `addr` and
    /// a Write event is scheduled. Returns the socket to connect, if the IOD
    /// has one, and the event.
    pub fn send_udp(
        &mut self,
        iod_id: u64,
        addr: SocketAddr,
        data: &[u8],
        timeout_ms: i32,
        now: u64,
    ) -> (r: (Option<i32>, EventId))
        requires
            old(self).wf(),
            old(self)@.last_event < u64::MAX,
            now + timeout_ms * 1_000_000 <= u64::MAX,
        ensures
            final(self).wf(),
            r.0 == (if old(self)@.iods.contains_key(iod_id) {
                old(self)@.iods[iod_id].udp
            } else {
                None
            }),
            r.1 == old(self)@.last_event + 1,
            final(self)@ == peered(old(self)@, iod_id, addr).scheduled(
                new_event(
                    Some(iod_id),
                    EventType::Write,
                    deadline_after(timeout_ms as int, now),
                    Some(data@),
                    data@.len() as usize,
                    false,
                ),
            ),
    {
        let sock: Option<i32> = self.connect_udp(iod_id, addr);
        let id: EventId = self.write(iod_id, data, timeout_ms, now);
        (sock, id)
    }

    /// Create a timer event.
    pub fn timer_create(&mut self, timeout_ms: u32, now: u64) -> (r: EventId)
        requires
            old(self).wf(),
            old(self)@.last_event < u64::MAX,
            now + timeout_ms * 1_000_000 <= u64::MAX,
        ensures
            final(self).wf(),
            r == old(self)@.last_event + 1,
            final(self)@ == old(self)@.scheduled(
                new_event(
                    None,
                    EventType::Timer,
                    deadline_after(timeout_ms as int, now),
                    None,
                    0,
                    false,
                ),
            ),
    {
        self.schedule(
            Pending {
                iod: None,
                kind: EventType::Timer,
                deadline: Some(now + timeout_ms as u64 * MS),
                buf: Vec::new(),
                wbuf: None,
                target: 0,
                line_read: false,
                cancelled: false,
            },
        )
    }
}

/// A pool whose IOD has been associated with a peer, if there is that IOD.
pub open spec fn peered(s: PoolState, iod_id: u64, addr: SocketAddr) -> PoolState {
    if s.iods.contains_key(iod_id) {
        PoolState {
            iods: s.iods.insert(
                iod_id,
                Iod {
                    peer: Some(addr),
                    connected: true,
                    kind: IodKind::Udp,
                    ..s.iods[iod_id]
                },
            ),
            ..s
        }
    } else {
        s
    }
}

// ---------------------------------------------------------------------------
// Ending events early

/// Whether an event belongs to an IOD.
pub open spec fn belongs(s: PoolState, id: u64, iod_id: u64) -> bool {
    s.events.contains_key(id) && s.events[id].iod == Some(iod_id)
}

/// A pool without an IOD and its events.
pub open spec fn without_iod(s: PoolState, iod_id: u64) -> PoolState {
    PoolState {
        iods: s.iods.remove(iod_id),
        surplus: s.surplus.remove(iod_id),
        events: Map::new(
            |k: u64| s.events.contains_key(k) && !belongs(s, k, iod_id),
            |k: u64| s.events[k],
        ),
        ..s
    }
}

/// What deleting an IOD did.
#[derive(Debug)]
pub struct Deleted {
    /// Whether there was an IOD with that id.
    pub existed: bool,
    /// The events to report as [`EventStatus::Kill`].
    pub killed: Vec<EventId>,
}

/// What cancelling an event did.
#[derive(Clone, Copy, Debug, PartialEq, Eq, Structural)]
pub struct Cancelled {
    /// Whether there was an event with that id.
    pub found: bool,
    /// Whether it is to be reported as [`EventStatus::Cancelled`].
    pub report: bool,
}

impl Pool {
    /// Delete an IOD and kill any of its pending events.
    pub fn delete_iod(&mut self, id: u64) -> (r: Deleted)
        requires
            old(self).wf(),
        ensures
            final(self).wf(),
            final(self)@ == without_iod(old(self)@, id),
            r.existed == old(self)@.iods.contains_key(id),
            lists(r.killed@, |k: u64| old(self)@.live(k) && belongs(old(self)@, k, id)),
    {
        let ghost s0 = self@;
        let ghost ids = self.pending.ids();
        let ghost p = |k: u64| s0.live(k) && belongs(s0, k, id);
        proof {
            self.pending.lemma_ids();
            lemma_lists_start(ids, p);
        }
        let mut mine: Vec<EventId> = Vec::new();
        let mut killed: Vec<EventId> = Vec::new();
        let n: usize = self.pending.len();
        let mut i: usize = 0;
        while i < n
            invariant
                i <= n == ids.len(),
                *self == *old(self),
                self.wf(),
                s0 == self@,
                ids == self.pending.ids(),
                increasing(ids),
                forall|k: u64| #[trigger] ids.contains(k) <==> self.pending@.contains_key(k),
                p == (|k: u64| s0.live(k) && belongs(s0, k, id)),
                lists_upto(killed@, ids, i as int, p),
                forall|j: int|
                    0 <= j < i && belongs(s0, ids[j], id) ==> mine@.contains(#[trigger] ids[j]),
                forall|j: int| 0 <= j < mine@.len() ==> belongs(s0, #[trigger] mine@[j], id),
            decreases n - i,
        {
            let k: u64 = self.pending.id_at(i);
            let e: &Pending = self.pending.value_at(i);
            assert(s0.events[k] == e@);
            proof {
                lemma_lists_step(killed@, ids, i as int, p);
            }
            let ghost before = mine@;
            let own: bool = match e.iod {
                Some(x) => x == id,
                None => false,
            };
            if own {
                if !e.cancelled {
                    killed.push(k);
                }
                mine.push(k);
                assert(mine@[mine@.len() - 1] == k);
            }
            assert forall|j: int| 0 <= j < i + 1 && belongs(s0, ids[j], id) implies mine@.contains(
                #[trigger] ids[j],
            ) by {
                if j < i {
                    assert(before.contains(ids[j]));
                    let m = choose|m: int| 0 <= m < before.len() && before[m] == ids[j];
                    assert(mine@[m] == ids[j]);
                }
            }
            i = i + 1;
        }
        proof {
            lemma_lists_end(killed@, ids, p);
        }
        let mut m: usize = 0;
        while m < mine.len()
            invariant
                m <= mine@.len(),
                self.pending.wf(),
                self.iods == old(self).iods,
                self.read_bufs == old(self).read_bufs,
                self.surplus == old(self).surplus,
                self.iod_counter == old(self).iod_counter,
                self.event_counter == old(self).event_counter,
                self.commands == old(self).commands,
                self.quit == old(self).quit,
                self.broadcast == old(self).broadcast,
                self.udata == old(self).udata,
                forall|k: u64|
                    #[trigger] self.pending@.contains_key(k) <==> old(self).pending@.contains_key(k)
                        && !mine@.take(m as int).contains(k),
                forall|k: u64| #[trigger]
                    self.pending@.contains_key(k) ==> self.pending@[k] == old(self).pending@[k],
            decreases mine@.len() - m,
        {
            let k0: u64 = mine[m];
            let _ = self.pending.remove(k0);
            proof {
                let a = mine@.take(m as int);
                let b = mine@.take(m + 1);
                assert forall|k: u64| #[trigger] b.contains(k) <==> a.contains(k) || k == k0 by {
                    if b.contains(k) {
                        let x = choose|x: int| 0 <= x < b.len() && b[x] == k;
                        if x < m {
                            assert(a[x] == k);
                        }
                    }
                    if a.contains(k) {
                        let x = choose|x: int| 0 <= x < a.len() && a[x] == k;
                        assert(b[x] == k);
                    }
                    assert(b[m as int] == k0);
                }
            }
            m = m + 1;
        }
        assert(mine@.take(mine@.len() as int) =~= mine@);
        let existed: bool = self.iods.remove(id).is_some();
        let _ = self.surplus.remove(id);
        proof {
            let want = without_iod(s0, id);
            assert forall|k: u64| self@.events.contains_key(k) == want.events.contains_key(k) by {
                if old(self).pending@.contains_key(k) {
                    assert(ids.contains(k));
                    let j = choose|j: int| 0 <= j < ids.len() && ids[j] == k;
                    if belongs(s0, k, id) {
                        assert(mine@.contains(ids[j]));
                    }
                    if mine@.contains(k) {
                        let x = choose|x: int| 0 <= x < mine@.len() && mine@[x] == k;
                        assert(belongs(s0, mine@[x], id));
                    }
                }
            }
            assert forall|k: u64| self@.events.contains_key(k) implies self@.events[k]
                == want.events[k] by {
                assert(self.pending@.contains_key(k));
                assert(want.events.contains_key(k));
                assert(self.pending@[k] == old(self).pending@[k]);
                assert(s0.events[k] == old(self).pending@[k]@);
            }
            assert(self@.events =~= want.events);
            assert(self@.surplus =~= want.surplus);
            assert(self@ =~= want);
        }
        Deleted { existed, killed }
    }

    /// Destroy the pool, killing every pending event and clearing all IODs.
    /// Returns the events to report as [`EventStatus::Kill`].
    pub fn delete(&mut self) -> (r: Vec<EventId>)
        requires
            old(self).wf(),
        ensures
            final(self).wf(),
            final(self)@ == (PoolState {
                iods: Map::empty(),
                surplus: Map::empty(),
                events: Map::empty(),
                quit: true,
                ..old(self)@
            }),
            lists(r@, |k: u64| old(self)@.live(k)),
    {
        let killed: Vec<EventId> = self.live_ids();
        self.iods = IdMap::new();
        self.surplus = IdMap::new();
        self.pending = IdMap::new();
        self.quit = true;
        assert(self@.events =~= Map::<u64, Event>::empty());
        assert(self@.surplus =~= Map::<u64, Seq<u8>>::empty());
        killed
    }

    /// The events that wait to be reported.
    fn live_ids(&self) -> (r: Vec<EventId>)
        requires
            self.wf(),
        ensures
            lists(r@, |k: u64| self@.live(k)),
    {
        let ghost ids = self.pending.ids();
        let ghost p = |k: u64| self@.live(k);
        proof {
            self.pending.lemma_ids();
            lemma_lists_start(ids, p);
        }
        let mut out: Vec<EventId> = Vec::new();
        let n: usize = self.pending.len();
        let mut i: usize = 0;
        while i < n
            invariant
                i <= n == ids.len(),
                self.wf(),
                ids == self.pending.ids(),
                increasing(ids),
                p == (|k: u64| self@.live(k)),
                lists_upto(out@, ids, i as int, p),
            decreases n - i,
        {
            let k: u64 = self.pending.id_at(i);
            proof {
                lemma_lists_step(out@, ids, i as int, p);
            }
            if !self.pending.value_at(i).cancelled {
                out.push(k);
            }
            i = i + 1;
        }
        proof {
            lemma_lists_end(out@, ids, p);
        }
        out
    }

    /// Cancel an event. It is reported only where it still waited for that.
    pub fn cancel(&mut self, id: EventId, notify: bool) -> (r: Cancelled)
        requires
            old(self).wf(),
        ensures
            final(self).wf(),
            final(self)@ == cancelled(old(self)@, id),
            r == (Cancelled {
                found: old(self)@.events.contains_key(id),
                report: notify && old(self)@.live(id),
            }),
    {
        let ghost before = *self;
        match self.pending.get_mut(id) {
            Some(e) => {
                let report: bool = notify && !e.cancelled;
                e.cancelled = true;
                assert(self@.events =~= cancelled(before@, id).events);
                Cancelled { found: true, report }
            },
            None => Cancelled { found: false, report: false },
        }
    }

    /// Request the loop to stop.
    pub fn loop_quit(&mut self)
        requires
            old(self).wf(),
        ensures
            final(self).wf(),
            final(self)@ == (PoolState {
                quit: true,
                commands: old(self)@.commands.push(Cmd::Quit),
                ..old(self)@
            }),
    {
        self.quit = true;
        self.commands.push(Cmd::Quit);
    }

    /// Hand over something for the loop to take note of.
    pub fn post(&mut self, cmd: Cmd)
        requires
            old(self).wf(),
        ensures
            final(self).wf(),
            final(self)@ == (PoolState { commands: old(self)@.commands.push(cmd), ..old(self)@ }),
    {
        self.commands.push(cmd);
        assert(self@ =~= (PoolState { commands: old(self)@.commands.push(cmd), ..old(self)@ }));
        assert(self@.valid());
    }

    /// Access an IOD by id.
    pub fn iod(&self, id: u64) -> (r: Option<&Iod>)
        requires
            self.wf(),
        ensures
            match r {
                Some(iod) => self@.iods.contains_key(id) && *iod == self@.iods[id],
                None => !self@.iods.contains_key(id),
            },
    {
        self.iods.get(id)
    }

    /// Access an IOD by id, to change it.
    pub fn iod_mut(&mut self, id: u64) -> (r: Option<&mut Iod>)
        requires
            old(self).wf(),
        ensures
            final(self).wf(),
            match r {
                Some(iod) => old(self)@.iods.contains_key(id) && *iod == old(self)@.iods[id]
                    && final(self)@ == (PoolState {
                    iods: old(self)@.iods.insert(id, *final(iod)),
                    ..old(self)@
                }),
                None => !old(self)@.iods.contains_key(id) && final(self)@ == old(self)@,
            },
    {
        match self.iods.get_mut(id) {
            Some(iod) => {
                assert(old(self)@.valid());
                assert(old(self)@.iods.contains_key(id));
                assert(1 <= id <= old(self)@.last_iod);
                Some(iod)
            },
            None => None,
        }
    }

    /// The data accumulated by a Read event. Buffers of reported Read events
    /// are retained until taken here.
    pub fn take_read_buf(&mut self, id: EventId) -> (r: Vec<u8>)
        requires
            old(self).wf(),
        ensures
            final(self).wf(),
            final(self)@ == (PoolState { read_bufs: old(self)@.read_bufs.remove(id), ..old(self)@ }),
            r@ == (if old(self)@.read_bufs.contains_key(id) {
                old(self)@.read_bufs[id]
            } else if old(self)@.events.contains_key(id) {
                old(self)@.events[id].buf
            } else {
                Seq::empty()
            }),
    {
        let taken: Option<Vec<u8>> = self.read_bufs.remove(id);
        assert(self@.read_bufs =~= old(self)@.read_bufs.remove(id));
        match taken {
            Some(b) => b,
            None => match self.pending.get(id) {
                Some(e) => {
                    let copy: Vec<u8> = byte_range(e.buf.as_slice(), 0, e.buf.len());
                    assert(copy@ =~= e.buf@);
                    copy
                },
                None => Vec::new(),
            },
        }
    }

    /// Whether any events wait to be reported.
    pub fn has_pending(&self) -> (r: bool)
        requires
            self.wf(),
        ensures
            r == (exists|k: u64| self@.live(k)),
    {
        let ids: Vec<EventId> = self.live_ids();
        proof {
            if ids@.len() > 0 {
                assert(ids@.contains(ids@[0]));
                assert(self@.live(ids@[0]));
            } else {
                assert forall|k: u64| !self@.live(k) by {
                    assert(!ids@.contains(k));
                }
            }
        }
        ids.len() > 0
    }

    /// How many events wait to be reported.
    pub fn pending_count(&self) -> (r: usize)
        requires
            self.wf(),
        ensures
            r == self@.live_events().len(),
    {
        let ids: Vec<EventId> = self.live_ids();
        proof {
            assert(ids@.no_duplicates()) by {
                assert forall|i: int, j: int|
                    0 <= i < ids@.len() && 0 <= j < ids@.len() && i != j implies ids@[i] != ids@[j] by {
                    if i < j {
                        assert(ids@[i] < ids@[j]);
                    } else {
                        assert(ids@[j] < ids@[i]);
                    }
                }
            }
            ids@.unique_seq_to_set();
            assert(ids@.to_set() =~= self@.live_events());
        }
        ids.len()
    }
}

/// A pool with an event cancelled, if there is that event.
pub open spec fn cancelled(s: PoolState, id: u64) -> PoolState {
    if s.events.contains_key(id) {
        PoolState { events: s.events.insert(id, Event { cancelled: true, ..s.events[id] }), ..s }
    } else {
        s
    }
}

// ---------------------------------------------------------------------------
// Commands

/// Whether an event waits for the connection of an IOD.
pub open spec fn connecting(s: PoolState, iod_id: u64, id: u64) -> bool {
    s.live(id) && belongs(s, id, iod_id) && s.events[id].kind == EventType::Connect
}

/// Whether an event is the oldest that waits for the connection of an IOD.
pub open spec fn oldest_connecting(s: PoolState, iod_id: u64, id: u64) -> bool {
    &&& connecting(s, iod_id, id)
    &&& forall|k: u64| #[trigger] connecting(s, iod_id, k) ==> id <= k
}

/// An IOD after its stream was connected.
pub open spec fn connected_iods(iods: Map<u64, Iod>, iod_id: u64, out: ConnectOutcome) -> Map<
    u64,
    Iod,
> {
    match out {
        ConnectOutcome::Connected { fd, peer } => if iods.contains_key(iod_id) {
            iods.insert(
                iod_id,
                Iod {
                    tcp: Some(fd),
                    kind: IodKind::Tcp,
                    peer,
                    connected: true,
                    ..iods[iod_id]
                },
            )
        } else {
            iods
        },
        ConnectOutcome::Failed => iods,
    }
}

/// What is kept of the streams of IODs after a connection attempt ended: a new
/// stream has nothing of the one before it.
pub open spec fn connected_surplus(
    surplus: Map<u64, Seq<u8>>,
    iod_id: u64,
    out: ConnectOutcome,
) -> Map<u64, Seq<u8>> {
    match out {
        ConnectOutcome::Connected { .. } => surplus.remove(iod_id),
        ConnectOutcome::Failed => surplus,
    }
}

/// The status of an event whose connection attempt ended.
pub open spec fn connect_status(out: ConnectOutcome) -> EventStatus {
    match out {
        ConnectOutcome::Connected { .. } => EventStatus::Success,
        ConnectOutcome::Failed => EventStatus::Error,
    }
}

/// What a command does: the pool behind it, and the event to report. The end
/// of a connection attempt completes the oldest event that waits for it; where
/// none does, it is of no interest.
pub open spec fn obeyed(s: PoolState, cmd: Cmd) -> (PoolState, Option<(u64, EventStatus)>) {
    match cmd {
        Cmd::Quit => (PoolState { quit: true, ..s }, None),
        Cmd::ConnectResult(iod_id, out) => if exists|id: u64|
            oldest_connecting(s, iod_id, id) {
            let id = choose|id: u64| oldest_connecting(s, iod_id, id);
            (
                PoolState {
                    events: s.events.remove(id),
                    iods: connected_iods(s.iods, iod_id, out),
                    surplus: connected_surplus(s.surplus, iod_id, out),
                    ..s
                },
                Some((id, connect_status(out))),
            )
        } else {
            (s, None)
        },
    }
}

/// What several commands do, one after the other.
pub open spec fn obeyed_all(s: PoolState, cmds: Seq<Cmd>) -> (PoolState, Seq<(u64, EventStatus)>)
    decreases cmds.len(),
{
    if cmds.len() == 0 {
        (s, Seq::empty())
    } else {
        let (t, reported) = obeyed_all(s, cmds.drop_last());
        let (u, last) = obeyed(t, cmds.last());
        (
            u,
            match last {
                Some(r) => reported.push(r),
                None => reported,
            },
        )
    }
}

/// Where one is waiting, one is the oldest.
proof fn lemma_oldest(s: PoolState, iod_id: u64, id: u64)
    requires
        connecting(s, iod_id, id),
    ensures
        exists|k: u64| oldest_connecting(s, iod_id, k),
    decreases id,
{
    if !oldest_connecting(s, iod_id, id) {
        let k = choose|k: u64| #[trigger] connecting(s, iod_id, k) && k < id;
        lemma_oldest(s, iod_id, k);
    }
}

impl Pool {
    /// Forget what earlier runs left of a request to stop. Requests that were
    /// not yet taken note of stay.
    pub fn begin_run(&mut self)
        requires
            old(self).wf(),
        ensures
            final(self).wf(),
            final(self)@ == (PoolState { quit: false, ..old(self)@ }),
    {
        self.quit = false;
    }

    /// The oldest event that waits for the connection of an IOD.
    fn find_connecting(&self, iod_id: u64) -> (r: Option<u64>)
        requires
            self.wf(),
        ensures
            match r {
                Some(id) => oldest_connecting(self@, iod_id, id),
                None => forall|k: u64| !#[trigger] connecting(self@, iod_id, k),
            },
    {
        let ghost ids = self.pending.ids();
        proof {
            self.pending.lemma_ids();
        }
        let n: usize = self.pending.len();
        let mut i: usize = 0;
        while i < n
            invariant
                i <= n == ids.len(),
                self.wf(),
                ids == self.pending.ids(),
                increasing(ids),
                forall|k: u64| #[trigger] ids.contains(k) <==> self.pending@.contains_key(k),
                forall|j: int| 0 <= j < i ==> !connecting(self@, iod_id, #[trigger] ids[j]),
            decreases n - i,
        {
            let k: u64 = self.pending.id_at(i);
            let e: &Pending = self.pending.value_at(i);
            assert(self@.events[k] == e@);
            let own: bool = match e.iod {
                Some(x) => x == iod_id,
                None => false,
            };
            if own && !e.cancelled && e.kind == EventType::Connect {
                assert forall|x: u64| #[trigger] connecting(self@, iod_id, x) implies k <= x by {
                    assert(ids.contains(x));
                    let j = choose|j: int| 0 <= j < ids.len() && ids[j] == x;
                    if j < i {
                        assert(!connecting(self@, iod_id, ids[j]));
                    } else if j > i {
                        assert(ids[i as int] < ids[j]);
                    }
                }
                return Some(k);
            }
            i = i + 1;
        }
        assert forall|x: u64| !#[trigger] connecting(self@, iod_id, x) by {
            if connecting(self@, iod_id, x) {
                assert(ids.contains(x));
                let j = choose|j: int| 0 <= j < ids.len() && ids[j] == x;
                assert(!connecting(self@, iod_id, ids[j]));
            }
        }
        None
    }

    /// Take note of one command.
    fn obey(&mut self, cmd: Cmd) -> (r: Option<(EventId, EventStatus)>)
        requires
            old(self).wf(),
        ensures
            final(self).wf(),
            final(self)@ == obeyed(old(self)@, cmd).0,
            r == obeyed(old(self)@, cmd).1,
    {
        let ghost s = self@;
        match cmd {
            Cmd::Quit => {
                self.quit = true;
                assert(self@ =~= obeyed(s, cmd).0);
                None
            },
            Cmd::ConnectResult(iod_id, out) => {
                match self.find_connecting(iod_id) {
                    None => None,
                    Some(id) => {
                        proof {
                            let other = choose|k: u64| oldest_connecting(s, iod_id, k);
                            assert(connecting(s, iod_id, id) && connecting(s, iod_id, other));
                            assert(other == id);
                        }
                        let status: EventStatus = match out {
                            ConnectOutcome::Connected { fd, peer } => {
                                match self.iods.get_mut(iod_id) {
                                    Some(iod) => {
                                        iod.tcp = Some(fd);
                                        iod.kind = IodKind::Tcp;
                                        iod.peer = peer;
                                        iod.connected = true;
                                    },
                                    None => {},
                                }
                                let _ = self.surplus.remove(iod_id);
                                EventStatus::Success
                            },
                            ConnectOutcome::Failed => EventStatus::Error,
                        };
                        assert(self@.surplus =~= connected_surplus(s.surplus, iod_id, out));
                        assert(self.iods@ =~= connected_iods(s.iods, iod_id, out));
                        let _ = self.pending.remove(id);
                        assert(self@.events =~= s.events.remove(id));
                        assert(self@ =~= obeyed(s, cmd).0);
                        assert(self@.valid()) by {
                            assert(s.valid());
                        }
                        Some((id, status))
                    },
                }
            },
        }
    }

    /// Take note of everything handed over since the last time. Returns the
    /// events to report.
    pub fn drain_commands(&mut self) -> (r: Vec<(EventId, EventStatus)>)
        requires
            old(self).wf(),
        ensures
            final(self).wf(),
            final(self)@ == begun(old(self)@).0,
            r@ == begun(old(self)@).1,
    {
        let mut cmds: Vec<Cmd> = Vec::new();
        std::mem::swap(&mut cmds, &mut self.commands);
        let ghost s = PoolState { commands: Seq::empty(), ..old(self)@ };
        assert(self@ =~= s);
        assert(self@.valid()) by {
            assert(old(self)@.valid());
        }
        let mut out: Vec<(EventId, EventStatus)> = Vec::new();
        let mut i: usize = 0;
        assert(cmds@.take(0) =~= Seq::<Cmd>::empty());
        while i < cmds.len()
            invariant
                i <= cmds@.len(),
                self.wf(),
                self@ == obeyed_all(s, cmds@.take(i as int)).0,
                out@ == obeyed_all(s, cmds@.take(i as int)).1,
            decreases cmds@.len() - i,
        {
            assert(cmds@.take(i + 1).drop_last() =~= cmds@.take(i as int));
            let c: Cmd = cmds[i];
            match self.obey(c) {
                Some(x) => {
                    out.push(x);
                },
                None => {},
            }
            i = i + 1;
        }
        assert(cmds@.take(cmds@.len() as int) =~= cmds@);
        out
    }
}

// ---------------------------------------------------------------------------
// Deadlines

/// Whether the deadline of a live event has passed.
pub open spec fn is_due(s: PoolState, id: u64, now: u64) -> bool {
    s.live(id) && s.events[id].deadline is Some && s.events[id].deadline->0 <= now
}

/// A timer that is due has succeeded, anything else has timed out.
pub open spec fn due_status(e: Event) -> EventStatus {
    if e.kind == EventType::Timer {
        EventStatus::Success
    } else {
        EventStatus::Timeout
    }
}

/// The ids of a list of reports.
pub open spec fn report_ids(s: Seq<(u64, EventStatus)>) -> Seq<u64> {
    s.map_values(|r: (u64, EventStatus)| r.0)
}

impl Pool {
    /// The events whose deadline has passed, with what becomes of them.
    pub fn due(&self, now: u64) -> (r: Vec<(EventId, EventStatus)>)
        requires
            self.wf(),
        ensures
            lists(report_ids(r@), |k: u64| is_due(self@, k, now)),
            forall|i: int|
                0 <= i < r@.len() ==> (#[trigger] r@[i]).1 == due_status(self@.events[r@[i].0]),
    {
        let ghost ids = self.pending.ids();
        let ghost p = |k: u64| is_due(self@, k, now);
        let mut out: Vec<(EventId, EventStatus)> = Vec::new();
        proof {
            self.pending.lemma_ids();
            lemma_lists_start(ids, p);
            assert(report_ids(out@) =~= Seq::<u64>::empty());
        }
        let n: usize = self.pending.len();
        let mut i: usize = 0;
        while i < n
            invariant
                i <= n == ids.len(),
                self.wf(),
                ids == self.pending.ids(),
                increasing(ids),
                p == (|k: u64| is_due(self@, k, now)),
                lists_upto(report_ids(out@), ids, i as int, p),
                forall|j: int|
                    0 <= j < out@.len() ==> (#[trigger] out@[j]).1 == due_status(
                        self@.events[out@[j].0],
                    ),
            decreases n - i,
        {
            let k: u64 = self.pending.id_at(i);
            let e: &Pending = self.pending.value_at(i);
            assert(self@.events[k] == e@);
            proof {
                lemma_lists_step(report_ids(out@), ids, i as int, p);
            }
            let passed: bool = match e.deadline {
                Some(d) => now >= d,
                None => false,
            };
            if passed && !e.cancelled {
                let status: EventStatus = if e.kind == EventType::Timer {
                    EventStatus::Success
                } else {
                    EventStatus::Timeout
                };
                let ghost before = out@;
                out.push((k, status));
                assert(report_ids(out@) =~= report_ids(before).push(k));
            }
            i = i + 1;
        }
        proof {
            lemma_lists_end(report_ids(out@), ids, p);
        }
        out
    }

    /// The nearest deadline of a live event.
    fn nearest_deadline(&self) -> (r: Option<u64>)
        requires
            self.wf(),
        ensures
            match r {
                Some(d) => is_nearest(self@, d),
                None => forall|k: u64| #[trigger] self@.live(k) ==> self@.events[k].deadline is None,
            },
    {
        let ghost ids = self.pending.ids();
        proof {
            self.pending.lemma_ids();
        }
        let mut best: Option<u64> = None;
        let n: usize = self.pending.len();
        let mut i: usize = 0;
        while i < n
            invariant
                i <= n == ids.len(),
                self.wf(),
                ids == self.pending.ids(),
                forall|k: u64| #[trigger] ids.contains(k) <==> self.pending@.contains_key(k),
                match best {
                    Some(d) => (exists|k: u64| #[trigger]
                        self@.live(k) && self@.events[k].deadline == Some(d)) && (forall|j: int|
                        0 <= j < i && self@.live(#[trigger] ids[j])
                            && self@.events[ids[j]].deadline is Some ==> d
                            <= self@.events[ids[j]].deadline->0),
                    None => forall|j: int|
                        0 <= j < i && self@.live(#[trigger] ids[j])
                            ==> self@.events[ids[j]].deadline is None,
                },
            decreases n - i,
        {
            let k: u64 = self.pending.id_at(i);
            let e: &Pending = self.pending.value_at(i);
            assert(self@.events[k] == e@);
            if !e.cancelled {
                assert(self@.live(k));
                match e.deadline {
                    Some(d) => {
                        let nearer: bool = match best {
                            Some(b) => d < b,
                            None => true,
                        };
                        if nearer {
                            best = Some(d);
                        }
                    },
                    None => {},
                }
            }
            i = i + 1;
        }
        proof {
            assert forall|k: u64| #[trigger] self@.live(k) implies (match best {
                Some(d) => self@.events[k].deadline is Some ==> d <= self@.events[k].deadline->0,
                None => self@.events[k].deadline is None,
            }) by {
                assert(ids.contains(k));
                let j = choose|j: int| 0 <= j < ids.len() && ids[j] == k;
                assert(self@.live(ids[j]));
            }
        }
        best
    }
}

/// Whether `d` is the nearest deadline of the live events.
pub open spec fn is_nearest(s: PoolState, d: u64) -> bool {
    &&& exists|k: u64| #[trigger] s.live(k) && s.events[k].deadline == Some(d)
    &&& forall|k: u64| #[trigger]
        s.live(k) && s.events[k].deadline is Some ==> d <= s.events[k].deadline->0
}

// ---------------------------------------------------------------------------
// Reading and writing

/// A socket operation to try.
#[derive(Debug)]
pub enum IoRequest {
    /// Receive from a stream.
    ReadTcp(i32),
    /// Receive a datagram.
    ReadUdp(i32),
    /// Send as much as a stream takes.
    WriteTcp(i32, Vec<u8>),
    /// Send a datagram.
    WriteUdp(i32, Vec<u8>),
}

/// A socket operation with its bytes as a sequence.
#[verifier::ext_equal]
pub enum Operation {
    ReadTcp(i32),
    ReadUdp(i32),
    WriteTcp(i32, Seq<u8>),
    WriteUdp(i32, Seq<u8>),
}

impl View for IoRequest {
    type V = Operation;

    open spec fn view(&self) -> Operation {
        match *self {
            IoRequest::ReadTcp(fd) => Operation::ReadTcp(fd),
            IoRequest::ReadUdp(fd) => Operation::ReadUdp(fd),
            IoRequest::WriteTcp(fd, data) => Operation::WriteTcp(fd, data@),
            IoRequest::WriteUdp(fd, data) => Operation::WriteUdp(fd, data@),
        }
    }
}

/// What came of trying to receive. Nothing received from a stream is its end.
#[derive(Debug)]
pub enum ReadOutcome {
    Data(Vec<u8>),
    WouldBlock,
    Failed,
}

/// What came of trying to send: how many bytes were taken, if any.
#[derive(Clone, Copy, Debug, PartialEq, Eq, Structural)]
pub enum WriteOutcome {
    Sent(usize),
    WouldBlock,
    Failed,
}

/// The IOD of an event, if there are both.
pub open spec fn iod_of(s: PoolState, id: u64) -> Option<u64> {
    if s.events.contains_key(id) && s.events[id].iod is Some && s.iods.contains_key(
        s.events[id].iod->0,
    ) {
        s.events[id].iod
    } else {
        None
    }
}

/// The socket of an IOD.
pub open spec fn socket_of(iod: Iod) -> Option<i32> {
    match iod.kind {
        IodKind::Tcp => iod.tcp,
        IodKind::Udp => iod.udp,
    }
}

/// The operation that an event asks for; none where it has no socket, or
/// nothing left to send, or is neither a read nor a write.
pub open spec fn operation(s: PoolState, id: u64) -> Option<Operation> {
    match iod_of(s, id) {
        None => None,
        Some(iod_id) => {
            let e = s.events[id];
            let iod = s.iods[iod_id];
            match (socket_of(iod), e.kind, iod.kind, e.wbuf) {
                (Some(fd), EventType::Read, IodKind::Tcp, _) => Some(Operation::ReadTcp(fd)),
                (Some(fd), EventType::Read, IodKind::Udp, _) => Some(Operation::ReadUdp(fd)),
                (Some(fd), EventType::Write, IodKind::Tcp, Some(data)) => Some(
                    Operation::WriteTcp(fd, data),
                ),
                (Some(fd), EventType::Write, IodKind::Udp, Some(data)) => Some(
                    Operation::WriteUdp(fd, data),
                ),
                _ => None,
            }
        },
    }
}

/// Whether an operation is to be tried for an event in this pass.
pub open spec fn wants_io(s: PoolState, id: u64, now: u64) -> bool {
    s.live(id) && !is_due(s, id, now) && operation(s, id) is Some
}

/// The ids of a list of requests.
pub open spec fn request_ids(s: Seq<(u64, IoRequest)>) -> Seq<u64> {
    s.map_values(|r: (u64, IoRequest)| r.0)
}

/// Whether enough has been read: the wanted number of bytes or, where a line is
/// wanted, its end.
pub open spec fn read_complete(e: Event) -> bool {
    e.buf.len() >= e.target || (e.line_read && e.buf.contains(0x0au8))
}

/// What the stream of an IOD gave and no read has taken yet.
pub open spec fn surplus_of(s: PoolState, iod_id: u64) -> Seq<u8> {
    if s.surplus.contains_key(iod_id) {
        s.surplus[iod_id]
    } else {
        Seq::empty()
    }
}

/// The length of the first line with its end; of all where there is no end.
pub open spec fn line_len(all: Seq<u8>) -> int {
    match all.index_of_first(0x0au8) {
        Some(i) => i + 1,
        None => all.len() as int,
    }
}

/// How many bytes a read event takes of those that there are: where a line is
/// wanted the first one, up to the wanted number of bytes; else all.
pub open spec fn wanted(e: Event, all: Seq<u8>) -> int {
    if !e.line_read {
        all.len() as int
    } else if line_len(all) < e.target {
        line_len(all)
    } else if e.target < all.len() {
        e.target as int
    } else {
        all.len() as int
    }
}

/// The IODs after `n` bytes were received through one of them.
pub open spec fn counted(iods: Map<u64, Iod>, iod_id: u64, n: nat) -> Map<u64, Iod> {
    iods.insert(
        iod_id,
        Iod { read_count: iods[iod_id].read_count.wrapping_add(n as u64), ..iods[iod_id] },
    )
}

/// A pool after a read event received a datagram.
pub open spec fn received(s: PoolState, id: u64, data: Seq<u8>) -> PoolState {
    PoolState {
        events: s.events.insert(id, Event { buf: data, ..s.events[id] }),
        iods: counted(s.iods, s.events[id].iod->0, data.len()),
        ..s
    }
}

/// A pool after a stream gave `data` to a read event. With what it has and what
/// was left for it, the event takes what it wants; the others are left.
pub open spec fn streamed(s: PoolState, id: u64, data: Seq<u8>) -> PoolState {
    let e = s.events[id];
    let iod_id = e.iod->0;
    let all = e.buf + surplus_of(s, iod_id) + data;
    let rest = all.skip(wanted(e, all));
    PoolState {
        events: s.events.insert(id, Event { buf: all.take(wanted(e, all)), ..e }),
        surplus: if rest.len() == 0 {
            s.surplus.remove(iod_id)
        } else {
            s.surplus.insert(iod_id, rest)
        },
        iods: counted(s.iods, iod_id, data.len()),
        ..s
    }
}

/// The bytes that came of trying to receive.
pub open spec fn bytes_in(out: ReadOutcome) -> Seq<u8> {
    match out {
        ReadOutcome::Data(data) => data@,
        _ => Seq::empty(),
    }
}

/// What becomes of a read from a stream that gives nothing.
pub open spec fn without_data(out: ReadOutcome) -> Option<EventStatus> {
    match out {
        ReadOutcome::Data(_) => Some(EventStatus::Eof),
        ReadOutcome::WouldBlock => None,
        ReadOutcome::Failed => Some(EventStatus::Error),
    }
}

/// What the outcome of a read from a stream does. Bytes that are there, from
/// the stream or left from before, are taken first; the end of the stream or a
/// failure decides the event where they are not enough.
pub open spec fn stream_step(s: PoolState, id: u64, out: ReadOutcome) -> (
    PoolState,
    Option<EventStatus>,
) {
    let data = bytes_in(out);
    if data.len() == 0 && surplus_of(s, s.events[id].iod->0).len() == 0 {
        (s, without_data(out))
    } else {
        let t = streamed(s, id, data);
        (
            t,
            if read_complete(t.events[id]) {
                Some(EventStatus::Success)
            } else if data.len() > 0 {
                None
            } else {
                without_data(out)
            },
        )
    }
}

/// What the outcome of a read does: the pool behind it, and the status of the
/// event where that is decided. A stream adds to what was read before, and ends
/// where it gives nothing; a datagram is complete by itself.
pub open spec fn read_step(s: PoolState, id: u64, out: ReadOutcome) -> (
    PoolState,
    Option<EventStatus>,
) {
    match iod_of(s, id) {
        None => (s, None),
        Some(iod_id) => match (socket_of(s.iods[iod_id]), s.iods[iod_id].kind, out) {
            (None, _, _) => (s, None),
            (Some(_), IodKind::Tcp, _) => stream_step(s, id, out),
            (Some(_), IodKind::Udp, ReadOutcome::Data(data)) => (
                received(s, id, data@),
                Some(EventStatus::Success),
            ),
            (Some(_), IodKind::Udp, ReadOutcome::WouldBlock) => (s, None),
            (Some(_), IodKind::Udp, ReadOutcome::Failed) => (s, Some(EventStatus::Error)),
        },
    }
}

/// A pool after a write event sent `n` bytes and has `rest` left to send.
pub open spec fn sent(s: PoolState, id: u64, rest: Seq<u8>, n: nat) -> PoolState {
    let iod_id = s.events[id].iod->0;
    PoolState {
        events: s.events.insert(
            id,
            Event {
                wbuf: if rest.len() == 0 {
                    None
                } else {
                    Some(rest)
                },
                ..s.events[id]
            },
        ),
        iods: s.iods.insert(
            iod_id,
            Iod {
                write_count: s.iods[iod_id].write_count.wrapping_add(n as u64),
                ..s.iods[iod_id]
            },
        ),
        ..s
    }
}

/// What the outcome of a write does: the pool behind it, and the status of the
/// event where that is decided. A stream may take only some of the bytes, and
/// has ended where it takes none; a datagram is sent as a whole.
pub open spec fn write_step(s: PoolState, id: u64, out: WriteOutcome) -> (
    PoolState,
    Option<EventStatus>,
) {
    match iod_of(s, id) {
        None => (s, None),
        Some(iod_id) => {
            let iod = s.iods[iod_id];
            match (s.events[id].wbuf, socket_of(iod), out) {
                (None, _, _) => (s, None),
                (_, None, _) => (s, None),
                (Some(_), Some(_), WriteOutcome::WouldBlock) => (s, None),
                (Some(_), Some(_), WriteOutcome::Failed) => (s, Some(EventStatus::Error)),
                (Some(data), Some(_), WriteOutcome::Sent(n)) => match iod.kind {
                    IodKind::Tcp => if n == 0 {
                        (s, Some(EventStatus::Eof))
                    } else {
                        (
                            sent(s, id, data.skip(n as int), n as nat),
                            if n == data.len() {
                                Some(EventStatus::Success)
                            } else {
                                None
                            },
                        )
                    },
                    IodKind::Udp => (
                        sent(s, id, Seq::empty(), data.len()),
                        Some(EventStatus::Success),
                    ),
                },
            }
        },
    }
}

/// Whether a byte is in a buffer.
fn has_byte(v: &Vec<u8>, b: u8) -> (r: bool)
    ensures
        r == v@.contains(b),
{
    let mut i: usize = 0;
    while i < v.len()
        invariant
            i <= v@.len(),
            forall|j: int| 0 <= j < i ==> v@[j] != b,
        decreases v@.len() - i,
    {
        if v[i] == b {
            return true;
        }
        i = i + 1;
    }
    false
}

/// The length of the first line with its end; of all where there is no end.
fn first_line(v: &Vec<u8>) -> (r: usize)
    ensures
        r == line_len(v@),
        r <= v@.len(),
{
    proof {
        v@.index_of_first_ensures(0x0au8);
    }
    let mut i: usize = 0;
    while i < v.len()
        invariant
            i <= v@.len(),
            forall|j: int| 0 <= j < i ==> v@[j] != 0x0au8,
            match v@.index_of_first(0x0au8) {
                Some(k) => 0 <= k < v@.len() && v@[k] == 0x0au8 && forall|j: int|
                    0 <= j < k ==> v@[j] != 0x0au8,
                None => !v@.contains(0x0au8),
            },
        decreases v@.len() - i,
    {
        if v[i] == 0x0a {
            assert(v@.contains(v@[i as int]));
            return i + 1;
        }
        i = i + 1;
    }
    i
}

impl Pool {
    /// The operation that an event asks for.
    fn request(&self, id: EventId) -> (r: Option<IoRequest>)
        requires
            self.wf(),
        ensures
            operation(self@, id) == (match r {
                Some(q) => Some(q@),
                None => None,
            }),
    {
        let e: &Pending = match self.pending.get(id) {
            Some(e) => e,
            None => {
                return None;
            },
        };
        assert(self@.events[id] == e@);
        let iod_id: u64 = match e.iod {
            Some(x) => x,
            None => {
                return None;
            },
        };
        let iod: &Iod = match self.iods.get(iod_id) {
            Some(iod) => iod,
            None => {
                return None;
            },
        };
        let fd: i32 = match iod.kind {
            IodKind::Tcp => match iod.tcp {
                Some(fd) => fd,
                None => {
                    return None;
                },
            },
            IodKind::Udp => match iod.udp {
                Some(fd) => fd,
                None => {
                    return None;
                },
            },
        };
        match e.kind {
            EventType::Read => match iod.kind {
                IodKind::Tcp => Some(IoRequest::ReadTcp(fd)),
                IodKind::Udp => Some(IoRequest::ReadUdp(fd)),
            },
            EventType::Write => match &e.wbuf {
                Some(w) => {
                    let data: Vec<u8> = byte_range(w.as_slice(), 0, w.len());
                    assert(data@ =~= w@);
                    match iod.kind {
                        IodKind::Tcp => Some(IoRequest::WriteTcp(fd, data)),
                        IodKind::Udp => Some(IoRequest::WriteUdp(fd, data)),
                    }
                },
                None => None,
            },
            _ => None,
        }
    }

    /// The operations to try in this pass: those of live events that are not
    /// due.
    pub fn requests(&self, now: u64) -> (r: Vec<(EventId, IoRequest)>)
        requires
            self.wf(),
        ensures
            lists(request_ids(r@), |k: u64| wants_io(self@, k, now)),
            forall|i: int|
                0 <= i < r@.len() ==> operation(self@, (#[trigger] r@[i]).0) == Some(r@[i].1@),
    {
        let ghost ids = self.pending.ids();
        let ghost p = |k: u64| wants_io(self@, k, now);
        let mut out: Vec<(EventId, IoRequest)> = Vec::new();
        proof {
            self.pending.lemma_ids();
            lemma_lists_start(ids, p);
            assert(request_ids(out@) =~= Seq::<u64>::empty());
        }
        let n: usize = self.pending.len();
        let mut i: usize = 0;
        while i < n
            invariant
                i <= n == ids.len(),
                self.wf(),
                ids == self.pending.ids(),
                increasing(ids),
                p == (|k: u64| wants_io(self@, k, now)),
                lists_upto(request_ids(out@), ids, i as int, p),
                forall|j: int|
                    0 <= j < out@.len() ==> operation(self@, (#[trigger] out@[j]).0) == Some(
                        out@[j].1@,
                    ),
            decreases n - i,
        {
            let k: u64 = self.pending.id_at(i);
            let e: &Pending = self.pending.value_at(i);
            assert(self@.events[k] == e@);
            proof {
                lemma_lists_step(request_ids(out@), ids, i as int, p);
            }
            let passed: bool = match e.deadline {
                Some(d) => now >= d,
                None => false,
            };
            if !e.cancelled && !passed {
                match self.request(k) {
                    Some(q) => {
                        let ghost before = out@;
                        out.push((k, q));
                        assert(request_ids(out@) =~= request_ids(before).push(k));
                    },
                    None => {},
                }
            }
            i = i + 1;
        }
        proof {
            lemma_lists_end(request_ids(out@), ids, p);
        }
        out
    }

    /// Take in the outcome of a read. Returns what becomes of the event, where
    /// that is decided.
    pub fn try_read(&mut self, id: EventId, outcome: ReadOutcome) -> (r: Option<EventStatus>)
        requires
            old(self).wf(),
        ensures
            final(self).wf(),
            final(self)@ == read_step(old(self)@, id, outcome).0,
            r == read_step(old(self)@, id, outcome).1,
    {
        let ghost s = self@;
        let iod_id: u64 = match self.pending.get(id) {
            Some(e) => {
                assert(s.events[id] == e@);
                match e.iod {
                    Some(x) => x,
                    None => {
                        return None;
                    },
                }
            },
            None => {
                return None;
            },
        };
        let kind: IodKind = match self.iods.get(iod_id) {
            Some(iod) => {
                let missing: bool = match iod.kind {
                    IodKind::Tcp => iod.tcp.is_none(),
                    IodKind::Udp => iod.udp.is_none(),
                };
                if missing {
                    return None;
                }
                iod.kind
            },
            None => {
                return None;
            },
        };
        if kind == IodKind::Udp {
            return match outcome {
                ReadOutcome::WouldBlock => None,
                ReadOutcome::Failed => Some(EventStatus::Error),
                ReadOutcome::Data(data) => {
                    self.take_datagram(id, iod_id, data);
                    Some(EventStatus::Success)
                },
            };
        }
        let (data, without): (Vec<u8>, Option<EventStatus>) = match outcome {
            ReadOutcome::WouldBlock => (Vec::new(), None),
            ReadOutcome::Failed => (Vec::new(), Some(EventStatus::Error)),
            ReadOutcome::Data(data) => (data, Some(EventStatus::Eof)),
        };
        assert(data@ =~= bytes_in(outcome));
        let n: usize = data.len();
        let left: bool = match self.surplus.get(iod_id) {
            Some(v) => {
                assert(s.surplus[iod_id] == v@);
                v.len() > 0
            },
            None => false,
        };
        if n == 0 && !left {
            return without;
        }
        if self.take_bytes(id, iod_id, data) {
            Some(EventStatus::Success)
        } else if n > 0 {
            None
        } else {
            without
        }
    }

    /// Count bytes that were received through an IOD.
    fn count_read(&mut self, iod_id: u64, n: usize)
        requires
            old(self).wf(),
            old(self)@.iods.contains_key(iod_id),
        ensures
            final(self).wf(),
            final(self)@ == (PoolState {
                iods: counted(old(self)@.iods, iod_id, n as nat),
                ..old(self)@
            }),
    {
        let ghost s = self@;
        match self.iods.get_mut(iod_id) {
            Some(iod) => {
                iod.read_count = iod.read_count.wrapping_add(n as u64);
            },
            None => {},
        }
        assert(self@.iods =~= counted(s.iods, iod_id, n as nat));
        assert(self@.valid()) by {
            assert(s.valid());
        }
    }

    /// Give a datagram to a read event.
    fn take_datagram(&mut self, id: EventId, iod_id: u64, data: Vec<u8>)
        requires
            old(self).wf(),
            iod_of(old(self)@, id) == Some(iod_id),
        ensures
            final(self).wf(),
            final(self)@ == received(old(self)@, id, data@),
    {
        let ghost s = self@;
        let ghost bytes = data@;
        self.count_read(iod_id, data.len());
        match self.pending.get_mut(id) {
            Some(e) => {
                e.buf = data;
            },
            None => {},
        }
        proof {
            let t = received(s, id, bytes);
            assert(self@.events =~= t.events);
            assert(self@ =~= t);
            assert(self@.valid()) by {
                assert(s.valid());
                assert(s.events.contains_key(id));
            }
        }
    }

    /// Give bytes of a stream to a read event, behind those that were left for
    /// it. Returns whether they are enough.
    fn take_bytes(&mut self, id: EventId, iod_id: u64, data: Vec<u8>) -> (r: bool)
        requires
            old(self).wf(),
            iod_of(old(self)@, id) == Some(iod_id),
        ensures
            final(self).wf(),
            final(self)@ == streamed(old(self)@, id, data@),
            r == read_complete(final(self)@.events[id]),
    {
        let ghost s = self@;
        let ghost e0 = s.events[id];
        let ghost all = e0.buf + surplus_of(s, iod_id) + data@;
        self.count_read(iod_id, data.len());
        let left: Vec<u8> = match self.surplus.remove(iod_id) {
            Some(v) => v,
            None => Vec::new(),
        };
        assert(left@ =~= surplus_of(s, iod_id));
        assert(bufs_of(self.surplus@) =~= s.surplus.remove(iod_id));
        let mut rest: Vec<u8> = Vec::new();
        let mut complete: bool = false;
        match self.pending.get_mut(id) {
            Some(e) => {
                assert(e@ == e0);
                push_bytes(&mut e.buf, left.as_slice());
                push_bytes(&mut e.buf, data.as_slice());
                assert(e.buf@ =~= all);
                let have: usize = e.buf.len();
                let mut n: usize = have;
                if e.line_read {
                    let line: usize = first_line(&e.buf);
                    if line < e.target {
                        n = line;
                    } else if e.target < have {
                        n = e.target;
                    }
                }
                assert(n == wanted(e0, all));
                rest = byte_range(e.buf.as_slice(), n, have);
                assert(rest@ =~= all.skip(n as int));
                e.buf.truncate(n);
                assert(e.buf@ =~= all.take(n as int));
                complete = e.buf.len() >= e.target || (e.line_read && has_byte(&e.buf, 0x0a));
            },
            None => {},
        }
        if rest.len() > 0 {
            self.surplus.insert(iod_id, rest);
        }
        proof {
            let t = streamed(s, id, data@);
            assert(self@.events =~= t.events);
            assert(self@.surplus =~= t.surplus);
            assert(self@ =~= t);
            assert(self@.valid()) by {
                assert(s.valid());
                assert(s.events.contains_key(id) && s.iods.contains_key(iod_id));
            }
        }
        complete
    }

    /// Take in the outcome of a write. Returns what becomes of the event, where
    /// that is decided. No more can have been sent than there was to send.
    pub fn try_write(&mut self, id: EventId, outcome: WriteOutcome) -> (r: Option<EventStatus>)
        requires
            old(self).wf(),
            outcome matches WriteOutcome::Sent(n) ==> old(self)@.events.contains_key(id) && old(
                self,
            )@.events[id].wbuf is Some ==> n <= old(self)@.events[id].wbuf->0.len(),
        ensures
            final(self).wf(),
            final(self)@ == write_step(old(self)@, id, outcome).0,
            r == write_step(old(self)@, id, outcome).1,
    {
        let ghost s = self@;
        let iod_id: u64 = match self.pending.get(id) {
            Some(e) => {
                assert(s.events[id] == e@);
                if e.wbuf.is_none() {
                    return None;
                }
                match e.iod {
                    Some(x) => x,
                    None => {
                        return None;
                    },
                }
            },
            None => {
                return None;
            },
        };
        let kind: IodKind = match self.iods.get(iod_id) {
            Some(iod) => {
                let missing: bool = match iod.kind {
                    IodKind::Tcp => iod.tcp.is_none(),
                    IodKind::Udp => iod.udp.is_none(),
                };
                if missing {
                    return None;
                }
                iod.kind
            },
            None => {
                return None;
            },
        };
        let taken: usize = match outcome {
            WriteOutcome::WouldBlock => {
                return None;
            },
            WriteOutcome::Failed => {
                return Some(EventStatus::Error);
            },
            WriteOutcome::Sent(n) => n,
        };
        if kind == IodKind::Tcp && taken == 0 {
            return Some(EventStatus::Eof);
        }
        let ghost data = s.events[id].wbuf->0;
        let mut n: usize = 0;
        let mut done: bool = false;
        match self.pending.get_mut(id) {
            Some(e) => {
                let mut left: Option<Vec<u8>> = None;
                match &e.wbuf {
                    Some(w) => {
                        assert(w@ == data);
                        n = if kind == IodKind::Tcp {
                            taken
                        } else {
                            w.len()
                        };
                        done = n == w.len();
                        if !done {
                            let rest: Vec<u8> = byte_range(w.as_slice(), n, w.len());
                            assert(rest@ =~= data.skip(n as int));
                            left = Some(rest);
                        }
                    },
                    None => {},
                }
                e.wbuf = left;
            },
            None => {},
        }
        match self.iods.get_mut(iod_id) {
            Some(iod) => {
                iod.write_count = iod.write_count.wrapping_add(n as u64);
            },
            None => {},
        }
        proof {
            let rest = if kind == IodKind::Tcp {
                data.skip(n as int)
            } else {
                Seq::empty()
            };
            let t = sent(s, id, rest, n as nat);
            assert(self@.events =~= t.events);
            assert(self@.iods =~= t.iods);
            assert(self@ =~= t);
            assert(self@.valid()) by {
                assert(s.valid());
                assert(s.events.contains_key(id) && s.iods.contains_key(iod_id));
            }
        }
        if done {
            Some(EventStatus::Success)
        } else {
            None
        }
    }
}

// ---------------------------------------------------------------------------
// Reporting

/// A pool behind the report of an event. What the event read is kept.
pub open spec fn delivered(s: PoolState, id: u64) -> PoolState {
    if s.live(id) {
        PoolState {
            events: s.events.remove(id),
            read_bufs: if s.events[id].kind == EventType::Read {
                s.read_bufs.insert(id, s.events[id].buf)
            } else {
                s.read_bufs
            },
            ..s
        }
    } else {
        s
    }
}

/// A pool behind several reports, and those of them that are made: of events
/// that were live when their turn came.
pub open spec fn delivered_all(s: PoolState, list: Seq<(u64, EventStatus)>) -> (
    PoolState,
    Seq<(u64, EventStatus)>,
)
    decreases list.len(),
{
    if list.len() == 0 {
        (s, Seq::empty())
    } else {
        let (t, made) = delivered_all(s, list.drop_last());
        let r = list.last();
        (
            delivered(t, r.0),
            if t.live(r.0) {
                made.push(r)
            } else {
                made
            },
        )
    }
}

/// What to do at the end of a pass.
#[derive(Clone, Copy, Debug, PartialEq, Eq, Structural)]
pub enum PassEnd {
    /// The loop is over.
    Return(LoopStatus),
    /// Sleep for so many nanoseconds, then go on.
    Sleep(u64),
}

impl Pool {
    /// Report an event. Returns whether its handler is to be called; an event
    /// that was reported or cancelled is left alone.
    pub fn deliver(&mut self, id: EventId) -> (r: bool)
        requires
            old(self).wf(),
        ensures
            final(self).wf(),
            final(self)@ == delivered(old(self)@, id),
            r == old(self)@.live(id),
    {
        let ghost s = self@;
        match self.pending.get(id) {
            None => {
                return false;
            },
            Some(e) => {
                assert(s.events[id] == e@);
                if e.cancelled {
                    return false;
                }
            },
        }
        match self.pending.remove(id) {
            Some(e) => {
                assert(s.events[id] == e@);
                if e.kind == EventType::Read {
                    self.read_bufs.insert(id, e.buf);
                }
            },
            None => {},
        }
        proof {
            let t = delivered(s, id);
            assert(self@.events =~= t.events);
            assert(self@.read_bufs =~= t.read_bufs);
            assert(self@ =~= t);
            assert(self@.valid()) by {
                assert(s.valid());
                assert(s.events.contains_key(id));
            }
        }
        true
    }

    /// Report several events. Returns those whose handlers are to be called.
    pub fn deliver_all(&mut self, list: &Vec<(EventId, EventStatus)>) -> (r: Vec<
        (EventId, EventStatus),
    >)
        requires
            old(self).wf(),
        ensures
            final(self).wf(),
            final(self)@ == delivered_all(old(self)@, list@).0,
            r@ == delivered_all(old(self)@, list@).1,
    {
        let ghost s = self@;
        let mut out: Vec<(EventId, EventStatus)> = Vec::new();
        let mut i: usize = 0;
        assert(list@.take(0) =~= Seq::<(u64, EventStatus)>::empty());
        while i < list.len()
            invariant
                i <= list@.len(),
                self.wf(),
                self@ == delivered_all(s, list@.take(i as int)).0,
                out@ == delivered_all(s, list@.take(i as int)).1,
            decreases list@.len() - i,
        {
            assert(list@.take(i + 1).drop_last() =~= list@.take(i as int));
            let item: (EventId, EventStatus) = list[i];
            if self.deliver(item.0) {
                out.push(item);
            }
            i = i + 1;
        }
        assert(list@.take(list@.len() as int) =~= list@);
        out
    }

    /// Decide what follows a pass: the loop is over where no events wait, where
    /// it was asked to stop, or where `limit` has elapsed since it began; else
    /// it sleeps until the nearest deadline, and no longer than [`NAP`].
    pub fn end_pass(&mut self, elapsed: u64, limit: Option<u64>, now: u64) -> (r: PassEnd)
        requires
            old(self).wf(),
        ensures
            final(self).wf(),
            ends_pass(old(self)@, elapsed, limit, now, r),
            final(self)@ == (if r == PassEnd::Return(LoopStatus::Quit) {
                PoolState { quit: false, ..old(self)@ }
            } else {
                old(self)@
            }),
    {
        if !self.has_pending() {
            return PassEnd::Return(LoopStatus::NoEvents);
        }
        if self.quit {
            self.quit = false;
            return PassEnd::Return(LoopStatus::Quit);
        }
        match limit {
            Some(m) => {
                if elapsed >= m {
                    return PassEnd::Return(LoopStatus::Timeout);
                }
            },
            None => {},
        }
        let nap: u64 = match self.nearest_deadline() {
            Some(d) => {
                let left: u64 = if d > now {
                    d - now
                } else {
                    0
                };
                if left < NAP {
                    left
                } else {
                    NAP
                }
            },
            None => NAP,
        };
        PassEnd::Sleep(nap)
    }
}

/// What came of a socket operation.
#[derive(Debug)]
pub enum IoOutcome {
    Read(ReadOutcome),
    Write(WriteOutcome),
}

/// What an outcome does.
pub open spec fn outcome_step(s: PoolState, id: u64, out: IoOutcome) -> (
    PoolState,
    Option<EventStatus>,
) {
    match out {
        IoOutcome::Read(r) => read_step(s, id, r),
        IoOutcome::Write(w) => write_step(s, id, w),
    }
}

/// What several outcomes do, one after the other: the pool behind them, and
/// the events that they decide.
pub open spec fn outcome_steps(s: PoolState, outs: Seq<(u64, IoOutcome)>) -> (
    PoolState,
    Seq<(u64, EventStatus)>,
)
    decreases outs.len(),
{
    if outs.len() == 0 {
        (s, Seq::empty())
    } else {
        let (t, decided) = outcome_steps(s, outs.drop_last());
        let (id, out) = outs.last();
        let (u, status) = outcome_step(t, id, out);
        (
            u,
            match status {
                Some(st) => decided.push((id, st)),
                None => decided,
            },
        )
    }
}

/// The ids of a list of outcomes.
pub open spec fn outcome_ids(s: Seq<(u64, IoOutcome)>) -> Seq<u64> {
    s.map_values(|o: (u64, IoOutcome)| o.0)
}

/// Whether outcomes are possible: one for each event, and no more sent than
/// there was to send.
pub open spec fn possible(s: PoolState, outs: Seq<(u64, IoOutcome)>) -> bool {
    &&& outcome_ids(outs).no_duplicates()
    &&& forall|i: int|
        #![trigger outs[i]]
        0 <= i < outs.len() && s.events.contains_key(outs[i].0) && s.events[outs[i].0].wbuf is Some
            ==> (outs[i].1 matches IoOutcome::Write(WriteOutcome::Sent(n)) ==> n
            <= s.events[outs[i].0].wbuf->0.len())
}

/// The outcomes for other events leave an event as it was.
proof fn lemma_others_untouched(s: PoolState, outs: Seq<(u64, IoOutcome)>, id: u64)
    requires
        !outcome_ids(outs).contains(id),
    ensures
        outcome_steps(s, outs).0.events.contains_key(id) == s.events.contains_key(id),
        s.events.contains_key(id) ==> outcome_steps(s, outs).0.events[id] == s.events[id],
    decreases outs.len(),
{
    if outs.len() > 0 {
        let before = outs.drop_last();
        let ids = outcome_ids(outs);
        assert(!outcome_ids(before).contains(id)) by {
            if outcome_ids(before).contains(id) {
                let i = choose|i: int|
                    0 <= i < outcome_ids(before).len() && outcome_ids(before)[i] == id;
                assert(ids[i] == id);
            }
        }
        assert(ids[outs.len() - 1] == outs.last().0);
        lemma_others_untouched(s, before, id);
    }
}

/// What taking note of the commands does: the pool behind it, and the events to
/// report.
pub open spec fn begun(s: PoolState) -> (PoolState, Seq<(u64, EventStatus)>) {
    obeyed_all(PoolState { commands: Seq::empty(), ..s }, s.commands)
}

/// Whether a list holds the events that are due, with what becomes of them.
pub open spec fn is_due_list(s: PoolState, due: Seq<(u64, EventStatus)>, now: u64) -> bool {
    &&& lists(report_ids(due), |k: u64| is_due(s, k, now))
    &&& forall|i: int|
        0 <= i < due.len() ==> (#[trigger] due[i]).1 == due_status(s.events[due[i].0])
}

/// What finishing a pass does: the pool behind it, and the events to report.
pub open spec fn finished(
    s: PoolState,
    due: Seq<(u64, EventStatus)>,
    outs: Seq<(u64, IoOutcome)>,
) -> (PoolState, Seq<(u64, EventStatus)>) {
    let (t, decided) = outcome_steps(s, outs);
    delivered_all(t, due + decided)
}

/// What the caller is to do in a pass.
#[derive(Debug)]
pub struct Pass {
    /// The events that are due.
    pub due: Vec<(EventId, EventStatus)>,
    /// The operations to try.
    pub requests: Vec<(EventId, IoRequest)>,
}

impl Pool {
    /// Start a pass: find out what is due and which operations are to be tried.
    pub fn begin_pass(&self, now: u64) -> (r: Pass)
        requires
            self.wf(),
        ensures
            is_due_list(self@, r.due@, now),
            lists(request_ids(r.requests@), |k: u64| wants_io(self@, k, now)),
            forall|i: int|
                0 <= i < r.requests@.len() ==> operation(self@, (#[trigger] r.requests@[i]).0)
                    == Some(r.requests@[i].1@),
    {
        let due: Vec<(EventId, EventStatus)> = self.due(now);
        let requests: Vec<(EventId, IoRequest)> = self.requests(now);
        Pass { due, requests }
    }

    /// Finish a pass: take in what came of the operations, and report what they
    /// decided behind what was due.
    pub fn finish_pass(
        &mut self,
        due: Vec<(EventId, EventStatus)>,
        outcomes: Vec<(EventId, IoOutcome)>,
    ) -> (r: Vec<(EventId, EventStatus)>)
        requires
            old(self).wf(),
            possible(old(self)@, outcomes@),
        ensures
            final(self).wf(),
            final(self)@ == finished(old(self)@, due@, outcomes@).0,
            r@ == finished(old(self)@, due@, outcomes@).1,
    {
        let ghost s0 = self@;
        let ghost all = outcomes@;
        let mut outcomes: Vec<(EventId, IoOutcome)> = outcomes;
        let mut list: Vec<(EventId, EventStatus)> = due;
        assert(all.take(0) =~= Seq::<(u64, IoOutcome)>::empty());
        assert(list@ =~= due@ + outcome_steps(s0, all.take(0)).1);
        while outcomes.len() > 0
            invariant
                self.wf(),
                possible(s0, all),
                outcomes@.len() <= all.len(),
                outcomes@ == all.skip(all.len() - outcomes@.len()),
                self@ == outcome_steps(s0, all.take(all.len() - outcomes@.len())).0,
                list@ == due@ + outcome_steps(s0, all.take(all.len() - outcomes@.len())).1,
            decreases outcomes@.len(),
        {
            let ghost done = all.len() - outcomes@.len();
            let ghost before = all.take(done);
            let (id, out): (EventId, IoOutcome) = outcomes.remove(0);
            proof {
                assert((id, out) == all[done]);
                assert(outcomes@ =~= all.skip(done + 1));
                assert(all.take(done + 1).drop_last() =~= before);
                assert(!outcome_ids(before).contains(id)) by {
                    if outcome_ids(before).contains(id) {
                        let i = choose|i: int|
                            0 <= i < outcome_ids(before).len() && outcome_ids(before)[i] == id;
                        assert(outcome_ids(all)[i] == id);
                        assert(outcome_ids(all)[done] == id);
                    }
                }
                lemma_others_untouched(s0, before, id);
            }
            let status: Option<EventStatus> = match out {
                IoOutcome::Read(o) => self.try_read(id, o),
                IoOutcome::Write(o) => self.try_write(id, o),
            };
            match status {
                Some(st) => {
                    list.push((id, st));
                },
                None => {},
            }
            assert(list@ =~= due@ + outcome_steps(s0, all.take(done + 1)).1);
        }
        assert(all.take(all.len() as int) =~= all);
        self.deliver_all(&list)
    }
}

/// How long a run may take, in nanoseconds; a negative timeout is none.
pub open spec fn limit_of(msec_timeout: i32) -> Option<u64> {
    if msec_timeout < 0 {
        None
    } else {
        Some((msec_timeout * 1_000_000) as u64)
    }
}

/// The limit of a run, for [`Pool::end_pass`].
pub fn run_limit(msec_timeout: i32) -> (r: Option<u64>)
    ensures
        r == limit_of(msec_timeout),
{
    if msec_timeout < 0 {
        None
    } else {
        Some(msec_timeout as u64 * MS)
    }
}

/// Whether `end` is what follows a pass.
pub open spec fn ends_pass(
    s: PoolState,
    elapsed: u64,
    limit: Option<u64>,
    now: u64,
    end: PassEnd,
) -> bool {
    if !(exists|k: u64| s.live(k)) {
        end == PassEnd::Return(LoopStatus::NoEvents)
    } else if s.quit {
        end == PassEnd::Return(LoopStatus::Quit)
    } else if limit is Some && elapsed >= limit->0 {
        end == PassEnd::Return(LoopStatus::Timeout)
    } else {
        end matches PassEnd::Sleep(nap) && nap <= NAP && (forall|d: u64| #[trigger]
            is_nearest(s, d) ==> nap == (if d <= now {
                0int
            } else if d - now < NAP {
                d - now
            } else {
                NAP as int
            })) && ((forall|k: u64| #[trigger] s.live(k) ==> s.events[k].deadline is None) ==> nap
            == NAP)
    }
}

// ---------------------------------------------------------------------------
// Connection attempts

/// What to do next in a connection attempt.
#[derive(Clone, Copy, Debug, PartialEq, Eq, Structural)]
pub enum ConnectStep {
    /// Try to connect, for at most so many nanoseconds. Where that fails, wait
    /// [`BACKOFF`] and ask again.
    Try(u64),
    /// The time is up.
    GiveUp,
}

/// How long to wait between two tries to connect: ten milliseconds.
pub const BACKOFF: u64 = 10_000_000;

/// Bound a connection attempt by its deadline: try again while there is time
/// left.
pub fn connect_bounded(now: u64, deadline: u64) -> (r: ConnectStep)
    ensures
        r == (if now < deadline {
            ConnectStep::Try((deadline - now) as u64)
        } else {
            ConnectStep::GiveUp
        }),
{
    if now < deadline {
        ConnectStep::Try(deadline - now)
    } else {
        ConnectStep::GiveUp
    }
}

// ---------------------------------------------------------------------------
// Runs

/// One pass of a run: what [`Pool::drain_commands`], [`Pool::begin_pass`],
/// [`Pool::finish_pass`] and [`Pool::end_pass`] were given and gave.
pub struct Turn {
    /// The commands that came in since the pass before.
    pub posted: Seq<Cmd>,
    /// The time at which the pass began, behind the commands.
    pub now: u64,
    /// The events that were due.
    pub due: Seq<(u64, EventStatus)>,
    /// The outcomes of the operations that were tried.
    pub outs: Seq<(u64, IoOutcome)>,
    /// How long the run had taken behind the reports of the pass.
    pub elapsed: u64,
    /// The time at which the pass ended.
    pub later: u64,
    /// The events that were reported, in their order.
    pub reports: Seq<(u64, EventStatus)>,
    /// What followed.
    pub end: PassEnd,
    /// The pool behind the pass.
    pub after: PoolState,
}

/// A pool that was handed more commands.
pub open spec fn with_posted(s: PoolState, posted: Seq<Cmd>) -> PoolState {
    PoolState { commands: s.commands + posted, ..s }
}

/// Whether a pass goes like this: the commands are taken note of, the pass
/// begins with the due events, operations are tried for events that asked for
/// one, the pass is finished with both, and what follows is decided.
pub open spec fn is_turn(s: PoolState, limit: Option<u64>, turn: Turn) -> bool {
    let (b, reported) = begun(with_posted(s, turn.posted));
    let (t, made) = finished(b, turn.due, turn.outs);
    &&& is_due_list(b, turn.due, turn.now)
    &&& possible(b, turn.outs)
    &&& forall|i: int|
        0 <= i < turn.outs.len() ==> wants_io(b, (#[trigger] turn.outs[i]).0, turn.now)
    &&& turn.reports == reported + made
    &&& ends_pass(t, turn.elapsed, limit, turn.later, turn.end)
    &&& turn.after == (if turn.end == PassEnd::Return(LoopStatus::Quit) {
        PoolState { quit: false, ..t }
    } else {
        t
    })
}

/// The pool before the pass `i` of a run that began with `s`.
pub open spec fn before_turn(s: PoolState, turns: Seq<Turn>, i: int) -> PoolState {
    if i == 0 {
        PoolState { quit: false, ..s }
    } else {
        turns[i - 1].after
    }
}

/// Whether a run goes through these passes.
pub open spec fn goes_through(s: PoolState, limit: Option<u64>, turns: Seq<Turn>) -> bool {
    forall|i: int|
        0 <= i < turns.len() ==> is_turn(before_turn(s, turns, i), limit, #[trigger] turns[i])
}

/// Whether a run that began with `s` goes through these passes and ends with
/// this status: each pass but the last is followed by a nap.
pub open spec fn is_run(
    s: PoolState,
    msec_timeout: i32,
    turns: Seq<Turn>,
    status: LoopStatus,
) -> bool {
    &&& turns.len() > 0
    &&& goes_through(s, limit_of(msec_timeout), turns)
    &&& forall|i: int| 0 <= i < turns.len() - 1 ==> (#[trigger] turns[i]).end is Sleep
    &&& turns.last().end == PassEnd::Return(status)
}

/// All reports of several passes.
pub open spec fn all_reports(turns: Seq<Turn>) -> Seq<(u64, EventStatus)>
    decreases turns.len(),
{
    if turns.len() == 0 {
        Seq::empty()
    } else {
        all_reports(turns.drop_last()) + turns.last().reports
    }
}

/// Whether a report at a time is right for an event. A timer succeeds, and not
/// before its deadline; only an event that is no timer times out, and not
/// before its deadline.
pub open spec fn rightly_reported(e: Event, status: EventStatus, now: u64) -> bool {
    &&& e.kind == EventType::Timer ==> status == EventStatus::Success && e.deadline is Some
        && e.deadline->0 <= now
    &&& status == EventStatus::Timeout ==> e.kind != EventType::Timer && e.deadline is Some
        && e.deadline->0 <= now
}

/// Whether what must stay of an event is as it was.
spec fn same_event(a: Event, b: Event) -> bool {
    a.kind == b.kind && a.deadline == b.deadline && a.iod == b.iod
}

/// Ids of two lists of reports, one behind the other.
proof fn lemma_joined_ids(a: Seq<(u64, EventStatus)>, b: Seq<(u64, EventStatus)>, id: u64)
    ensures
        report_ids(a + b) == report_ids(a) + report_ids(b),
        report_ids(a + b).contains(id) <==> report_ids(a).contains(id) || report_ids(b).contains(id),
{
    let x = report_ids(a);
    let y = report_ids(b);
    assert(report_ids(a + b) =~= x + y);
    if x.contains(id) {
        let i = choose|i: int| 0 <= i < x.len() && x[i] == id;
        assert((x + y)[i] == id);
    }
    if y.contains(id) {
        let i = choose|i: int| 0 <= i < y.len() && y[i] == id;
        assert((x + y)[x.len() + i] == id);
    }
    if (x + y).contains(id) {
        let i = choose|i: int| 0 <= i < (x + y).len() && (x + y)[i] == id;
        if i < x.len() {
            assert(x[i] == id);
        } else {
            assert(y[i - x.len()] == id);
        }
    }
}

/// Lists of reports without a common id, and none twice in either, have none
/// twice together.
proof fn lemma_joined_once(a: Seq<(u64, EventStatus)>, b: Seq<(u64, EventStatus)>)
    requires
        report_ids(a).no_duplicates(),
        report_ids(b).no_duplicates(),
        forall|id: u64| #[trigger] report_ids(a).contains(id) ==> !report_ids(b).contains(id),
    ensures
        report_ids(a + b).no_duplicates(),
{
    let x = report_ids(a);
    let y = report_ids(b);
    let z = report_ids(a + b);
    assert(z =~= x + y);
    assert forall|i: int, j: int| 0 <= i < j < z.len() implies z[i] != z[j] by {
        if j < x.len() {
            assert(x[i] != x[j]);
        } else if i < x.len() {
            assert(x.contains(x[i]));
            if x[i] == y[j - x.len()] {
                assert(y.contains(y[j - x.len()]));
            }
        } else {
            assert(y[i - x.len()] != y[j - x.len()]);
        }
    }
}

/// Of what commands report: events that waited for a connection, each once,
/// and gone behind it. All others stay.
proof fn lemma_commands(s: PoolState, cmds: Seq<Cmd>, id: u64)
    ensures
        ({
            let (t, reported) = obeyed_all(s, cmds);
            let ids = report_ids(reported);
            &&& t.live(id) <==> s.live(id) && !ids.contains(id)
            &&& t.live(id) ==> t.events[id] == s.events[id]
            &&& ids.contains(id) ==> s.live(id) && s.events[id].kind == EventType::Connect
            &&& ids.no_duplicates()
            &&& t.commands == s.commands
            &&& forall|i: int|
                0 <= i < reported.len() ==> (#[trigger] reported[i]).1 != EventStatus::Timeout
        }),
    decreases cmds.len(),
{
    let (t, reported) = obeyed_all(s, cmds);
    if cmds.len() == 0 {
        assert(report_ids(reported) =~= Seq::<u64>::empty());
    } else {
        let before = cmds.drop_last();
        let (u, earlier) = obeyed_all(s, before);
        let (v, last) = obeyed(u, cmds.last());
        lemma_commands(s, before, id);
        match last {
            None => {},
            Some(r) => {
                lemma_commands(s, before, r.0);
                match cmds.last() {
                    Cmd::ConnectResult(iod_id, out) => {
                        assert(oldest_connecting(u, iod_id, r.0));
                        assert(connecting(u, iod_id, r.0));
                    },
                    Cmd::Quit => {},
                }
                let one = seq![r];
                assert(reported =~= earlier + one);
                assert(report_ids(one) =~= seq![r.0]);
                assert(seq![r.0].contains(id) <==> id == r.0) by {
                    assert(seq![r.0][0] == r.0);
                }
                lemma_joined_ids(earlier, one, id);
                lemma_joined_once(earlier, one);
            },
        }
    }
}

/// Outcomes leave which events are live, when they are due and what they are;
/// they decide only events that they are for, each once and never as a
/// timeout.
proof fn lemma_outcomes(s: PoolState, outs: Seq<(u64, IoOutcome)>, id: u64)
    requires
        outcome_ids(outs).no_duplicates(),
    ensures
        ({
            let (t, decided) = outcome_steps(s, outs);
            let ids = report_ids(decided);
            &&& t.live(id) == s.live(id)
            &&& s.live(id) ==> same_event(t.events[id], s.events[id])
            &&& ids.contains(id) ==> outcome_ids(outs).contains(id)
            &&& t.quit == s.quit
            &&& t.commands == s.commands
            &&& forall|i: int|
                0 <= i < decided.len() ==> (#[trigger] decided[i]).1 != EventStatus::Timeout
        }),
    decreases outs.len(),
{
    let (t, decided) = outcome_steps(s, outs);
    if outs.len() == 0 {
        assert(report_ids(decided) =~= Seq::<u64>::empty());
    } else {
        let before = outs.drop_last();
        let (u, earlier) = outcome_steps(s, before);
        let (last, out) = outs.last();
        assert(outcome_ids(before) =~= outcome_ids(outs).drop_last());
        lemma_outcomes(s, before, id);
        let ids = outcome_ids(outs);
        if outcome_ids(before).contains(id) {
            let i = choose|i: int| 0 <= i < outcome_ids(before).len() && outcome_ids(before)[i] == id;
            assert(ids[i] == id);
        }
        assert(ids[outs.len() - 1] == last);
        match outcome_step(u, last, out).1 {
            None => {},
            Some(status) => {
                let one = seq![(last, status)];
                assert(decided =~= earlier + one);
                assert(report_ids(one) =~= seq![last]);
                lemma_joined_ids(earlier, one, id);
            },
        }
    }
}

/// What is reported is on the list, and nothing else of the pool is touched.
proof fn lemma_delivered(s: PoolState, list: Seq<(u64, EventStatus)>, r: (u64, EventStatus))
    ensures
        delivered_all(s, list).1.contains(r) ==> list.contains(r),
        delivered_all(s, list).0.quit == s.quit,
        delivered_all(s, list).0.commands == s.commands,
    decreases list.len(),
{
    if list.len() > 0 {
        let before = list.drop_last();
        lemma_delivered(s, before, r);
        let made = delivered_all(s, list).1;
        if made.contains(r) {
            let i = choose|i: int| 0 <= i < made.len() && made[i] == r;
            let earlier = delivered_all(s, before).1;
            if i < earlier.len() {
                assert(earlier[i] == r);
                let j = choose|j: int| 0 <= j < before.len() && before[j] == r;
                assert(list[j] == r);
            } else {
                assert(list[list.len() - 1] == r);
            }
        }
    }
}

/// What a pass does to an event: it is reported where it was live and no
/// longer is, and else stays what it was.
proof fn lemma_turn(s: PoolState, limit: Option<u64>, turn: Turn, id: u64)
    requires
        is_turn(s, limit, turn),
    ensures
        turn.after.live(id) <==> s.live(id) && !report_ids(turn.reports).contains(id),
        turn.after.live(id) ==> same_event(turn.after.events[id], s.events[id]),
        report_ids(turn.reports).contains(id) ==> s.live(id),
        report_ids(turn.reports).no_duplicates(),
        turn.after.commands == Seq::<Cmd>::empty(),
        turn.end == PassEnd::Return(LoopStatus::Quit) ==> s.quit || (s.commands
            + turn.posted).contains(Cmd::Quit),
        turn.end is Sleep ==> !turn.after.quit,
{
    let p = with_posted(s, turn.posted);
    let p0 = PoolState { commands: Seq::empty(), ..p };
    let (b, reported) = begun(p);
    let (c, decided) = outcome_steps(b, turn.outs);
    let list = turn.due + decided;
    let (t, made) = delivered_all(c, list);
    lemma_commands(p0, p.commands, id);
    law_quit_is_seen(p0, p.commands);
    lemma_outcomes(b, turn.outs, id);
    law_reports(c, list, id);
    lemma_delivered(c, list, (id, EventStatus::Success));
    lemma_joined_ids(turn.due, decided, id);
    lemma_joined_ids(reported, made, id);
    assert forall|k: u64| #[trigger] report_ids(reported).contains(k) implies !report_ids(
        made,
    ).contains(k) by {
        lemma_commands(p0, p.commands, k);
        lemma_outcomes(b, turn.outs, k);
        law_reports(c, list, k);
    }
    lemma_joined_once(reported, made);
    assert(p0.live(id) == s.live(id));
}

/// Each report of a pass is right for its event.
proof fn lemma_turn_report(s: PoolState, limit: Option<u64>, turn: Turn, j: int)
    requires
        is_turn(s, limit, turn),
        0 <= j < turn.reports.len(),
    ensures
        s.live(turn.reports[j].0),
        rightly_reported(s.events[turn.reports[j].0], turn.reports[j].1, turn.now),
{
    let r = turn.reports[j];
    let id = r.0;
    let p = with_posted(s, turn.posted);
    let p0 = PoolState { commands: Seq::empty(), ..p };
    let (b, reported) = begun(p);
    let (c, decided) = outcome_steps(b, turn.outs);
    let list = turn.due + decided;
    let (t, made) = delivered_all(c, list);
    lemma_turn(s, limit, turn, id);
    assert(report_ids(turn.reports)[j] == id);
    lemma_commands(p0, p.commands, id);
    lemma_outcomes(b, turn.outs, id);
    if j < reported.len() {
        assert(reported[j] == r);
        assert(report_ids(reported)[j] == id);
    } else {
        assert(made[j - reported.len()] == r);
        assert(made.contains(r));
        assert(report_ids(made)[j - reported.len()] == id);
        law_reports(c, list, id);
        lemma_delivered(c, list, r);
        let i = choose|i: int| 0 <= i < list.len() && list[i] == r;
        assert(b.live(id));
        if i < turn.due.len() {
            assert(turn.due[i] == r);
            let ids = report_ids(turn.due);
            assert(ids[i] == id);
            assert(ids.contains(id));
            assert(is_due(b, id, turn.now));
        } else {
            assert(decided[i - turn.due.len()] == r);
            assert(report_ids(decided)[i - turn.due.len()] == id);
            let k = choose|k: int|
                0 <= k < outcome_ids(turn.outs).len() && outcome_ids(turn.outs)[k] == id;
            assert(turn.outs[k].0 == id);
            assert(wants_io(b, id, turn.now));
        }
    }
}

/// What several passes do to an event.
proof fn lemma_turns(s: PoolState, limit: Option<u64>, turns: Seq<Turn>, id: u64)
    requires
        goes_through(s, limit, turns),
    ensures
        ({
            let t = before_turn(s, turns, turns.len() as int);
            let ids = report_ids(all_reports(turns));
            &&& t.live(id) <==> s.live(id) && !ids.contains(id)
            &&& t.live(id) ==> same_event(t.events[id], s.events[id])
            &&& ids.contains(id) ==> s.live(id)
            &&& ids.no_duplicates()
        }),
    decreases turns.len(),
{
    if turns.len() == 0 {
        assert(report_ids(all_reports(turns)) =~= Seq::<u64>::empty());
    } else {
        let before = turns.drop_last();
        let n = before.len() as int;
        assert forall|i: int| 0 <= i < before.len() implies is_turn(
            before_turn(s, before, i),
            limit,
            #[trigger] before[i],
        ) by {
            assert(turns[i] == before[i]);
            assert(before_turn(s, turns, i) == before_turn(s, before, i));
        }
        let u = before_turn(s, before, n);
        assert(u == before_turn(s, turns, n));
        assert(is_turn(u, limit, turns[n]));
        lemma_turns(s, limit, before, id);
        lemma_turn(u, limit, turns[n], id);
        let a = all_reports(before);
        let b = turns[n].reports;
        lemma_joined_ids(a, b, id);
        assert forall|k: u64| #[trigger] report_ids(a).contains(k) implies !report_ids(b).contains(
            k,
        ) by {
            lemma_turns(s, limit, before, k);
            lemma_turn(u, limit, turns[n], k);
        }
        lemma_joined_once(a, b);
    }
}

// ---------------------------------------------------------------------------
// Laws

/// A run ends with `NoEvents` exactly when nothing waits to be reported; with
/// `Timeout` only where it has a limit that has passed; and with `Quit` only
/// where it was asked to stop.
pub proof fn law_run_ends(s: PoolState, msec_timeout: i32, turns: Seq<Turn>, status: LoopStatus)
    requires
        is_run(s, msec_timeout, turns, status),
    ensures
        status == LoopStatus::NoEvents <==> !(exists|k: u64| turns.last().after.live(k)),
        status == LoopStatus::Timeout ==> msec_timeout >= 0 && turns.last().elapsed >= msec_timeout
            * 1_000_000,
        status == LoopStatus::Quit ==> s.commands.contains(Cmd::Quit) || exists|i: int|
            0 <= i < turns.len() && (#[trigger] turns[i]).posted.contains(Cmd::Quit),
        status != LoopStatus::Error,
{
    let limit = limit_of(msec_timeout);
    let n = turns.len() - 1;
    let turn = turns[n];
    let before = before_turn(s, turns, n);
    assert(is_turn(before, limit, turn));
    lemma_turn(before, limit, turn, 0);
    let (b, _) = begun(with_posted(before, turn.posted));
    let (t, _) = finished(b, turn.due, turn.outs);
    assert forall|k: u64| t.live(k) == turn.after.live(k) by {}
    if exists|k: u64| t.live(k) {
        let k = choose|k: u64| t.live(k);
        assert(turn.after.live(k));
    }
    if exists|k: u64| turn.after.live(k) {
        let k = choose|k: u64| turn.after.live(k);
        assert(t.live(k));
    }
    if status == LoopStatus::Quit {
        if n > 0 {
            assert(is_turn(before_turn(s, turns, n - 1), limit, turns[n - 1]));
            assert(turns[n - 1].end is Sleep);
            lemma_turn(before_turn(s, turns, n - 1), limit, turns[n - 1], 0);
        }
        let all = before.commands + turn.posted;
        let i = choose|i: int| 0 <= i < all.len() && all[i] == Cmd::Quit;
        if i < before.commands.len() {
            assert(s.commands[i] == Cmd::Quit);
        } else {
            assert(turn.posted[i - before.commands.len()] == Cmd::Quit);
        }
    }
}

/// A run reports each event at most once, and only events that waited when it
/// began; what waited then either was reported or still waits behind it.
pub proof fn law_run_reports(
    s: PoolState,
    msec_timeout: i32,
    turns: Seq<Turn>,
    status: LoopStatus,
    id: u64,
)
    requires
        is_run(s, msec_timeout, turns, status),
    ensures
        report_ids(all_reports(turns)).no_duplicates(),
        report_ids(all_reports(turns)).contains(id) <==> s.live(id) && !turns.last().after.live(id),
        turns.last().after.live(id) ==> s.live(id),
{
    lemma_turns(s, limit_of(msec_timeout), turns, id);
}

/// A run reports a timer as a success and not before its deadline, and reports
/// as a timeout only what is no timer and past its deadline.
pub proof fn law_run_statuses(
    s: PoolState,
    msec_timeout: i32,
    turns: Seq<Turn>,
    status: LoopStatus,
    i: int,
    j: int,
)
    requires
        is_run(s, msec_timeout, turns, status),
        0 <= i < turns.len(),
        0 <= j < turns[i].reports.len(),
    ensures
        s.live(turns[i].reports[j].0),
        rightly_reported(s.events[turns[i].reports[j].0], turns[i].reports[j].1, turns[i].now),
{
    let limit = limit_of(msec_timeout);
    let before = turns.take(i);
    assert forall|k: int| 0 <= k < before.len() implies is_turn(
        before_turn(s, before, k),
        limit,
        #[trigger] before[k],
    ) by {
        assert(turns[k] == before[k]);
        assert(before_turn(s, turns, k) == before_turn(s, before, k));
    }
    assert(before_turn(s, turns, i) == before_turn(s, before, i));
    lemma_turns(s, limit, before, turns[i].reports[j].0);
    lemma_turn_report(before_turn(s, turns, i), limit, turns[i], j);
}

/// A new event has an id that no event had before, and changes nothing of the
/// others.
pub proof fn law_ids_are_fresh(s: PoolState, e: Event, other: u64)
    requires
        s.valid(),
        s.last_event < u64::MAX,
    ensures
        s.scheduled(e).valid(),
        !s.events.contains_key((s.last_event + 1) as u64),
        !s.read_bufs.contains_key((s.last_event + 1) as u64),
        s.scheduled(e).events[(s.last_event + 1) as u64] == e,
        s.events.contains_key(other) ==> s.scheduled(e).events.contains_key(other) && s.scheduled(
            e,
        ).events[other] == s.events[other],
{
}

/// A timer is due from its timeout on and not before, and is then a success.
pub proof fn law_timer_fires(s: PoolState, timeout_ms: u32, start: u64, now: u64)
    requires
        s.valid(),
        s.last_event < u64::MAX,
        start + timeout_ms * 1_000_000 <= u64::MAX,
    ensures
        ({
            let e = new_event(
                None,
                EventType::Timer,
                deadline_after(timeout_ms as int, start),
                None,
                0,
                false,
            );
            let id = (s.last_event + 1) as u64;
            &&& is_due(s.scheduled(e), id, now) <==> now >= start + timeout_ms * 1_000_000
            &&& due_status(e) == EventStatus::Success
        }),
{
}

/// An event is reported at most once: behind its report it is gone, as it is
/// not reported once it is cancelled.
pub proof fn law_reported_once(s: PoolState, id: u64)
    ensures
        !delivered(s, id).live(id),
        delivered(delivered(s, id), id) == delivered(s, id),
        !cancelled(s, id).live(id),
        delivered(cancelled(s, id), id) == cancelled(s, id),
{
}

/// What was live behind several reports was live before them and is as it was;
/// what is reported was live before, is not so behind, and is reported once.
pub proof fn law_reports(s: PoolState, list: Seq<(u64, EventStatus)>, id: u64)
    ensures
        delivered_all(s, list).0.live(id) <==> s.live(id) && !report_ids(list).contains(id),
        delivered_all(s, list).0.live(id) ==> delivered_all(s, list).0.events[id] == s.events[id],
        report_ids(delivered_all(s, list).1).contains(id) <==> s.live(id) && report_ids(
            list,
        ).contains(id),
        report_ids(delivered_all(s, list).1).no_duplicates(),
    decreases list.len(),
{
    let all = report_ids(list);
    if list.len() == 0 {
        assert(all =~= Seq::<u64>::empty());
        assert(report_ids(delivered_all(s, list).1) =~= Seq::<u64>::empty());
    } else {
        let before = list.drop_last();
        let r = list.last();
        let (t, made) = delivered_all(s, before);
        law_reports(s, before, id);
        law_reports(s, before, r.0);
        assert(all =~= report_ids(before).push(r.0));
        assert(all.contains(id) <==> report_ids(before).contains(id) || id == r.0) by {
            if all.contains(id) {
                let i = choose|i: int| 0 <= i < all.len() && all[i] == id;
                if i < before.len() {
                    assert(report_ids(before)[i] == id);
                }
            }
            if report_ids(before).contains(id) {
                let i = choose|i: int|
                    0 <= i < report_ids(before).len() && report_ids(before)[i] == id;
                assert(all[i] == id);
            }
            assert(all[list.len() - 1] == r.0);
        }
        if t.live(r.0) {
            let more = made.push(r);
            let ids = report_ids(more);
            assert(ids =~= report_ids(made).push(r.0));
            assert(ids.contains(id) <==> report_ids(made).contains(id) || id == r.0) by {
                if ids.contains(id) {
                    let i = choose|i: int| 0 <= i < ids.len() && ids[i] == id;
                    if i < made.len() {
                        assert(report_ids(made)[i] == id);
                    }
                }
                if report_ids(made).contains(id) {
                    let i = choose|i: int|
                        0 <= i < report_ids(made).len() && report_ids(made)[i] == id;
                    assert(ids[i] == id);
                }
                assert(ids[made.len() as int] == r.0);
            }
            assert(!report_ids(made).contains(r.0));
            assert(ids.no_duplicates()) by {
                assert forall|i: int, j: int|
                    0 <= i < ids.len() && 0 <= j < ids.len() && i != j implies ids[i] != ids[j] by {
                    let m = report_ids(made);
                    if i < m.len() && j < m.len() {
                        assert(m[i] != m[j]);
                    } else if i < m.len() {
                        assert(m.contains(m[i]));
                    } else {
                        assert(m.contains(m[j]));
                    }
                }
            }
        }
    }
}

/// A pass that reports everything that is due leaves nothing due, whatever its
/// operations decide.
pub proof fn law_pass_clears_due(
    s: PoolState,
    outs: Seq<(u64, IoOutcome)>,
    due: Seq<(u64, EventStatus)>,
    now: u64,
    id: u64,
)
    requires
        forall|k: u64| #[trigger] is_due(s, k, now) ==> report_ids(due).contains(k),
    ensures
        ({
            let (t, decided) = outcome_steps(s, outs);
            !is_due(delivered_all(t, due + decided).0, id, now)
        }),
{
    let (t, decided) = outcome_steps(s, outs);
    let list = due + decided;
    lemma_deadlines_stay(s, outs, id);
    law_reports(t, list, id);
    if is_due(s, id, now) {
        let i = choose|i: int| 0 <= i < report_ids(due).len() && report_ids(due)[i] == id;
        assert(report_ids(list)[i] == id);
    }
}

/// Outcomes change neither whether an event is live nor its deadline.
proof fn lemma_deadlines_stay(s: PoolState, outs: Seq<(u64, IoOutcome)>, id: u64)
    ensures
        outcome_steps(s, outs).0.live(id) == s.live(id),
        s.live(id) ==> outcome_steps(s, outs).0.events[id].deadline == s.events[id].deadline,
    decreases outs.len(),
{
    if outs.len() > 0 {
        lemma_deadlines_stay(s, outs.drop_last(), id);
    }
}

/// What a read event has read is kept when it is reported.
pub proof fn law_read_is_kept(s: PoolState, id: u64)
    requires
        s.live(id),
        s.events[id].kind == EventType::Read,
    ensures
        delivered(s, id).read_bufs.contains_key(id),
        delivered(s, id).read_bufs[id] == s.events[id].buf,
{
}

/// Deleting an IOD takes its events with it, and nothing else.
pub proof fn law_delete_iod(s: PoolState, iod_id: u64, id: u64)
    ensures
        !without_iod(s, iod_id).iods.contains_key(iod_id),
        !belongs(without_iod(s, iod_id), id, iod_id),
        s.events.contains_key(id) && !belongs(s, id, iod_id) ==> without_iod(
            s,
            iod_id,
        ).events.contains_key(id) && without_iod(s, iod_id).events[id] == s.events[id],
        id != iod_id && s.iods.contains_key(id) ==> without_iod(s, iod_id).iods.contains_key(id)
            && without_iod(s, iod_id).iods[id] == s.iods[id],
{
}

/// Where an event waits for the connection of an IOD, the end of the attempt
/// completes one that is no younger.
pub proof fn law_connect_completes(s: PoolState, iod_id: u64, out: ConnectOutcome, id: u64)
    requires
        connecting(s, iod_id, id),
    ensures
        ({
            let (t, reported) = obeyed(s, Cmd::ConnectResult(iod_id, out));
            &&& reported is Some
            &&& (reported->0).0 <= id
            &&& (reported->0).1 == connect_status(out)
            &&& !t.events.contains_key((reported->0).0)
        }),
{
    lemma_oldest(s, iod_id, id);
}

/// A request to stop is seen by the run that takes note of it, whatever else
/// it takes note of.
pub proof fn law_quit_is_seen(s: PoolState, cmds: Seq<Cmd>)
    ensures
        obeyed_all(s, cmds).0.quit == (s.quit || cmds.contains(Cmd::Quit)),
    decreases cmds.len(),
{
    if cmds.len() > 0 {
        law_quit_is_seen(s, cmds.drop_last());
        let t = obeyed_all(s, cmds.drop_last()).0;
        if cmds.contains(Cmd::Quit) {
            let i = choose|i: int| 0 <= i < cmds.len() && cmds[i] == Cmd::Quit;
            if i < cmds.len() - 1 {
                assert(cmds.drop_last()[i] == Cmd::Quit);
            }
        }
        if cmds.drop_last().contains(Cmd::Quit) {
            let i = choose|i: int|
                0 <= i < cmds.drop_last().len() && cmds.drop_last()[i] == Cmd::Quit;
            assert(cmds[i] == Cmd::Quit);
        }
        if cmds.last() == Cmd::Quit {
            assert(cmds[cmds.len() - 1] == Cmd::Quit);
        }
    }
}

/// No byte that a stream gives is lost or changes its place: what a read event
/// has and what is left for the next read are, one behind the other, what both
/// were before and what came. What came is counted.
pub proof fn law_stream_read(s: PoolState, id: u64, out: ReadOutcome)
    requires
        iod_of(s, id) is Some,
        s.iods[iod_of(s, id)->0].kind == IodKind::Tcp,
        s.iods[iod_of(s, id)->0].tcp is Some,
    ensures
        ({
            let t = read_step(s, id, out).0;
            let iod_id = iod_of(s, id)->0;
            &&& t.events[id].buf + surplus_of(t, iod_id) == s.events[id].buf + surplus_of(
                s,
                iod_id,
            ) + bytes_in(out)
            &&& t.events[id] == (Event { buf: t.events[id].buf, ..s.events[id] })
            &&& t.iods[iod_id].read_count == s.iods[iod_id].read_count.wrapping_add(
                bytes_in(out).len() as u64,
            )
        }),
{
    let iod_id = iod_of(s, id)->0;
    let e = s.events[id];
    let all = e.buf + surplus_of(s, iod_id) + bytes_in(out);
    let t = read_step(s, id, out).0;
    lemma_wanted(e, all);
    assert(all =~= all.take(wanted(e, all)) + all.skip(wanted(e, all)));
    if bytes_in(out).len() == 0 && surplus_of(s, iod_id).len() == 0 {
        assert(all =~= e.buf + surplus_of(s, iod_id));
    } else {
        assert(surplus_of(t, iod_id) =~= all.skip(wanted(e, all)));
    }
}

/// A read that wants no line takes everything that there is, and is a success
/// once it has the wanted number of bytes.
pub proof fn law_plain_read(s: PoolState, id: u64, out: ReadOutcome)
    requires
        iod_of(s, id) is Some,
        s.iods[iod_of(s, id)->0].kind == IodKind::Tcp,
        s.iods[iod_of(s, id)->0].tcp is Some,
        !s.events[id].line_read,
        bytes_in(out).len() > 0,
    ensures
        ({
            let (t, status) = read_step(s, id, out);
            let iod_id = iod_of(s, id)->0;
            &&& surplus_of(t, iod_id).len() == 0
            &&& status == (if t.events[id].buf.len() >= s.events[id].target {
                Some(EventStatus::Success)
            } else {
                None
            })
        }),
{
}

/// A line read has at most the wanted number of bytes, and no end of a line
/// but as its last byte. It is a success exactly when it has the end of the
/// line or the wanted number of bytes, and only then anything is left for the
/// next read.
pub proof fn law_line_read(s: PoolState, id: u64, out: ReadOutcome)
    requires
        iod_of(s, id) is Some,
        s.iods[iod_of(s, id)->0].kind == IodKind::Tcp,
        s.iods[iod_of(s, id)->0].tcp is Some,
        s.events[id].line_read,
        s.events[id].target >= 1,
        bytes_in(out).len() > 0,
    ensures
        ({
            let (t, status) = read_step(s, id, out);
            let buf = t.events[id].buf;
            let ended = buf.len() > 0 && buf.last() == 0x0a;
            &&& buf.len() <= s.events[id].target
            &&& forall|i: int| 0 <= i < buf.len() - 1 ==> #[trigger] buf[i] != 0x0a
            &&& status == (if ended || buf.len() == s.events[id].target {
                Some(EventStatus::Success)
            } else {
                None
            })
            &&& status is None ==> surplus_of(t, iod_of(s, id)->0).len() == 0
        }),
{
    let iod_id = iod_of(s, id)->0;
    let e = s.events[id];
    let all = e.buf + surplus_of(s, iod_id) + bytes_in(out);
    lemma_wanted(e, all);
    let buf = all.take(wanted(e, all));
    assert forall|i: int| 0 <= i < buf.len() - 1 implies #[trigger] buf[i] != 0x0a by {
        assert(all[i] == buf[i]);
        if all[i] == 0x0a {
            assert(all.contains(all[i]));
        }
    }
    if buf.contains(0x0au8) {
        let i = choose|i: int| 0 <= i < buf.len() && buf[i] == 0x0au8;
        assert(i == buf.len() - 1);
    }
    if buf.len() > 0 && buf.last() == 0x0a {
        assert(buf.contains(buf.last()));
    }
    if wanted(e, all) == line_len(all) && all.contains(0x0au8) {
        assert(buf.last() == 0x0a);
    }
}

/// A line read that finds a line takes it with its end, and leaves what stands
/// behind it. The line may have been left by an earlier read, whatever the
/// stream gives now.
pub proof fn law_line_found(
    s: PoolState,
    id: u64,
    out: ReadOutcome,
    line: Seq<u8>,
    behind: Seq<u8>,
)
    requires
        iod_of(s, id) is Some,
        s.iods[iod_of(s, id)->0].kind == IodKind::Tcp,
        s.iods[iod_of(s, id)->0].tcp is Some,
        s.events[id].line_read,
        s.events[id].buf + surplus_of(s, iod_of(s, id)->0) + bytes_in(out) == line.push(0x0a)
            + behind,
        surplus_of(s, iod_of(s, id)->0).len() + bytes_in(out).len() > 0,
        !line.contains(0x0au8),
        line.len() + 1 <= s.events[id].target,
    ensures
        ({
            let (t, status) = read_step(s, id, out);
            &&& status == Some(EventStatus::Success)
            &&& t.events[id].buf == line.push(0x0a)
            &&& surplus_of(t, iod_of(s, id)->0) == behind
        }),
{
    let iod_id = iod_of(s, id)->0;
    let e = s.events[id];
    let all = e.buf + surplus_of(s, iod_id) + bytes_in(out);
    lemma_wanted(e, all);
    let n = line.len() as int;
    assert(all[n] == 0x0a);
    assert(all.contains(all[n]));
    let k = all.index_of_first(0x0au8)->0;
    if k < n {
        assert(line[k] == all[k]);
        assert(line.contains(line[k]));
    }
    assert(wanted(e, all) == n + 1);
    assert(all.take(n + 1) =~= line.push(0x0a));
    assert(all.skip(n + 1) =~= behind);
    assert(all.take(n + 1)[n] == 0x0a);
    assert(all.take(n + 1).contains(0x0au8));
}

/// What a read takes is there, and the first line ends with its first end.
proof fn lemma_wanted(e: Event, all: Seq<u8>)
    ensures
        0 <= wanted(e, all) <= all.len(),
        0 <= line_len(all) <= all.len(),
        match all.index_of_first(0x0au8) {
            Some(k) => 0 <= k < all.len() && line_len(all) == k + 1 && all[k] == 0x0a
                && forall|j: int| 0 <= j < k ==> all[j] != 0x0a,
            None => !all.contains(0x0au8),
        },
{
    all.index_of_first_ensures(0x0au8);
}

/// Of what a write has to send, a stream takes the first bytes, which are
/// counted, and the others are left. The write is a success once nothing is
/// left.
pub proof fn law_stream_write(s: PoolState, id: u64, n: usize)
    requires
        iod_of(s, id) is Some,
        s.iods[iod_of(s, id)->0].kind == IodKind::Tcp,
        s.iods[iod_of(s, id)->0].tcp is Some,
        s.events[id].wbuf is Some,
        0 < n <= s.events[id].wbuf->0.len(),
    ensures
        ({
            let (t, status) = write_step(s, id, WriteOutcome::Sent(n));
            let iod_id = iod_of(s, id)->0;
            let data = s.events[id].wbuf->0;
            let rest = match t.events[id].wbuf {
                Some(rest) => rest,
                None => Seq::empty(),
            };
            &&& data == data.take(n as int) + rest
            &&& t.iods[iod_id].write_count == s.iods[iod_id].write_count.wrapping_add(n as u64)
            &&& status == (if rest.len() == 0 {
                Some(EventStatus::Success)
            } else {
                None
            })
        }),
{
    let data = s.events[id].wbuf->0;
    assert(data =~= data.take(n as int) + data.skip(n as int));
}

/// The events that are due are those that wait to be reported and whose
/// deadline has passed, each once. A timer among them is reported as a success,
/// anything else as a timeout.
pub proof fn law_due(s: PoolState, due: Seq<(u64, EventStatus)>, now: u64, i: int)
    requires
        is_due_list(s, due, now),
        0 <= i < due.len(),
    ensures
        s.events.contains_key(due[i].0),
        !s.events[due[i].0].cancelled,
        s.events[due[i].0].deadline is Some,
        s.events[due[i].0].deadline->0 <= now,
        s.events[due[i].0].kind == EventType::Timer ==> due[i].1 == EventStatus::Success,
        s.events[due[i].0].kind != EventType::Timer ==> due[i].1 == EventStatus::Timeout,
        forall|j: int| 0 <= j < due.len() && j != i ==> (#[trigger] due[j]).0 != due[i].0,
{
    let ids = report_ids(due);
    assert(ids[i] == due[i].0);
    assert(ids.contains(due[i].0));
    assert(is_due(s, due[i].0, now));
    assert forall|j: int| 0 <= j < due.len() && j != i implies (#[trigger] due[j]).0 != due[i].0 by {
        assert(ids[j] == due[j].0);
    }
}

/// No event that is due is left out.
pub proof fn law_due_complete(s: PoolState, due: Seq<(u64, EventStatus)>, now: u64, id: u64) -> (i:
    int)
    requires
        is_due_list(s, due, now),
        s.events.contains_key(id),
        !s.events[id].cancelled,
        s.events[id].deadline is Some,
        s.events[id].deadline->0 <= now,
    ensures
        0 <= i < due.len(),
        due[i].0 == id,
{
    let ids = report_ids(due);
    assert(is_due(s, id, now));
    assert(ids.contains(id));
    let i = choose|i: int| 0 <= i < ids.len() && ids[i] == id;
    assert(due[i].0 == id);
    i
}

/// What a command reports goes back to the end of a connection attempt for the
/// event's IOD.
proof fn lemma_command_report(s: PoolState, cmds: Seq<Cmd>, i: int) -> (k: int)
    requires
        0 <= i < obeyed_all(s, cmds).1.len(),
    ensures
        0 <= k < cmds.len(),
        ({
            let (id, status) = obeyed_all(s, cmds).1[i];
            &&& s.live(id)
            &&& s.events[id].kind == EventType::Connect
            &&& cmds[k] matches Cmd::ConnectResult(iod_id, out)
            &&& s.events[id].iod == Some(iod_id)
            &&& out is Connected ==> status == EventStatus::Success
            &&& out is Failed ==> status == EventStatus::Error
        }),
    decreases cmds.len(),
{
    let before = cmds.drop_last();
    let (t, earlier) = obeyed_all(s, before);
    if i < earlier.len() {
        let k = lemma_command_report(s, before, i);
        assert(cmds[k] == before[k]);
        k
    } else {
        let (id, status) = obeyed_all(s, cmds).1[i];
        lemma_commands(s, before, id);
        cmds.len() - 1
    }
}

/// Where a connection event comes from and goes to in a pass: it is reported as
/// a success only where a stream was connected for its IOD and that was posted,
/// as an error only where the posted attempt failed, and else as a timeout, its
/// deadline having passed.
pub proof fn law_connect_reported(s: PoolState, limit: Option<u64>, turn: Turn, j: int) -> (cmd: Cmd)
    requires
        is_turn(s, limit, turn),
        0 <= j < turn.reports.len(),
        s.events[turn.reports[j].0].kind == EventType::Connect,
    ensures
        ({
            let (id, status) = turn.reports[j];
            let posted = s.commands.contains(cmd) || turn.posted.contains(cmd);
            &&& status == EventStatus::Success || status == EventStatus::Error || status
                == EventStatus::Timeout
            &&& status == EventStatus::Success ==> posted && (cmd matches Cmd::ConnectResult(
                iod_id,
                out,
            ) && out is Connected && s.events[id].iod == Some(iod_id))
            &&& status == EventStatus::Error ==> posted && (cmd matches Cmd::ConnectResult(
                iod_id,
                out,
            ) && out is Failed && s.events[id].iod == Some(iod_id))
            &&& status == EventStatus::Timeout ==> s.events[id].deadline is Some
                && s.events[id].deadline->0 <= turn.now
        }),
{
    let r = turn.reports[j];
    let id = r.0;
    let p = with_posted(s, turn.posted);
    let p0 = PoolState { commands: Seq::empty(), ..p };
    let (b, reported) = begun(p);
    let (c, decided) = outcome_steps(b, turn.outs);
    let list = turn.due + decided;
    let (t, made) = delivered_all(c, list);
    lemma_turn_report(s, limit, turn, j);
    lemma_commands(p0, p.commands, id);
    lemma_outcomes(b, turn.outs, id);
    if j < reported.len() {
        assert(reported[j] == r);
        let k = lemma_command_report(p0, p.commands, j);
        let cmd = p.commands[k];
        if k < s.commands.len() {
            assert(s.commands[k] == cmd);
        } else {
            assert(turn.posted[k - s.commands.len()] == cmd);
        }
        cmd
    } else {
        assert(made[j - reported.len()] == r);
        assert(made.contains(r));
        assert(report_ids(made)[j - reported.len()] == id);
        law_reports(c, list, id);
        lemma_delivered(c, list, r);
        let i = choose|i: int| 0 <= i < list.len() && list[i] == r;
        assert(b.live(id));
        if i < turn.due.len() {
            assert(turn.due[i] == r);
            law_due(b, turn.due, turn.now, i);
        } else {
            assert(decided[i - turn.due.len()] == r);
            assert(report_ids(decided)[i - turn.due.len()] == id);
            let k = choose|k: int|
                0 <= k < outcome_ids(turn.outs).len() && outcome_ids(turn.outs)[k] == id;
            assert(turn.outs[k].0 == id);
            assert(wants_io(b, id, turn.now));
            assert(operation(b, id) is Some);
        }
        Cmd::Quit
    }
}

/// In a whole run, too, a connection event is a success only where a stream was
/// connected for its IOD, an error only where that failed, and else a timeout,
/// its deadline having passed.
pub proof fn law_run_connects(
    s: PoolState,
    msec_timeout: i32,
    turns: Seq<Turn>,
    status: LoopStatus,
    i: int,
    j: int,
) -> (cmd: Cmd)
    requires
        is_run(s, msec_timeout, turns, status),
        0 <= i < turns.len(),
        0 <= j < turns[i].reports.len(),
        s.events[turns[i].reports[j].0].kind == EventType::Connect,
    ensures
        ({
            let (id, status) = turns[i].reports[j];
            let posted = s.commands.contains(cmd) || turns[i].posted.contains(cmd);
            &&& status == EventStatus::Success || status == EventStatus::Error || status
                == EventStatus::Timeout
            &&& status == EventStatus::Success ==> posted && (cmd matches Cmd::ConnectResult(
                iod_id,
                out,
            ) && out is Connected && s.events[id].iod == Some(iod_id))
            &&& status == EventStatus::Error ==> posted && (cmd matches Cmd::ConnectResult(
                iod_id,
                out,
            ) && out is Failed && s.events[id].iod == Some(iod_id))
            &&& status == EventStatus::Timeout ==> s.events[id].deadline is Some
                && s.events[id].deadline->0 <= turns[i].now
        }),
{
    let limit = limit_of(msec_timeout);
    let before = turns.take(i);
    assert forall|k: int| 0 <= k < before.len() implies is_turn(
        before_turn(s, before, k),
        limit,
        #[trigger] before[k],
    ) by {
        assert(turns[k] == before[k]);
        assert(before_turn(s, turns, k) == before_turn(s, before, k));
    }
    assert(before_turn(s, turns, i) == before_turn(s, before, i));
    let id = turns[i].reports[j].0;
    lemma_turns(s, limit, before, id);
    lemma_turn_report(before_turn(s, turns, i), limit, turns[i], j);
    if i > 0 {
        assert(is_turn(before_turn(s, turns, i - 1), limit, turns[i - 1]));
        lemma_turn(before_turn(s, turns, i - 1), limit, turns[i - 1], id);
    }
    law_connect_reported(before_turn(s, turns, i), limit, turns[i], j)
}

/// A datagram is complete by itself: the read event that it came for holds
/// exactly its bytes and is a success, and the bytes are counted. Behind the
/// report they are what the event leaves to be fetched. Nothing else of the pool
/// changes.
pub proof fn law_datagram_read(s: PoolState, id: u64, iod_id: u64, data: Vec<u8>)
    requires
        s.valid(),
        s.live(id),
        s.events[id].kind == EventType::Read,
        s.events[id].iod == Some(iod_id),
        s.iods.contains_key(iod_id),
        s.iods[iod_id].kind == IodKind::Udp,
        s.iods[iod_id].udp is Some,
    ensures
        ({
            let (t, status) = read_step(s, id, ReadOutcome::Data(data));
            let u = delivered(t, id);
            &&& status == Some(EventStatus::Success)
            &&& t.events == s.events.insert(id, Event { buf: data@, ..s.events[id] })
            &&& t.iods == s.iods.insert(
                iod_id,
                Iod {
                    read_count: s.iods[iod_id].read_count.wrapping_add(data@.len() as u64),
                    ..s.iods[iod_id]
                },
            )
            &&& t == PoolState { events: t.events, iods: t.iods, ..s }
            &&& !t.read_bufs.contains_key(id)
            &&& t.events[id].buf == data@
            &&& !u.events.contains_key(id)
            &&& u.read_bufs == s.read_bufs.insert(id, data@)
        }),
{
}

/// Where no datagram came, nothing changes: the event goes on waiting, or is an
/// error where receiving failed. The same holds of an event without a socket,
/// which only waits.
pub proof fn law_no_datagram(s: PoolState, id: u64, iod_id: u64, out: ReadOutcome)
    requires
        s.events.contains_key(id),
        s.events[id].iod == Some(iod_id),
        s.iods.contains_key(iod_id),
        s.iods[iod_id].kind == IodKind::Udp,
    ensures
        s.iods[iod_id].udp is None ==> read_step(s, id, out) == (s, None::<EventStatus>),
        read_step(s, id, ReadOutcome::WouldBlock) == (s, None::<EventStatus>),
        s.iods[iod_id].udp is Some ==> read_step(s, id, ReadOutcome::Failed) == (
            s,
            Some(EventStatus::Error),
        ),
{
}

/// What a pass does not touch of an event's surroundings: its IOD keeps its kind
/// and its sockets, whatever outcomes are taken in.
proof fn lemma_sockets_stay(s: PoolState, outs: Seq<(u64, IoOutcome)>, iod_id: u64)
    ensures
        ({
            let t = outcome_steps(s, outs).0;
            &&& t.iods.contains_key(iod_id) == s.iods.contains_key(iod_id)
            &&& s.iods.contains_key(iod_id) ==> t.iods[iod_id].kind == s.iods[iod_id].kind
                && t.iods[iod_id].tcp == s.iods[iod_id].tcp && t.iods[iod_id].udp
                == s.iods[iod_id].udp
            &&& t.read_bufs == s.read_bufs
        }),
    decreases outs.len(),
{
    if outs.len() > 0 {
        lemma_sockets_stay(s, outs.drop_last(), iod_id);
    }
}

/// What outcomes make of an event that a datagram came for.
proof fn lemma_datagram_taken(
    s: PoolState,
    outs: Seq<(u64, IoOutcome)>,
    k: int,
    iod_id: u64,
    data: Vec<u8>,
)
    requires
        outcome_ids(outs).no_duplicates(),
        0 <= k < outs.len(),
        outs[k].1 == IoOutcome::Read(ReadOutcome::Data(data)),
        s.live(outs[k].0),
        s.events[outs[k].0].iod == Some(iod_id),
        s.iods.contains_key(iod_id),
        s.iods[iod_id].kind == IodKind::Udp,
        s.iods[iod_id].udp is Some,
    ensures
        ({
            let id = outs[k].0;
            let (t, decided) = outcome_steps(s, outs);
            &&& t.live(id)
            &&& t.events[id] == Event { buf: data@, ..s.events[id] }
            &&& decided.contains((id, EventStatus::Success))
        }),
    decreases outs.len(),
{
    let id = outs[k].0;
    let before = outs.drop_last();
    let (u, earlier) = outcome_steps(s, before);
    let (t, decided) = outcome_steps(s, outs);
    let (last, out) = outs.last();
    let ids = outcome_ids(outs);
    assert(outcome_ids(before) =~= ids.drop_last());
    lemma_sockets_stay(s, before, iod_id);
    assert(ids[k] == id && ids[outs.len() - 1] == last);
    if k == outs.len() - 1 {
        assert(!outcome_ids(before).contains(id)) by {
            if outcome_ids(before).contains(id) {
                let i = choose|i: int|
                    0 <= i < outcome_ids(before).len() && outcome_ids(before)[i] == id;
                assert(ids[i] == id);
            }
        }
        lemma_others_untouched(s, before, id);
        assert(decided.last() == (id, EventStatus::Success));
    } else {
        assert(before[k] == outs[k]);
        lemma_datagram_taken(s, before, k, iod_id, data);
        let r = (id, EventStatus::Success);
        let i = choose|i: int| 0 <= i < earlier.len() && earlier[i] == r;
        assert(decided[i] == r);
    }
}

/// What reports leave to be fetched of a read event that was on the list.
proof fn lemma_reports_keep(s: PoolState, list: Seq<(u64, EventStatus)>, id: u64)
    requires
        s.live(id),
        s.events[id].kind == EventType::Read,
    ensures
        report_ids(list).contains(id) ==> delivered_all(s, list).0.read_bufs.contains_key(id)
            && delivered_all(s, list).0.read_bufs[id] == s.events[id].buf,
        !report_ids(list).contains(id) ==> delivered_all(s, list).0.live(id) && delivered_all(
            s,
            list,
        ).0.events[id] == s.events[id],
    decreases list.len(),
{
    if list.len() > 0 {
        let before = list.drop_last();
        lemma_reports_keep(s, before, id);
        law_reports(s, before, id);
        let one = seq![list.last()];
        assert(list =~= before + one);
        assert(report_ids(one) =~= seq![list.last().0]);
        lemma_joined_ids(before, one, id);
        if report_ids(before).contains(id) {
            assert(!delivered_all(s, before).0.live(id));
        }
        assert(report_ids(one).contains(id) <==> list.last().0 == id) by {
            if list.last().0 == id {
                assert(report_ids(one)[0] == id);
            }
        }
    }
}

/// A whole pass hands a datagram on: behind it, what the read event leaves to be
/// fetched are the datagram's bytes, whatever else the pass took in. The event
/// was reported once.
pub proof fn law_pass_datagram(
    s: PoolState,
    due: Seq<(u64, EventStatus)>,
    outs: Seq<(u64, IoOutcome)>,
    k: int,
    iod_id: u64,
    data: Vec<u8>,
)
    requires
        outcome_ids(outs).no_duplicates(),
        0 <= k < outs.len(),
        outs[k].1 == IoOutcome::Read(ReadOutcome::Data(data)),
        s.live(outs[k].0),
        s.events[outs[k].0].kind == EventType::Read,
        s.events[outs[k].0].iod == Some(iod_id),
        s.iods.contains_key(iod_id),
        s.iods[iod_id].kind == IodKind::Udp,
        s.iods[iod_id].udp is Some,
    ensures
        ({
            let id = outs[k].0;
            let (t, made) = finished(s, due, outs);
            &&& t.read_bufs.contains_key(id)
            &&& t.read_bufs[id] == data@
            &&& !t.live(id)
            &&& report_ids(made).contains(id)
            &&& report_ids(made).no_duplicates()
        }),
{
    let id = outs[k].0;
    let (c, decided) = outcome_steps(s, outs);
    lemma_datagram_taken(s, outs, k, iod_id, data);
    let r = (id, EventStatus::Success);
    let i = choose|i: int| 0 <= i < decided.len() && decided[i] == r;
    assert(report_ids(decided)[i] == id);
    lemma_joined_ids(due, decided, id);
    lemma_reports_keep(c, due + decided, id);
    law_reports(c, due + decided, id);
}

/// When operations time out: a timeout in milliseconds, counted from now in
/// nanoseconds. A negative one is none, except for connection attempts, which
/// then may take an hour. A run that is given a negative timeout has no limit.
pub proof fn law_deadlines(timeout_ms: i32, now: u64)
    ensures
        timeout_ms < 0 ==> deadline_after(timeout_ms as int, now) is None && connect_deadline_after(
            timeout_ms as int,
            now,
        ) == now + 3600 * 1000 * 1_000_000 && limit_of(timeout_ms) is None,
        timeout_ms >= 0 ==> deadline_after(timeout_ms as int, now) == Some(
            now + timeout_ms * 1_000_000,
        ) && connect_deadline_after(timeout_ms as int, now) == now + timeout_ms * 1_000_000
            && limit_of(timeout_ms) is Some && limit_of(timeout_ms)->0 == timeout_ms * 1_000_000,
{
}

/// A new event holds what it was made with, has read nothing and is not
/// cancelled. It waits to be reported from the start.
pub proof fn law_new_event(
    s: PoolState,
    iod: Option<u64>,
    kind: EventType,
    deadline: Option<int>,
    wbuf: Option<Seq<u8>>,
    target: usize,
    line_read: bool,
)
    requires
        s.last_event < u64::MAX,
        deadline is Some ==> 0 <= deadline->0 <= u64::MAX,
    ensures
        ({
            let t = s.scheduled(new_event(iod, kind, deadline, wbuf, target, line_read));
            let id = (s.last_event + 1) as u64;
            let e = t.events[id];
            &&& t.live(id)
            &&& t.last_event == s.last_event + 1
            &&& t == PoolState { last_event: t.last_event, events: t.events, ..s }
            &&& e.iod == iod && e.kind == kind && e.wbuf == wbuf && e.target == target
                && e.line_read == line_read
            &&& e.buf.len() == 0
            &&& deadline is None ==> e.deadline is None
            &&& deadline is Some ==> e.deadline is Some && e.deadline->0 == deadline->0
        }),
{
}

/// A wanted number of bytes is at least one.
pub proof fn law_at_least_one(n: usize)
    ensures
        n == 0 ==> at_least_one(n) == 1,
        n > 0 ==> at_least_one(n) == n,
{
}

/// A new IOD has the next id, and the pool is else as it was. Before anything
/// happens to it an IOD has no sockets, no peer and no name, and has counted
/// nothing.
pub proof fn law_new_iod(s: PoolState, iod: Iod, kind: IodKind, other: u64)
    requires
        s.valid(),
        s.last_iod < u64::MAX,
    ensures
        ({
            let t = s.with_iod(iod);
            let id = (s.last_iod + 1) as u64;
            &&& !s.iods.contains_key(id)
            &&& t.last_iod == id
            &&& t.iods.contains_key(id) && t.iods[id] == iod
            &&& other != id ==> t.iods.contains_key(other) == s.iods.contains_key(other)
                && t.iods[other] == s.iods[other]
            &&& t == PoolState { last_iod: t.last_iod, iods: t.iods, ..s }
        }),
        ({
            let i = Iod::idle(other, kind);
            &&& i.id == other && i.kind == kind
            &&& i.tcp is None && i.udp is None && i.peer is None && i.hostname is None
            &&& i.read_count == 0 && i.write_count == 0 && !i.connected && i.udata == 0
        }),
{
}

/// An IOD that is given a peer is a connected UDP one from then on, and keeps
/// its socket and its counts. Where there is no such IOD nothing changes.
pub proof fn law_peered(s: PoolState, iod_id: u64, addr: SocketAddr, other: u64)
    ensures
        ({
            let t = peered(s, iod_id, addr);
            let a = s.iods[iod_id];
            let b = t.iods[iod_id];
            &&& t == PoolState { iods: t.iods, ..s }
            &&& !s.iods.contains_key(iod_id) ==> t == s
            &&& s.iods.contains_key(iod_id) ==> t.iods.contains_key(iod_id) && b.peer == Some(addr)
                && b.connected && b.kind == IodKind::Udp && b.id == a.id && b.udp == a.udp && b.tcp
                == a.tcp && b.hostname == a.hostname && b.read_count == a.read_count
                && b.write_count == a.write_count && b.udata == a.udata
            &&& other != iod_id ==> t.iods.contains_key(other) == s.iods.contains_key(other)
                && t.iods[other] == s.iods[other]
        }),
{
}

/// A cancelled event is still there, with all it has, but waits no longer. No
/// other event changes.
pub proof fn law_cancelled(s: PoolState, id: u64, other: u64)
    ensures
        ({
            let t = cancelled(s, id);
            &&& t == PoolState { events: t.events, ..s }
            &&& t.events.dom() == s.events.dom()
            &&& s.events.contains_key(id) ==> t.events[id].cancelled && t.events[id] == Event {
                cancelled: true,
                ..s.events[id]
            }
            &&& other != id ==> t.events[other] == s.events[other]
        }),
{
    assert(cancelled(s, id).events.dom() =~= s.events.dom());
}

/// A report takes its event out, and of a read keeps the bytes. It changes
/// nothing else. What is cancelled, or was never there, is not reported.
pub proof fn law_delivered(s: PoolState, id: u64)
    ensures
        ({
            let t = delivered(s, id);
            let waits = s.events.contains_key(id) && !s.events[id].cancelled;
            &&& t == PoolState { events: t.events, read_bufs: t.read_bufs, ..s }
            &&& !waits ==> t == s
            &&& waits ==> t.events == s.events.remove(id)
            &&& waits && s.events[id].kind != EventType::Read ==> t.read_bufs == s.read_bufs
            &&& waits && s.events[id].kind == EventType::Read ==> t.read_bufs
                == s.read_bufs.insert(id, s.events[id].buf)
        }),
{
}

/// What the end of a connection attempt does. Where events wait for it, it
/// completes the oldest: a success where a stream was connected, which the IOD
/// then has, with its peer; else an error, which leaves the IOD as it was. What
/// an earlier stream of the IOD gave is forgotten with a new one.
pub proof fn law_connect_result(s: PoolState, iod_id: u64, fd: i32, peer: Option<SocketAddr>, id: u64)
    requires
        s.events.contains_key(id),
        !s.events[id].cancelled,
        s.events[id].iod == Some(iod_id),
        s.events[id].kind == EventType::Connect,
        forall|k: u64| #[trigger]
            s.events.contains_key(k) && k < id ==> s.events[k].cancelled || s.events[k].iod != Some(
                iod_id,
            ) || s.events[k].kind != EventType::Connect,
        s.iods.contains_key(iod_id),
    ensures
        ({
            let (t, r) = obeyed(
                s,
                Cmd::ConnectResult(iod_id, ConnectOutcome::Connected { fd, peer }),
            );
            let a = s.iods[iod_id];
            let b = t.iods[iod_id];
            &&& r == Some((id, EventStatus::Success))
            &&& t == PoolState { events: t.events, iods: t.iods, surplus: t.surplus, ..s }
            &&& t.events == s.events.remove(id)
            &&& t.surplus == s.surplus.remove(iod_id)
            &&& t.iods == s.iods.insert(iod_id, b)
            &&& b.tcp == Some(fd) && b.kind == IodKind::Tcp && b.peer == peer && b.connected
            &&& b.id == a.id && b.udp == a.udp && b.hostname == a.hostname && b.read_count
                == a.read_count && b.write_count == a.write_count && b.udata == a.udata
        }),
        ({
            let (t, r) = obeyed(s, Cmd::ConnectResult(iod_id, ConnectOutcome::Failed));
            &&& r == Some((id, EventStatus::Error))
            &&& t == PoolState { events: s.events.remove(id), ..s }
        }),
{
    assert(oldest_connecting(s, iod_id, id)) by {
        assert forall|k: u64| #[trigger] connecting(s, iod_id, k) implies id <= k by {
            assert(s.events.contains_key(k));
        }
    }
    let c = choose|c: u64| oldest_connecting(s, iod_id, c);
    assert(oldest_connecting(s, iod_id, c));
    assert(connecting(s, iod_id, id) && connecting(s, iod_id, c));
    assert(c == id);
}

/// The end of an attempt that no event waits for does nothing. A request to stop
/// is noted and reports nothing.
pub proof fn law_commands_without_event(s: PoolState, iod_id: u64, out: ConnectOutcome)
    ensures
        obeyed(s, Cmd::Quit) == (PoolState { quit: true, ..s }, None::<(u64, EventStatus)>),
        (forall|k: u64| #[trigger]
            s.events.contains_key(k) ==> s.events[k].cancelled || s.events[k].iod != Some(iod_id)
                || s.events[k].kind != EventType::Connect) ==> obeyed(
            s,
            Cmd::ConnectResult(iod_id, out),
        ) == (s, None::<(u64, EventStatus)>),
{
    if exists|id: u64| oldest_connecting(s, iod_id, id) {
        let id = choose|id: u64| oldest_connecting(s, iod_id, id);
        assert(s.events.contains_key(id));
    }
}

/// Commands are taken note of in their order: those that came first are done
/// before the others, and what they report stands first.
pub proof fn law_commands_in_order(s: PoolState, a: Seq<Cmd>, b: Seq<Cmd>)
    ensures
        obeyed_all(s, a + b).0 == obeyed_all(obeyed_all(s, a).0, b).0,
        obeyed_all(s, a + b).1 == obeyed_all(s, a).1 + obeyed_all(obeyed_all(s, a).0, b).1,
    decreases b.len(),
{
    if b.len() == 0 {
        assert(a + b =~= a);
    } else {
        law_commands_in_order(s, a, b.drop_last());
        assert((a + b).drop_last() =~= a + b.drop_last());
    }
    assert(obeyed_all(s, a + b).1 =~= obeyed_all(s, a).1 + obeyed_all(obeyed_all(s, a).0, b).1);
}

/// Outcomes are taken in in their order, and so is what they decide.
pub proof fn law_outcomes_in_order(
    s: PoolState,
    a: Seq<(u64, IoOutcome)>,
    b: Seq<(u64, IoOutcome)>,
)
    ensures
        outcome_steps(s, a + b).0 == outcome_steps(outcome_steps(s, a).0, b).0,
        outcome_steps(s, a + b).1 == outcome_steps(s, a).1 + outcome_steps(
            outcome_steps(s, a).0,
            b,
        ).1,
    decreases b.len(),
{
    if b.len() == 0 {
        assert(a + b =~= a);
    } else {
        law_outcomes_in_order(s, a, b.drop_last());
        assert((a + b).drop_last() =~= a + b.drop_last());
    }
    assert(outcome_steps(s, a + b).1 =~= outcome_steps(s, a).1 + outcome_steps(
        outcome_steps(s, a).0,
        b,
    ).1);
}

/// Which operation an event asks for: a read or a write, of the kind of its IOD,
/// on the IOD's socket of that kind; a write with the bytes that are left to
/// send. Connections and timers ask for none, nor does a write without bytes or
/// an event whose IOD is gone or has no such socket.
pub proof fn law_operations(s: PoolState, id: u64, iod_id: u64)
    requires
        s.events.contains_key(id),
        s.events[id].iod == Some(iod_id),
        s.iods.contains_key(iod_id),
    ensures
        ({
            let e = s.events[id];
            let i = s.iods[iod_id];
            let o = operation(s, id);
            &&& e.kind == EventType::Read && i.kind == IodKind::Tcp && i.tcp is Some ==> o == Some(
                Operation::ReadTcp(i.tcp->0),
            )
            &&& e.kind == EventType::Read && i.kind == IodKind::Udp && i.udp is Some ==> o == Some(
                Operation::ReadUdp(i.udp->0),
            )
            &&& e.kind == EventType::Write && i.kind == IodKind::Tcp && i.tcp is Some && e.wbuf
                is Some ==> o == Some(Operation::WriteTcp(i.tcp->0, e.wbuf->0))
            &&& e.kind == EventType::Write && i.kind == IodKind::Udp && i.udp is Some && e.wbuf
                is Some ==> o == Some(Operation::WriteUdp(i.udp->0, e.wbuf->0))
            &&& e.kind == EventType::Connect || e.kind == EventType::Timer ==> o is None
            &&& e.kind == EventType::Write && e.wbuf is None ==> o is None
            &&& i.kind == IodKind::Tcp && i.tcp is None ==> o is None
            &&& i.kind == IodKind::Udp && i.udp is None ==> o is None
        }),
{
}

/// An event that has no IOD, or whose IOD is gone, asks for no operation, and no
/// outcome does anything to it. The same holds of an event that is not there.
pub proof fn law_no_iod(s: PoolState, id: u64, r: ReadOutcome, w: WriteOutcome)
    requires
        !s.events.contains_key(id) || s.events[id].iod is None || !s.iods.contains_key(
            s.events[id].iod->0,
        ),
    ensures
        operation(s, id) is None,
        read_step(s, id, r) == (s, None::<EventStatus>),
        write_step(s, id, w) == (s, None::<EventStatus>),
{
}

/// An operation is tried for every event that waits to be reported, asks for
/// one and is not due, and for no other.
pub proof fn law_wants_io(s: PoolState, id: u64, now: u64)
    ensures
        wants_io(s, id, now) <==> s.events.contains_key(id) && !s.events[id].cancelled
            && operation(s, id) is Some && (s.events[id].deadline is None
            || s.events[id].deadline->0 > now),
{
}

/// A datagram is sent as a whole: where it was sent, the write is a success, all
/// its bytes are counted and nothing is left to send.
pub proof fn law_datagram_write(s: PoolState, id: u64, iod_id: u64, n: usize)
    requires
        s.events.contains_key(id),
        s.events[id].iod == Some(iod_id),
        s.events[id].wbuf is Some,
        s.iods.contains_key(iod_id),
        s.iods[iod_id].kind == IodKind::Udp,
        s.iods[iod_id].udp is Some,
    ensures
        ({
            let (t, status) = write_step(s, id, WriteOutcome::Sent(n));
            &&& status == Some(EventStatus::Success)
            &&& t.events == s.events.insert(id, Event { wbuf: None, ..s.events[id] })
            &&& t.iods == s.iods.insert(
                iod_id,
                Iod {
                    write_count: s.iods[iod_id].write_count.wrapping_add(
                        s.events[id].wbuf->0.len() as u64,
                    ),
                    ..s.iods[iod_id]
                },
            )
            &&& t == PoolState { events: t.events, iods: t.iods, ..s }
        }),
{
}

/// What becomes of a write that sends nothing, of either kind: it goes on
/// waiting where the socket is not ready, and is an error where sending failed.
/// A stream that takes no byte has ended.
pub proof fn law_no_write(s: PoolState, id: u64, iod_id: u64)
    requires
        s.events.contains_key(id),
        s.events[id].iod == Some(iod_id),
        s.events[id].wbuf is Some,
        s.iods.contains_key(iod_id),
        s.iods[iod_id].kind == IodKind::Tcp ==> s.iods[iod_id].tcp is Some,
        s.iods[iod_id].kind == IodKind::Udp ==> s.iods[iod_id].udp is Some,
    ensures
        write_step(s, id, WriteOutcome::WouldBlock) == (s, None::<EventStatus>),
        write_step(s, id, WriteOutcome::Failed) == (s, Some(EventStatus::Error)),
        s.iods[iod_id].kind == IodKind::Tcp ==> write_step(s, id, WriteOutcome::Sent(0)) == (
            s,
            Some(EventStatus::Eof),
        ),
{
}

/// A write to a stream changes the event's bytes and the IOD's count, and
/// nothing else of the pool.
pub proof fn law_stream_write_frame(s: PoolState, id: u64, iod_id: u64, n: usize)
    requires
        s.events.contains_key(id),
        s.events[id].iod == Some(iod_id),
        s.events[id].wbuf is Some,
        s.iods.contains_key(iod_id),
        s.iods[iod_id].kind == IodKind::Tcp,
        s.iods[iod_id].tcp is Some,
        0 < n <= s.events[id].wbuf->0.len(),
    ensures
        ({
            let t = write_step(s, id, WriteOutcome::Sent(n)).0;
            let data = s.events[id].wbuf->0;
            &&& t == PoolState { events: t.events, iods: t.iods, ..s }
            &&& t.events == s.events.insert(id, Event { wbuf: t.events[id].wbuf, ..s.events[id] })
            &&& t.iods == s.iods.insert(
                iod_id,
                Iod { write_count: t.iods[iod_id].write_count, ..s.iods[iod_id] },
            )
            &&& n == data.len() ==> t.events[id].wbuf is None
            &&& n < data.len() ==> t.events[id].wbuf == Some(
                data.subrange(n as int, data.len() as int),
            )
        }),
{
    let data = s.events[id].wbuf->0;
    assert(data.skip(n as int) =~= data.subrange(n as int, data.len() as int));
}

/// What a stream gives, and what becomes of a read that it gives nothing to: it
/// goes on waiting where the socket is not ready, has ended where the stream
/// has, and is an error where receiving failed. Nothing else changes.
pub proof fn law_stream_silent(s: PoolState, id: u64, iod_id: u64, data: Vec<u8>)
    requires
        s.events.contains_key(id),
        s.events[id].iod == Some(iod_id),
        s.iods.contains_key(iod_id),
        s.iods[iod_id].kind == IodKind::Tcp,
        s.iods[iod_id].tcp is Some,
        !s.surplus.contains_key(iod_id),
    ensures
        bytes_in(ReadOutcome::Data(data)) == data@,
        bytes_in(ReadOutcome::WouldBlock).len() == 0,
        bytes_in(ReadOutcome::Failed).len() == 0,
        data@.len() == 0 ==> read_step(s, id, ReadOutcome::Data(data)) == (
            s,
            Some(EventStatus::Eof),
        ),
        read_step(s, id, ReadOutcome::WouldBlock) == (s, None::<EventStatus>),
        read_step(s, id, ReadOutcome::Failed) == (s, Some(EventStatus::Error)),
{
}

/// Where bytes of an earlier read are left and the stream gives nothing more, a
/// plain read takes them. It is a success where they are enough, and else what
/// it would be without them.
pub proof fn law_stream_left_over(s: PoolState, id: u64, iod_id: u64, data: Vec<u8>)
    requires
        s.events.contains_key(id),
        s.events[id].iod == Some(iod_id),
        !s.events[id].line_read,
        s.iods.contains_key(iod_id),
        s.iods[iod_id].kind == IodKind::Tcp,
        s.iods[iod_id].tcp is Some,
        s.surplus.contains_key(iod_id),
        s.surplus[iod_id].len() > 0,
        data@.len() == 0,
    ensures
        ({
            let all = s.events[id].buf + s.surplus[iod_id];
            let enough = all.len() >= s.events[id].target;
            let (t, status) = read_step(s, id, ReadOutcome::Data(data));
            let (u, waiting) = read_step(s, id, ReadOutcome::WouldBlock);
            let (v, failed) = read_step(s, id, ReadOutcome::Failed);
            &&& t.events[id].buf == all && u.events[id].buf == all && v.events[id].buf == all
            &&& !t.surplus.contains_key(iod_id) && !u.surplus.contains_key(iod_id)
                && !v.surplus.contains_key(iod_id)
            &&& enough ==> status == Some(EventStatus::Success) && waiting == Some(
                EventStatus::Success,
            ) && failed == Some(EventStatus::Success)
            &&& !enough ==> status == Some(EventStatus::Eof) && waiting is None && failed == Some(
                EventStatus::Error,
            )
        }),
{
    let all = s.events[id].buf + s.surplus[iod_id];
    let none = Seq::<u8>::empty();
    assert(s.events[id].buf + s.surplus[iod_id] + none =~= all);
    assert(s.events[id].buf + s.surplus[iod_id] + data@ =~= all);
    assert(all.take(all.len() as int) =~= all);
    assert(all.skip(all.len() as int).len() == 0);
}

/// A read from a stream changes the event's bytes, what is left of the stream
/// and the IOD's count, and nothing else of the pool.
pub proof fn law_stream_read_frame(s: PoolState, id: u64, iod_id: u64, out: ReadOutcome)
    requires
        s.events.contains_key(id),
        s.events[id].iod == Some(iod_id),
        s.iods.contains_key(iod_id),
        s.iods[iod_id].kind == IodKind::Tcp,
        s.iods[iod_id].tcp is Some,
    ensures
        ({
            let t = read_step(s, id, out).0;
            &&& t == PoolState { events: t.events, iods: t.iods, surplus: t.surplus, ..s }
            &&& t.events == s.events.insert(id, Event { buf: t.events[id].buf, ..s.events[id] })
            &&& t.iods == s.iods.insert(
                iod_id,
                Iod { read_count: t.iods[iod_id].read_count, ..s.iods[iod_id] },
            )
            &&& t.surplus.remove(iod_id) == s.surplus.remove(iod_id)
            &&& surplus_of(s, iod_id) == (if s.surplus.contains_key(iod_id) {
                s.surplus[iod_id]
            } else {
                seq![]
            })
        }),
{
    let t = read_step(s, id, out).0;
    assert(t.events =~= s.events.insert(id, Event { buf: t.events[id].buf, ..s.events[id] }));
    assert(t.iods =~= s.iods.insert(
        iod_id,
        Iod { read_count: t.iods[iod_id].read_count, ..s.iods[iod_id] },
    ));
    assert(t.surplus.remove(iod_id) =~= s.surplus.remove(iod_id));
}

/// What follows a pass. Where nothing waits to be reported the loop is over for
/// that; else where it was asked to stop; else where its limit has passed. Else
/// it sleeps, for at most five milliseconds, never beyond the deadline of an
/// event that waits, and less than five only because of one.
pub proof fn law_pass_end(
    s: PoolState,
    elapsed: u64,
    limit: Option<u64>,
    now: u64,
    end: PassEnd,
    id: u64,
)
    requires
        ends_pass(s, elapsed, limit, now, end),
    ensures
        (forall|k: u64| #[trigger] s.events.contains_key(k) ==> s.events[k].cancelled) ==> end
            == PassEnd::Return(LoopStatus::NoEvents),
        s.events.contains_key(id) && !s.events[id].cancelled ==> {
            &&& s.quit ==> end == PassEnd::Return(LoopStatus::Quit)
            &&& !s.quit && limit is Some && limit->0 <= elapsed ==> end == PassEnd::Return(
                LoopStatus::Timeout,
            )
            &&& !s.quit && (limit is None || limit->0 > elapsed) ==> end is Sleep
        },
        end matches PassEnd::Sleep(nap) ==> {
            &&& nap <= 5_000_000
            &&& s.events.contains_key(id) && !s.events[id].cancelled && s.events[id].deadline is Some
                ==> nap == 0 || now + nap <= s.events[id].deadline->0
            &&& nap < 5_000_000 ==> exists|k: u64| #[trigger]
                s.live(k) && s.events[k].deadline is Some && s.events[k].deadline->0 <= now + nap
        },
{
    if exists|k: u64| s.live(k) {
        let k = choose|k: u64| s.live(k);
        assert(s.events.contains_key(k));
    }
    if s.events.contains_key(id) && !s.events[id].cancelled {
        assert(s.live(id));
    }
    if exists|k: u64| #[trigger] s.live(k) && s.events[k].deadline is Some {
        let k = choose|k: u64| #[trigger] s.live(k) && s.events[k].deadline is Some;
        let d = lemma_nearest(s, k, s.events[k].deadline->0);
        assert(is_nearest(s, d));
        let n = choose|n: u64| #[trigger] s.live(n) && s.events[n].deadline == Some(d);
        assert(s.live(n));
    }
}

/// Where an event that waits has a deadline, one of them is the nearest.
proof fn lemma_nearest(s: PoolState, k: u64, d: u64) -> (n: u64)
    requires
        s.live(k),
        s.events[k].deadline == Some(d),
    ensures
        is_nearest(s, n),
    decreases d,
{
    if exists|j: u64| #[trigger]
        s.live(j) && s.events[j].deadline is Some && s.events[j].deadline->0 < d {
        let j = choose|j: u64| #[trigger]
            s.live(j) && s.events[j].deadline is Some && s.events[j].deadline->0 < d;
        lemma_nearest(s, j, s.events[j].deadline->0)
    } else {
        d
    }
}

/// An IOD that is deleted takes what its stream gave and all events that belong
/// to it; the rest of the pool stays as it was.
pub proof fn law_without_iod(s: PoolState, iod_id: u64, id: u64)
    ensures
        ({
            let t = without_iod(s, iod_id);
            &&& t == PoolState { iods: t.iods, surplus: t.surplus, events: t.events, ..s }
            &&& t.iods == s.iods.remove(iod_id)
            &&& t.surplus == s.surplus.remove(iod_id)
            &&& t.events.contains_key(id) <==> s.events.contains_key(id) && s.events[id].iod != Some(
                iod_id,
            )
        }),
{
}

} // verus!
