//! Packet transmission queue.
//!
//! Packets are staged in a queue and then transmitted in one burst. The queue
//! has a fixed size: its capacity in bytes is reserved when it is made, and
//! staging more than it holds fails.

use vstd::prelude::*;

use crate::savefile::{Packet, PcapPacket};
use crate::text::{decimal, push_decimal};

verus! {

/// Packets with their frames as byte sequences.
pub open spec fn packets(s: Seq<PcapPacket>) -> Seq<Packet> {
    s.map_values(|p: PcapPacket| p@)
}

/// The bytes of all frames together.
pub open spec fn total_bytes(s: Seq<Packet>) -> nat
    decreases s.len(),
{
    if s.len() == 0 {
        0
    } else {
        total_bytes(s.drop_last()) + s.last().data.len()
    }
}

/// Why a packet does not fit.
pub open spec fn full_text(bytes: int, need: int, capacity: int) -> Seq<char> {
    "sendqueue: queue full ("@ + decimal(bytes) + " bytes queued + "@ + decimal(need)
        + " requested exceeds capacity "@ + decimal(capacity) + ")"@
}

/// A fixed-capacity queue of packets ready to be transmitted.
#[derive(Clone, Debug)]
pub struct Sendqueue {
    /// Reserved capacity in bytes.
    capacity: u32,
    /// Total bytes queued so far.
    bytes: u32,
    /// The staged packets.
    pkts: Vec<PcapPacket>,
}

/// What a queue holds.
#[verifier::ext_equal]
pub struct Queue {
    pub capacity: u32,
    pub pkts: Seq<Packet>,
}

impl View for Sendqueue {
    type V = Queue;

    closed spec fn view(&self) -> Queue {
        Queue { capacity: self.capacity, pkts: packets(self.pkts@) }
    }
}

impl Sendqueue {
    /// The bytes are counted, and there are no more than the capacity.
    pub closed spec fn wf(&self) -> bool {
        self.bytes == total_bytes(self@.pkts) && self.bytes <= self.capacity
    }

    /// A queue never holds more bytes than its capacity.
    pub proof fn law_within_capacity(&self)
        requires
            self.wf(),
        ensures
            total_bytes(self@.pkts) <= self@.capacity,
    {
    }

    /// Allocate a send queue with a maximum capacity of `capacity` bytes.
    pub fn new(capacity: u32) -> (r: Self)
        ensures
            r.wf(),
            r@ == (Queue { capacity, pkts: Seq::empty() }),
    {
        let r: Sendqueue = Sendqueue { capacity, bytes: 0, pkts: Vec::new() };
        assert(r@.pkts =~= Seq::<Packet>::empty());
        r
    }

    /// Add a packet to the queue. The packet's frame (`data`) bytes count
    /// against the queue's capacity. Returns an error if adding it would exceed
    /// the reserved capacity.
    pub fn add(&mut self, pkt: PcapPacket) -> (r: Result<(), String>)
        requires
            old(self).wf(),
        ensures
            final(self).wf(),
            match r {
                Ok(_) => total_bytes(old(self)@.pkts) + pkt@.data.len() <= old(self)@.capacity
                    && final(self)@ == (Queue { pkts: old(self)@.pkts.push(pkt@), ..old(self)@ }),
                Err(e) => total_bytes(old(self)@.pkts) + pkt@.data.len() > old(self)@.capacity
                    && final(self)@ == old(self)@ && e@ == full_text(
                    total_bytes(old(self)@.pkts) as int,
                    pkt@.data.len() as int,
                    old(self)@.capacity as int,
                ),
            },
    {
        let need: usize = pkt.data.len();
        if need as u64 > (self.capacity - self.bytes) as u64 {
            let mut e: String = String::new();
            e.append("sendqueue: queue full (");
            push_decimal(&mut e, self.bytes as u64);
            e.append(" bytes queued + ");
            push_decimal(&mut e, need as u64);
            e.append(" requested exceeds capacity ");
            push_decimal(&mut e, self.capacity as u64);
            e.append(")");
            assert(e@ =~= full_text(self.bytes as int, need as int, self.capacity as int));
            return Err(e);
        }
        self.bytes = self.bytes + need as u32;
        let ghost before = self.pkts@;
        self.pkts.push(pkt);
        assert(packets(self.pkts@) =~= packets(before).push(pkt@));
        assert(self@.pkts.drop_last() =~= old(self)@.pkts);
        Ok(())
    }

    /// Add a packet by its fields.
    pub fn add_raw(&mut self, ts_sec: u32, ts_frac: u32, data: Vec<u8>) -> (r: Result<(), String>)
        requires
            old(self).wf(),
        ensures
            final(self).wf(),
            match r {
                Ok(_) => total_bytes(old(self)@.pkts) + data@.len() <= old(self)@.capacity
                    && final(self)@ == (Queue {
                    pkts: old(self)@.pkts.push(
                        Packet {
                            ts_sec,
                            ts_frac,
                            caplen: data@.len() as u32,
                            origlen: data@.len() as u32,
                            pkttype: 0,
                            data: data@,
                        },
                    ),
                    ..old(self)@
                }),
                Err(e) => total_bytes(old(self)@.pkts) + data@.len() > old(self)@.capacity
                    && final(self)@ == old(self)@ && e@ == full_text(
                    total_bytes(old(self)@.pkts) as int,
                    data@.len() as int,
                    old(self)@.capacity as int,
                ),
            },
    {
        let n: u32 = data.len() as u32;
        self.add(PcapPacket { ts_sec, ts_frac, caplen: n, origlen: n, pkttype: 0, data })
    }

    /// Remove all staged packets.
    pub fn clear(&mut self)
        requires
            old(self).wf(),
        ensures
            final(self).wf(),
            final(self)@ == (Queue { pkts: Seq::empty(), ..old(self)@ }),
    {
        self.pkts.clear();
        self.bytes = 0;
        assert(self@.pkts =~= Seq::<Packet>::empty());
    }

    /// Number of packets queued.
    pub fn len(&self) -> (r: usize)
        ensures
            r == self@.pkts.len(),
    {
        self.pkts.len()
    }

    /// Whether the queue is empty.
    pub fn is_empty(&self) -> (r: bool)
        ensures
            r == (self@.pkts.len() == 0),
    {
        self.pkts.len() == 0
    }

    /// Total capacity in bytes.
    pub fn capacity(&self) -> (r: u32)
        ensures
            r == self@.capacity,
    {
        self.capacity
    }

    /// Bytes queued so far.
    pub fn bytes_queued(&self) -> (r: u32)
        requires
            self.wf(),
        ensures
            r == total_bytes(self@.pkts),
    {
        self.bytes
    }

    /// Bytes of capacity still available.
    pub fn remaining(&self) -> (r: u32)
        requires
            self.wf(),
        ensures
            r == self@.capacity - total_bytes(self@.pkts),
    {
        self.capacity - self.bytes
    }

    /// The staged packets, in the order in which they are transmitted.
    pub fn entries(&self) -> (r: &[PcapPacket])
        ensures
            packets(r@) == self@.pkts,
    {
        self.pkts.as_slice()
    }
}

/// The bytes of all frames are counted: those of each list, and those of each
/// frame in it.
pub proof fn law_total_bytes(a: Seq<Packet>, b: Seq<Packet>)
    ensures
        total_bytes(a + b) == total_bytes(a) + total_bytes(b),
        a.len() == 0 ==> total_bytes(a) == 0,
        a.len() == 1 ==> total_bytes(a) == a[0].data.len(),
    decreases b.len(),
{
    if b.len() == 0 {
        assert(a + b =~= a);
    } else {
        law_total_bytes(a, b.drop_last());
        assert((a + b).drop_last() =~= a + b.drop_last());
    }
    if a.len() == 1 {
        reveal_with_fuel(total_bytes, 2);
    }
}

/// Why a packet does not fit, in words.
pub proof fn law_full_text(bytes: int, need: int, capacity: int)
    ensures
        full_text(bytes, need, capacity) == "sendqueue: queue full ("@ + decimal(bytes)
            + " bytes queued + "@ + decimal(need) + " requested exceeds capacity "@ + decimal(
            capacity,
        ) + ")"@,
{
}

} // verus!
