//! Routing table operations.
//!
//! The live kernel table is owned by the operating system; as with the ARP
//! table in [`crate::arp`], this is a portable, userspace data model for the
//! same operations, plus the decisions of an unprivileged lookup of the route
//! that a packet to a given destination would take.

use vstd::prelude::*;

use crate::addr::{
    bit, law_bits_decide, law_network_bits, mask_of, network_of, stored_len, Addr, Address,
    ADDR_TYPE_IP, ADDR_TYPE_IP6, ADDR_TYPE_NONE,
};
use crate::intf::{
    addr_to_sockaddr, addresses, interfaces, sockaddr_to_addr, socket_ip, Interface, IntfEntry,
};
use crate::ip::SocketAddr;
use crate::text::{decimal, push_decimal};
use crate::wire::same_bytes;

verus! {

/// A single routing-table entry.
#[derive(Clone, Copy, Debug, PartialEq, Eq)]
pub struct RouteEntry {
    /// Destination address (with prefix length in `addr_bits`).
    pub dst: Addr,
    /// Gateway (next-hop) address.
    pub gw: Addr,
}

/// Whether no destination has two routes.
pub open spec fn distinct(s: Seq<RouteEntry>) -> bool {
    forall|i: int, j: int| 0 <= i < j < s.len() ==> (#[trigger] s[i]).dst != (#[trigger] s[j]).dst
}

/// Where the route to a destination is.
pub open spec fn position(s: Seq<RouteEntry>, dst: Addr) -> Option<int>
    decreases s.len(),
{
    if s.len() == 0 {
        None
    } else if s.last().dst == dst {
        Some(s.len() - 1)
    } else {
        position(s.drop_last(), dst)
    }
}

/// The gateway of the route to a destination.
pub open spec fn gateway(s: Seq<RouteEntry>, dst: Addr) -> Option<Addr> {
    match position(s, dst) {
        Some(i) => Some(s[i].gw),
        None => None,
    }
}

/// The routes with one added at the end, or put in place of the one that has
/// its destination.
pub open spec fn added(s: Seq<RouteEntry>, e: RouteEntry) -> Seq<RouteEntry> {
    match position(s, e.dst) {
        Some(i) => s.update(i, e),
        None => s.push(e),
    }
}

/// The routes without those to a destination, in their order.
pub open spec fn deleted(s: Seq<RouteEntry>, dst: Addr) -> Seq<RouteEntry>
    decreases s.len(),
{
    if s.len() == 0 {
        Seq::empty()
    } else if s.last().dst == dst {
        deleted(s.drop_last(), dst)
    } else {
        deleted(s.drop_last(), dst).push(s.last())
    }
}

/// Whether an address lies within the network that another describes: same
/// family, and the same bits up to the prefix length.
pub open spec fn covers(net: Address, a: Address) -> bool {
    &&& net.addr_type == a.addr_type
    &&& net.addr_type != ADDR_TYPE_NONE
    &&& network_of(net).data == network_of(Address { addr_bits: net.addr_bits, ..a }).data
}

/// Whether the route at `i` is the one to take: it covers the address, no
/// other that does has a longer prefix, and no later one an equally long one.
pub open spec fn best_route(s: Seq<RouteEntry>, a: Address, i: int) -> bool {
    &&& 0 <= i < s.len()
    &&& covers(s[i].dst@, a)
    &&& forall|j: int|
        0 <= j < s.len() && covers((#[trigger] s[j]).dst@, a) ==> s[j].dst.addr_bits
            < s[i].dst.addr_bits || (s[j].dst.addr_bits == s[i].dst.addr_bits && j <= i)
}

/// A found position holds the destination, and where none is found no route
/// does.
proof fn lemma_position(s: Seq<RouteEntry>, dst: Addr)
    ensures
        match position(s, dst) {
            Some(i) => 0 <= i < s.len() && s[i].dst == dst,
            None => forall|i: int| 0 <= i < s.len() ==> (#[trigger] s[i]).dst != dst,
        },
    decreases s.len(),
{
    if s.len() > 0 && s.last().dst != dst {
        lemma_position(s.drop_last(), dst);
        if position(s.drop_last(), dst) is None {
            assert forall|i: int| 0 <= i < s.len() implies (#[trigger] s[i]).dst != dst by {
                if i < s.len() - 1 {
                    assert(s[i] == s.drop_last()[i]);
                }
            }
        }
    }
}

/// Every route that is left was there before, and not to the destination.
proof fn lemma_deleted(s: Seq<RouteEntry>, dst: Addr)
    ensures
        forall|i: int|
            0 <= i < deleted(s, dst).len() ==> (#[trigger] deleted(s, dst)[i]).dst != dst
                && s.contains(deleted(s, dst)[i]),
        distinct(s) ==> distinct(deleted(s, dst)),
    decreases s.len(),
{
    if s.len() > 0 {
        let b = s.drop_last();
        lemma_deleted(b, dst);
        let d = deleted(s, dst);
        assert forall|i: int| 0 <= i < d.len() implies (#[trigger] d[i]).dst != dst && s.contains(
            d[i],
        ) by {
            if i < deleted(b, dst).len() {
                assert(d[i] == deleted(b, dst)[i]);
                let k = choose|k: int| 0 <= k < b.len() && b[k] == d[i];
                assert(s[k] == d[i]);
            } else {
                assert(s[s.len() - 1] == d[i]);
            }
        }
        if distinct(s) {
            assert forall|i: int, j: int| 0 <= i < j < b.len() implies (#[trigger] b[i]).dst != (
            #[trigger] b[j]).dst by {
                assert(s[i].dst != s[j].dst);
            }
            assert forall|i: int, j: int| 0 <= i < j < d.len() implies (#[trigger] d[i]).dst != (
            #[trigger] d[j]).dst by {
                let db = deleted(b, dst);
                if j < db.len() {
                    assert(d[i] == db[i] && d[j] == db[j]);
                } else {
                    assert(d[i] == db[i]);
                    let k = choose|k: int| 0 <= k < b.len() && b[k] == db[i];
                    assert(s[k].dst != s[s.len() - 1].dst);
                }
            }
        }
    }
}

/// After a route is added, its destination has its gateway and every other
/// destination is as before; no destination gets a second route.
pub proof fn law_route_add(s: Seq<RouteEntry>, e: RouteEntry, dst: Addr)
    requires
        distinct(s),
    ensures
        distinct(added(s, e)),
        gateway(added(s, e), dst) == (if dst == e.dst {
            Some(e.gw)
        } else {
            gateway(s, dst)
        }),
{
    let t = added(s, e);
    lemma_position(s, e.dst);
    lemma_position(s, dst);
    lemma_position(t, dst);
    match position(s, e.dst) {
        Some(k) => {
            assert forall|i: int| 0 <= i < s.len() implies (#[trigger] t[i]).dst == s[i].dst by {}
            assert(t[k] == e);
        },
        None => {
            assert(t[s.len() as int] == e);
            assert forall|i: int| 0 <= i < s.len() implies #[trigger] t[i] == s[i] by {}
        },
    }
    assert(distinct(t)) by {
        assert forall|i: int, j: int| 0 <= i < j < t.len() implies (#[trigger] t[i]).dst != (
        #[trigger] t[j]).dst by {
            if j < s.len() {
                assert(s[i].dst != s[j].dst);
            }
        }
    }
    match position(s, dst) {
        Some(i) => {
            assert(t[i].dst == dst);
        },
        None => {},
    }
}

/// After a destination is deleted it has no route, and every other destination
/// is as before.
pub proof fn law_route_delete(s: Seq<RouteEntry>, gone: Addr, dst: Addr)
    requires
        distinct(s),
    ensures
        distinct(deleted(s, gone)),
        gateway(deleted(s, gone), dst) == (if dst == gone {
            None
        } else {
            gateway(s, dst)
        }),
    decreases s.len(),
{
    lemma_deleted(s, gone);
    let d = deleted(s, gone);
    if s.len() > 0 {
        let b = s.drop_last();
        assert(distinct(b)) by {
            assert forall|i: int, j: int| 0 <= i < j < b.len() implies (#[trigger] b[i]).dst != (
            #[trigger] b[j]).dst by {
                assert(s[i].dst != s[j].dst);
            }
        }
        law_route_delete(b, gone, dst);
        lemma_position(b, dst);
        if s.last().dst != gone {
            assert(d.drop_last() =~= deleted(b, gone));
            lemma_position(deleted(b, gone), dst);
        }
    }
}

/// The default route of a family, with no prefix bits, covers every address of
/// that family and none of another.
pub proof fn law_default_route(net: Address, a: Address)
    requires
        net.addr_bits == 0,
        net.addr_type != ADDR_TYPE_NONE,
        net.data.len() == 16,
        a.data.len() == 16,
    ensures
        covers(net, a) <==> net.addr_type == a.addr_type,
{
    let n = network_of(net).data;
    let m = network_of(Address { addr_bits: 0, ..a }).data;
    assert forall|i: int| 0 <= i < 16 implies #[trigger] n[i] == 0 && m[i] == 0 by {
        assert(mask_of(0)[i] == 0);
        let x = net.data[i];
        let y = a.data[i];
        assert(x & 0u8 == 0 && y & 0u8 == 0) by (bit_vector);
    }
    assert(n =~= m);
}

/// Clearing the bits behind the prefix of a network changes nothing of what it
/// covers, and the cleared network covers the address that it was made from.
pub proof fn law_network_covers(net: Address, a: Address)
    requires
        net.data.len() == 16,
    ensures
        covers(network_of(net), a) == covers(net, a),
        net.addr_type != ADDR_TYPE_NONE ==> covers(network_of(net), net),
{
    crate::addr::law_network_broadcast(net);
}

/// An in-memory routing table.
///
/// The real routing table is maintained by the operating system kernel. This
/// structure models the same operations for user-space coordination, in the
/// same way [`crate::arp::ArpCache`] models the ARP table.
#[derive(Debug)]
pub struct RouteTable {
    entries: Vec<RouteEntry>,
}

impl View for RouteTable {
    type V = Seq<RouteEntry>;

    closed spec fn view(&self) -> Seq<RouteEntry> {
        self.entries@
    }
}

impl Default for RouteTable {
    fn default() -> (r: Self)
        ensures
            r@ == Seq::<RouteEntry>::empty(),
    {
        RouteTable { entries: Vec::new() }
    }
}

impl RouteTable {
    /// No destination has two routes.
    pub open spec fn well_formed(&self) -> bool {
        distinct(self@)
    }

    pub fn new() -> (r: Self)
        ensures
            r@ == Seq::<RouteEntry>::empty(),
            r.well_formed(),
    {
        RouteTable::default()
    }

    /// Add or replace a route.
    pub fn add(&mut self, entry: RouteEntry)
        requires
            old(self).well_formed(),
        ensures
            final(self)@ == added(old(self)@, entry),
            final(self).well_formed(),
    {
        proof {
            law_route_add(self@, entry, entry.dst);
            lemma_position(self@, entry.dst);
        }
        match self.find(&entry.dst) {
            Some(i) => {
                self.entries[i].gw = entry.gw;
                assert(self@ =~= added(old(self)@, entry));
            },
            None => {
                self.entries.push(entry);
            },
        }
    }

    /// Add a route bound to a specific device. A device-scoped route is stored
    /// with its destination network.
    pub fn add_dev(&mut self, entry: RouteEntry)
        requires
            old(self).well_formed(),
        ensures
            exists|net: Addr|
                net@ == network_of(entry.dst@) && final(self)@ == #[trigger] added(
                    old(self)@,
                    RouteEntry { dst: net, gw: entry.gw },
                ),
            final(self).well_formed(),
    {
        let net: RouteEntry = RouteEntry { dst: entry.dst.network(), gw: entry.gw };
        self.add(net);
    }

    /// Delete a route by destination.
    pub fn delete(&mut self, dst: &Addr)
        requires
            old(self).well_formed(),
        ensures
            final(self)@ == deleted(old(self)@, *dst),
            final(self).well_formed(),
    {
        proof {
            lemma_deleted(self@, *dst);
        }
        let mut kept: Vec<RouteEntry> = Vec::new();
        let mut i: usize = 0;
        while i < self.entries.len()
            invariant
                i <= self.entries@.len(),
                self.entries@ == old(self)@,
                kept@ == deleted(self.entries@.take(i as int), *dst),
            decreases self.entries@.len() - i,
        {
            let e: RouteEntry = self.entries[i];
            assert(self.entries@.take(i + 1).drop_last() =~= self.entries@.take(i as int));
            if e.dst != *dst {
                kept.push(e);
            }
            i = i + 1;
        }
        assert(self.entries@.take(self.entries@.len() as int) =~= self.entries@);
        self.entries = kept;
    }

    /// Where the route to a destination is.
    fn find(&self, dst: &Addr) -> (r: Option<usize>)
        ensures
            match r {
                Some(i) => position(self@, *dst) == Some(i as int) && i < self@.len(),
                None => position(self@, *dst) is None,
            },
    {
        let mut i: usize = self.entries.len();
        assert(self.entries@.take(i as int) =~= self.entries@);
        while i > 0
            invariant
                i <= self.entries@.len(),
                position(self@, *dst) == position(self.entries@.take(i as int), *dst),
            decreases i,
        {
            assert(self.entries@.take(i as int).drop_last() =~= self.entries@.take(i - 1));
            i = i - 1;
            if self.entries[i].dst == *dst {
                return Some(i);
            }
        }
        None
    }

    /// Look up the route for a destination: the most specific (longest-prefix)
    /// matching entry.
    pub fn get(&self, dst: &Addr) -> (r: Option<&RouteEntry>)
        ensures
            match r {
                Some(e) => exists|i: int| #[trigger] best_route(self@, dst@, i) && *e == self@[i],
                None => forall|i: int|
                    0 <= i < self@.len() ==> !covers((#[trigger] self@[i]).dst@, dst@),
            },
    {
        let mut best: Option<usize> = None;
        let mut i: usize = 0;
        while i < self.entries.len()
            invariant
                i <= self.entries@.len(),
                match best {
                    Some(b) => b < i && best_route(self.entries@.take(i as int), dst@, b as int),
                    None => forall|j: int|
                        0 <= j < i ==> !covers((#[trigger] self.entries@[j]).dst@, dst@),
                },
            decreases self.entries@.len() - i,
        {
            let ghost s = self.entries@.take(i as int);
            let ghost t = self.entries@.take(i + 1);
            assert forall|j: int| 0 <= j < i implies #[trigger] t[j] == s[j] by {}
            assert(t[i as int] == self.entries@[i as int]);
            let e: &RouteEntry = &self.entries[i];
            if net_contains(&e.dst, dst) {
                let longer: bool = match best {
                    Some(b) => e.dst.addr_bits >= self.entries[b].dst.addr_bits,
                    None => true,
                };
                if longer {
                    proof {
                        assert(best_route(t, dst@, i as int)) by {
                            assert forall|j: int|
                                0 <= j < t.len() && covers((#[trigger] t[j]).dst@, dst@) implies t[
                                j
                            ].dst.addr_bits < t[i as int].dst.addr_bits || (t[j].dst.addr_bits
                                == t[i as int].dst.addr_bits && j <= i) by {
                                if j < i {
                                    assert(t[j] == s[j]);
                                    assert(covers(self.entries@[j].dst@, dst@));
                                }
                            }
                        }
                    }
                    best = Some(i);
                }
            }
            proof {
                match best {
                    Some(b) => {
                        if b < i {
                            assert(best_route(t, dst@, b as int)) by {
                                assert forall|j: int|
                                    0 <= j < t.len() && covers(
                                        (#[trigger] t[j]).dst@,
                                        dst@,
                                    ) implies t[j].dst.addr_bits < t[b as int].dst.addr_bits || (t[
                                    j
                                ].dst.addr_bits == t[b as int].dst.addr_bits && j <= b) by {
                                    if j < i {
                                        assert(t[j] == s[j]);
                                    }
                                }
                            }
                        }
                    },
                    None => {},
                }
            }
            i = i + 1;
        }
        assert(self.entries@.take(self.entries@.len() as int) =~= self.entries@);
        match best {
            Some(b) => {
                assert(best_route(self@, dst@, b as int));
                Some(&self.entries[b])
            },
            None => None,
        }
    }

    /// All routes, in the order in which they came.
    pub fn entries(&self) -> (r: &[RouteEntry])
        ensures
            r@ == self@,
    {
        self.entries.as_slice()
    }

    pub fn len(&self) -> (r: usize)
        ensures
            r == self@.len(),
    {
        self.entries.len()
    }

    pub fn is_empty(&self) -> (r: bool)
        ensures
            r == (self@.len() == 0),
    {
        self.entries.len() == 0
    }
}

/// True if `addr` lies within the network described by `net` (same family,
/// matching prefix bits).
pub fn net_contains(net: &Addr, addr: &Addr) -> (r: bool)
    ensures
        r == covers(net@, addr@),
{
    if net.addr_type != addr.addr_type || net.addr_type == ADDR_TYPE_NONE {
        return false;
    }
    let net_net: Addr = net.network();
    let mut host: Addr = *addr;
    host.addr_bits = net.addr_bits;
    let addr_net: Addr = host.network();
    same_bytes(net_net.data.as_slice(), addr_net.data.as_slice())
}

/// Whether an interface has an address, as its primary one or an alias.
pub open spec fn has_addr(i: Interface, a: Address) -> bool {
    i.addr == a || i.alias_addrs.contains(a)
}

/// The name of the first interface that has an address, or `?`.
pub open spec fn name_for(list: Seq<Interface>, a: Address) -> Seq<char>
    decreases list.len(),
{
    if list.len() == 0 {
        "?"@
    } else if has_addr(list[0], a) {
        list[0].name
    } else {
        name_for(list.skip(1), a)
    }
}

/// Whether an interface has an address.
fn entry_has_addr(e: &IntfEntry, a: &Addr) -> (r: bool)
    ensures
        r == has_addr(e@, a@),
{
    let ghost all = addresses(e.alias_addrs@);
    proof {
        crate::addr::lemma_same_addr(e.addr, *a);
    }
    if e.addr == *a {
        return true;
    }
    let mut i: usize = 0;
    while i < e.alias_addrs.len()
        invariant
            i <= e.alias_addrs@.len(),
            all == addresses(e.alias_addrs@),
            forall|k: int| 0 <= k < i ==> all[k] != a@,
        decreases e.alias_addrs@.len() - i,
    {
        proof {
            crate::addr::lemma_same_addr(e.alias_addrs@[i as int], *a);
        }
        assert(all[i as int] == e.alias_addrs@[i as int]@);
        if e.alias_addrs[i] == *a {
            return true;
        }
        i = i + 1;
    }
    false
}

/// The route the kernel would use to reach `dst`: the interface that has the
/// source address, and that address.
///
/// `local` is the address of a datagram socket after it was connected to the
/// [`addr_to_sockaddr`] of `dst`, which sends no packets; nothing where that
/// failed. `list` holds the interfaces of the host.
pub fn route_to(dst: &Addr, local: Option<SocketAddr>, list: &Vec<IntfEntry>) -> (r: Option<
    (String, Addr),
>)
    ensures
        match r {
            Some((name, src)) => (dst.addr_type == ADDR_TYPE_IP || dst.addr_type == ADDR_TYPE_IP6)
                && local is Some && src@ == socket_ip(local->0) && name@ == name_for(
                interfaces(list@),
                src@,
            ),
            None => !(dst.addr_type == ADDR_TYPE_IP || dst.addr_type == ADDR_TYPE_IP6)
                || local is None,
        },
{
    if addr_to_sockaddr(dst).is_none() {
        return None;
    }
    let src: Addr = match local {
        Some(sa) => sockaddr_to_addr(&sa),
        None => {
            return None;
        },
    };
    let ghost all = interfaces(list@);
    let mut name: String = String::new();
    let mut i: usize = 0;
    assert(all.skip(0) =~= all);
    while i < list.len()
        invariant
            i <= list@.len(),
            all == interfaces(list@),
            name_for(all, src@) == name_for(all.skip(i as int), src@),
            name@ == Seq::<char>::empty(),
            dst.addr_type == ADDR_TYPE_IP || dst.addr_type == ADDR_TYPE_IP6,
            local is Some,
            src@ == socket_ip(local->0),
        decreases list@.len() - i,
    {
        assert(all.skip(i as int)[0] == list@[i as int]@);
        assert(all.skip(i as int).skip(1) =~= all.skip(i + 1));
        if entry_has_addr(&list[i], &src) {
            name.append(list[i].name.as_str());
            assert(name@ =~= list@[i as int].name@);
            return Some((name, src));
        }
        i = i + 1;
    }
    name.append("?");
    assert(name@ =~= "?"@);
    Some((name, src))
}

/// Modify the kernel routing table.
///
/// Installing a route (SIOCADDRT) requires elevated privileges. As with
/// [`crate::intf::intf_set`], the entry is validated, and the mutation itself
/// is reported to need those privileges.
pub fn route_add(entry: &RouteEntry) -> (r: Result<(), String>)
    ensures
        r is Err,
        r->Err_0@ == (if entry.dst.addr_type == ADDR_TYPE_NONE {
            "route_add: empty destination address"@
        } else if entry.dst.addr_bits == 0 || entry.dst.addr_bits > 8 * stored_len(
            entry.dst.addr_type,
        ) {
            "route_add: invalid prefix length "@ + decimal(entry.dst.addr_bits as int)
        } else if !(entry.gw.addr_type == ADDR_TYPE_IP || entry.gw.addr_type == ADDR_TYPE_IP6) {
            "route_add: gateway must be an IP address"@
        } else {
            "route_add: modifying the kernel routing table (SIOCADDRT) requires elevated privileges; install the route via the OS instead"@
        }),
{
    let mut e: String = String::new();
    if entry.dst.addr_type == ADDR_TYPE_NONE {
        e.append("route_add: empty destination address");
        assert(e@ =~= "route_add: empty destination address"@);
        return Err(e);
    }
    if entry.dst.addr_bits == 0 || entry.dst.addr_bits > entry.dst.addr_len() as u16 * 8 {
        e.append("route_add: invalid prefix length ");
        push_decimal(&mut e, entry.dst.addr_bits as u64);
        assert(e@ =~= "route_add: invalid prefix length "@ + decimal(entry.dst.addr_bits as int));
        return Err(e);
    }
    let gw_host: bool = entry.gw.addr_type == ADDR_TYPE_IP || entry.gw.addr_type == ADDR_TYPE_IP6;
    if !gw_host {
        e.append("route_add: gateway must be an IP address");
        assert(e@ =~= "route_add: gateway must be an IP address"@);
        return Err(e);
    }
    e.append(
        "route_add: modifying the kernel routing table (SIOCADDRT) requires elevated privileges; install the route via the OS instead",
    );
    assert(e@
        =~= "route_add: modifying the kernel routing table (SIOCADDRT) requires elevated privileges; install the route via the OS instead"@);
    Err(e)
}

/// Remove a route from the kernel routing table. Like [`route_add`], this
/// needs elevated privileges.
pub fn route_delete(entry: &RouteEntry) -> (r: Result<(), String>)
    ensures
        r is Err,
        r->Err_0@ == (if entry.dst.addr_type == ADDR_TYPE_NONE {
            "route_delete: empty destination address"@
        } else {
            "route_delete: modifying the kernel routing table (SIOCDELRT) requires elevated privileges; remove the route via the OS instead"@
        }),
{
    let mut e: String = String::new();
    if entry.dst.addr_type == ADDR_TYPE_NONE {
        e.append("route_delete: empty destination address");
        assert(e@ =~= "route_delete: empty destination address"@);
        return Err(e);
    }
    e.append(
        "route_delete: modifying the kernel routing table (SIOCDELRT) requires elevated privileges; remove the route via the OS instead",
    );
    assert(e@
        =~= "route_delete: modifying the kernel routing table (SIOCDELRT) requires elevated privileges; remove the route via the OS instead"@);
    Err(e)
}

/// A network covers an address exactly where both are of one family, which is
/// not none at all, and each bit below the prefix length is the same in both. A
/// prefix length beyond 128 bits compares nothing.
pub proof fn law_covers_bits(net: Address, a: Address)
    requires
        net.data.len() == 16,
        a.data.len() == 16,
    ensures
        covers(net, a) <==> net.addr_type == a.addr_type && net.addr_type != 0 && forall|i: int|
            0 <= i < net.addr_bits <= 128 ==> #[trigger] bit(net.data, i) == bit(a.data, i),
{
    let n = network_of(net).data;
    let h = Address { addr_bits: net.addr_bits, ..a };
    let m = network_of(h).data;
    assert forall|i: int| 0 <= i < 128 implies (#[trigger] bit(n, i) <==> bit(net.data, i) && i
        < net.addr_bits <= 128) && (bit(m, i) <==> bit(a.data, i) && i < net.addr_bits <= 128) by {
        law_network_bits(net, i);
        law_network_bits(h, i);
    }
    law_bits_decide(n, m);
    if covers(net, a) {
        assert forall|i: int| 0 <= i < net.addr_bits <= 128 implies #[trigger] bit(net.data, i)
            == bit(a.data, i) by {
            assert(bit(n, i) == bit(m, i));
        }
    }
}

/// The route that is taken covers the address bit by bit, and no other that
/// does has a longer prefix; of those with the same length it is the last.
pub proof fn law_longest_prefix(s: Seq<RouteEntry>, a: Address, i: int, j: int)
    requires
        best_route(s, a, i),
        a.data.len() == 16,
        0 <= j < s.len(),
    ensures
        s[i].dst.addr_type == a.addr_type,
        forall|b: int|
            0 <= b < s[i].dst.addr_bits <= 128 ==> #[trigger] bit(s[i].dst.data@, b) == bit(a.data, b),
        s[j].dst.addr_type == a.addr_type && a.addr_type != 0 && (forall|b: int|
            0 <= b < s[j].dst.addr_bits <= 128 ==> #[trigger] bit(s[j].dst.data@, b) == bit(
                a.data,
                b,
            )) ==> s[j].dst.addr_bits < s[i].dst.addr_bits || s[j].dst.addr_bits
            == s[i].dst.addr_bits && j <= i,
{
    law_covers_bits(s[i].dst@, a);
    law_covers_bits(s[j].dst@, a);
}

/// The interface named for an address is the first that has it, as its primary
/// address or among its aliases; where none has it, the name is a question
/// mark.
pub proof fn law_name_for(list: Seq<Interface>, a: Address, i: int)
    requires
        0 <= i <= list.len(),
        forall|j: int|
            0 <= j < i ==> (#[trigger] list[j]).addr != a && !list[j].alias_addrs.contains(a),
        i < list.len() ==> list[i].addr == a || list[i].alias_addrs.contains(a),
    ensures
        i < list.len() ==> name_for(list, a) == list[i].name,
        i == list.len() ==> name_for(list, a) == seq!['?'],
    decreases i,
{
    reveal_strlit("?");
    assert("?"@ =~= seq!['?']);
    if i > 0 {
        let t = list.skip(1);
        assert(list[0].addr != a);
        assert forall|j: int| 0 <= j < i - 1 implies (#[trigger] t[j]).addr != a
            && !t[j].alias_addrs.contains(a) by {
            assert(list[j + 1].addr != a);
        }
        law_name_for(t, a, i - 1);
    }
}

/// A route to a new destination is put behind the others; one to a destination
/// that has a route takes its place.
pub proof fn law_route_place(s: Seq<RouteEntry>, e: RouteEntry, i: int)
    requires
        distinct(s),
    ensures
        (forall|k: int| 0 <= k < s.len() ==> (#[trigger] s[k]).dst != e.dst) ==> added(s, e)
            == s.push(e),
        0 <= i < s.len() && s[i].dst == e.dst ==> added(s, e) == s.update(i, e),
{
    lemma_position(s, e.dst);
    if position(s, e.dst) is Some && 0 <= i < s.len() && s[i].dst == e.dst {
        let k = position(s, e.dst)->0;
        assert(s[k].dst == s[i].dst);
    }
}

/// Deleting takes out the routes to a destination and leaves the others in
/// their order.
pub proof fn law_route_deleted(a: Seq<RouteEntry>, b: Seq<RouteEntry>, dst: Addr)
    ensures
        deleted(a + b, dst) == deleted(a, dst) + deleted(b, dst),
        a.len() == 1 && a[0].dst == dst ==> deleted(a, dst).len() == 0,
        a.len() == 1 && a[0].dst != dst ==> deleted(a, dst) == a,
    decreases b.len(),
{
    if b.len() == 0 {
        assert(a + b =~= a);
        assert(deleted(a, dst) + deleted(b, dst) =~= deleted(a, dst));
    } else {
        law_route_deleted(a, b.drop_last(), dst);
        assert((a + b).drop_last() =~= a + b.drop_last());
        assert(deleted(a + b, dst) =~= deleted(a, dst) + deleted(b, dst));
    }
    if a.len() == 1 {
        reveal_with_fuel(deleted, 2);
        if a[0].dst != dst {
            assert(deleted(a, dst) =~= a);
        }
    }
}

} // verus!
