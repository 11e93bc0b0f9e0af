//! I/O descriptors.
//!
//! An I/O descriptor (IOD) stands for one socket (TCP or UDP) plus bookkeeping
//! (counters, peer/communication info). The sockets themselves are known by
//! the descriptors that the operating system gave them.

use vstd::prelude::*;

use crate::ip::{IpAddr, SocketAddr};

verus! {

/// What kind of socket a given IOD wraps.
#[derive(Clone, Copy, Debug, PartialEq, Eq, Structural)]
pub enum IodKind {
    Tcp,
    Udp,
}

/// An I/O descriptor.
#[derive(Debug)]
pub struct Iod {
    pub id: u64,
    /// The underlying TCP stream (None until connected).
    pub tcp: Option<i32>,
    /// The underlying UDP socket, if any.
    pub udp: Option<i32>,
    pub kind: IodKind,
    /// Connected / peer address (communication info).
    pub peer: Option<SocketAddr>,
    /// Hostname used for SNI / labeling.
    pub hostname: Option<String>,
    /// Bytes read through this IOD.
    pub read_count: u64,
    /// Bytes written through this IOD.
    pub write_count: u64,
    /// Whether this IOD has its socket connected.
    pub connected: bool,
    /// User-settable handle.
    pub udata: usize,
}

impl Iod {
    /// An IOD that has done nothing yet.
    pub open spec fn idle(id: u64, kind: IodKind) -> Iod {
        Iod {
            id,
            tcp: None,
            udp: None,
            kind,
            peer: None,
            hostname: None,
            read_count: 0,
            write_count: 0,
            connected: false,
            udata: 0,
        }
    }

    /// Create a TCP IOD with no socket yet (assigned on connect).
    pub fn new_tcp() -> (r: Iod)
        ensures
            r == Iod::idle(0, IodKind::Tcp),
    {
        Iod {
            id: 0,
            tcp: None,
            udp: None,
            kind: IodKind::Tcp,
            peer: None,
            hostname: None,
            read_count: 0,
            write_count: 0,
            connected: false,
            udata: 0,
        }
    }

    /// Create a UDP IOD for a bound socket.
    pub fn new_udp(sock: i32) -> (r: Iod)
        ensures
            r == (Iod { udp: Some(sock), ..Iod::idle(0, IodKind::Udp) }),
    {
        let mut iod: Iod = Iod::new_tcp();
        iod.udp = Some(sock);
        iod.kind = IodKind::Udp;
        iod
    }

    /// Create a TCP IOD for a connected stream.
    pub fn from_tcp_stream(stream: i32, peer: Option<SocketAddr>, id: u64) -> (r: Iod)
        ensures
            r == (Iod {
                tcp: Some(stream),
                peer,
                connected: true,
                ..Iod::idle(id, IodKind::Tcp)
            }),
    {
        let mut iod: Iod = Iod::new_tcp();
        iod.id = id;
        iod.tcp = Some(stream);
        iod.peer = peer;
        iod.connected = true;
        iod
    }

    /// Create a UDP IOD for an existing socket. It is connected where it has a
    /// peer.
    pub fn from_udp_socket(sock: i32, peer: Option<SocketAddr>, id: u64) -> (r: Iod)
        ensures
            r == (Iod {
                udp: Some(sock),
                peer,
                connected: peer is Some,
                ..Iod::idle(id, IodKind::Udp)
            }),
    {
        let mut iod: Iod = Iod::new_udp(sock);
        iod.id = id;
        iod.connected = peer.is_some();
        iod.peer = peer;
        iod
    }

    /// The id within the pool.
    pub fn id(&self) -> (r: u64)
        ensures
            r == self.id,
    {
        self.id
    }

    /// The raw OS socket descriptor, or -1 where there is none.
    pub fn fd(&self) -> (r: i32)
        ensures
            r == (match (self.tcp, self.udp) {
                (Some(fd), _) => fd as int,
                (None, Some(fd)) => fd as int,
                (None, None) => -1int,
            }),
    {
        match self.tcp {
            Some(fd) => fd,
            None => match self.udp {
                Some(fd) => fd,
                None => -1,
            },
        }
    }

    /// The local address of this IOD's socket, if bound. `tcp` and `udp` are
    /// what the sockets say of theirs.
    pub fn local_addr(&self, tcp: Option<SocketAddr>, udp: Option<SocketAddr>) -> (r: Option<
        SocketAddr,
    >)
        ensures
            r == (if self.tcp is Some {
                tcp
            } else if self.udp is Some {
                udp
            } else {
                None
            }),
    {
        if self.tcp.is_some() {
            tcp
        } else if self.udp.is_some() {
            udp
        } else {
            None
        }
    }

    /// The remote address, if we have a peer.
    pub fn remote_ip(&self) -> (r: Option<IpAddr>)
        ensures
            r == (match self.peer {
                Some(p) => Some(p.ip),
                None => None,
            }),
    {
        match self.peer {
            Some(p) => Some(p.ip),
            None => None,
        }
    }
}

} // verus!
