//! Network addresses.
//!
//! All network addresses, protocol and link-layer ones alike, are one type
//! that holds a family, a bit length, and the raw address bytes.

use vstd::prelude::*;

use crate::eth::{
    lemma_mac_shown, lemma_two_digits, law_mac_roundtrip, mac_shown, mac_text, parse_mac, push_mac,
    six_bytes, two_digits,
};
use crate::ip::{
    colon_pieces, groups_shown, hex_groups, ipv4_shown, ipv4_text, ipv6_shown, ipv6_text,
    is_v4_mapped, last_groups, law_ipv4_only, law_ipv4_roundtrip, law_ipv6_roundtrip,
    law_segments, lemma_gap_at,
    lemma_join_plain, lemma_longest_run, lemma_octets_segments, lemma_zero_run, longest_run,
    mapped_octets, octet, octets_of, parse_ipv4, parse_ipv6, push_ipv4, push_ipv6, segments_of,
    zero_run, Ipv4Addr, Ipv6Addr,
};
use crate::text::{
    chars_of, decimal, digit, digits, has_char, is_white_space, join, law_number_digits,
    lemma_number_grows, lemma_split_keeps, lemma_trimmed_unchanged, split, string_of, trim,
    trimmed,
};
use crate::wire::same_bytes;

verus! {

pub const ADDR_TYPE_NONE: u32 = 0;
pub const ADDR_TYPE_OSI: u32 = 1;
pub const ADDR_TYPE_IP: u32 = 2;
pub const ADDR_TYPE_IP6: u32 = 3;
pub const ADDR_TYPE_HW: u32 = 4;

/// The length of an IPv4 address in octets.
pub const IP_ADDR_LEN: usize = 4;
/// The length of an IPv6 address in octets.
pub const IP6_ADDR_LEN: usize = 16;
/// The length of a hardware (Ethernet) address in octets.
pub const HW_ADDR_LEN: usize = 6;

/// A polymorphic network address.
#[derive(Clone, Copy, Eq, Hash, Debug)]
pub struct Addr {
    /// Numeric address family (`ADDR_TYPE_*`).
    pub addr_type: u32,
    /// Number of significant bits in the address.
    pub addr_bits: u16,
    /// Raw address bytes (zero-padded to the maximum length).
    pub data: [u8; 16],
}

/// An [`Addr`] with its bytes as a sequence.
#[verifier::ext_equal]
pub struct Address {
    pub addr_type: u32,
    pub addr_bits: u16,
    pub data: Seq<u8>,
}

impl View for Addr {
    type V = Address;

    open spec fn view(&self) -> Address {
        Address { addr_type: self.addr_type, addr_bits: self.addr_bits, data: self.data@ }
    }
}

/// `s` cut off or zero-padded to sixteen bytes.
pub open spec fn padded(s: Seq<u8>) -> Seq<u8> {
    Seq::new(
        16,
        |i: int|
            if i < s.len() {
                s[i]
            } else {
                0
            },
    )
}

impl Address {
    /// No address at all.
    pub open spec fn none() -> Address {
        Address { addr_type: ADDR_TYPE_NONE, addr_bits: 0, data: padded(Seq::empty()) }
    }

    /// The IPv4 address with the given octets.
    pub open spec fn ipv4(octets: Seq<u8>) -> Address {
        Address { addr_type: ADDR_TYPE_IP, addr_bits: 32, data: padded(octets) }
    }

    /// The IPv6 address with the given octets.
    pub open spec fn ipv6(octets: Seq<u8>) -> Address {
        Address { addr_type: ADDR_TYPE_IP6, addr_bits: 128, data: octets }
    }

    /// The hardware address with the given bytes.
    pub open spec fn hw(bytes: Seq<u8>) -> Address {
        Address { addr_type: ADDR_TYPE_HW, addr_bits: 48, data: padded(bytes) }
    }
}

/// Addresses with the same fields and bytes are the same.
pub proof fn lemma_same_addr(a: Addr, b: Addr)
    ensures
        a@ == b@ <==> a == b,
{
    if a@ == b@ {
        assert(a.data@ == b.data@);
        assert(a.data =~= b.data);
    }
}

impl PartialEq for Addr {
    fn eq(&self, other: &Self) -> (r: bool) {
        proof {
            lemma_same_addr(*self, *other);
        }
        self.addr_type == other.addr_type && self.addr_bits == other.addr_bits && same_bytes(
            self.data.as_slice(),
            other.data.as_slice(),
        )
    }
}

impl vstd::std_specs::cmp::PartialEqSpecImpl for Addr {
    open spec fn obeys_eq_spec() -> bool {
        true
    }

    open spec fn eq_spec(&self, other: &Self) -> bool {
        *self == *other
    }
}

impl Default for Addr {
    fn default() -> (r: Self)
        ensures
            r@ == Address::none(),
    {
        let r: Addr = Addr { addr_type: ADDR_TYPE_NONE, addr_bits: 0, data: [0u8; 16] };
        assert(r@.data =~= Address::none().data);
        r
    }
}

impl Addr {
    /// Construct an address from an IPv4 address.
    pub fn ipv4(ip: Ipv4Addr) -> (r: Self)
        ensures
            r@ == Address::ipv4(ip.octets@),
    {
        let mut r: Addr = Addr::default();
        r.pack(ADDR_TYPE_IP, 32, ip.octets.as_slice());
        r
    }

    /// Construct an address from an IPv6 address.
    pub fn ipv6(ip: Ipv6Addr) -> (r: Self)
        ensures
            r@ == Address::ipv6(ip.octets@),
    {
        let mut r: Addr = Addr::default();
        r.addr_type = ADDR_TYPE_IP6;
        r.addr_bits = 128;
        r.data = ip.octets;
        r
    }

    /// Construct a hardware (Ethernet) address from six bytes.
    pub fn hw(bytes: [u8; 6]) -> (r: Self)
        ensures
            r@ == Address::hw(bytes@),
    {
        let mut r: Addr = Addr::default();
        r.pack(ADDR_TYPE_HW, 48, bytes.as_slice());
        r
    }

    /// Build an address from raw bytes: set the type, the number of significant
    /// bits, and copy the bytes (zero-padded to the 16-byte backing array).
    pub fn pack(&mut self, addr_type: u32, bits: u16, data: &[u8])
        ensures
            final(self)@ == (Address { addr_type, addr_bits: bits, data: padded(data@) }),
    {
        self.addr_type = addr_type;
        self.addr_bits = bits;
        self.data = [0u8; 16];
        let n: usize = if data.len() < 16 {
            data.len()
        } else {
            16
        };
        let mut i: usize = 0;
        assert(self.data@ =~= padded(data@.take(0)));
        while i < n
            invariant
                i <= n <= 16,
                n <= data@.len(),
                self.addr_type == addr_type,
                self.addr_bits == bits,
                self.data@ == padded(data@.take(i as int)),
            decreases n - i,
        {
            self.data[i] = data[i];
            i = i + 1;
            assert(self.data@ =~= padded(data@.take(i as int)));
        }
        assert(self.data@ =~= padded(data@));
    }

    /// The raw protocol version (4 or 6) for IP addresses, 0 otherwise.
    pub fn ip_version(&self) -> (r: u8)
        ensures
            r == (if self.addr_type == ADDR_TYPE_IP {
                4int
            } else if self.addr_type == ADDR_TYPE_IP6 {
                6
            } else {
                0
            }),
    {
        match self.addr_type {
            ADDR_TYPE_IP => 4,
            ADDR_TYPE_IP6 => 6,
            _ => 0,
        }
    }

    /// Interpret this address as an IPv4 address if possible.
    pub fn to_ipv4(&self) -> (r: Option<Ipv4Addr>)
        ensures
            match r {
                Some(ip) => self.addr_type == ADDR_TYPE_IP && ip.octets@ == self.data@.take(4),
                None => self.addr_type != ADDR_TYPE_IP,
            },
    {
        if self.addr_type == ADDR_TYPE_IP {
            let ip: Ipv4Addr = Ipv4Addr::new(self.data[0], self.data[1], self.data[2], self.data[3]);
            assert(ip.octets@ =~= self.data@.take(4));
            Some(ip)
        } else {
            None
        }
    }

    /// Interpret this address as an IPv6 address if possible.
    pub fn to_ipv6(&self) -> (r: Option<Ipv6Addr>)
        ensures
            match r {
                Some(ip) => self.addr_type == ADDR_TYPE_IP6 && ip.octets@ == self.data@,
                None => self.addr_type != ADDR_TYPE_IP6,
            },
    {
        if self.addr_type == ADDR_TYPE_IP6 {
            Some(Ipv6Addr { octets: self.data })
        } else {
            None
        }
    }

    /// Interpret this address as an Ethernet hardware address if possible.
    pub fn to_hw(&self) -> (r: Option<[u8; 6]>)
        ensures
            match r {
                Some(b) => self.addr_type == ADDR_TYPE_HW && b@ == self.data@.take(6),
                None => self.addr_type != ADDR_TYPE_HW,
            },
    {
        if self.addr_type == ADDR_TYPE_HW {
            let b: [u8; 6] = six_bytes(self.data.as_slice(), 0);
            assert(b@ =~= self.data@.take(6));
            Some(b)
        } else {
            None
        }
    }

    /// True if this is a broadcast/multicast Ethernet address (low bit of the
    /// first octet set).
    pub fn is_multicast_hw(&self) -> (r: bool)
        ensures
            r == (self.addr_type == ADDR_TYPE_HW && self.data@[0] % 2 == 1),
    {
        let b: u8 = self.data[0];
        assert((b & 0x01 != 0) == (b % 2 == 1)) by (bit_vector);
        self.addr_type == ADDR_TYPE_HW && b & 0x01 != 0
    }

    /// The number of bytes used to store this address (per its type).
    pub fn addr_len(&self) -> (r: usize)
        ensures
            r == stored_len(self.addr_type),
    {
        match self.addr_type {
            ADDR_TYPE_IP => IP_ADDR_LEN,
            ADDR_TYPE_IP6 => IP6_ADDR_LEN,
            ADDR_TYPE_HW => HW_ADDR_LEN,
            _ => 0,
        }
    }

    /// Compare two addresses (type, then bits, then bytes). Returns `< 0`, `0`,
    /// or `> 0` in lexicographic order.
    pub fn addr_cmp(&self, other: &Addr) -> (r: i32)
        ensures
            r == distance(self@, other@),
    {
        if self.addr_type != other.addr_type {
            return type_difference(self.addr_type, other.addr_type);
        }
        if self.addr_bits != other.addr_bits {
            return bits_difference(self.addr_bits, other.addr_bits);
        }
        bytes_difference(self.data.as_slice(), other.data.as_slice())
    }

    /// The network (subnet) address for this address given its `addr_bits`:
    /// the host bits are cleared.
    pub fn network(&self) -> (r: Addr)
        ensures
            r@ == network_of(self@),
    {
        let mut out: Addr = *self;
        let mask: [u8; 16] = Addr::bits_to_mask(self.addr_bits);
        let mut i: usize = 0;
        while i < 16
            invariant
                i <= 16,
                mask@ == mask_of(self.addr_bits as int),
                out.addr_type == self.addr_type,
                out.addr_bits == self.addr_bits,
                forall|k: int|
                    0 <= k < 16 ==> #[trigger] out.data@[k] == (if k < i {
                        self.data@[k] & mask@[k]
                    } else {
                        self.data@[k]
                    }),
            decreases 16 - i,
        {
            out.data[i] = self.data[i] & mask[i];
            i = i + 1;
        }
        assert(out.data@ =~= network_of(self@).data);
        out
    }

    /// The directed broadcast address for this address given its `addr_bits`:
    /// the host bits are set, and the padding is left alone.
    pub fn broadcast(&self) -> (r: Addr)
        ensures
            r@ == broadcast_of(self@),
    {
        let mut out: Addr = *self;
        let mask: [u8; 16] = Addr::bits_to_mask(self.addr_bits);
        let len: usize = self.addr_len();
        let mut i: usize = 0;
        while i < len
            invariant
                i <= len <= 16,
                mask@ == mask_of(self.addr_bits as int),
                out.addr_type == self.addr_type,
                out.addr_bits == self.addr_bits,
                forall|k: int|
                    0 <= k < 16 ==> #[trigger] out.data@[k] == (if k < i {
                        self.data@[k] | !mask@[k]
                    } else {
                        self.data@[k]
                    }),
            decreases len - i,
        {
            out.data[i] = self.data[i] | !mask[i];
            i = i + 1;
        }
        assert(out.data@ =~= broadcast_of(self@).data);
        out
    }

    /// Convert a prefix length into a contiguous network mask of `size` bytes,
    /// with `bits` leading one bits. Nothing where they do not fit.
    pub fn bits_to_mask_len(bits: u16, size: usize) -> (r: Option<Vec<u8>>)
        ensures
            match r {
                Some(mask) => bits <= 8 * size && mask@ == mask_bytes(bits as int, size as nat),
                None => bits > 8 * size,
            },
    {
        if size < 8192 && bits as usize > size * 8 {
            return None;
        }
        let full: usize = (bits / 8) as usize;
        let rem: u8 = (bits % 8) as u8;
        let mut mask: Vec<u8> = Vec::new();
        let mut i: usize = 0;
        while i < size
            invariant
                i <= size,
                full == bits / 8,
                rem == bits % 8,
                mask@ == mask_bytes(bits as int, i as nat),
            decreases size - i,
        {
            if i < full {
                mask.push(0xff);
            } else if i == full && rem > 0 {
                let shift: u8 = 8 - rem;
                proof {
                    lemma_shifted(shift);
                }
                mask.push(0xffu8 << shift);
            } else {
                mask.push(0);
            }
            i = i + 1;
            assert(mask@ =~= mask_bytes(bits as int, i as nat));
        }
        Some(mask)
    }

    /// A contiguous mask of sixteen bytes with `bits` leading ones; no ones
    /// where that is too many.
    pub fn bits_to_mask(bits: u16) -> (r: [u8; 16])
        ensures
            r@ == mask_of(bits as int),
    {
        let mut out: [u8; 16] = [0u8; 16];
        match Addr::bits_to_mask_len(bits, 16) {
            Some(mask) => {
                let mut i: usize = 0;
                while i < 16
                    invariant
                        i <= 16,
                        mask@.len() == 16,
                        forall|k: int| 0 <= k < i ==> out@[k] == mask@[k],
                    decreases 16 - i,
                {
                    out[i] = mask[i];
                    i = i + 1;
                }
                assert(out@ =~= mask_of(bits as int));
            },
            None => {
                assert(out@ =~= mask_of(bits as int));
            },
        }
        out
    }

    /// Count the leading one bits in this address's bytes as a netmask. Zero
    /// where the byte in which they end has a one behind a zero.
    pub fn mask_to_bits(&self) -> (r: u16)
        ensures
            r == netmask_bits(self.data@, 0),
    {
        let mut i: usize = 0;
        while i < 16 && self.data[i] == 0xff
            invariant
                i <= 16,
                netmask_bits(self.data@, 0) == netmask_bits(self.data@, i as int),
            decreases 16 - i,
        {
            i = i + 1;
        }
        if i == 16 {
            return 128;
        }
        match leading_ones(self.data[i]) {
            Some(k) => 8 * i as u16 + k,
            None => 0,
        }
    }
}

/// How many bytes an address of a type has.
pub open spec fn stored_len(addr_type: u32) -> int {
    if addr_type == ADDR_TYPE_IP {
        4
    } else if addr_type == ADDR_TYPE_IP6 {
        16
    } else if addr_type == ADDR_TYPE_HW {
        6
    } else {
        0
    }
}

// ---------------------------------------------------------------------------
// Order

/// The difference of the first two bytes that differ.
pub open spec fn bytes_distance(a: Seq<u8>, b: Seq<u8>) -> int
    decreases a.len(),
{
    if a.len() == 0 || b.len() == 0 {
        0
    } else if a[0] != b[0] {
        a[0] - b[0]
    } else {
        bytes_distance(a.skip(1), b.skip(1))
    }
}

/// `v`, or the `i32` next to it.
pub open spec fn clamped(v: int) -> int {
    if v > i32::MAX {
        i32::MAX as int
    } else if v < i32::MIN {
        i32::MIN as int
    } else {
        v
    }
}

/// How two addresses differ: by type, then bits, then bytes. Negative where
/// the first comes first.
pub open spec fn distance(a: Address, b: Address) -> int {
    if a.addr_type != b.addr_type {
        clamped(a.addr_type - b.addr_type)
    } else if a.addr_bits != b.addr_bits {
        a.addr_bits - b.addr_bits
    } else {
        bytes_distance(a.data, b.data)
    }
}

/// The difference of two types.
fn type_difference(a: u32, b: u32) -> (r: i32)
    ensures
        r == clamped(a - b),
{
    let d: i64 = a as i64 - b as i64;
    if d > i32::MAX as i64 {
        i32::MAX
    } else if d < i32::MIN as i64 {
        i32::MIN
    } else {
        d as i32
    }
}

/// The difference of two bit lengths.
fn bits_difference(a: u16, b: u16) -> (r: i32)
    ensures
        r == a - b,
{
    a as i32 - b as i32
}

/// The difference of the first two bytes that differ.
fn bytes_difference(a: &[u8], b: &[u8]) -> (r: i32)
    requires
        a@.len() == b@.len(),
    ensures
        r == bytes_distance(a@, b@),
{
    let mut i: usize = 0;
    assert(a@.skip(0) =~= a@ && b@.skip(0) =~= b@);
    while i < a.len()
        invariant
            i <= a@.len() == b@.len(),
            bytes_distance(a@, b@) == bytes_distance(a@.skip(i as int), b@.skip(i as int)),
        decreases a@.len() - i,
    {
        if a[i] != b[i] {
            return a[i] as i32 - b[i] as i32;
        }
        assert(a@.skip(i as int).skip(1) =~= a@.skip(i + 1));
        assert(b@.skip(i as int).skip(1) =~= b@.skip(i + 1));
        i = i + 1;
    }
    0
}

/// Equal bytes differ by nothing, and only they do; swapping the two turns the
/// sign.
proof fn lemma_bytes_distance(a: Seq<u8>, b: Seq<u8>)
    requires
        a.len() == b.len(),
    ensures
        bytes_distance(a, b) == 0 <==> a == b,
        bytes_distance(a, b) == -bytes_distance(b, a),
    decreases a.len(),
{
    if a.len() > 0 {
        lemma_bytes_distance(a.skip(1), b.skip(1));
        if a[0] == b[0] && a.skip(1) == b.skip(1) {
            assert(a =~= seq![a[0]] + a.skip(1));
            assert(b =~= seq![b[0]] + b.skip(1));
        }
    } else {
        assert(a =~= b);
    }
}

/// What comes before a second comes before a third behind that.
proof fn lemma_bytes_transitive(a: Seq<u8>, b: Seq<u8>, c: Seq<u8>)
    requires
        a.len() == b.len() == c.len(),
        bytes_distance(a, b) <= 0,
        bytes_distance(b, c) <= 0,
    ensures
        bytes_distance(a, c) <= 0,
        bytes_distance(a, c) == 0 ==> bytes_distance(a, b) == 0 && bytes_distance(b, c) == 0,
    decreases a.len(),
{
    if a.len() > 0 {
        if a[0] == b[0] && b[0] == c[0] {
            lemma_bytes_transitive(a.skip(1), b.skip(1), c.skip(1));
        }
    }
}

/// Comparing addresses is a total order: only an address itself compares
/// equal, swapping two turns the sign round, and what is before a second
/// address is before all that are behind the second.
pub proof fn law_addr_order(a: Addr, b: Addr, c: Addr)
    ensures
        distance(a@, b@) == 0 <==> a == b,
        distance(a@, b@) < 0 <==> distance(b@, a@) > 0,
        distance(a@, b@) <= 0 && distance(b@, c@) <= 0 ==> distance(a@, c@) <= 0,
{
    lemma_same_addr(a, b);
    lemma_bytes_distance(a.data@, b.data@);
    if distance(a@, b@) <= 0 && distance(b@, c@) <= 0 && a.addr_type == b.addr_type && b.addr_type
        == c.addr_type && a.addr_bits == b.addr_bits && b.addr_bits == c.addr_bits {
        lemma_bytes_transitive(a.data@, b.data@, c.data@);
    }
}

// ---------------------------------------------------------------------------
// Masks

/// The byte with `k` leading ones.
pub open spec fn ones_byte(k: int) -> u8 {
    if k <= 0 {
        0
    } else if k == 1 {
        0x80
    } else if k == 2 {
        0xc0
    } else if k == 3 {
        0xe0
    } else if k == 4 {
        0xf0
    } else if k == 5 {
        0xf8
    } else if k == 6 {
        0xfc
    } else if k == 7 {
        0xfe
    } else {
        0xff
    }
}

/// A mask of `size` bytes with `bits` leading ones.
pub open spec fn mask_bytes(bits: int, size: nat) -> Seq<u8> {
    Seq::new(size, |i: int| ones_byte(bits - 8 * i))
}

/// The mask of an address with the given prefix length; empty where that is
/// longer than an address.
pub open spec fn mask_of(bits: int) -> Seq<u8> {
    if bits <= 128 {
        mask_bytes(bits, 16)
    } else {
        Seq::new(16, |i: int| 0u8)
    }
}

/// An address without its host bits.
pub open spec fn network_of(a: Address) -> Address {
    Address { data: Seq::new(16, |i: int| a.data[i] & mask_of(a.addr_bits as int)[i]), ..a }
}

/// An address with its host bits set. The padding behind it stays as it is.
pub open spec fn broadcast_of(a: Address) -> Address {
    Address {
        data: Seq::new(
            16,
            |i: int|
                if i < stored_len(a.addr_type) {
                    a.data[i] | !mask_of(a.addr_bits as int)[i]
                } else {
                    a.data[i]
                },
        ),
        ..a
    }
}

/// Whether the bytes behind an address are zero.
pub open spec fn zero_padded(a: Address) -> bool {
    forall|i: int| stored_len(a.addr_type) <= i < 16 ==> #[trigger] a.data[i] == 0
}

/// How many ones lead a byte that has none behind them.
pub open spec fn leading(b: u8) -> Option<int> {
    if b == 0 {
        Some(0)
    } else if b == 0x80 {
        Some(1)
    } else if b == 0xc0 {
        Some(2)
    } else if b == 0xe0 {
        Some(3)
    } else if b == 0xf0 {
        Some(4)
    } else if b == 0xf8 {
        Some(5)
    } else if b == 0xfc {
        Some(6)
    } else if b == 0xfe {
        Some(7)
    } else if b == 0xff {
        Some(8)
    } else {
        None
    }
}

/// The prefix length read from the byte at `i` on, where all before it is
/// ones.
pub open spec fn netmask_bits(data: Seq<u8>, i: int) -> int
    decreases data.len() - i,
{
    if i >= data.len() {
        8 * i
    } else if data[i] == 0xff {
        netmask_bits(data, i + 1)
    } else {
        match leading(data[i]) {
            Some(k) => 8 * i + k,
            None => 0,
        }
    }
}

/// Ones shifted up leave leading ones.
proof fn lemma_shifted(shift: u8)
    requires
        1 <= shift <= 7,
    ensures
        0xffu8 << shift == ones_byte(8 - shift),
{
    assert(0xffu8 << 1u8 == 0xfe && 0xffu8 << 2u8 == 0xfc && 0xffu8 << 3u8 == 0xf8 && 0xffu8 << 4u8
        == 0xf0 && 0xffu8 << 5u8 == 0xe0 && 0xffu8 << 6u8 == 0xc0 && 0xffu8 << 7u8 == 0x80)
        by (bit_vector);
}

/// Count the ones that lead a byte.
fn leading_ones(b: u8) -> (r: Option<u16>)
    ensures
        match r {
            Some(k) => leading(b) == Some(k as int),
            None => leading(b) is None,
        },
{
    match b {
        0 => Some(0),
        0x80 => Some(1),
        0xc0 => Some(2),
        0xe0 => Some(3),
        0xf0 => Some(4),
        0xf8 => Some(5),
        0xfc => Some(6),
        0xfe => Some(7),
        0xff => Some(8),
        _ => None,
    }
}

/// Convert a prefix length to a contiguous network mask of `size` bytes.
pub fn addr_btom(bits: u16, size: usize) -> (r: Option<Vec<u8>>)
    ensures
        match r {
            Some(mask) => bits <= 8 * size && mask@ == mask_bytes(bits as int, size as nat),
            None => bits > 8 * size,
        },
{
    Addr::bits_to_mask_len(bits, size)
}

/// Convert a contiguous network mask to a prefix length. Returns `None` if the
/// mask is not contiguous. The ones that lead it must be so few that their
/// number fits in the result.
pub fn addr_mtob(mask: &[u8]) -> (r: Option<u16>)
    requires
        mask@.len() < 8192 || exists|i: int| 0 <= i < 8192 && #[trigger] mask@[i] != 0xff,
    ensures
        match r {
            Some(bits) => bits <= 8 * mask@.len() && mask@ == mask_bytes(
                bits as int,
                mask@.len(),
            ),
            None => forall|bits: int| mask@ != #[trigger] mask_bytes(bits, mask@.len()),
        },
{
    let n: usize = mask.len();
    let mut i: usize = 0;
    let mut bits: u16 = 0;
    while i < n && mask[i] == 0xff
        invariant
            i <= n == mask@.len(),
            mask@.len() < 8192 || exists|k: int| 0 <= k < 8192 && #[trigger] mask@[k] != 0xff,
            bits == 8 * i,
            forall|k: int| 0 <= k < i ==> mask@[k] == 0xff,
        decreases n - i,
    {
        bits = bits + 8;
        i = i + 1;
    }
    if i == n {
        assert(mask@ =~= mask_bytes(bits as int, mask@.len()));
        return Some(bits);
    }
    let ghost end = i as int;
    match leading_ones(mask[i]) {
        None => {
            proof {
                assert forall|b: int| mask@ != #[trigger] mask_bytes(b, mask@.len()) by {
                    assert(mask_bytes(b, mask@.len())[end] == ones_byte(b - 8 * end));
                }
            }
            return None;
        },
        Some(run) => {
            bits = bits + run;
        },
    }
    i = i + 1;
    while i < n
        invariant
            end < i <= n == mask@.len(),
            0 <= end,
            8 * end <= bits < 8 * end + 8,
            forall|k: int| 0 <= k < end ==> mask@[k] == 0xff,
            mask@[end] == ones_byte(bits - 8 * end),
            mask@[end] != 0xff,
            forall|k: int| end < k < i ==> mask@[k] == 0,
        decreases n - i,
    {
        if mask[i] != 0 {
            proof {
                assert forall|b: int| mask@ != #[trigger] mask_bytes(b, mask@.len()) by {
                    assert(mask_bytes(b, mask@.len())[end] == ones_byte(b - 8 * end));
                    assert(mask_bytes(b, mask@.len())[i as int] == ones_byte(b - 8 * i));
                }
            }
            return None;
        }
        i = i + 1;
    }
    assert(mask@ =~= mask_bytes(bits as int, mask@.len()));
    Some(bits)
}

/// A prefix length reads back from the mask made for it, and no other length
/// has that mask.
pub proof fn law_mask_roundtrip(bits: int, other: int, size: nat)
    requires
        0 <= bits <= 8 * size,
        0 <= other <= 8 * size,
    ensures
        mask_bytes(bits, size) == mask_bytes(other, size) <==> bits == other,
        netmask_bits(mask_bytes(bits, size), 0) == bits,
{
    lemma_netmask_bits(bits, size, 0);
    lemma_netmask_bits(other, size, 0);
}

/// Counting from the byte at `i` on gives the prefix length.
proof fn lemma_netmask_bits(bits: int, size: nat, i: int)
    requires
        0 <= i <= size,
        8 * i <= bits <= 8 * size,
    ensures
        netmask_bits(mask_bytes(bits, size), i) == bits,
    decreases size - i,
{
    let m = mask_bytes(bits, size);
    if i < size {
        assert(m[i] == ones_byte(bits - 8 * i));
        if m[i] == 0xff {
            lemma_netmask_bits(bits, size, i + 1);
        }
    }
}

/// Masking a byte twice is masking it once, and it lies between what the mask
/// leaves and what its complement adds.
proof fn lemma_masked_byte(b: u8, m: u8)
    ensures
        (b & m) & m == b & m,
        (b | !m) | !m == b | !m,
        (b & m) | !m == b | !m,
        (b | !m) & m == b & m,
        b & m <= b <= b | !m,
{
    assert((b & m) & m == b & m && (b | !m) | !m == b | !m && (b & m) | !m == b | !m && (b | !m) & m
        == b & m && b & m <= b && b <= b | !m) by (bit_vector);
}

/// The network of a network is itself, likewise for broadcast addresses; both
/// are the same for every address of the network, and every byte of an address
/// lies between theirs. Both are padded with zeros where the address is.
pub proof fn law_network_broadcast(a: Address)
    requires
        a.data.len() == 16,
    ensures
        network_of(network_of(a)) == network_of(a),
        broadcast_of(broadcast_of(a)) == broadcast_of(a),
        zero_padded(a) ==> broadcast_of(network_of(a)) == broadcast_of(a),
        zero_padded(a) ==> zero_padded(network_of(a)) && zero_padded(broadcast_of(a)),
        network_of(broadcast_of(a)) == network_of(a),
        forall|i: int|
            0 <= i < 16 ==> #[trigger] network_of(a).data[i] <= a.data[i] <= broadcast_of(a).data[i],
{
    let m = mask_of(a.addr_bits as int);
    assert forall|i: int| 0 <= i < 16 implies {
        let b = a.data[i];
        &&& (b & m[i]) & m[i] == b & m[i]
        &&& (b | !m[i]) | !m[i] == b | !m[i]
        &&& (b & m[i]) | !m[i] == b | !m[i]
        &&& (b | !m[i]) & m[i] == b & m[i]
        &&& b & m[i] <= #[trigger] a.data[i] <= b | !m[i]
    } by {
        lemma_masked_byte(a.data[i], m[i]);
    }
    assert(network_of(network_of(a)).data =~= network_of(a).data);
    assert(broadcast_of(broadcast_of(a)).data =~= broadcast_of(a).data);
    if zero_padded(a) {
        assert forall|i: int| stored_len(a.addr_type) <= i < 16 implies #[trigger] network_of(
            a,
        ).data[i] == 0 by {
            assert(a.data[i] == 0);
        }
        assert(broadcast_of(network_of(a)).data =~= broadcast_of(a).data);
    }
    assert(network_of(broadcast_of(a)).data =~= network_of(a).data);
}

/// The network address of `a` given its `addr_bits`.
pub fn addr_net(a: &Addr) -> (r: Addr)
    ensures
        r@ == network_of(a@),
{
    a.network()
}

/// The broadcast address of `a` given its `addr_bits`.
pub fn addr_bcast(a: &Addr) -> (r: Addr)
    ensures
        r@ == broadcast_of(a@),
{
    a.broadcast()
}

/// Compare two addresses.
pub fn addr_cmp(a: &Addr, b: &Addr) -> (r: i32)
    ensures
        r == distance(a@, b@),
{
    a.addr_cmp(b)
}

// ---------------------------------------------------------------------------
// Text

/// The address that a text denotes: IPv4 (`1.2.3.4`), IPv6 (`2001:db8::1`) or
/// Ethernet MAC (`aa:bb:cc:dd:ee:ff`), with white space round it ignored.
pub open spec fn addr_text(s: Seq<char>) -> Option<Address> {
    let t = trimmed(s);
    match (ipv4_text(t), ipv6_text(t), mac_text(t)) {
        (Some(octets), _, _) => Some(Address::ipv4(octets)),
        (None, Some(segments), _) => Some(Address::ipv6(octets_of(segments))),
        (None, None, Some(bytes)) if t.contains(':') => Some(Address::hw(bytes)),
        _ => None,
    }
}

/// The text of an address.
pub open spec fn addr_shown(a: Address) -> Seq<char> {
    if a.addr_type == ADDR_TYPE_IP {
        ipv4_shown(a.data.take(4))
    } else if a.addr_type == ADDR_TYPE_IP6 {
        ipv6_shown(segments_of(a.data))
    } else if a.addr_type == ADDR_TYPE_HW {
        mac_shown(a.data.take(6))
    } else {
        "(unknown)"@
    }
}

impl Addr {
    /// Parse an address from text. Accepts IPv4 (`1.2.3.4`), IPv6
    /// (`2001:db8::1`), and Ethernet MAC (`aa:bb:cc:dd:ee:ff`).
    pub fn from_str(s: &str) -> (r: Result<Addr, String>)
        ensures
            match r {
                Ok(a) => addr_text(s@) == Some(a@),
                Err(e) => addr_text(s@) is None && e@ == "could not parse address '"@ + trimmed(s@)
                    + "'"@,
            },
    {
        let chars: Vec<char> = chars_of(s);
        let t: Vec<char> = trim(chars.as_slice());
        match parse_ipv4(t.as_slice()) {
            Some(ip) => {
                return Ok(Addr::ipv4(ip));
            },
            None => {},
        }
        match parse_ipv6(t.as_slice()) {
            Some(ip) => {
                proof {
                    lemma_octets_segments(ip.octets@);
                }
                return Ok(Addr::ipv6(ip));
            },
            None => {},
        }
        if has_char(t.as_slice(), ':') {
            match parse_mac(t.as_slice()) {
                Some(eth) => {
                    return Ok(Addr::hw(eth.data));
                },
                None => {},
            }
        }
        let mut e: String = String::new();
        e.append("could not parse address '");
        let text: String = string_of(t.as_slice());
        e.append(text.as_str());
        e.append("'");
        assert(e@ =~= "could not parse address '"@ + trimmed(s@) + "'"@);
        Err(e)
    }

    /// This address as text.
    pub fn to_string(&self) -> (r: String)
        ensures
            r@ == addr_shown(self@),
    {
        let mut out: String = String::new();
        self.push_to(&mut out);
        assert(out@ =~= addr_shown(self@));
        out
    }

    /// Append this address as text.
    pub fn push_to(&self, out: &mut String)
        ensures
            final(out)@ == old(out)@ + addr_shown(self@),
    {
        match self.addr_type {
            ADDR_TYPE_IP => {
                if let Some(ip) = self.to_ipv4() {
                    push_ipv4(out, &ip);
                }
            },
            ADDR_TYPE_IP6 => {
                if let Some(ip) = self.to_ipv6() {
                    push_ipv6(out, &ip);
                }
            },
            ADDR_TYPE_HW => {
                if let Some(bytes) = self.to_hw() {
                    push_mac(out, &bytes);
                }
            },
            _ => {
                out.append("(unknown)");
            },
        }
    }
}

/// Parse an address from text.
pub fn addr_pton(s: &str) -> (r: Option<Addr>)
    ensures
        match r {
            Some(a) => addr_text(s@) == Some(a@),
            None => addr_text(s@) is None,
        },
{
    match Addr::from_str(s) {
        Ok(a) => Some(a),
        Err(_) => None,
    }
}

/// Convert an address to text.
pub fn addr_ntoa(a: &Addr) -> (r: String)
    ensures
        r@ == addr_shown(a@),
{
    a.to_string()
}

/// Convert an address to text.
pub fn addr_ntop(a: &Addr) -> (r: String)
    ensures
        r@ == addr_shown(a@),
{
    a.to_string()
}

/// A text that reads as an IPv4 address has no colon in it.
proof fn lemma_ipv4_no_colon(t: Seq<char>)
    requires
        ipv4_text(t) is Some,
    ensures
        !t.contains(':'),
{
    let p = split(t, '.');
    if t.contains(':') {
        lemma_split_keeps(t, '.', ':');
        let i = choose|i: int| 0 <= i < p.len() && (#[trigger] p[i]).contains(':');
        let k = choose|k: int| 0 <= k < p[i].len() && p[i][k] == ':';
        assert(octet(p[i]) is Some) by {
            assert(p.len() == 4);
            assert(octet(p[0]) is Some && octet(p[1]) is Some && octet(p[2]) is Some && octet(p[3])
                is Some);
        }
        lemma_number_grows(p[i], 10, k + 1);
        assert(p[i].take(k + 1).last() == ':');
    }
}

/// A written IPv6 address has a colon in it, and no white space at its ends.
proof fn lemma_ipv6_shown(g: Seq<u16>)
    requires
        g.len() == 8,
    ensures
        ipv6_shown(g).len() > 0,
        ipv6_shown(g).contains(':'),
        !is_white_space(ipv6_shown(g).first()),
        !is_white_space(ipv6_shown(g).last()),
{
    let s = ipv6_shown(g);
    let start = longest_run(g, 0);
    let run = zero_run(g, start);
    lemma_longest_run(g, 0);
    lemma_zero_run(g, start);
    if is_v4_mapped(g) {
        reveal_strlit("::ffff:");
        let o = mapped_octets(g);
        lemma_ipv4_ends(o);
        assert(s[0] == ':');
        assert(s.last() == ipv4_shown(o).last());
    } else if run > 1 {
        reveal_strlit("::");
        let h = groups_shown(g.take(start));
        let t = groups_shown(g.skip(start + run));
        lemma_groups_ends(g.take(start));
        lemma_groups_ends(g.skip(start + run));
        assert(s == h + "::"@ + t);
        assert(s[h.len() as int] == ':');
        if h.len() > 0 {
            assert(s.first() == h.first());
        }
        if t.len() > 0 {
            assert(s.last() == t.last());
        }
    } else {
        lemma_groups_ends(g);
        let p = g.map_values(|v: u16| digits(v as int, 16));
        let h = join(p.drop_last(), ':');
        assert(s == h.push(':') + p.last());
        assert(s[h.len() as int] == ':');
    }
}

/// Written groups start and end with a hexadecimal digit.
proof fn lemma_groups_ends(g: Seq<u16>)
    ensures
        g.len() > 0 ==> groups_shown(g).len() > 0,
        groups_shown(g).len() > 0 ==> digit(groups_shown(g).first(), 16) is Some && digit(
            groups_shown(g).last(),
            16,
        ) is Some,
    decreases g.len(),
{
    let p = g.map_values(|v: u16| digits(v as int, 16));
    if g.len() > 0 {
        law_number_digits(g.last() as int, 16);
        law_number_digits(g[0] as int, 16);
        let l = p.last();
        assert(l == digits(g.last() as int, 16));
        assert(digit(l[0], 16) is Some);
        assert(digit(l[l.len() - 1], 16) is Some);
        if g.len() > 1 {
            lemma_groups_ends(g.drop_last());
            assert(g.drop_last().map_values(|v: u16| digits(v as int, 16)) =~= p.drop_last());
            let h = join(p.drop_last(), ':');
            let s = groups_shown(g);
            assert(s == h.push(':') + l);
            assert(s.first() == h.first());
            assert(s.last() == l.last());
        }
    }
}

/// A written IPv4 address starts and ends with a digit.
proof fn lemma_ipv4_ends(octets: Seq<u8>)
    requires
        octets.len() == 4,
    ensures
        ipv4_shown(octets).len() > 0,
        digit(ipv4_shown(octets).first(), 10) is Some,
        digit(ipv4_shown(octets).last(), 10) is Some,
{
    let p = octets.map_values(|b: u8| decimal(b as int));
    law_number_digits(octets[0] as int, 10);
    law_number_digits(octets[3] as int, 10);
    assert(p[0] == digits(octets[0] as int, 10) && p[3] == digits(octets[3] as int, 10));
    assert(digit(p[0][0], 10) is Some);
    assert(digit(p[3][p[3].len() - 1], 10) is Some);
    reveal_with_fuel(join, 5);
    assert(p.drop_last().drop_last().drop_last() =~= seq![p[0]]);
    assert(ipv4_shown(octets) =~= p[0].push('.') + p[1].push('.') + p[2].push('.') + p[3]);
}

/// Pieces give a group each.
proof fn lemma_hex_groups_len(p: Seq<Seq<char>>)
    requires
        hex_groups(p) is Some,
    ensures
        hex_groups(p)->0.len() == p.len(),
    decreases p.len(),
{
    if p.len() > 0 {
        lemma_hex_groups_len(p.drop_last());
    }
}

/// A written MAC address does not read as an IPv6 address.
proof fn lemma_mac_not_ipv6(data: Seq<u8>)
    requires
        data.len() == 6,
    ensures
        ipv6_text(mac_shown(data)) is None,
{
    let s = mac_shown(data);
    let p = data.map_values(|b: u8| two_digits(b));
    lemma_mac_shown(data);
    assert forall|i: int| 0 <= i < p.len() implies !(#[trigger] p[i]).contains(':') && p[i].len()
        > 0 by {
        lemma_two_digits(data[i]);
    }
    lemma_join_plain(p);
    lemma_gap_at(s, 0, s.len() as int);
    assert(colon_pieces(s) == p);
    if last_groups(p) is Some {
        lemma_hex_groups_len(p.drop_last());
    }
}

/// Parsing undoes formatting: the text of an IPv4, IPv6 or hardware address
/// denotes that address.
pub proof fn law_addr_roundtrip(octets: Seq<u8>)
    ensures
        octets.len() == 4 ==> addr_text(addr_shown(Address::ipv4(octets))) == Some(
            Address::ipv4(octets),
        ),
        octets.len() == 16 ==> addr_text(addr_shown(Address::ipv6(octets))) == Some(
            Address::ipv6(octets),
        ),
        octets.len() == 6 ==> addr_text(addr_shown(Address::hw(octets))) == Some(
            Address::hw(octets),
        ),
{
    if octets.len() == 4 {
        assert(padded(octets).take(4) =~= octets);
        lemma_ipv4_ends(octets);
        lemma_trimmed_unchanged(ipv4_shown(octets));
        law_ipv4_roundtrip(octets);
    }
    if octets.len() == 16 {
        let g = segments_of(octets);
        lemma_ipv6_shown(g);
        lemma_trimmed_unchanged(ipv6_shown(g));
        law_ipv6_roundtrip(g);
        lemma_octets_segments(octets);
        if ipv4_text(ipv6_shown(g)) is Some {
            lemma_ipv4_no_colon(ipv6_shown(g));
        }
    }
    if octets.len() == 6 {
        assert(padded(octets).take(6) =~= octets);
        let s = mac_shown(octets);
        lemma_mac_shown(octets);
        lemma_trimmed_unchanged(s);
        law_mac_roundtrip(octets);
        lemma_mac_not_ipv6(octets);
        if ipv4_text(s) is Some {
            lemma_ipv4_no_colon(s);
        }
    }
}

// ---------------------------------------------------------------------------
// Laws on bits and bytes

/// Whether the bit of a byte at `j` is set, counted from the most significant
/// one.
pub open spec fn byte_bit(b: u8, j: u8) -> bool {
    b & (0x80u8 >> j) != 0
}

/// Whether the bit of `s` at `i` is set, counted from the most significant one
/// of the first byte.
pub open spec fn bit(s: Seq<u8>, i: int) -> bool {
    byte_bit(s[i / 8], (i % 8) as u8)
}

/// A mask of leading ones keeps the bits below its length and clears the rest;
/// its complement sets the rest.
proof fn lemma_masked_bit(b: u8, k: int, j: u8)
    requires
        j < 8,
    ensures
        byte_bit(ones_byte(k), j) <==> j < k,
        byte_bit(b & ones_byte(k), j) <==> byte_bit(b, j) && j < k,
        byte_bit(b | !ones_byte(k), j) <==> byte_bit(b, j) || j >= k,
{
    let m = ones_byte(k);
    assert((b & m) & (0x80u8 >> j) != 0 <==> b & (0x80u8 >> j) != 0 && m & (0x80u8 >> j) != 0)
        by (bit_vector);
    assert((b | !m) & (0x80u8 >> j) != 0 <==> b & (0x80u8 >> j) != 0 || m & (0x80u8 >> j) == 0)
        by (bit_vector)
        requires
            j < 8,
    ;
    assert(0u8 & (0x80u8 >> j) == 0 && (0x80u8 & (0x80u8 >> j) != 0 <==> j < 1) && (0xc0u8 & (0x80u8
        >> j) != 0 <==> j < 2) && (0xe0u8 & (0x80u8 >> j) != 0 <==> j < 3) && (0xf0u8 & (0x80u8
        >> j) != 0 <==> j < 4) && (0xf8u8 & (0x80u8 >> j) != 0 <==> j < 5) && (0xfcu8 & (0x80u8
        >> j) != 0 <==> j < 6) && (0xfeu8 & (0x80u8 >> j) != 0 <==> j < 7) && 0xffu8 & (0x80u8 >> j)
        != 0) by (bit_vector)
        requires
            j < 8,
    ;
}

/// Bytes with the same bits are the same.
proof fn lemma_same_bits(a: u8, b: u8)
    requires
        forall|j: u8| j < 8 ==> #[trigger] byte_bit(a, j) == byte_bit(b, j),
    ensures
        a == b,
{
    assert(byte_bit(a, 0) == byte_bit(b, 0) && byte_bit(a, 1) == byte_bit(b, 1) && byte_bit(a, 2)
        == byte_bit(b, 2) && byte_bit(a, 3) == byte_bit(b, 3) && byte_bit(a, 4) == byte_bit(b, 4)
        && byte_bit(a, 5) == byte_bit(b, 5) && byte_bit(a, 6) == byte_bit(b, 6) && byte_bit(a, 7)
        == byte_bit(b, 7));
    assert(a == b) by (bit_vector)
        requires
            (a & (0x80u8 >> 0u8) != 0) == (b & (0x80u8 >> 0u8) != 0),
            (a & (0x80u8 >> 1u8) != 0) == (b & (0x80u8 >> 1u8) != 0),
            (a & (0x80u8 >> 2u8) != 0) == (b & (0x80u8 >> 2u8) != 0),
            (a & (0x80u8 >> 3u8) != 0) == (b & (0x80u8 >> 3u8) != 0),
            (a & (0x80u8 >> 4u8) != 0) == (b & (0x80u8 >> 4u8) != 0),
            (a & (0x80u8 >> 5u8) != 0) == (b & (0x80u8 >> 5u8) != 0),
            (a & (0x80u8 >> 6u8) != 0) == (b & (0x80u8 >> 6u8) != 0),
            (a & (0x80u8 >> 7u8) != 0) == (b & (0x80u8 >> 7u8) != 0),
    ;
}

/// Sixteen bytes with the same bits are the same.
pub proof fn law_bits_decide(a: Seq<u8>, b: Seq<u8>)
    requires
        a.len() == 16,
        b.len() == 16,
    ensures
        a == b <==> forall|i: int| 0 <= i < 128 ==> #[trigger] bit(a, i) == bit(b, i),
{
    if forall|i: int| 0 <= i < 128 ==> #[trigger] bit(a, i) == bit(b, i) {
        assert forall|k: int| 0 <= k < 16 implies #[trigger] a[k] == b[k] by {
            assert forall|j: u8| j < 8 implies #[trigger] byte_bit(a[k], j) == byte_bit(b[k], j) by {
                assert(bit(a, 8 * k + j) == bit(b, 8 * k + j));
            }
            lemma_same_bits(a[k], b[k]);
        }
        assert(a =~= b);
    }
}

/// A mask has its ones first, as many as asked for: the bit at `i` is set
/// exactly where `i` is below the prefix length. A mask of whole addresses is
/// empty where the length is beyond 128 bits.
pub proof fn law_mask_bits(bits: int, size: nat, i: int)
    requires
        0 <= i < 8 * size,
    ensures
        mask_bytes(bits, size).len() == size,
        bit(mask_bytes(bits, size), i) <==> i < bits,
        mask_of(bits).len() == 16,
        i < 128 ==> (bit(mask_of(bits), i) <==> i < bits <= 128),
{
    let k = i / 8;
    let j = (i % 8) as u8;
    lemma_masked_bit(0, bits - 8 * k, j);
    assert(0u8 & (0x80u8 >> j) == 0) by (bit_vector);
}

/// The network of an address has its bits up to the prefix length and zeros
/// behind them, and its family and prefix length.
pub proof fn law_network_bits(a: Address, i: int)
    requires
        0 <= i < 128,
    ensures
        network_of(a).addr_type == a.addr_type,
        network_of(a).addr_bits == a.addr_bits,
        network_of(a).data.len() == 16,
        bit(network_of(a).data, i) <==> bit(a.data, i) && i < a.addr_bits <= 128,
{
    let k = i / 8;
    let j = (i % 8) as u8;
    let b = a.data[k];
    lemma_masked_bit(b, a.addr_bits - 8 * k, j);
    assert((b & 0u8) & (0x80u8 >> j) == 0) by (bit_vector);
}

/// The broadcast address of an address has its bits up to the prefix length and
/// ones behind them, as far as an address of the family goes: 32 bits for IPv4,
/// 128 for IPv6, 48 for a hardware address. What lies behind is left as it is.
pub proof fn law_broadcast_bits(a: Address, i: int)
    requires
        0 <= i < 128,
    ensures
        broadcast_of(a).addr_type == a.addr_type,
        broadcast_of(a).addr_bits == a.addr_bits,
        broadcast_of(a).data.len() == 16,
        (a.addr_type == 2 && i < 32) || a.addr_type == 3 || (a.addr_type == 4 && i < 48) ==> (bit(
            broadcast_of(a).data,
            i,
        ) <==> bit(a.data, i) || !(i < a.addr_bits <= 128)),
        !((a.addr_type == 2 && i < 32) || a.addr_type == 3 || (a.addr_type == 4 && i < 48)) ==> (
        bit(broadcast_of(a).data, i) <==> bit(a.data, i)),
{
    let k = i / 8;
    let j = (i % 8) as u8;
    let b = a.data[k];
    lemma_masked_bit(b, a.addr_bits - 8 * k, j);
    lemma_masked_bit(b, 0, j);
}

/// The prefix length of a mask counts its leading ones: eight for each byte of
/// ones, and those of the first other byte where they come before its zeros. A
/// byte that mixes them makes the length zero.
pub proof fn law_netmask_bits(data: Seq<u8>, k: int, n: int)
    requires
        0 <= k <= data.len(),
        forall|i: int| 0 <= i < k ==> #[trigger] data[i] == 255,
        k < data.len() ==> data[k] != 255,
    ensures
        k == data.len() ==> netmask_bits(data, 0) == 8 * k,
        k < data.len() && 0 <= n < 8 && (forall|j: u8|
            j < 8 ==> (#[trigger] byte_bit(data[k], j) <==> j < n)) ==> netmask_bits(data, 0) == 8 * k
            + n,
        k < data.len() && data[k] != 0 && data[k] != 128 && data[k] != 192 && data[k] != 224
            && data[k] != 240 && data[k] != 248 && data[k] != 252 && data[k] != 254
            ==> netmask_bits(data, 0) == 0,
{
    lemma_netmask_skips(data, 0, k);
    if k < data.len() && 0 <= n < 8 && (forall|j: u8|
        j < 8 ==> (#[trigger] byte_bit(data[k], j) <==> j < n)) {
        assert forall|j: u8| j < 8 implies #[trigger] byte_bit(data[k], j) == byte_bit(
            ones_byte(n),
            j,
        ) by {
            lemma_masked_bit(0, n, j);
        }
        lemma_same_bits(data[k], ones_byte(n));
    }
}

/// Bytes of ones are passed over.
proof fn lemma_netmask_skips(data: Seq<u8>, i: int, k: int)
    requires
        0 <= i <= k <= data.len(),
        forall|n: int| i <= n < k ==> #[trigger] data[n] == 255,
    ensures
        netmask_bits(data, i) == netmask_bits(data, k),
    decreases k - i,
{
    if i < k {
        assert(data[i] == 255);
        lemma_netmask_skips(data, i + 1, k);
    }
}

/// The kinds of addresses, by the number of their family, their length in bits
/// and their bytes, with zeros behind them up to sixteen.
pub proof fn law_address_kinds(s: Seq<u8>, i: int)
    requires
        0 <= i < 16,
    ensures
        Address::none().addr_type == 0 && Address::none().addr_bits == 0 && Address::none().data[i]
            == 0 && Address::none().data.len() == 16,
        Address::ipv4(s).addr_type == 2 && Address::ipv4(s).addr_bits == 32 && Address::ipv4(
            s,
        ).data.len() == 16,
        Address::hw(s).addr_type == 4 && Address::hw(s).addr_bits == 48 && Address::hw(s).data.len()
            == 16,
        Address::ipv6(s).addr_type == 3 && Address::ipv6(s).addr_bits == 128 && Address::ipv6(
            s,
        ).data == s,
        i < s.len() ==> Address::ipv4(s).data[i] == s[i] && Address::hw(s).data[i] == s[i],
        i >= s.len() ==> Address::ipv4(s).data[i] == 0 && Address::hw(s).data[i] == 0,
{
}

/// How long the addresses of a family are, in bytes.
pub proof fn law_stored_len(addr_type: u32)
    ensures
        addr_type == 2 ==> stored_len(addr_type) == 4,
        addr_type == 3 ==> stored_len(addr_type) == 16,
        addr_type == 4 ==> stored_len(addr_type) == 6,
        !(2 <= addr_type <= 4) ==> stored_len(addr_type) == 0,
{
}

/// Addresses are ordered by their family first, then by their length in bits,
/// then by the first byte in which they differ, as the numbers are; how far
/// apart these are is how far apart the addresses are.
pub proof fn law_addr_distance(a: Address, b: Address, i: int)
    requires
        a.data.len() == 16,
        b.data.len() == 16,
        0 <= i <= 16,
        forall|k: int| 0 <= k < i ==> #[trigger] a.data[k] == b.data[k],
        i < 16 ==> a.data[i] != b.data[i],
    ensures
        a.addr_type < b.addr_type ==> distance(a, b) < 0,
        a.addr_type > b.addr_type ==> distance(a, b) > 0,
        a.addr_type != b.addr_type && -0x8000_0000 <= a.addr_type - b.addr_type <= 0x7fff_ffff
            ==> distance(a, b) == a.addr_type - b.addr_type,
        a.addr_type - b.addr_type < -0x8000_0000 ==> distance(a, b) == -0x8000_0000,
        a.addr_type - b.addr_type > 0x7fff_ffff ==> distance(a, b) == 0x7fff_ffff,
        a.addr_type == b.addr_type && a.addr_bits != b.addr_bits ==> distance(a, b) == a.addr_bits
            - b.addr_bits,
        a.addr_type == b.addr_type && a.addr_bits == b.addr_bits && i < 16 ==> distance(a, b)
            == a.data[i] - b.data[i],
        a.addr_type == b.addr_type && a.addr_bits == b.addr_bits && i == 16 ==> distance(a, b) == 0,
{
    lemma_first_difference(a.data, b.data, i);
}

/// The distance of two texts of bytes is that of the first that differ.
proof fn lemma_first_difference(a: Seq<u8>, b: Seq<u8>, i: int)
    requires
        a.len() == b.len(),
        0 <= i <= a.len(),
        forall|k: int| 0 <= k < i ==> #[trigger] a[k] == b[k],
        i < a.len() ==> a[i] != b[i],
    ensures
        i < a.len() ==> bytes_distance(a, b) == a[i] - b[i],
        i == a.len() ==> bytes_distance(a, b) == 0,
    decreases i,
{
    if i > 0 {
        assert(a[0] == b[0]);
        assert forall|k: int| 0 <= k < i - 1 implies #[trigger] a.skip(1)[k] == b.skip(1)[k] by {
            assert(a[k + 1] == b[k + 1]);
        }
        lemma_first_difference(a.skip(1), b.skip(1), i - 1);
    }
}

/// What a text is read as, with white space at its ends left out of account: as
/// an IPv4 address where it is one, else as an IPv6 address where it is one, else
/// as a hardware address where it is one with colons. Anything else is not read.
pub proof fn law_addr_text(s: Seq<char>, o: Seq<u8>)
    requires
        o.len() == 4,
    ensures
        ({
            let t = trimmed(s);
            let v4 = exists|q: Seq<u8>| q.len() == 4 && t == #[trigger] ipv4_shown(q);
            &&& t == ipv4_shown(o) ==> addr_text(s) == Some(Address::ipv4(o))
            &&& !v4 && ipv6_text(t) is Some ==> addr_text(s) is Some && (addr_text(s)->0).addr_type
                == 3 && (addr_text(s)->0).addr_bits == 128 && segments_of((addr_text(s)->0).data)
                == ipv6_text(t)->0
            &&& !v4 && ipv6_text(t) is None && mac_text(t) is Some && t.contains(':') ==> addr_text(
                s,
            ) == Some(Address::hw(mac_text(t)->0))
            &&& !v4 && ipv6_text(t) is None && (mac_text(t) is None || !t.contains(':'))
                ==> addr_text(s) is None
        }),
{
    let t = trimmed(s);
    law_ipv4_only(t, o);
    if ipv4_text(t) is Some {
        law_ipv4_only(t, ipv4_text(t)->0);
    }
    if ipv6_text(t) is Some {
        let g = ipv6_text(t)->0;
        lemma_ipv6_eight(t);
        assert forall|i: int| 0 <= i < 8 implies #[trigger] segments_of(octets_of(g))[i] == g[i] by {
            law_segments(octets_of(g), g, i);
        }
        assert(segments_of(octets_of(g)) =~= g);
    }
}

/// An IPv6 address that was read has eight groups.
proof fn lemma_ipv6_eight(t: Seq<char>)
    ensures
        ipv6_text(t) is Some ==> ipv6_text(t)->0.len() == 8,
{
}

/// An address is written in the form of its family; one of no known family has
/// none.
pub proof fn law_addr_shown(a: Address)
    requires
        a.data.len() == 16,
    ensures
        a.addr_type == 2 ==> addr_shown(a) == ipv4_shown(a.data.subrange(0, 4)),
        a.addr_type == 3 ==> addr_shown(a) == ipv6_shown(segments_of(a.data)),
        a.addr_type == 4 ==> addr_shown(a) == mac_shown(a.data.subrange(0, 6)),
        !(2 <= a.addr_type <= 4) ==> addr_shown(a) == "(unknown)"@,
{
    assert(a.data.take(4) =~= a.data.subrange(0, 4));
    assert(a.data.take(6) =~= a.data.subrange(0, 6));
}

} // verus!
