//! Ethernet link-layer handling.
//!
//! Provides the Ethernet address type, the fixed 14-byte Ethernet header,
//! well-known EtherTypes, and text<->binary conversion of MAC addresses.

use vstd::prelude::*;

use crate::addr::{Addr, Address};
use crate::text::{
    chars_of, digit, digit_char, digit_of, has_char, join, law_digit, law_split_join, law_unsigned,
    lemma_digit_char, lemma_join_ends, lemma_number_chars, lemma_number_lacks,
    lemma_number_natural, lemma_trimmed_unchanged, is_white_space, parse_unsigned, char_of_digit, number, split,
    split_at_char, texts, trim, trimmed, unsigned,
};
use crate::wire::{
    be16, be16_bytes, get_be16, law_integer_bytes, overwritten, put_be16, put_bytes, same_bytes,
};

verus! {

/// Length of an Ethernet hardware address in octets.
pub const ETH_ADDR_LEN: usize = 6;
/// Length of the EtherType field in octets.
pub const ETH_TYPE_LEN: usize = 2;
/// Length of the CRC field in octets.
pub const ETH_CRC_LEN: usize = 4;
/// Length of the Ethernet header (dst + src + type).
pub const ETH_HDR_LEN: usize = 14;
/// Minimum frame length including CRC.
pub const ETH_LEN_MIN: usize = 64;
/// Maximum frame length including CRC.
pub const ETH_LEN_MAX: usize = 1518;
/// Maximum payload for a standard Ethernet frame.
pub const ETH_MTU: usize = 1500;
/// Minimum payload for a standard Ethernet frame.
pub const ETH_MIN: usize = 46;

/// Well-known EtherTypes (host byte order constants; serialized network order).
pub const ETH_TYPE_PUP: u16 = 0x0200;
pub const ETH_TYPE_IP: u16 = 0x0800;
pub const ETH_TYPE_ARP: u16 = 0x0806;
pub const ETH_TYPE_REVARP: u16 = 0x8035;
pub const ETH_TYPE_8021Q: u16 = 0x8100;
pub const ETH_TYPE_IPV6: u16 = 0x86DD;
pub const ETH_TYPE_MPLS: u16 = 0x8847;
pub const ETH_TYPE_MPLS_MCAST: u16 = 0x8848;
pub const ETH_TYPE_PPPOEDISC: u16 = 0x8863;
pub const ETH_TYPE_PPPOE: u16 = 0x8864;
pub const ETH_TYPE_LOOPBACK: u16 = 0x9000;

/// The broadcast Ethernet address `ff:ff:ff:ff:ff:ff`.
pub const ETH_ADDR_BROADCAST: [u8; 6] = [0xff, 0xff, 0xff, 0xff, 0xff, 0xff];

/// An Ethernet hardware (MAC) address.
#[derive(Clone, Copy, Eq, Hash, Debug)]
pub struct EthAddr {
    pub data: [u8; 6],
}

impl PartialEq for EthAddr {
    fn eq(&self, other: &Self) -> (r: bool) {
        let r: bool = same_bytes(self.data.as_slice(), other.data.as_slice());
        assert(self.data@ == other.data@ ==> self.data =~= other.data);
        r
    }
}

impl vstd::std_specs::cmp::PartialEqSpecImpl for EthAddr {
    open spec fn obeys_eq_spec() -> bool {
        true
    }

    open spec fn eq_spec(&self, other: &Self) -> bool {
        *self == *other
    }
}

impl Default for EthAddr {
    fn default() -> (r: Self)
        ensures
            r.data@ == seq![0u8, 0u8, 0u8, 0u8, 0u8, 0u8],
    {
        let r: EthAddr = EthAddr { data: [0u8; 6] };
        assert(r.data@ =~= seq![0u8, 0u8, 0u8, 0u8, 0u8, 0u8]);
        r
    }
}

impl EthAddr {
    pub fn new(data: [u8; 6]) -> (r: Self)
        ensures
            r.data == data,
    {
        EthAddr { data }
    }

    /// True if this is a multicast or broadcast address.
    pub fn is_multicast(&self) -> (r: bool)
        ensures
            r == (self.data@[0] % 2 == 1),
    {
        let b: u8 = self.data[0];
        assert((b & 0x01 != 0) == (b % 2 == 1)) by (bit_vector);
        b & 0x01 != 0
    }

    pub fn is_broadcast(&self) -> (r: bool)
        ensures
            r == (forall|i: int| 0 <= i < 6 ==> #[trigger] self.data@[i] == 0xff),
    {
        let all: EthAddr = EthAddr::new(ETH_ADDR_BROADCAST);
        let r: bool = *self == all;
        proof {
            if forall|i: int| 0 <= i < 6 ==> #[trigger] self.data@[i] == 0xff {
                assert(self.data =~= all.data);
            }
        }
        r
    }

    /// Convert to a polymorphic address.
    pub fn to_addr(&self) -> (r: Addr)
        ensures
            r@ == Address::hw(self.data@),
    {
        Addr::hw(self.data)
    }
}

// ---------------------------------------------------------------------------
// Text

/// A byte as two hexadecimal digits.
pub open spec fn two_digits(b: u8) -> Seq<char> {
    seq![digit_char(b as int / 16), digit_char(b as int % 16)]
}

/// The text of a MAC address.
pub open spec fn mac_shown(data: Seq<u8>) -> Seq<char> {
    join(data.map_values(|b: u8| two_digits(b)), ':')
}

/// The bytes that six hexadecimal pieces denote.
pub open spec fn mac_pieces(p: Seq<Seq<char>>) -> Option<Seq<u8>> {
    if p.len() == 6 && (forall|i: int| 0 <= i < 6 ==> unsigned(#[trigger] p[i], 16, 255) is Some) {
        Some(Seq::new(6, |i: int| unsigned(p[i], 16, 255)->0 as u8))
    } else {
        None
    }
}

/// The hexadecimal digits in a text, in order.
pub open spec fn hex_digits(s: Seq<char>) -> Seq<int>
    decreases s.len(),
{
    if s.len() == 0 {
        Seq::empty()
    } else {
        match digit(s.last(), 16) {
            Some(d) => hex_digits(s.drop_last()).push(d),
            None => hex_digits(s.drop_last()),
        }
    }
}

/// The bytes that a text denotes as a MAC address: six pieces between colons,
/// or else between hyphens, or else twelve hexadecimal digits.
pub open spec fn mac_text(s: Seq<char>) -> Option<Seq<u8>> {
    let t = trimmed(s);
    if t.contains(':') {
        mac_pieces(split(t, ':'))
    } else if t.contains('-') {
        mac_pieces(split(t, '-'))
    } else {
        let d = hex_digits(t);
        if d.len() == 12 {
            Some(Seq::new(6, |i: int| (d[2 * i] * 16 + d[2 * i + 1]) as u8))
        } else {
            None
        }
    }
}

/// Append a byte as two hexadecimal digits.
pub fn push_two_digits(out: &mut String, b: u8)
    ensures
        final(out)@ == old(out)@ + two_digits(b),
{
    out.push(char_of_digit(b as u32 / 16));
    out.push(char_of_digit(b as u32 % 16));
    assert(out@ =~= old(out)@ + two_digits(b));
}

/// Append the text of a MAC address.
pub fn push_mac(out: &mut String, data: &[u8; 6])
    ensures
        final(out)@ == old(out)@ + mac_shown(data@),
{
    let mut i: usize = 0;
    let ghost p = data@.map_values(|b: u8| two_digits(b));
    assert(out@ =~= old(out)@ + join(p.take(0), ':'));
    while i < 6
        invariant
            i <= 6,
            p == data@.map_values(|b: u8| two_digits(b)),
            out@ == old(out)@ + join(p.take(i as int), ':'),
        decreases 6 - i,
    {
        assert(p.take(i + 1).drop_last() =~= p.take(i as int));
        assert(p.take(i + 1).last() == two_digits(data@[i as int]));
        if i > 0 {
            out.push(':');
        }
        push_two_digits(out, data[i]);
        i = i + 1;
        assert(out@ =~= old(out)@ + join(p.take(i as int), ':'));
    }
    assert(p.take(6) =~= p);
}

/// Format a MAC address as text (`aa:bb:cc:dd:ee:ff`).
pub fn eth_ntop(addr: &EthAddr) -> (r: String)
    ensures
        r@ == mac_shown(addr.data@),
{
    let mut out: String = String::new();
    push_mac(&mut out, &addr.data);
    assert(out@ =~= mac_shown(addr.data@));
    out
}

/// Read a MAC address from six hexadecimal pieces.
fn parse_pieces(pieces: &Vec<Vec<char>>) -> (r: Option<EthAddr>)
    ensures
        match r {
            Some(a) => mac_pieces(texts(pieces@)) == Some(a.data@),
            None => mac_pieces(texts(pieces@)) is None,
        },
{
    let ghost p = texts(pieces@);
    if pieces.len() != 6 {
        return None;
    }
    let mut bytes: [u8; 6] = [0u8; 6];
    let mut i: usize = 0;
    while i < 6
        invariant
            i <= 6,
            pieces@.len() == 6,
            p == texts(pieces@),
            forall|k: int|
                0 <= k < i ==> unsigned(#[trigger] p[k], 16, 255) is Some && bytes@[k] == unsigned(
                    p[k],
                    16,
                    255,
                )->0,
        decreases 6 - i,
    {
        assert(p[i as int] == pieces@[i as int]@);
        match parse_unsigned(pieces[i].as_slice(), 16, 255) {
            Some(v) => {
                bytes[i] = v as u8;
            },
            None => {
                return None;
            },
        }
        i = i + 1;
    }
    assert(bytes@ =~= mac_pieces(p)->0);
    Some(EthAddr::new(bytes))
}

/// Parse a MAC address from text, accepting `:` or `-` separators or twelve
/// hexadecimal digits.
pub fn eth_pton(s: &str) -> (r: Option<EthAddr>)
    ensures
        match r {
            Some(a) => mac_text(s@) == Some(a.data@),
            None => mac_text(s@) is None,
        },
{
    let chars: Vec<char> = chars_of(s);
    parse_mac(chars.as_slice())
}

/// Read a MAC address.
pub fn parse_mac(v: &[char]) -> (r: Option<EthAddr>)
    ensures
        match r {
            Some(a) => mac_text(v@) == Some(a.data@),
            None => mac_text(v@) is None,
        },
{
    let t: Vec<char> = trim(v);
    if has_char(t.as_slice(), ':') {
        return parse_pieces(&split_at_char(t.as_slice(), ':'));
    }
    if has_char(t.as_slice(), '-') {
        return parse_pieces(&split_at_char(t.as_slice(), '-'));
    }
    let mut digits: Vec<u32> = Vec::new();
    let mut i: usize = 0;
    assert(digits@.map_values(|d: u32| d as int) =~= hex_digits(t@.take(0)));
    while i < t.len()
        invariant
            i <= t@.len(),
            digits@.map_values(|d: u32| d as int) == hex_digits(t@.take(i as int)),
            forall|k: int| 0 <= k < digits@.len() ==> digits@[k] < 16,
        decreases t@.len() - i,
    {
        assert(t@.take(i + 1).drop_last() =~= t@.take(i as int));
        let ghost before = digits@;
        match digit_of(t[i], 16) {
            Some(d) => {
                digits.push(d);
                assert(digits@.map_values(|d: u32| d as int) =~= before.map_values(
                    |d: u32| d as int,
                ).push(d as int));
            },
            None => {},
        }
        i = i + 1;
    }
    assert(t@.take(t@.len() as int) =~= t@);
    let ghost d = hex_digits(t@);
    if digits.len() != 12 {
        return None;
    }
    let mut bytes: [u8; 6] = [0u8; 6];
    let mut k: usize = 0;
    while k < 6
        invariant
            k <= 6,
            digits@.len() == 12,
            d == digits@.map_values(|d: u32| d as int),
            forall|j: int| 0 <= j < digits@.len() ==> digits@[j] < 16,
            forall|j: int|
                #![trigger bytes@[j]]
                0 <= j < k ==> bytes@[j] == d[2 * j] * 16 + d[2 * j + 1],
        decreases 6 - k,
    {
        assert(d[2 * k] == digits@[2 * k] && d[2 * k + 1] == digits@[2 * k + 1]);
        bytes[k] = (digits[2 * k] * 16 + digits[2 * k + 1]) as u8;
        k = k + 1;
    }
    assert(bytes@ =~= mac_text(v@)->0);
    Some(EthAddr::new(bytes))
}

/// Two hexadecimal digits denote the byte they were written for.
pub proof fn lemma_two_digits(b: u8)
    ensures
        unsigned(two_digits(b), 16, 255) == Some(b as int),
        !two_digits(b).contains(':'),
        digit(two_digits(b)[0], 16) is Some,
        digit(two_digits(b)[1], 16) is Some,
{
    let s = two_digits(b);
    lemma_digit_char(b as int / 16, 16);
    lemma_digit_char(b as int % 16, 16);
    assert(s.drop_last().drop_last() =~= Seq::<char>::empty());
    reveal_with_fuel(number, 3);
    assert(s.drop_last().last() == s[0]);
}

/// A written MAC address is six pieces of two digits.
pub proof fn lemma_mac_shown(data: Seq<u8>)
    requires
        data.len() == 6,
    ensures
        mac_shown(data).len() == 17,
        split(mac_shown(data), ':') == data.map_values(|b: u8| two_digits(b)),
        mac_shown(data).contains(':'),
        !is_white_space(mac_shown(data).first()),
        !is_white_space(mac_shown(data).last()),
        mac_pieces(split(mac_shown(data), ':')) == Some(data),
{
    let p = data.map_values(|b: u8| two_digits(b));
    assert forall|i: int| 0 <= i < 6 implies !(#[trigger] p[i]).contains(':') && unsigned(
        p[i],
        16,
        255,
    ) == Some(data[i] as int) && p[i].len() == 2 && digit(p[i][0], 16) is Some && digit(
        p[i][1],
        16,
    ) is Some by {
        lemma_two_digits(data[i]);
    }
    law_split_join(p, ':');
    reveal_with_fuel(join, 7);
    assert(p.drop_last().drop_last().drop_last().drop_last().drop_last() =~= seq![p[0]]);
    let s = mac_shown(data);
    assert(s =~= p[0].push(':') + p[1].push(':') + p[2].push(':') + p[3].push(':') + p[4].push(':')
        + p[5]);
    assert(s[2] == ':');
    assert(s.first() == p[0][0]);
    assert(s.last() == p[5][1]);
    assert(mac_pieces(p)->0 =~= data);
}

/// Reading undoes writing, for every MAC address.
pub proof fn law_mac_roundtrip(data: Seq<u8>)
    requires
        data.len() == 6,
    ensures
        mac_text(mac_shown(data)) == Some(data),
{
    lemma_mac_shown(data);
    lemma_trimmed_unchanged(mac_shown(data));
}

// ---------------------------------------------------------------------------
// Headers

/// A parsed Ethernet header.
#[derive(Clone, Copy, PartialEq, Eq, Debug)]
pub struct EthHdr {
    pub dst: EthAddr,
    pub src: EthAddr,
    pub proto: u16,
}

/// The bytes of an Ethernet header.
pub open spec fn eth_bytes(h: EthHdr) -> Seq<u8> {
    h.dst.data@ + h.src.data@ + be16_bytes(h.proto)
}

/// The six bytes from `at` on.
pub fn six_bytes(buf: &[u8], at: usize) -> (r: [u8; 6])
    requires
        at + 6 <= buf@.len(),
    ensures
        r@ == buf@.subrange(at as int, at + 6),
{
    let r: [u8; 6] = [buf[at], buf[at + 1], buf[at + 2], buf[at + 3], buf[at + 4], buf[at + 5]];
    assert(r@ =~= buf@.subrange(at as int, at + 6));
    r
}

impl EthHdr {
    /// Parse an Ethernet header from the first `ETH_HDR_LEN` bytes of a frame.
    pub fn parse(buf: &[u8]) -> (r: Option<EthHdr>)
        ensures
            match r {
                Some(h) => buf@.len() >= 14 && h.dst.data@ == buf@.subrange(0, 6) && h.src.data@
                    == buf@.subrange(6, 12) && h.proto == be16(buf@, 12),
                None => buf@.len() < 14,
            },
    {
        if buf.len() < ETH_HDR_LEN {
            return None;
        }
        Some(
            EthHdr {
                dst: EthAddr::new(six_bytes(buf, 0)),
                src: EthAddr::new(six_bytes(buf, 6)),
                proto: get_be16(buf, 12),
            },
        )
    }

    /// Serialize this header to the front of a buffer (needs `ETH_HDR_LEN`).
    pub fn encode(&self, buf: &mut [u8])
        requires
            old(buf)@.len() >= 14,
        ensures
            final(buf)@ == overwritten(old(buf)@, 0, eth_bytes(*self)),
    {
        put_bytes(buf, 0, self.dst.data.as_slice());
        put_bytes(buf, 6, self.src.data.as_slice());
        put_be16(buf, 12, self.proto);
        assert(buf@ =~= overwritten(old(buf)@, 0, eth_bytes(*self)));
    }
}

/// Parsing undoes encoding: the fields of a header are where parsing looks for
/// them, whatever the buffer held before.
pub proof fn law_eth_roundtrip(h: EthHdr, before: Seq<u8>)
    requires
        before.len() >= 14,
    ensures
        overwritten(before, 0, eth_bytes(h)).len() == before.len(),
        overwritten(before, 0, eth_bytes(h)).subrange(0, 6) == h.dst.data@,
        overwritten(before, 0, eth_bytes(h)).subrange(6, 12) == h.src.data@,
        be16(overwritten(before, 0, eth_bytes(h)), 12) == h.proto,
{
    let s = overwritten(before, 0, eth_bytes(h));
    assert(s.subrange(0, 6) =~= h.dst.data@);
    assert(s.subrange(6, 12) =~= h.src.data@);
    assert(s[12] == be16_bytes(h.proto)[0] && s[13] == be16_bytes(h.proto)[1]);
}

// ---------------------------------------------------------------------------
// Laws on the forms

/// A byte is written as its two hexadecimal digits, the more significant one
/// first, with small letters.
pub proof fn law_two_digits(b: u8)
    ensures
        two_digits(b).len() == 2,
        digit(two_digits(b)[0], 16) is Some,
        digit(two_digits(b)[1], 16) is Some,
        digit(two_digits(b)[0], 16)->0 * 16 + digit(two_digits(b)[1], 16)->0 == b,
        !(65 <= two_digits(b)[0] as int <= 90),
        !(65 <= two_digits(b)[1] as int <= 90),
{
    law_digit(two_digits(b)[0], 16, b as int / 16);
    law_digit(two_digits(b)[1], 16, b as int % 16);
}

/// A MAC address is written as its six bytes, the first one first, with colons
/// between them.
pub proof fn law_mac_form(data: Seq<u8>, i: int)
    requires
        data.len() == 6,
        0 <= i < 6,
    ensures
        split(mac_shown(data), ':').len() == 6,
        split(mac_shown(data), ':')[i] == two_digits(data[i]),
{
    lemma_mac_shown(data);
}

/// Six hexadecimal numbers of at most 255 with colons or with hyphens between
/// them are read as a MAC address; any other count is not.
pub proof fn law_mac_pieces(p: Seq<Seq<char>>, sep: char)
    requires
        sep == ':' || sep == '-',
        p.len() >= 2,
        forall|i: int|
            0 <= i < p.len() ==> (#[trigger] p[i]).len() > 0 && number(p[i], 16) is Some && number(
                p[i],
                16,
            )->0 <= 255,
    ensures
        p.len() != 6 ==> mac_text(join(p, sep)) is None,
        p.len() == 6 ==> mac_text(join(p, sep)) is Some && mac_text(join(p, sep))->0.len() == 6,
        p.len() == 6 ==> forall|i: int|
            0 <= i < 6 ==> #[trigger] mac_text(join(p, sep))->0[i] as int == number(p[i], 16)->0,
{
    let s = join(p, sep);
    assert forall|i: int| 0 <= i < p.len() implies !(#[trigger] p[i]).contains(':')
        && !p[i].contains('-') && unsigned(p[i], 16, 255) == number(p[i], 16) && number(p[i], 16)->0
        >= 0 by {
        lemma_number_lacks(p[i], 16, ':');
        lemma_number_lacks(p[i], 16, '-');
        law_unsigned(p[i], 16, 255);
        lemma_number_natural(p[i], 16);
    }
    law_split_join(p, sep);
    lemma_join_ends(p, sep);
    assert(p.last() == p[p.len() - 1]);
    lemma_number_chars(p[0], 16, 0);
    lemma_number_chars(p.last(), 16, p.last().len() - 1);
    lemma_trimmed_unchanged(s);
    if sep == '-' {
        assert(!s.contains(':'));
    }
}

/// The hexadecimal digits of a text that has nothing else are all its
/// characters.
proof fn lemma_hex_digits(s: Seq<char>)
    requires
        forall|i: int| 0 <= i < s.len() ==> digit(#[trigger] s[i], 16) is Some,
    ensures
        hex_digits(s).len() == s.len(),
        forall|i: int| 0 <= i < s.len() ==> #[trigger] hex_digits(s)[i] == digit(s[i], 16)->0,
    decreases s.len(),
{
    if s.len() > 0 {
        lemma_hex_digits(s.drop_last());
        assert(digit(s[s.len() - 1], 16) is Some);
    }
}

/// Twelve hexadecimal digits are read as the six bytes that they are in pairs;
/// any other number of digits is not.
pub proof fn law_mac_digits(s: Seq<char>)
    requires
        s.len() > 0,
        forall|i: int| 0 <= i < s.len() ==> digit(#[trigger] s[i], 16) is Some,
    ensures
        s.len() != 12 ==> mac_text(s) is None,
        s.len() == 12 ==> mac_text(s) is Some && mac_text(s)->0.len() == 6,
        s.len() == 12 ==> forall|i: int|
            0 <= i < 6 ==> #[trigger] mac_text(s)->0[i] as int == digit(s[2 * i], 16)->0 * 16 + digit(
                s[2 * i + 1],
                16,
            )->0,
{
    assert(digit(s[0], 16) is Some && digit(s[s.len() - 1], 16) is Some);
    lemma_trimmed_unchanged(s);
    lemma_hex_digits(s);
    if s.contains(':') {
        let i = choose|i: int| 0 <= i < s.len() && s[i] == ':';
        assert(digit(s[i], 16) is Some);
    }
    if s.contains('-') {
        let i = choose|i: int| 0 <= i < s.len() && s[i] == '-';
        assert(digit(s[i], 16) is Some);
    }
    if s.len() == 12 {
        let d = hex_digits(s);
        assert forall|i: int| 0 <= i < 6 implies #[trigger] mac_text(s)->0[i] as int == digit(
            s[2 * i],
            16,
        )->0 * 16 + digit(s[2 * i + 1], 16)->0 by {
            assert(d[2 * i] == digit(s[2 * i], 16)->0);
            assert(d[2 * i + 1] == digit(s[2 * i + 1], 16)->0);
        }
    }
}

/// The layout of an Ethernet header: six bytes of destination, six of source,
/// and the type with its more significant byte first.
pub proof fn law_eth_layout(h: EthHdr, i: int)
    requires
        0 <= i < 6,
    ensures
        eth_bytes(h).len() == 14,
        eth_bytes(h)[i] == h.dst.data@[i],
        eth_bytes(h)[6 + i] == h.src.data@[i],
        eth_bytes(h)[12] * 256 + eth_bytes(h)[13] == h.proto,
{
    law_integer_bytes(h.proto, 0);
}

} // verus!
