//! Internet addresses and their text forms.
//!
//! An IPv4 address is written as four decimal numbers with dots between them.
//! An IPv6 address is written as eight hexadecimal groups with colons between
//! them; one `::` may stand for a run of zero groups, and the last two groups
//! may be written as an IPv4 address.

use vstd::prelude::*;

use crate::text::{
    decimal, digit, digits, join, law_digits_only, law_join_split, law_number_digits,
    law_split_join, lemma_number_lacks, lemma_number_natural, lemma_split_tail,
    lemma_split_without, number, parse_unsigned, part, push_decimal, push_digits, split,
    split_at_char, texts,
};
use crate::wire::{be16, law_big_endian, same_bytes};

verus! {

/// An IPv4 address.
#[derive(Clone, Copy, Debug, Eq, Hash)]
pub struct Ipv4Addr {
    /// The four octets, in network order.
    pub octets: [u8; 4],
}

/// An IPv6 address.
#[derive(Clone, Copy, Debug, Eq, Hash)]
pub struct Ipv6Addr {
    /// The sixteen octets, in network order.
    pub octets: [u8; 16],
}

/// An internet address of either version.
#[derive(Clone, Copy, Debug, PartialEq, Eq, Hash)]
pub enum IpAddr {
    V4(Ipv4Addr),
    V6(Ipv6Addr),
}

/// An internet address with a port.
#[derive(Clone, Copy, Debug, PartialEq, Eq, Hash)]
pub struct SocketAddr {
    pub ip: IpAddr,
    pub port: u16,
}

impl PartialEq for Ipv4Addr {
    fn eq(&self, other: &Self) -> (r: bool) {
        let r: bool = same_bytes(self.octets.as_slice(), other.octets.as_slice());
        assert(self.octets@ == other.octets@ ==> self.octets =~= other.octets);
        r
    }
}

impl vstd::std_specs::cmp::PartialEqSpecImpl for Ipv4Addr {
    open spec fn obeys_eq_spec() -> bool {
        true
    }

    open spec fn eq_spec(&self, other: &Self) -> bool {
        *self == *other
    }
}

impl PartialEq for Ipv6Addr {
    fn eq(&self, other: &Self) -> (r: bool) {
        let r: bool = same_bytes(self.octets.as_slice(), other.octets.as_slice());
        assert(self.octets@ == other.octets@ ==> self.octets =~= other.octets);
        r
    }
}

impl vstd::std_specs::cmp::PartialEqSpecImpl for Ipv6Addr {
    open spec fn obeys_eq_spec() -> bool {
        true
    }

    open spec fn eq_spec(&self, other: &Self) -> bool {
        *self == *other
    }
}

// ---------------------------------------------------------------------------
// IPv4 text

/// The octet that a text denotes: one to three decimal digits, without a
/// leading zero, for at most 255.
pub open spec fn octet(s: Seq<char>) -> Option<int> {
    match number(s, 10) {
        Some(v) if 1 <= s.len() <= 3 && (s.len() > 1 ==> s[0] != '0') && v <= 255 => Some(v),
        _ => None,
    }
}

/// The octets that a text denotes as an IPv4 address.
pub open spec fn ipv4_text(s: Seq<char>) -> Option<Seq<u8>> {
    let p = split(s, '.');
    if p.len() == 4 && octet(p[0]) is Some && octet(p[1]) is Some && octet(p[2]) is Some
        && octet(p[3]) is Some {
        Some(
            seq![
                octet(p[0])->0 as u8,
                octet(p[1])->0 as u8,
                octet(p[2])->0 as u8,
                octet(p[3])->0 as u8,
            ],
        )
    } else {
        None
    }
}

/// The text of an IPv4 address.
pub open spec fn ipv4_shown(octets: Seq<u8>) -> Seq<char> {
    join(octets.map_values(|b: u8| decimal(b as int)), '.')
}

/// Read an octet.
pub fn parse_octet(v: &[char]) -> (r: Option<u8>)
    ensures
        match r {
            Some(b) => octet(v@) == Some(b as int),
            None => octet(v@) is None,
        },
{
    if v.len() < 1 || v.len() > 3 || v[0] == '+' || (v.len() > 1 && v[0] == '0') {
        proof {
            if v@.len() >= 1 && v@[0] == '+' && number(v@, 10) is Some {
                crate::text::lemma_number_grows(v@, 10, 1);
                assert(v@.take(1).last() == '+');
            }
        }
        return None;
    }
    match parse_unsigned(v, 10, 255) {
        Some(n) => Some(n as u8),
        None => None,
    }
}

/// Read an IPv4 address.
pub fn parse_ipv4(v: &[char]) -> (r: Option<Ipv4Addr>)
    ensures
        match r {
            Some(a) => ipv4_text(v@) == Some(a.octets@),
            None => ipv4_text(v@) is None,
        },
{
    let pieces: Vec<Vec<char>> = split_at_char(v, '.');
    let ghost p = split(v@, '.');
    if pieces.len() != 4 {
        return None;
    }
    assert(p[0] == pieces@[0]@ && p[1] == pieces@[1]@ && p[2] == pieces@[2]@ && p[3]
        == pieces@[3]@);
    let a: Option<u8> = parse_octet(pieces[0].as_slice());
    let b: Option<u8> = parse_octet(pieces[1].as_slice());
    let c: Option<u8> = parse_octet(pieces[2].as_slice());
    let d: Option<u8> = parse_octet(pieces[3].as_slice());
    match (a, b, c, d) {
        (Some(a), Some(b), Some(c), Some(d)) => Some(Ipv4Addr::new(a, b, c, d)),
        _ => None,
    }
}

/// Append the text of an IPv4 address.
pub fn push_ipv4(out: &mut String, a: &Ipv4Addr)
    ensures
        final(out)@ == old(out)@ + ipv4_shown(a.octets@),
{
    push_decimal(out, a.octets[0] as u64);
    out.push('.');
    push_decimal(out, a.octets[1] as u64);
    out.push('.');
    push_decimal(out, a.octets[2] as u64);
    out.push('.');
    push_decimal(out, a.octets[3] as u64);
    proof {
        let p = a.octets@.map_values(|b: u8| decimal(b as int));
        reveal_with_fuel(join, 5);
        assert(p.drop_last().drop_last().drop_last() =~= seq![p[0]]);
        assert(out@ =~= old(out)@ + ipv4_shown(a.octets@));
    }
}

impl Ipv4Addr {
    /// The address `a.b.c.d`.
    pub fn new(a: u8, b: u8, c: u8, d: u8) -> (r: Self)
        ensures
            r.octets@ == seq![a, b, c, d],
    {
        let r: Ipv4Addr = Ipv4Addr { octets: [a, b, c, d] };
        assert(r.octets@ =~= seq![a, b, c, d]);
        r
    }
}

/// The decimal digits of a byte are few enough for an octet and have no dot.
pub proof fn lemma_octet_shown(b: u8)
    ensures
        octet(decimal(b as int)) == Some(b as int),
        !decimal(b as int).contains('.'),
        !decimal(b as int).contains(':'),
{
    let s = decimal(b as int);
    law_number_digits(b as int, 10);
    reveal_with_fuel(digits, 4);
    assert(s.len() <= 3);
    assert forall|i: int| 0 <= i < s.len() implies s[i] != '.' && s[i] != ':' by {
        assert(digit(s[i], 10) is Some);
    }
    if s.len() > 1 {
        assert(s[0] != '0');
    }
}

/// Reading undoes writing, for every IPv4 address.
pub proof fn law_ipv4_roundtrip(octets: Seq<u8>)
    requires
        octets.len() == 4,
    ensures
        ipv4_text(ipv4_shown(octets)) == Some(octets),
{
    let p = octets.map_values(|b: u8| decimal(b as int));
    assert forall|i: int| 0 <= i < p.len() implies !(#[trigger] p[i]).contains('.') && octet(p[i])
        == Some(octets[i] as int) by {
        lemma_octet_shown(octets[i]);
    }
    law_split_join(p, '.');
    assert(ipv4_text(ipv4_shown(octets))->0 =~= octets);
}

// ---------------------------------------------------------------------------
// IPv6 text

/// The eight groups of an IPv6 address.
pub open spec fn segments_of(octets: Seq<u8>) -> Seq<u16> {
    Seq::new(8, |i: int| be16(octets, 2 * i) as u16)
}

/// The octets of an address given by its groups.
pub open spec fn octets_of(g: Seq<u16>) -> Seq<u8> {
    Seq::new(
        16,
        |i: int|
            if i % 2 == 0 {
                (g[i / 2] / 0x100) as u8
            } else {
                (g[i / 2] % 0x100) as u8
            },
    )
}

/// Octets and groups say the same.
pub proof fn lemma_octets_segments(octets: Seq<u8>)
    requires
        octets.len() == 16,
    ensures
        octets_of(segments_of(octets)) == octets,
{
    let g = segments_of(octets);
    assert forall|i: int| 0 <= i < 16 implies #[trigger] octets_of(g)[i] == octets[i] by {
        let k = i / 2;
        assert(g[k] == be16(octets, 2 * k));
    }
    assert(octets_of(g) =~= octets);
}

/// The group that a text denotes: one to four hexadecimal digits.
pub open spec fn group(s: Seq<char>) -> Option<int> {
    if 1 <= s.len() <= 4 {
        number(s, 16)
    } else {
        None
    }
}

/// The groups that the pieces denote, one each.
pub open spec fn hex_groups(pieces: Seq<Seq<char>>) -> Option<Seq<u16>>
    decreases pieces.len(),
{
    if pieces.len() == 0 {
        Some(Seq::empty())
    } else {
        match (hex_groups(pieces.drop_last()), group(pieces.last())) {
            (Some(g), Some(v)) => Some(g.push(v as u16)),
            _ => None,
        }
    }
}

/// The groups that the pieces denote, where the last piece may be an IPv4
/// address, which stands for two groups.
pub open spec fn last_groups(pieces: Seq<Seq<char>>) -> Option<Seq<u16>> {
    if pieces.len() == 0 {
        Some(Seq::empty())
    } else {
        match (hex_groups(pieces.drop_last()), group(pieces.last()), ipv4_text(pieces.last())) {
            (Some(g), Some(v), _) => Some(g.push(v as u16)),
            (Some(g), None, Some(o)) => Some(
                g.push(be16(o, 0) as u16).push(be16(o, 2) as u16),
            ),
            _ => None,
        }
    }
}

/// The pieces between colons; none in the empty text.
pub open spec fn colon_pieces(s: Seq<char>) -> Seq<Seq<char>> {
    if s.len() == 0 {
        Seq::empty()
    } else {
        split(s, ':')
    }
}

/// Where the first `::` at or after `from` stands.
pub open spec fn gap_from(s: Seq<char>, from: int) -> Option<int>
    decreases s.len() - from,
{
    if from + 1 >= s.len() {
        None
    } else if s[from] == ':' && s[from + 1] == ':' {
        Some(from)
    } else {
        gap_from(s, from + 1)
    }
}

/// The groups that a text denotes as an IPv6 address.
pub open spec fn ipv6_text(s: Seq<char>) -> Option<Seq<u16>> {
    match gap_from(s, 0) {
        None => match last_groups(colon_pieces(s)) {
            Some(g) if g.len() == 8 => Some(g),
            _ => None,
        },
        Some(at) => match (
            hex_groups(colon_pieces(s.take(at))),
            last_groups(colon_pieces(s.skip(at + 2))),
        ) {
            (Some(h), Some(t)) if h.len() + t.len() <= 7 => Some(
                h + Seq::new((8 - h.len() - t.len()) as nat, |i: int| 0u16) + t,
            ),
            _ => None,
        },
    }
}

/// Groups in hexadecimal with colons between them.
pub open spec fn groups_shown(g: Seq<u16>) -> Seq<char> {
    join(g.map_values(|v: u16| digits(v as int, 16)), ':')
}

/// How many zero groups stand in a row from `i` on.
pub open spec fn zero_run(g: Seq<u16>, i: int) -> int
    decreases g.len() - i,
{
    if i >= g.len() || g[i] != 0 {
        0
    } else {
        1 + zero_run(g, i + 1)
    }
}

/// Where the longest run of zero groups at or after `i` starts; the first one
/// of several.
pub open spec fn longest_run(g: Seq<u16>, i: int) -> int
    decreases g.len() - i,
{
    if i >= g.len() {
        i
    } else if zero_run(g, i) >= zero_run(g, longest_run(g, i + 1)) {
        i
    } else {
        longest_run(g, i + 1)
    }
}

/// Whether the groups are those of an IPv4 address mapped into IPv6.
pub open spec fn is_v4_mapped(g: Seq<u16>) -> bool {
    g[0] == 0 && g[1] == 0 && g[2] == 0 && g[3] == 0 && g[4] == 0 && g[5] == 0xffff
}

/// The last four octets of an address given by its groups.
pub open spec fn mapped_octets(g: Seq<u16>) -> Seq<u8> {
    seq![(g[6] / 0x100) as u8, (g[6] % 0x100) as u8, (g[7] / 0x100) as u8, (g[7] % 0x100) as u8]
}

/// The text of an IPv6 address: the longest run of two or more zero groups is
/// written `::`, and a mapped IPv4 address in dotted form.
pub open spec fn ipv6_shown(g: Seq<u16>) -> Seq<char> {
    let start = longest_run(g, 0);
    let run = zero_run(g, start);
    if is_v4_mapped(g) {
        "::ffff:"@ + ipv4_shown(mapped_octets(g))
    } else if run > 1 {
        groups_shown(g.take(start)) + "::"@ + groups_shown(g.skip(start + run))
    } else {
        groups_shown(g)
    }
}

/// Read a group.
pub fn parse_group(v: &[char]) -> (r: Option<u16>)
    ensures
        match r {
            Some(n) => group(v@) == Some(n as int),
            None => group(v@) is None,
        },
{
    if v.len() < 1 || v.len() > 4 || v[0] == '+' {
        proof {
            if v@.len() >= 1 && v@[0] == '+' && number(v@, 16) is Some {
                crate::text::lemma_number_grows(v@, 16, 1);
                assert(v@.take(1).last() == '+');
            }
        }
        return None;
    }
    proof {
        if number(v@, 16) is Some {
            lemma_group_bound(v@);
        }
    }
    match parse_unsigned(v, 16, 0xffff) {
        Some(n) => Some(n as u16),
        None => None,
    }
}

/// Four hexadecimal digits stay below 65536.
pub proof fn lemma_group_bound(s: Seq<char>)
    requires
        s.len() <= 4,
        number(s, 16) is Some,
    ensures
        0 <= number(s, 16)->0 <= 0xffff,
        s.len() <= 3 ==> number(s, 16)->0 <= 0xfff,
        s.len() <= 2 ==> number(s, 16)->0 <= 0xff,
        s.len() <= 1 ==> number(s, 16)->0 <= 0xf,
        s.len() == 0 ==> number(s, 16)->0 == 0,
    decreases s.len(),
{
    if s.len() > 0 {
        lemma_group_bound(s.drop_last());
    }
}

/// Read hexadecimal groups, one from each of the first `n` pieces.
pub fn parse_groups(pieces: &Vec<Vec<char>>, n: usize) -> (r: Option<Vec<u16>>)
    requires
        n <= pieces@.len(),
    ensures
        match r {
            Some(g) => hex_groups(texts(pieces@).take(n as int)) == Some(g@),
            None => hex_groups(texts(pieces@).take(n as int)) is None,
        },
    decreases n,
{
    let ghost p = texts(pieces@).take(n as int);
    if n == 0 {
        let g: Vec<u16> = Vec::new();
        assert(g@ =~= Seq::<u16>::empty());
        return Some(g);
    }
    assert(p.drop_last() =~= texts(pieces@).take(n - 1));
    assert(p.last() == pieces@[n - 1]@);
    match parse_groups(pieces, n - 1) {
        None => None,
        Some(mut g) => match parse_group(pieces[n - 1].as_slice()) {
            Some(v) => {
                g.push(v);
                Some(g)
            },
            None => None,
        },
    }
}

/// Split a text at its colons.
pub fn split_colons(v: &[char]) -> (r: Vec<Vec<char>>)
    ensures
        texts(r@) == colon_pieces(v@),
{
    if v.len() == 0 {
        let r: Vec<Vec<char>> = Vec::new();
        assert(texts(r@) =~= Seq::<Seq<char>>::empty());
        r
    } else {
        split_at_char(v, ':')
    }
}

/// Read groups of which the last two may be written as an IPv4 address.
pub fn parse_last_groups(v: &[char]) -> (r: Option<Vec<u16>>)
    ensures
        match r {
            Some(g) => last_groups(colon_pieces(v@)) == Some(g@),
            None => last_groups(colon_pieces(v@)) is None,
        },
{
    let pieces: Vec<Vec<char>> = split_colons(v);
    let n: usize = pieces.len();
    let ghost p = texts(pieces@);
    if n == 0 {
        let g: Vec<u16> = Vec::new();
        assert(g@ =~= Seq::<u16>::empty());
        return Some(g);
    }
    assert(p.drop_last() =~= p.take(n - 1));
    assert(p.last() == pieces@[n - 1]@);
    match parse_groups(&pieces, n - 1) {
        None => None,
        Some(mut g) => match parse_group(pieces[n - 1].as_slice()) {
            Some(v) => {
                g.push(v);
                Some(g)
            },
            None => match parse_ipv4(pieces[n - 1].as_slice()) {
                Some(a) => {
                    g.push(a.octets[0] as u16 * 0x100 + a.octets[1] as u16);
                    g.push(a.octets[2] as u16 * 0x100 + a.octets[3] as u16);
                    Some(g)
                },
                None => None,
            },
        },
    }
}

/// Find the first `::`.
pub fn find_gap(v: &[char]) -> (r: Option<usize>)
    ensures
        match r {
            Some(i) => gap_from(v@, 0) == Some(i as int) && i + 2 <= v@.len(),
            None => gap_from(v@, 0) is None,
        },
{
    let mut i: usize = 0;
    if v.len() < 2 {
        return None;
    }
    while i < v.len() - 1
        invariant
            2 <= v@.len(),
            i <= v@.len() - 1,
            gap_from(v@, 0) == gap_from(v@, i as int),
        decreases v@.len() - i,
    {
        if v[i] == ':' && v[i + 1] == ':' {
            return Some(i);
        }
        i = i + 1;
    }
    None
}

/// Read an IPv6 address.
pub fn parse_ipv6(v: &[char]) -> (r: Option<Ipv6Addr>)
    ensures
        match r {
            Some(a) => ipv6_text(v@) == Some(segments_of(a.octets@)),
            None => ipv6_text(v@) is None,
        },
{
    match find_gap(v) {
        None => match parse_last_groups(v) {
            Some(g) => if g.len() == 8 {
                Some(Ipv6Addr::from_segments(&g))
            } else {
                None
            },
            None => None,
        },
        Some(at) => {
            let n: usize = v.len();
            let head: Vec<char> = part(v, 0, at);
            let tail: Vec<char> = part(v, at + 2, n);
            assert(head@ =~= v@.take(at as int));
            assert(tail@ =~= v@.skip(at + 2));
            let head_pieces: Vec<Vec<char>> = split_colons(head.as_slice());
            assert(texts(head_pieces@).take(head_pieces@.len() as int) =~= texts(head_pieces@));
            let h: Option<Vec<u16>> = parse_groups(&head_pieces, head_pieces.len());
            let t: Option<Vec<u16>> = parse_last_groups(tail.as_slice());
            match (h, t) {
                (Some(h), Some(t)) => {
                    if h.len() > 7 || t.len() > 7 - h.len() {
                        return None;
                    }
                    let gap: usize = 8 - h.len() - t.len();
                    let mut g: Vec<u16> = Vec::new();
                    let ghost want = h@ + Seq::new(gap as nat, |i: int| 0u16) + t@;
                    let mut i: usize = 0;
                    while i < 8
                        invariant
                            i <= 8,
                            h@.len() + gap + t@.len() == 8,
                            want == h@ + Seq::new(gap as nat, |i: int| 0u16) + t@,
                            g@ == want.take(i as int),
                        decreases 8 - i,
                    {
                        if i < h.len() {
                            g.push(h[i]);
                        } else if i < h.len() + gap {
                            g.push(0);
                        } else {
                            g.push(t[i - h.len() - gap]);
                        }
                        i = i + 1;
                        assert(g@ =~= want.take(i as int));
                    }
                    assert(want.take(8) =~= want);
                    Some(Ipv6Addr::from_segments(&g))
                },
                _ => None,
            }
        },
    }
}

impl Ipv6Addr {
    /// The address with the given eight groups.
    pub fn new(a: u16, b: u16, c: u16, d: u16, e: u16, f: u16, g: u16, h: u16) -> (r: Self)
        ensures
            segments_of(r.octets@) == seq![a, b, c, d, e, f, g, h],
    {
        let v: Vec<u16> = vec![a, b, c, d, e, f, g, h];
        Ipv6Addr::from_segments(&v)
    }

    /// The address with the given groups.
    pub fn from_segments(g: &Vec<u16>) -> (r: Self)
        requires
            g@.len() == 8,
        ensures
            segments_of(r.octets@) == g@,
    {
        let mut octets: [u8; 16] = [0u8; 16];
        let mut i: usize = 0;
        while i < 8
            invariant
                i <= 8,
                g@.len() == 8,
                forall|k: int|
                    #![trigger g@[k]]
                    0 <= k < i ==> octets@[2 * k] == (g@[k] / 0x100) as u8 && octets@[2 * k + 1] == (
                    g@[k] % 0x100) as u8,
            decreases 8 - i,
        {
            let ghost before = octets@;
            octets[2 * i] = (g[i] / 0x100) as u8;
            octets[2 * i + 1] = (g[i] % 0x100) as u8;
            assert(octets@ =~= before.update(2 * i, (g@[i as int] / 0x100) as u8).update(
                2 * i + 1,
                (g@[i as int] % 0x100) as u8,
            ));
            i = i + 1;
        }
        assert forall|k: int| 0 <= k < 8 implies be16(octets@, 2 * k) as u16 == g@[k] by {
            let v = g@[k];
            assert(octets@[2 * k] == (v / 0x100) as u8);
        }
        assert(segments_of(octets@) =~= g@);
        Ipv6Addr { octets }
    }

    /// The eight groups of this address.
    pub fn segments(&self) -> (r: Vec<u16>)
        ensures
            r@ == segments_of(self.octets@),
    {
        let mut out: Vec<u16> = Vec::new();
        let mut i: usize = 0;
        while i < 8
            invariant
                i <= 8,
                out@ == segments_of(self.octets@).take(i as int),
            decreases 8 - i,
        {
            out.push(self.octets[2 * i] as u16 * 0x100 + self.octets[2 * i + 1] as u16);
            i = i + 1;
            assert(out@ =~= segments_of(self.octets@).take(i as int));
        }
        assert(segments_of(self.octets@).take(8) =~= segments_of(self.octets@));
        out
    }
}

/// Append the groups from `from` up to `to`, in hexadecimal.
fn push_groups(out: &mut String, g: &Vec<u16>, from: usize, to: usize)
    requires
        from <= to <= g@.len(),
    ensures
        final(out)@ == old(out)@ + groups_shown(g@.subrange(from as int, to as int)),
{
    let mut i: usize = from;
    assert(out@ =~= old(out)@ + groups_shown(g@.subrange(from as int, from as int)));
    while i < to
        invariant
            from <= i <= to <= g@.len(),
            out@ == old(out)@ + groups_shown(g@.subrange(from as int, i as int)),
        decreases to - i,
    {
        let ghost p = g@.subrange(from as int, i + 1).map_values(|v: u16| digits(v as int, 16));
        assert(p.drop_last() =~= g@.subrange(from as int, i as int).map_values(
            |v: u16| digits(v as int, 16),
        ));
        assert(p.last() == digits(g@[i as int] as int, 16));
        if i > from {
            out.push(':');
        }
        push_digits(out, g[i] as u64, 16);
        i = i + 1;
        assert(out@ =~= old(out)@ + groups_shown(g@.subrange(from as int, i as int)));
    }
}

/// Append the text of an IPv6 address.
pub fn push_ipv6(out: &mut String, a: &Ipv6Addr)
    ensures
        final(out)@ == old(out)@ + ipv6_shown(segments_of(a.octets@)),
{
    let g: Vec<u16> = a.segments();
    if g[0] == 0 && g[1] == 0 && g[2] == 0 && g[3] == 0 && g[4] == 0 && g[5] == 0xffff {
        out.append("::ffff:");
        let v4: Ipv4Addr = Ipv4Addr::new(a.octets[12], a.octets[13], a.octets[14], a.octets[15]);
        assert(g@[6] == be16(a.octets@, 12) && g@[7] == be16(a.octets@, 14));
        assert(v4.octets@ =~= mapped_octets(g@));
        push_ipv4(out, &v4);
        assert(out@ =~= old(out)@ + ipv6_shown(g@));
        return;
    }
    let mut i: usize = 8;
    let mut run: usize = 0;
    let mut start: usize = 8;
    let mut best: usize = 0;
    while i > 0
        invariant
            i <= 8,
            g@.len() == 8,
            run == zero_run(g@, i as int),
            start == longest_run(g@, i as int),
            best == zero_run(g@, start as int),
            run <= 8 - i,
            start <= 8,
            best <= 8 - start,
        decreases i,
    {
        i = i - 1;
        run = if g[i] == 0 {
            run + 1
        } else {
            0
        };
        if run >= best {
            start = i;
            best = run;
        }
    }
    if best > 1 {
        push_groups(out, &g, 0, start);
        out.append("::");
        push_groups(out, &g, start + best, 8);
        assert(g@.subrange(0, start as int) =~= g@.take(start as int));
        assert(g@.subrange(start + best, 8) =~= g@.skip(start + best));
        assert(out@ =~= old(out)@ + ipv6_shown(g@));
    } else {
        push_groups(out, &g, 0, 8);
        assert(g@.subrange(0, 8) =~= g@);
    }
}

/// The hexadecimal digits of a group are few enough to read back, and have no
/// colon.
pub proof fn lemma_group_shown(v: u16)
    ensures
        1 <= digits(v as int, 16).len() <= 4,
        group(digits(v as int, 16)) == Some(v as int),
        !digits(v as int, 16).contains(':'),
{
    let s = digits(v as int, 16);
    law_number_digits(v as int, 16);
    reveal_with_fuel(digits, 5);
    assert(s.len() <= 4);
    assert forall|i: int| 0 <= i < s.len() implies s[i] != ':' by {
        assert(digit(s[i], 16) is Some);
    }
}

/// Written groups read back as they were, also where an IPv4 address may end
/// them.
pub proof fn lemma_groups_shown(g: Seq<u16>)
    ensures
        hex_groups(colon_pieces(groups_shown(g))) == Some(g),
        last_groups(colon_pieces(groups_shown(g))) == Some(g),
{
    let p = g.map_values(|v: u16| digits(v as int, 16));
    lemma_hex_groups_shown(g);
    if g.len() == 0 {
        assert(p =~= Seq::<Seq<char>>::empty());
        assert(g =~= Seq::<u16>::empty());
    } else {
        assert forall|i: int| 0 <= i < p.len() implies !(#[trigger] p[i]).contains(':') && p[i].len()
            > 0 by {
            lemma_group_shown(g[i]);
        }
        law_split_join(p, ':');
        lemma_join_plain(p);
        lemma_hex_groups_shown(g.drop_last());
        assert(g.drop_last().map_values(|v: u16| digits(v as int, 16)) =~= p.drop_last());
        lemma_group_shown(g.last());
        assert(p.last() == digits(g.last() as int, 16));
        assert(g.drop_last().push(g.last()) =~= g);
    }
}

/// Groups written one to a piece read back as they were.
proof fn lemma_hex_groups_shown(g: Seq<u16>)
    ensures
        hex_groups(g.map_values(|v: u16| digits(v as int, 16))) == Some(g),
    decreases g.len(),
{
    let p = g.map_values(|v: u16| digits(v as int, 16));
    if g.len() == 0 {
        assert(g =~= Seq::<u16>::empty());
    } else {
        lemma_hex_groups_shown(g.drop_last());
        assert(g.drop_last().map_values(|v: u16| digits(v as int, 16)) =~= p.drop_last());
        lemma_group_shown(g.last());
        assert(p.last() == digits(g.last() as int, 16));
        assert(g.drop_last().push(g.last()) =~= g);
    }
}

/// Whether `::` occurs nowhere in a text.
pub open spec fn gapless(s: Seq<char>) -> bool {
    forall|i: int| #![trigger s[i]] 0 <= i < s.len() - 1 ==> !(s[i] == ':' && s[i + 1] == ':')
}

/// Pieces that are neither empty nor contain a colon, joined by colons, have
/// no `::`, and no colon at either end.
pub proof fn lemma_join_plain(p: Seq<Seq<char>>)
    requires
        p.len() > 0,
        forall|i: int| 0 <= i < p.len() ==> !(#[trigger] p[i]).contains(':') && p[i].len() > 0,
    ensures
        join(p, ':').len() > 0,
        gapless(join(p, ':')),
        join(p, ':').first() != ':',
        join(p, ':').last() != ':',
    decreases p.len(),
{
    let s = join(p, ':');
    let l = p.last();
    assert(l == p[p.len() - 1]);
    assert forall|k: int| 0 <= k < l.len() implies l[k] != ':' by {
        assert(l.contains(l[k]));
    }
    if p.len() > 1 {
        let q = p.drop_last();
        assert forall|i: int| 0 <= i < q.len() implies !(#[trigger] q[i]).contains(':')
            && q[i].len() > 0 by {
            assert(q[i] == p[i]);
        }
        lemma_join_plain(q);
        let h = join(q, ':');
        assert(s == h.push(':') + l);
        assert forall|i: int| #![trigger s[i]] 0 <= i < s.len() - 1 implies !(s[i] == ':' && s[i
            + 1] == ':') by {
            if i < h.len() - 1 {
                assert(s[i] == h[i] && s[i + 1] == h[i + 1]);
            } else if i == h.len() - 1 {
                assert(s[i] == h.last());
            } else {
                assert(s[i + 1] == l[i + 1 - h.len() - 1]);
            }
        }
        assert(s.last() == l.last());
        assert(s.first() == h.first());
    }
}

/// The first `::` is the first place that has one.
pub proof fn lemma_gap_at(s: Seq<char>, from: int, at: int)
    requires
        0 <= from <= at,
        forall|i: int|
            #![trigger s[i]]
            from <= i < at && i < s.len() - 1 ==> !(s[i] == ':' && s[i + 1] == ':'),
        at < s.len() - 1 ==> s[at] == ':' && s[at + 1] == ':',
    ensures
        gap_from(s, from) == (if at < s.len() - 1 {
            Some(at)
        } else {
            None
        }),
    decreases at - from,
{
    if from < at {
        assert(from < s.len() - 1 ==> !(s[from] == ':' && s[from + 1] == ':'));
        lemma_gap_at(s, from + 1, at);
        if from + 1 >= s.len() {
            assert(gap_from(s, from) is None);
        }
    }
}

/// A run of zeros is as long as it says.
pub proof fn lemma_zero_run(g: Seq<u16>, i: int)
    requires
        0 <= i <= g.len(),
    ensures
        0 <= zero_run(g, i) <= g.len() - i,
        forall|k: int| i <= k < i + zero_run(g, i) ==> g[k] == 0,
    decreases g.len() - i,
{
    if i < g.len() && g[i] == 0 {
        lemma_zero_run(g, i + 1);
    }
}

/// The longest run starts inside the groups, or at their end.
pub proof fn lemma_longest_run(g: Seq<u16>, i: int)
    requires
        0 <= i <= g.len(),
    ensures
        i <= longest_run(g, i) <= g.len(),
    decreases g.len() - i,
{
    if i < g.len() {
        lemma_longest_run(g, i + 1);
    }
}

/// Where two texts without `::`, the first not ending in a colon, stand round
/// one, that is the first `::`.
proof fn lemma_gap_between(a: Seq<char>, b: Seq<char>)
    requires
        gapless(a),
        a.len() > 0 ==> a.last() != ':',
    ensures
        gap_from(a + "::"@ + b, 0) == Some(a.len() as int),
        (a + "::"@ + b).take(a.len() as int) == a,
        (a + "::"@ + b).skip(a.len() as int + 2) == b,
{
    reveal_strlit("::");
    let s = a + "::"@ + b;
    assert forall|i: int| #![trigger s[i]] 0 <= i < a.len() && i < s.len() - 1 implies !(s[i] == ':'
        && s[i + 1] == ':') by {
        if i < a.len() - 1 {
            assert(s[i] == a[i] && s[i + 1] == a[i + 1]);
        } else {
            assert(s[i] == a.last());
        }
    }
    lemma_gap_at(s, 0, a.len() as int);
    assert(s.take(a.len() as int) =~= a);
    assert(s.skip(a.len() as int + 2) =~= b);
}

/// Written groups have no `::`, and no colon at either end.
proof fn lemma_groups_plain(g: Seq<u16>)
    ensures
        gapless(groups_shown(g)),
        groups_shown(g).len() > 0 ==> groups_shown(g).last() != ':',
{
    let p = g.map_values(|v: u16| digits(v as int, 16));
    if g.len() > 0 {
        assert forall|i: int| 0 <= i < p.len() implies !(#[trigger] p[i]).contains(':') && p[i].len()
            > 0 by {
            lemma_group_shown(g[i]);
        }
        lemma_join_plain(p);
    }
}

/// Reading undoes writing, for every IPv6 address.
pub proof fn law_ipv6_roundtrip(g: Seq<u16>)
    requires
        g.len() == 8,
    ensures
        ipv6_text(ipv6_shown(g)) == Some(g),
{
    let start = longest_run(g, 0);
    let run = zero_run(g, start);
    lemma_longest_run(g, 0);
    lemma_zero_run(g, start);
    let s = ipv6_shown(g);
    if is_v4_mapped(g) {
        lemma_mapped_roundtrip(g);
    } else if run > 1 {
        let h = g.take(start);
        let t = g.skip(start + run);
        lemma_groups_plain(h);
        lemma_groups_shown(h);
        lemma_groups_shown(t);
        lemma_gap_between(groups_shown(h), groups_shown(t));
        assert(ipv6_text(s)->0 =~= g);
    } else {
        lemma_groups_plain(g);
        lemma_groups_shown(g);
        lemma_gap_at(s, 0, s.len() as int);
    }
}

/// A written IPv4 address has no colon, and more characters than a group.
proof fn lemma_ipv4_plain(o: Seq<u8>)
    requires
        o.len() == 4,
    ensures
        !ipv4_shown(o).contains(':'),
        ipv4_shown(o).len() >= 7,
{
    let v4 = ipv4_shown(o);
    let p = o.map_values(|b: u8| decimal(b as int));
    assert forall|i: int| 0 <= i < p.len() implies !(#[trigger] p[i]).contains(':') && p[i].len()
        >= 1 by {
        lemma_octet_shown(o[i]);
    }
    reveal_with_fuel(join, 5);
    assert(p.drop_last().drop_last().drop_last() =~= seq![p[0]]);
    let dots = p[0].push('.') + p[1].push('.') + p[2].push('.') + p[3];
    assert(v4 =~= dots);
    if v4.contains(':') {
        let k = choose|k: int| 0 <= k < v4.len() && v4[k] == ':';
        assert(dots[k] == ':');
        let a = p[0].len() + 1;
        let b = a + p[1].len() + 1;
        let c = b + p[2].len() + 1;
        if k < a {
            assert(p[0].push('.')[k] == ':');
            assert(p[0].contains(p[0][k]));
        } else if k < b {
            assert(p[1].push('.')[k - a] == ':');
            assert(p[1].contains(p[1][k - a]));
        } else if k < c {
            assert(p[2].push('.')[k - b] == ':');
            assert(p[2].contains(p[2][k - b]));
        } else {
            assert(p[3][k - c] == ':');
            assert(p[3].contains(p[3][k - c]));
        }
    }
}

/// The groups of what stands behind the gap of a mapped IPv4 address.
proof fn lemma_mapped_tail(g: Seq<u16>)
    requires
        g.len() == 8,
        is_v4_mapped(g),
    ensures
        last_groups(
            seq![seq!['f', 'f', 'f', 'f'], ipv4_shown(mapped_octets(g))],
        ) == Some(seq![0xffffu16, g[6], g[7]]),
{
    let o = mapped_octets(g);
    let v4 = ipv4_shown(o);
    let f = seq!['f', 'f', 'f', 'f'];
    let pieces = seq![f, v4];
    lemma_ipv4_plain(o);
    law_ipv4_roundtrip(o);
    assert(pieces.drop_last() =~= seq![f]);
    assert(seq![f].drop_last() =~= Seq::<Seq<char>>::empty());
    assert(group(f) == Some(0xffffint)) by {
        reveal_with_fuel(number, 5);
        assert(f.drop_last().drop_last().drop_last().drop_last() =~= Seq::<char>::empty());
    }
    reveal_with_fuel(hex_groups, 3);
    assert(hex_groups(seq![f]) == Some(Seq::<u16>::empty().push(0xffffu16)));
    assert(group(v4) is None);
    assert(be16(o, 0) == g[6] && be16(o, 2) == g[7]);
    assert(last_groups(pieces)->0 =~= seq![0xffffu16, g[6], g[7]]);
}

/// The part of the law on mapped IPv4 addresses.
proof fn lemma_mapped_roundtrip(g: Seq<u16>)
    requires
        g.len() == 8,
        is_v4_mapped(g),
    ensures
        ipv6_text(ipv6_shown(g)) == Some(g),
{
    reveal_strlit("::ffff:");
    let v4 = ipv4_shown(mapped_octets(g));
    let s = ipv6_shown(g);
    let f = seq!['f', 'f', 'f', 'f'];
    let tail = s.skip(2);
    lemma_ipv4_plain(mapped_octets(g));
    lemma_mapped_tail(g);
    lemma_gap_at(s, 0, 0);
    assert(s.take(0) =~= Seq::<char>::empty());
    assert(tail =~= f.push(':') + v4);
    lemma_split_tail(f, ':', v4);
    assert(!f.contains(':'));
    lemma_split_without(f, ':');
    assert(split(tail, ':') =~= seq![f, v4]);
    assert(hex_groups(colon_pieces(s.take(0))) == Some(Seq::<u16>::empty()));
    assert(ipv6_text(s)->0 =~= g);
}

// ---------------------------------------------------------------------------
// Laws on the forms

/// An IPv4 address is written as its four octets in decimal, the first one
/// first, with dots between them.
pub proof fn law_ipv4_form(octets: Seq<u8>, i: int)
    requires
        octets.len() == 4,
        0 <= i < 4,
    ensures
        split(ipv4_shown(octets), '.').len() == 4,
        split(ipv4_shown(octets), '.')[i] == decimal(octets[i] as int),
        number(split(ipv4_shown(octets), '.')[i], 10) == Some(octets[i] as int),
{
    let p = octets.map_values(|b: u8| decimal(b as int));
    assert forall|k: int| 0 <= k < p.len() implies !(#[trigger] p[k]).contains('.') by {
        lemma_octet_shown(octets[k]);
    }
    law_split_join(p, '.');
    law_number_digits(octets[i] as int, 10);
}

/// A text is read as an IPv4 address exactly where it is what that address is
/// written as.
pub proof fn law_ipv4_only(s: Seq<char>, o: Seq<u8>)
    ensures
        ipv4_text(s) == Some(o) <==> o.len() == 4 && s == ipv4_shown(o),
{
    if o.len() == 4 {
        law_ipv4_roundtrip(o);
    }
    if ipv4_text(s) == Some(o) {
        let p = split(s, '.');
        law_join_split(s, '.');
        let q = o.map_values(|b: u8| decimal(b as int));
        assert forall|i: int| 0 <= i < 4 implies #[trigger] p[i] == q[i] by {
            assert(octet(p[i]) is Some) by {
                assert(octet(p[0]) is Some && octet(p[1]) is Some && octet(p[2]) is Some && octet(
                    p[3],
                ) is Some);
            }
            law_digits_only(p[i]);
            lemma_number_natural(p[i], 10);
            assert(o[i] == octet(p[i])->0) by {
                assert(o[0] == octet(p[0])->0 as u8 && o[1] == octet(p[1])->0 as u8 && o[2] == octet(
                    p[2],
                )->0 as u8 && o[3] == octet(p[3])->0 as u8);
            }
        }
        assert(p =~= q);
    }
}

/// A group of an IPv6 address is two octets, the more significant one first.
pub proof fn law_segments(octets: Seq<u8>, g: Seq<u16>, i: int)
    requires
        0 <= i < 8,
    ensures
        segments_of(octets).len() == 8,
        segments_of(octets)[i] == octets[2 * i] * 256 + octets[2 * i + 1],
        octets_of(g).len() == 16,
        octets_of(g)[2 * i] * 256 + octets_of(g)[2 * i + 1] == g[i],
{
    law_big_endian(octets, 2 * i);
    assert(octets_of(g)[2 * i] == (g[i] / 0x100) as u8);
    assert(octets_of(g)[2 * i + 1] == (g[i] % 0x100) as u8);
}

/// Groups stand for the numbers that they are in hexadecimal.
proof fn lemma_hex_values(p: Seq<Seq<char>>)
    requires
        forall|i: int|
            0 <= i < p.len() ==> 1 <= (#[trigger] p[i]).len() <= 4 && number(p[i], 16) is Some,
    ensures
        hex_groups(p) is Some,
        hex_groups(p)->0.len() == p.len(),
        forall|i: int|
            0 <= i < p.len() ==> #[trigger] hex_groups(p)->0[i] as int == number(p[i], 16)->0,
        last_groups(p) == hex_groups(p),
    decreases p.len(),
{
    if p.len() > 0 {
        let q = p.drop_last();
        assert forall|i: int| 0 <= i < q.len() implies 1 <= (#[trigger] q[i]).len() <= 4 && number(
            q[i],
            16,
        ) is Some by {
            assert(q[i] == p[i]);
        }
        lemma_hex_values(q);
        assert(p.last() == p[p.len() - 1]);
        lemma_group_bound(p.last());
        let g = hex_groups(p)->0;
        assert forall|i: int| 0 <= i < p.len() implies #[trigger] g[i] as int == number(p[i], 16)->0 by {
            if i < q.len() {
                assert(g[i] == hex_groups(q)->0[i]);
                assert(q[i] == p[i]);
            }
        }
    }
}

/// Pieces of digits can be told from the text that they make with colons.
proof fn lemma_hex_joined(p: Seq<Seq<char>>)
    requires
        forall|i: int|
            0 <= i < p.len() ==> 1 <= (#[trigger] p[i]).len() <= 4 && number(p[i], 16) is Some,
    ensures
        colon_pieces(join(p, ':')) == p,
        gapless(join(p, ':')),
        p.len() > 0 ==> join(p, ':').len() > 0 && join(p, ':').last() != ':',
{
    if p.len() == 0 {
        assert(p =~= Seq::<Seq<char>>::empty());
    } else {
        assert forall|i: int| 0 <= i < p.len() implies !(#[trigger] p[i]).contains(':') && p[i].len()
            > 0 by {
            lemma_number_lacks(p[i], 16, ':');
        }
        law_split_join(p, ':');
        lemma_join_plain(p);
    }
}

/// Eight groups of one to four hexadecimal digits each, with colons between
/// them, are read as the numbers that they are; fewer or more groups are not
/// read.
pub proof fn law_ipv6_groups(p: Seq<Seq<char>>)
    requires
        p.len() > 0,
        forall|i: int|
            0 <= i < p.len() ==> 1 <= (#[trigger] p[i]).len() <= 4 && number(p[i], 16) is Some,
    ensures
        p.len() == 8 ==> ipv6_text(join(p, ':')) is Some && ipv6_text(join(p, ':'))->0.len() == 8,
        p.len() == 8 ==> forall|i: int|
            0 <= i < 8 ==> #[trigger] ipv6_text(join(p, ':'))->0[i] as int == number(p[i], 16)->0,
        p.len() != 8 ==> ipv6_text(join(p, ':')) is None,
{
    let s = join(p, ':');
    lemma_hex_values(p);
    lemma_hex_joined(p);
    lemma_gap_at(s, 0, s.len() as int);
}

/// A double colon stands for as many zero groups as are missing to make eight,
/// at least one. Groups before it stay at the start and those behind it at the
/// end.
pub proof fn law_ipv6_gap(h: Seq<Seq<char>>, t: Seq<Seq<char>>)
    requires
        forall|i: int|
            0 <= i < h.len() ==> 1 <= (#[trigger] h[i]).len() <= 4 && number(h[i], 16) is Some,
        forall|i: int|
            0 <= i < t.len() ==> 1 <= (#[trigger] t[i]).len() <= 4 && number(t[i], 16) is Some,
    ensures
        ({
            let r = ipv6_text(join(h, ':') + seq![':', ':'] + join(t, ':'));
            &&& h.len() + t.len() > 7 ==> r is None
            &&& h.len() + t.len() <= 7 ==> {
                &&& r is Some
                &&& r->0.len() == 8
                &&& forall|i: int| 0 <= i < h.len() ==> (#[trigger] r->0[i]) as int == number(h[i], 16)->0
                &&& forall|i: int| h.len() <= i < 8 - t.len() ==> #[trigger] r->0[i] == 0
                &&& forall|i: int|
                    8 - t.len() <= i < 8 ==> (#[trigger] r->0[i]) as int == number(
                        t[i - 8 + t.len()],
                        16,
                    )->0
            }
        }),
{
    let a = join(h, ':');
    let b = join(t, ':');
    reveal_strlit("::");
    assert("::"@ =~= seq![':', ':']);
    lemma_hex_values(h);
    lemma_hex_values(t);
    lemma_hex_joined(h);
    lemma_hex_joined(t);
    lemma_gap_between(a, b);
}

/// The last two groups may be written as an IPv4 address, whose octets they
/// then are.
pub proof fn law_ipv6_dotted(p: Seq<Seq<char>>, o: Seq<u8>)
    requires
        p.len() == 6,
        forall|i: int|
            0 <= i < p.len() ==> 1 <= (#[trigger] p[i]).len() <= 4 && number(p[i], 16) is Some,
        o.len() == 4,
    ensures
        ({
            let r = ipv6_text(join(p.push(ipv4_shown(o)), ':'));
            &&& r is Some
            &&& r->0.len() == 8
            &&& forall|i: int| 0 <= i < 6 ==> (#[trigger] r->0[i]) as int == number(p[i], 16)->0
            &&& r->0[6] == o[0] * 256 + o[1]
            &&& r->0[7] == o[2] * 256 + o[3]
        }),
{
    let v4 = ipv4_shown(o);
    let q = p.push(v4);
    let s = join(q, ':');
    lemma_hex_values(p);
    lemma_ipv4_plain(o);
    law_ipv4_roundtrip(o);
    law_big_endian(o, 0);
    law_big_endian(o, 2);
    assert(q.drop_last() =~= p);
    assert forall|i: int| 0 <= i < q.len() implies !(#[trigger] q[i]).contains(':') && q[i].len() > 0 by {
        if i < p.len() {
            assert(q[i] == p[i]);
            lemma_number_lacks(p[i], 16, ':');
        }
    }
    law_split_join(q, ':');
    lemma_join_plain(q);
    lemma_gap_at(s, 0, s.len() as int);
    assert(colon_pieces(s) == q);
}

/// How long a run of zeros is at least.
proof fn lemma_run_reaches(g: Seq<u16>, i: int, j: int)
    requires
        0 <= i <= j <= g.len(),
        forall|k: int| i <= k < j ==> #[trigger] g[k] == 0,
    ensures
        zero_run(g, i) >= j - i,
    decreases j - i,
{
    if i < j {
        assert(g[i] == 0);
        lemma_run_reaches(g, i + 1, j);
    } else {
        lemma_zero_run(g, i);
    }
}

/// No run behind `from` is longer than the longest, and none as long before it.
proof fn lemma_run_longest(g: Seq<u16>, from: int, k: int)
    requires
        0 <= from <= k <= g.len(),
    ensures
        zero_run(g, k) <= zero_run(g, longest_run(g, from)),
        zero_run(g, k) == zero_run(g, longest_run(g, from)) && k < g.len() ==> longest_run(g, from)
            <= k,
    decreases g.len() - from,
{
    if from < g.len() {
        lemma_longest_run(g, from + 1);
        lemma_zero_run(g, longest_run(g, from + 1));
        if k > from {
            lemma_run_longest(g, from + 1, k);
        }
    }
}

/// What is abbreviated is a run of zero groups, no other run is longer, and of
/// several that are as long it is the first.
pub proof fn law_longest_run(g: Seq<u16>, i: int, j: int)
    requires
        0 <= i <= j <= g.len(),
        forall|k: int| i <= k < j ==> #[trigger] g[k] == 0,
    ensures
        ({
            let start = longest_run(g, 0);
            let run = zero_run(g, start);
            &&& 0 <= start <= start + run <= g.len()
            &&& forall|k: int| start <= k < start + run ==> #[trigger] g[k] == 0
            &&& j - i <= run
            &&& j - i == run && i < j ==> start <= i
        }),
{
    let start = longest_run(g, 0);
    lemma_longest_run(g, 0);
    lemma_zero_run(g, start);
    lemma_run_reaches(g, i, j);
    lemma_run_longest(g, 0, i);
}

/// Groups are written in hexadecimal, without needless zeros, with colons
/// between them.
pub proof fn law_groups_form(g: Seq<u16>, i: int)
    requires
        0 <= i < g.len(),
    ensures
        split(groups_shown(g), ':').len() == g.len(),
        split(groups_shown(g), ':')[i] == digits(g[i] as int, 16),
        number(split(groups_shown(g), ':')[i], 16) == Some(g[i] as int),
        groups_shown(Seq::empty()).len() == 0,
{
    let p = g.map_values(|v: u16| digits(v as int, 16));
    assert forall|k: int| 0 <= k < p.len() implies !(#[trigger] p[k]).contains(':') by {
        lemma_group_shown(g[k]);
    }
    law_split_join(p, ':');
    law_number_digits(g[i] as int, 16);
}

/// How an IPv6 address is written. One that has an IPv4 address mapped into it,
/// behind five zero groups and one of ones, is written with that in dotted form.
/// Else the longest run of zero groups is left out with a double colon in its
/// place, where it has two or more; else all groups are written.
pub proof fn law_ipv6_form(g: Seq<u16>, o: Seq<u8>)
    requires
        g.len() == 8,
        o.len() == 4,
        g[6] == o[0] * 256 + o[1],
        g[7] == o[2] * 256 + o[3],
    ensures
        ({
            let mapped = g[0] == 0 && g[1] == 0 && g[2] == 0 && g[3] == 0 && g[4] == 0 && g[5]
                == 0xffff;
            let start = longest_run(g, 0);
            let run = zero_run(g, start);
            &&& mapped ==> ipv6_shown(g) == seq![':', ':', 'f', 'f', 'f', 'f', ':'] + ipv4_shown(o)
            &&& !mapped && run >= 2 ==> ipv6_shown(g) == groups_shown(g.subrange(0, start)) + seq![
                ':',
                ':',
            ] + groups_shown(g.subrange(start + run, 8))
            &&& !mapped && run < 2 ==> ipv6_shown(g) == groups_shown(g)
        }),
{
    let start = longest_run(g, 0);
    let run = zero_run(g, start);
    lemma_longest_run(g, 0);
    lemma_zero_run(g, start);
    reveal_strlit("::");
    reveal_strlit("::ffff:");
    assert("::"@ =~= seq![':', ':']);
    assert("::ffff:"@ =~= seq![':', ':', 'f', 'f', 'f', 'f', ':']);
    assert(g.take(start) =~= g.subrange(0, start));
    assert(g.skip(start + run) =~= g.subrange(start + run, 8));
    assert(g[6] / 0x100 == o[0] && g[6] % 0x100 == o[1] && g[7] / 0x100 == o[2] && g[7] % 0x100
        == o[3]);
    assert(mapped_octets(g) =~= o);
}

} // verus!
