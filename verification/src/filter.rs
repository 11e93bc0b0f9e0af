//! Filter expressions.
//!
//! A filter expression is a practical subset of the pcap filter language:
//! `tcp`, `udp`, `icmp`, `icmp6`, `arp`, `ip`, `ip6`, `broadcast`,
//! `multicast` (both also behind `ip`), `port N`, `portrange A-B` and
//! `host A.B.C.D`. Compiling one gives a [`BpfProgram`] that accepts the
//! packets which the expression describes. Port numbers are read but not
//! compared: `port` and `portrange` accept every packet.

use vstd::prelude::*;

use crate::bpf::{
    accepts, execute, BpfInsn, BpfProgram, BPF_ABS, BPF_ACCEPT, BPF_B, BPF_H, BPF_JEQ,
    BPF_JGE, BPF_JGT, BPF_JMP, BPF_K, BPF_LD, BPF_REJECT, BPF_RET, BPF_W,
};
use crate::datalink::{header_len, link_header_len};
use crate::ip::{ipv4_shown, ipv4_text, law_ipv4_roundtrip, parse_ipv4, Ipv4Addr};
use crate::text::{
    chars_of, decimal, digit, has_char, law_number_digits, law_unsigned, lemma_split_tail,
    lemma_split_with, lemma_split_without, lower, lowered, parse_unsigned, part, same_text, split,
    split_at_char, split_words, texts, unsigned, words,
};
use crate::wire::{be16, be32, get_be32, law_big_endian};

verus! {

/// What a filter expression asks of a packet.
#[derive(Debug, Clone, Copy, PartialEq, Eq)]
pub enum Primitive {
    /// `tcp`, `udp`, `icmp`, `icmp6`, `arp`, `ip`, `ip6`: IP protocol numbers
    /// (1-255) and EtherTypes (0x0800, 0x86dd, 0x0806).
    Proto(u32),
    /// `port N`
    Port(u16),
    /// `portrange A-B`
    PortRange(u16, u16),
    /// `host A.B.C.D`
    HostIpv4(Ipv4Addr),
    /// `broadcast` or `ip broadcast`
    Broadcast,
    /// `multicast` or `ip multicast`
    Multicast,
    /// accept everything
    All,
}

/// A [`Primitive`] with its address as octets.
pub enum Meaning {
    Proto(u32),
    Port(u16),
    PortRange(u16, u16),
    Host(Seq<u8>),
    Broadcast,
    Multicast,
    All,
}

impl View for Primitive {
    type V = Meaning;

    open spec fn view(&self) -> Meaning {
        match *self {
            Primitive::Proto(p) => Meaning::Proto(p),
            Primitive::Port(p) => Meaning::Port(p),
            Primitive::PortRange(a, b) => Meaning::PortRange(a, b),
            Primitive::HostIpv4(ip) => Meaning::Host(ip.octets@),
            Primitive::Broadcast => Meaning::Broadcast,
            Primitive::Multicast => Meaning::Multicast,
            Primitive::All => Meaning::All,
        }
    }
}

// ---------------------------------------------------------------------------
// Tokens

/// The port that a text denotes.
pub open spec fn port_text(s: Seq<char>) -> Option<int> {
    unsigned(s, 10, 0xffff)
}

/// The tokens of one word: a pair of ports `A-B` is three tokens, anything
/// else one.
pub open spec fn word_tokens(w: Seq<char>) -> Seq<Seq<char>> {
    let p = split(w, '-');
    if w.contains('-') && (forall|i: int|
        0 <= i < p.len() ==> port_text(#[trigger] p[i]) is Some) {
        seq![p[0], seq!['-'], p[1]]
    } else {
        seq![w]
    }
}

/// The tokens of several words.
pub open spec fn tokens(ws: Seq<Seq<char>>) -> Seq<Seq<char>>
    decreases ws.len(),
{
    if ws.len() == 0 {
        Seq::empty()
    } else {
        tokens(ws.drop_last()) + word_tokens(ws.last())
    }
}

/// Append the tokens of one word.
fn push_word(out: &mut Vec<Vec<char>>, w: Vec<char>)
    ensures
        texts(final(out)@) == texts(old(out)@) + word_tokens(w@),
{
    if has_char(w.as_slice(), '-') {
        let pieces: Vec<Vec<char>> = split_at_char(w.as_slice(), '-');
        let ghost p = split(w@, '-');
        proof {
            lemma_split_with(w@, '-');
        }
        let mut i: usize = 0;
        let mut ports: bool = true;
        while i < pieces.len()
            invariant
                i <= pieces@.len(),
                texts(pieces@) == p,
                ports == (forall|k: int| 0 <= k < i ==> port_text(#[trigger] p[k]) is Some),
            decreases pieces@.len() - i,
        {
            assert(p[i as int] == pieces@[i as int]@);
            if parse_unsigned(pieces[i].as_slice(), 10, 0xffff).is_none() {
                ports = false;
            }
            i = i + 1;
        }
        if ports {
            let b: Vec<char> = part(pieces[1].as_slice(), 0, pieces[1].len());
            let a: Vec<char> = part(pieces[0].as_slice(), 0, pieces[0].len());
            assert(a@ =~= p[0] && b@ =~= p[1]);
            let dash: Vec<char> = vec!['-'];
            assert(dash@ =~= seq!['-']);
            out.push(a);
            out.push(dash);
            out.push(b);
            assert(texts(out@) =~= texts(old(out)@) + word_tokens(w@));
            return;
        }
    }
    out.push(w);
    assert(texts(out@) =~= texts(old(out)@) + word_tokens(w@));
}

/// Split an expression into tokens.
pub fn tokenize(expr: &str) -> (r: Vec<Vec<char>>)
    ensures
        texts(r@) == tokens(words(expr@)),
{
    let chars: Vec<char> = chars_of(expr);
    let ws: Vec<Vec<char>> = split_words(chars.as_slice());
    let mut out: Vec<Vec<char>> = Vec::new();
    let mut i: usize = 0;
    assert(texts(out@) =~= tokens(texts(ws@).take(0)));
    while i < ws.len()
        invariant
            i <= ws@.len(),
            texts(out@) == tokens(texts(ws@).take(i as int)),
        decreases ws@.len() - i,
    {
        let w: Vec<char> = part(ws[i].as_slice(), 0, ws[i].len());
        assert(w@ =~= ws@[i as int]@);
        assert(texts(ws@).take(i + 1).drop_last() =~= texts(ws@).take(i as int));
        push_word(&mut out, w);
        i = i + 1;
    }
    assert(texts(ws@).take(ws@.len() as int) =~= texts(ws@));
    out
}

// ---------------------------------------------------------------------------
// Parsing

/// A message with a text in quotes.
pub open spec fn quoting(message: Seq<char>, s: Seq<char>) -> Seq<char> {
    (message + s).push('\'')
}

/// What the tokens mean, or why they mean nothing. Tokens beyond those that
/// the first one asks for are not looked at.
pub open spec fn parsed(t: Seq<Seq<char>>) -> Result<Meaning, Seq<char>> {
    let word = lowered(t[0]);
    if t.len() == 0 {
        Err("empty filter"@)
    } else if word == "tcp"@ {
        Ok(Meaning::Proto(6))
    } else if word == "udp"@ {
        Ok(Meaning::Proto(17))
    } else if word == "icmp"@ {
        Ok(Meaning::Proto(1))
    } else if word == "icmp6"@ || word == "icmpv6"@ {
        Ok(Meaning::Proto(58))
    } else if word == "arp"@ {
        Ok(Meaning::Proto(0x0806))
    } else if word == "ip"@ {
        if t.len() > 1 && lowered(t[1]) == "broadcast"@ {
            Ok(Meaning::Broadcast)
        } else if t.len() > 1 && lowered(t[1]) == "multicast"@ {
            Ok(Meaning::Multicast)
        } else {
            Ok(Meaning::Proto(0x0800))
        }
    } else if word == "ip6"@ || word == "ipv6"@ {
        Ok(Meaning::Proto(0x86dd))
    } else if word == "broadcast"@ {
        Ok(Meaning::Broadcast)
    } else if word == "multicast"@ {
        Ok(Meaning::Multicast)
    } else if word == "port"@ {
        if t.len() < 2 {
            Err("missing port number"@)
        } else {
            match port_text(t[1]) {
                Some(p) => Ok(Meaning::Port(p as u16)),
                None => Err(quoting("invalid port '"@, t[1])),
            }
        }
    } else if word == "portrange"@ {
        parsed_range(t)
    } else if word == "host"@ {
        if t.len() < 2 {
            Err("missing host address"@)
        } else {
            match ipv4_text(t[1]) {
                Some(o) => Ok(Meaning::Host(o)),
                None => Err(quoting("invalid host '"@, t[1])),
            }
        }
    } else {
        Err(quoting("unknown filter primitive '"@, word))
    }
}

/// What `portrange` and the tokens behind it mean. A `-` may stand between the
/// two ports.
pub open spec fn parsed_range(t: Seq<Seq<char>>) -> Result<Meaning, Seq<char>> {
    let end = if t.len() > 2 && t[2] == seq!['-'] {
        3int
    } else {
        2int
    };
    if t.len() < 2 {
        Err("missing portrange start"@)
    } else if t.len() <= end {
        Err("missing portrange end"@)
    } else {
        match (port_text(t[1]), port_text(t[end])) {
            (Some(a), Some(b)) => Ok(Meaning::PortRange(a as u16, b as u16)),
            (None, _) => Err(quoting("bad port '"@, t[1])),
            (_, None) => Err(quoting("bad port '"@, t[end])),
        }
    }
}

/// Build a message with a text in quotes.
fn quote(message: &str, s: &[char]) -> (r: String)
    ensures
        r@ == quoting(message@, s@),
{
    let mut out: String = String::new();
    out.append(message);
    let mut i: usize = 0;
    assert(out@ =~= message@ + s@.take(0));
    while i < s.len()
        invariant
            i <= s@.len(),
            out@ == message@ + s@.take(i as int),
        decreases s@.len() - i,
    {
        out.push(s[i]);
        i = i + 1;
        assert(out@ =~= message@ + s@.take(i as int));
    }
    assert(s@.take(s@.len() as int) =~= s@);
    out.push('\'');
    out
}

/// A fixed message.
fn message(s: &str) -> (r: String)
    ensures
        r@ == s@,
{
    let mut out: String = String::new();
    out.append(s);
    assert(out@ =~= s@);
    out
}

/// Reads the tokens of a filter expression one by one.
#[derive(Debug)]
pub struct FilterBuilder {
    tokens: Vec<Vec<char>>,
    pos: usize,
}

impl FilterBuilder {
    /// The tokens not yet read.
    pub closed spec fn rest(self) -> Seq<Seq<char>> {
        texts(self.tokens@).skip(self.pos as int)
    }

    /// The position is one of the tokens, or their end.
    pub closed spec fn well_formed(self) -> bool {
        self.pos <= self.tokens@.len()
    }

    /// Compile a filter expression into a program. An empty one accepts
    /// everything.
    pub fn compile(expr: &str, linktype: i32) -> (r: Result<BpfProgram, String>)
        ensures
            match r {
                Ok(program) => compiled(expr@, linktype) == Ok::<Seq<BpfInsn>, Seq<char>>(
                    program.insns@,
                ),
                Err(e) => compiled(expr@, linktype) == Err::<Seq<BpfInsn>, Seq<char>>(e@),
            },
    {
        let tokens: Vec<Vec<char>> = tokenize(expr);
        let ghost t = texts(tokens@);
        if tokens.len() == 0 {
            let insns: Vec<BpfInsn> = vec![ret(BPF_ACCEPT)];
            assert(insns@ =~= seq![ret_code(BPF_ACCEPT)]);
            return Ok(BpfProgram::from_insns(insns));
        }
        let mut parser: FilterBuilder = FilterBuilder { tokens, pos: 0 };
        assert(parser.rest() =~= t);
        match parser.parse_primitive() {
            Err(e) => Err(e),
            Ok(prim) => {
                let mut insns: Vec<BpfInsn> = compile_primitive(prim, linktype);
                insns.push(ret(BPF_ACCEPT));
                Ok(BpfProgram::from_insns(insns))
            },
        }
    }

    /// The next token.
    fn next(&mut self) -> (r: Option<Vec<char>>)
        requires
            old(self).well_formed(),
        ensures
            final(self).well_formed(),
            match r {
                Some(token) => old(self).rest().len() > 0 && token@ == old(self).rest()[0]
                    && final(self).rest() == old(self).rest().skip(1),
                None => old(self).rest().len() == 0 && *final(self) == *old(self),
            },
    {
        if self.pos < self.tokens.len() {
            let t: Vec<char> = part(self.tokens[self.pos].as_slice(), 0, self.tokens[self.pos].len());
            assert(t@ =~= self.tokens@[self.pos as int]@);
            self.pos = self.pos + 1;
            assert(self.rest() =~= old(self).rest().skip(1));
            Some(t)
        } else {
            None
        }
    }

    /// Read one primitive.
    fn parse_primitive(&mut self) -> (r: Result<Primitive, String>)
        requires
            old(self).well_formed(),
        ensures
            final(self).well_formed(),
            match r {
                Ok(p) => parsed(old(self).rest()) == Ok::<Meaning, Seq<char>>(p@),
                Err(e) => parsed(old(self).rest()) == Err::<Meaning, Seq<char>>(e@),
            },
    {
        let tok: Vec<char> = match self.next() {
            Some(t) => t,
            None => {
                return Err(message("empty filter"));
            },
        };
        let ghost t = old(self).rest();
        let low: Vec<char> = lower(tok.as_slice());
        let word: &[char] = low.as_slice();
        if same_text(word, "tcp") {
            Ok(Primitive::Proto(6))
        } else if same_text(word, "udp") {
            Ok(Primitive::Proto(17))
        } else if same_text(word, "icmp") {
            Ok(Primitive::Proto(1))
        } else if same_text(word, "icmp6") || same_text(word, "icmpv6") {
            Ok(Primitive::Proto(58))
        } else if same_text(word, "arp") {
            Ok(Primitive::Proto(0x0806))
        } else if same_text(word, "ip") {
            match self.next() {
                None => Ok(Primitive::Proto(0x0800)),
                Some(q) => {
                    let qualifier: Vec<char> = lower(q.as_slice());
                    if same_text(qualifier.as_slice(), "broadcast") {
                        Ok(Primitive::Broadcast)
                    } else if same_text(qualifier.as_slice(), "multicast") {
                        Ok(Primitive::Multicast)
                    } else {
                        Ok(Primitive::Proto(0x0800))
                    }
                },
            }
        } else if same_text(word, "ip6") || same_text(word, "ipv6") {
            Ok(Primitive::Proto(0x86dd))
        } else if same_text(word, "broadcast") {
            Ok(Primitive::Broadcast)
        } else if same_text(word, "multicast") {
            Ok(Primitive::Multicast)
        } else if same_text(word, "port") {
            match self.next() {
                None => Err(message("missing port number")),
                Some(p) => match parse_unsigned(p.as_slice(), 10, 0xffff) {
                    Some(port) => Ok(Primitive::Port(port as u16)),
                    None => Err(quote("invalid port '", p.as_slice())),
                },
            }
        } else if same_text(word, "portrange") {
            self.parse_range(Ghost(t))
        } else if same_text(word, "host") {
            match self.next() {
                None => Err(message("missing host address")),
                Some(h) => match parse_ipv4(h.as_slice()) {
                    Some(ip) => Ok(Primitive::HostIpv4(ip)),
                    None => Err(quote("invalid host '", h.as_slice())),
                },
            }
        } else {
            Err(quote("unknown filter primitive '", word))
        }
    }

    /// Read the two ports behind `portrange`, the first of the tokens `t`.
    fn parse_range(&mut self, Ghost(t): Ghost<Seq<Seq<char>>>) -> (r: Result<Primitive, String>)
        requires
            old(self).well_formed(),
            t.len() > 0,
            old(self).rest() == t.skip(1),
        ensures
            final(self).well_formed(),
            match r {
                Ok(p) => parsed_range(t) == Ok::<Meaning, Seq<char>>(p@),
                Err(e) => parsed_range(t) == Err::<Meaning, Seq<char>>(e@),
            },
    {
        let a: Vec<char> = match self.next() {
            Some(a) => a,
            None => {
                return Err(message("missing portrange start"));
            },
        };
        let second: Option<Vec<char>> = self.next();
        let b: Vec<char> = match second {
            None => {
                return Err(message("missing portrange end"));
            },
            Some(b) => if b.len() == 1 && b[0] == '-' {
                assert(b@ =~= seq!['-']);
                match self.next() {
                    Some(b) => b,
                    None => {
                        return Err(message("missing portrange end"));
                    },
                }
            } else {
                b
            },
        };
        match parse_unsigned(a.as_slice(), 10, 0xffff) {
            None => Err(quote("bad port '", a.as_slice())),
            Some(pa) => match parse_unsigned(b.as_slice(), 10, 0xffff) {
                None => Err(quote("bad port '", b.as_slice())),
                Some(pb) => Ok(Primitive::PortRange(pa as u16, pb as u16)),
            },
        }
    }
}

// ---------------------------------------------------------------------------
// Code

/// Load from a fixed offset of the packet.
pub open spec fn load_code(cls: u8, size: u8, k: u32) -> BpfInsn {
    BpfInsn { code: (cls as u16) | (size as u16) | (BPF_ABS as u16), jt: 0, jf: 0, k }
}

/// Compare the accumulator with `k` and jump.
pub open spec fn jmp_code(op: u8, k: u32, jt: u8, jf: u8) -> BpfInsn {
    BpfInsn { code: (BPF_JMP as u16) | (op as u16), jt, jf, k }
}

/// End the program with the value `k`.
pub open spec fn ret_code(k: u32) -> BpfInsn {
    BpfInsn { code: (BPF_RET as u16) | (BPF_K as u16), jt: 0, jf: 0, k }
}

/// Load, compare, and accept where the two are equal.
pub open spec fn equals_code(size: u8, at: int, k: u32) -> Seq<BpfInsn> {
    seq![
        load_code(BPF_LD, size, at as u32),
        jmp_code(BPF_JEQ, k, 1, 0),
        ret_code(BPF_REJECT),
        ret_code(BPF_ACCEPT),
    ]
}

/// Whether a protocol is told by the EtherType field.
pub open spec fn is_ethertype(proto: u32) -> bool {
    proto == 0x0806 || proto == 0x0800 || proto == 0x86dd
}

/// The instructions for a primitive.
pub open spec fn code_for(m: Meaning, linktype: i32) -> Seq<BpfInsn> {
    let ip = header_len(linktype);
    match m {
        Meaning::All | Meaning::Port(_) | Meaning::PortRange(_, _) => seq![ret_code(BPF_ACCEPT)],
        Meaning::Proto(proto) => if is_ethertype(proto) {
            equals_code(BPF_H, 12, proto)
        } else {
            equals_code(BPF_B, ip + 9, proto)
        },
        Meaning::Host(o) => seq![
            load_code(BPF_LD, BPF_W, (ip + 16) as u32),
            jmp_code(BPF_JEQ, be32(o, 0) as u32, 2, 0),
            load_code(BPF_LD, BPF_W, (ip + 12) as u32),
            jmp_code(BPF_JEQ, be32(o, 0) as u32, 0, 1),
            ret_code(BPF_ACCEPT),
            ret_code(BPF_REJECT),
        ],
        Meaning::Broadcast => equals_code(BPF_W, ip + 16, 0xffff_ffff),
        Meaning::Multicast => seq![
            load_code(BPF_LD, BPF_B, (ip + 16) as u32),
            jmp_code(BPF_JGE, 224, 0, 1),
            jmp_code(BPF_JGT, 239, 0, 1),
            ret_code(BPF_REJECT),
            ret_code(BPF_ACCEPT),
        ],
    }
}

/// The program for an expression, or why there is none.
pub open spec fn compiled(expr: Seq<char>, linktype: i32) -> Result<Seq<BpfInsn>, Seq<char>> {
    let t = tokens(words(expr));
    if t.len() == 0 {
        Ok(seq![ret_code(BPF_ACCEPT)])
    } else {
        match parsed(t) {
            Ok(m) => Ok(code_for(m, linktype).push(ret_code(BPF_ACCEPT))),
            Err(e) => Err(e),
        }
    }
}

pub fn load_insn(cls: u8, size: u8, k: u32) -> (r: BpfInsn)
    ensures
        r == load_code(cls, size, k),
{
    BpfInsn::new((cls as u16) | (size as u16) | (BPF_ABS as u16), 0, 0, k)
}

pub fn jmp_insn(op: u8, k: u32, jt: u8, jf: u8) -> (r: BpfInsn)
    ensures
        r == jmp_code(op, k, jt, jf),
{
    BpfInsn::new((BPF_JMP as u16) | (op as u16), jt, jf, k)
}

pub fn ret(k: u32) -> (r: BpfInsn)
    ensures
        r == ret_code(k),
{
    BpfInsn::new((BPF_RET as u16) | (BPF_K as u16), 0, 0, k)
}

/// The instructions that accept where the value at `at` is `k`.
fn equals_insns(size: u8, at: u32, k: u32) -> (r: Vec<BpfInsn>)
    ensures
        r@ == equals_code(size, at as int, k),
{
    let r: Vec<BpfInsn> = vec![
        load_insn(BPF_LD, size, at),
        jmp_insn(BPF_JEQ, k, 1, 0),
        ret(BPF_REJECT),
        ret(BPF_ACCEPT),
    ];
    assert(r@ =~= equals_code(size, at as int, k));
    r
}

/// Compile a primitive for a given datalink type.
pub fn compile_primitive(p: Primitive, linktype: i32) -> (r: Vec<BpfInsn>)
    ensures
        r@ == code_for(p@, linktype),
{
    let ip_hdr: u32 = link_header_len(linktype) as u32;
    let out: Vec<BpfInsn> = match p {
        Primitive::All => vec![ret(BPF_ACCEPT)],
        Primitive::Proto(proto) => if proto == 0x0806 || proto == 0x0800 || proto == 0x86dd {
            // The EtherType field of an Ethernet header.
            equals_insns(BPF_H, 12, proto)
        } else {
            // The protocol field of an IP header.
            equals_insns(BPF_B, ip_hdr + 9, proto)
        },
        // Ports are not looked at.
        Primitive::Port(_) | Primitive::PortRange(_, _) => vec![ret(BPF_ACCEPT)],
        Primitive::HostIpv4(ip) => {
            let target: u32 = get_be32(ip.octets.as_slice(), 0);
            vec![
                // The destination address, then the source address.
                load_insn(BPF_LD, BPF_W, ip_hdr + 16),
                jmp_insn(BPF_JEQ, target, 2, 0),
                load_insn(BPF_LD, BPF_W, ip_hdr + 12),
                jmp_insn(BPF_JEQ, target, 0, 1),
                ret(BPF_ACCEPT),
                ret(BPF_REJECT),
            ]
        },
        Primitive::Broadcast => equals_insns(BPF_W, ip_hdr + 16, 0xffff_ffff),
        Primitive::Multicast => vec![
            // The first octet of the destination is in 224..=239.
            load_insn(BPF_LD, BPF_B, ip_hdr + 16),
            jmp_insn(BPF_JGE, 224, 0, 1),
            jmp_insn(BPF_JGT, 239, 0, 1),
            ret(BPF_REJECT),
            ret(BPF_ACCEPT),
        ],
    };
    assert(out@ =~= code_for(p@, linktype));
    out
}

// ---------------------------------------------------------------------------
// What the code accepts

/// Whether a packet is one that the primitive describes. Offsets are those of
/// an Ethernet header for EtherTypes, and otherwise of an IPv4 header behind
/// the link-layer header.
pub open spec fn describes(m: Meaning, linktype: i32, pkt: Seq<u8>) -> bool {
    let ip = header_len(linktype);
    match m {
        Meaning::All | Meaning::Port(_) | Meaning::PortRange(_, _) => true,
        Meaning::Proto(proto) => if is_ethertype(proto) {
            pkt.len() >= 14 && be16(pkt, 12) == proto
        } else {
            pkt.len() >= ip + 10 && pkt[ip + 9] == proto
        },
        Meaning::Host(o) => pkt.len() >= ip + 20 && (pkt.subrange(ip + 16, ip + 20) == o
            || pkt.subrange(ip + 12, ip + 16) == o),
        Meaning::Broadcast => pkt.len() >= ip + 20 && pkt.subrange(ip + 16, ip + 20) == seq![
            255u8,
            255u8,
            255u8,
            255u8,
        ],
        Meaning::Multicast => pkt.len() >= ip + 17 && 224 <= pkt[ip + 16] <= 239,
    }
}

/// How the machine reads the instructions that the compiler makes.
proof fn lemma_codes()
    ensures
        forall|size: u8, k: u32|
            #![trigger load_code(BPF_LD, size, k)]
            size == BPF_W || size == BPF_H || size == BPF_B ==> {
                let i = load_code(BPF_LD, size, k);
                i.class() == BPF_LD && i.size() == size && i.mode() == BPF_ABS
            },
        forall|op: u8, k: u32, jt: u8, jf: u8|
            #![trigger jmp_code(op, k, jt, jf)]
            op == BPF_JEQ || op == BPF_JGE || op == BPF_JGT ==> {
                let i = jmp_code(op, k, jt, jf);
                i.class() == BPF_JMP && i.jump_op() == op && !i.uses_x()
            },
        forall|k: u32|
            #![trigger ret_code(k)]
            ret_code(k).class() == BPF_RET && !ret_code(k).uses_x() && !ret_code(k).returns_acc(),
{
    assert(forall|s: u16| #![auto]
        s == 0 || s == 8 || s == 16 ==> (0u16 | s | 0x20u16) & 0x07 == 0 && (0u16 | s | 0x20u16)
            & 0x18 == s && (0u16 | s | 0x20u16) & 0xe0 == 0x20) by (bit_vector);
    assert(forall|op: u16| #![auto]
        op == 0x10 || op == 0x20 || op == 0x30 ==> (5u16 | op) & 0x07 == 5 && (5u16 | op) & 0x70
            == op && (5u16 | op) & 0x08 == 0) by (bit_vector);
    assert((6u16 | 0u16) & 0x07 == 6 && (6u16 | 0u16) & 0x08 == 0 && (6u16 | 0u16) & 0x18 == 0)
        by (bit_vector);
}

/// Big-endian words are equal where their four bytes are.
proof fn lemma_be32_bytes(s: Seq<u8>, at: int, o: Seq<u8>)
    requires
        0 <= at,
        at + 4 <= s.len(),
        o.len() == 4,
    ensures
        be32(s, at) == be32(o, 0) <==> s.subrange(at, at + 4) == o,
        0 <= be32(s, at) <= 0xffff_ffff,
{
    let t = s.subrange(at, at + 4);
    assert(t[0] == s[at] && t[1] == s[at + 1] && t[2] == s[at + 2] && t[3] == s[at + 3]);
    lemma_be32_parts(s, at);
    lemma_be32_parts(o, 0);
    if be32(s, at) == be32(o, 0) {
        assert(t =~= o);
    }
}

/// The four bytes of a big-endian word.
proof fn lemma_be32_parts(s: Seq<u8>, at: int)
    ensures
        be32(s, at) % 0x100 == s[at + 3],
        be32(s, at) / 0x100 % 0x100 == s[at + 2],
        be32(s, at) / 0x1_0000 % 0x100 == s[at + 1],
        be32(s, at) / 0x100_0000 == s[at],
{
}

/// The code that accepts equal values accepts those packets which have the
/// value.
proof fn lemma_equals_code(size: u8, at: int, k: u32, end: Seq<BpfInsn>, pkt: Seq<u8>)
    requires
        size == BPF_W || size == BPF_H || size == BPF_B,
        0 <= at <= 0xffff_ffff,
    ensures
        accepts(equals_code(size, at, k) + end, pkt) == (crate::bpf::packet_value(pkt, at, size)
            == Some(k)),
{
    let p = equals_code(size, at, k) + end;
    lemma_codes();
    assert(p[0] == load_code(BPF_LD, size, at as u32));
    assert(p[1] == jmp_code(BPF_JEQ, k, 1, 0));
    assert(p[2] == ret_code(BPF_REJECT));
    assert(p[3] == ret_code(BPF_ACCEPT));
    reveal_with_fuel(execute, 4);
}

/// A compiled program accepts exactly the packets that its primitive
/// describes.
pub proof fn law_compiled_accepts(m: Meaning, linktype: i32, pkt: Seq<u8>)
    requires
        m matches Meaning::Host(o) ==> o.len() == 4,
    ensures
        accepts(code_for(m, linktype).push(ret_code(BPF_ACCEPT)), pkt) == describes(
            m,
            linktype,
            pkt,
        ),
{
    let ip = header_len(linktype);
    let end = seq![ret_code(BPF_ACCEPT)];
    let p = code_for(m, linktype).push(ret_code(BPF_ACCEPT));
    assert(p =~= code_for(m, linktype) + end);
    lemma_codes();
    match m {
        Meaning::All | Meaning::Port(_) | Meaning::PortRange(_, _) => {
            assert(p[0] == ret_code(BPF_ACCEPT));
        },
        Meaning::Proto(proto) => {
            if is_ethertype(proto) {
                lemma_equals_code(BPF_H, 12, proto, end, pkt);
            } else {
                lemma_equals_code(BPF_B, ip + 9, proto, end, pkt);
            }
        },
        Meaning::Host(o) => {
            if pkt.len() >= ip + 20 {
                lemma_be32_bytes(pkt, ip + 16, o);
                lemma_be32_bytes(pkt, ip + 12, o);
            }
            assert(0 <= be32(o, 0) <= 0xffff_ffff);
            assert(p[0] == load_code(BPF_LD, BPF_W, (ip + 16) as u32));
            assert(p[1] == jmp_code(BPF_JEQ, be32(o, 0) as u32, 2, 0));
            assert(p[2] == load_code(BPF_LD, BPF_W, (ip + 12) as u32));
            assert(p[3] == jmp_code(BPF_JEQ, be32(o, 0) as u32, 0, 1));
            assert(p[4] == ret_code(BPF_ACCEPT));
            assert(p[5] == ret_code(BPF_REJECT));
            reveal_with_fuel(execute, 6);
        },
        Meaning::Broadcast => {
            let ones = seq![255u8, 255u8, 255u8, 255u8];
            if pkt.len() >= ip + 20 {
                lemma_be32_bytes(pkt, ip + 16, ones);
            }
            assert(be32(ones, 0) == 0xffff_ffff);
            lemma_equals_code(BPF_W, ip + 16, 0xffff_ffff, end, pkt);
        },
        Meaning::Multicast => {
            assert(p[0] == load_code(BPF_LD, BPF_B, (ip + 16) as u32));
            assert(p[1] == jmp_code(BPF_JGE, 224, 0, 1));
            assert(p[2] == jmp_code(BPF_JGT, 239, 0, 1));
            assert(p[3] == ret_code(BPF_REJECT));
            assert(p[4] == ret_code(BPF_ACCEPT));
            reveal_with_fuel(execute, 5);
        },
    }
}

/// The program for an expression accepts exactly the packets that the
/// expression describes.
pub proof fn law_filter_accepts(expr: Seq<char>, linktype: i32, pkt: Seq<u8>)
    requires
        tokens(words(expr)).len() > 0,
        parsed(tokens(words(expr))) is Ok,
    ensures
        compiled(expr, linktype) is Ok,
        accepts(compiled(expr, linktype)->Ok_0, pkt) == describes(
            parsed(tokens(words(expr)))->Ok_0,
            linktype,
            pkt,
        ),
{
    law_compiled_accepts(parsed(tokens(words(expr)))->Ok_0, linktype, pkt);
}

/// A filter without a word in it accepts every packet.
pub proof fn law_empty_filter(expr: Seq<char>, linktype: i32, pkt: Seq<u8>)
    requires
        words(expr).len() == 0,
    ensures
        compiled(expr, linktype) is Ok,
        accepts(compiled(expr, linktype)->Ok_0, pkt),
{
    lemma_codes();
    let p = compiled(expr, linktype)->Ok_0;
    assert(p[0] == ret_code(BPF_ACCEPT));
}

/// The words of the language are told apart by their length and their first
/// two letters.
proof fn lemma_words_differ()
    ensures
        "tcp"@.len() == 3 && "tcp"@[0] == 't',
        "udp"@.len() == 3 && "udp"@[0] == 'u',
        "icmp"@.len() == 4 && "icmp"@[0] == 'i' && "icmp"@[1] == 'c',
        "icmp6"@.len() == 5,
        "icmpv6"@.len() == 6,
        "arp"@.len() == 3 && "arp"@[0] == 'a',
        "ip"@.len() == 2,
        "ip6"@.len() == 3 && "ip6"@[0] == 'i',
        "ipv6"@.len() == 4 && "ipv6"@[0] == 'i' && "ipv6"@[1] == 'p',
        "broadcast"@.len() == 9 && "broadcast"@[0] == 'b',
        "multicast"@.len() == 9 && "multicast"@[0] == 'm',
        "port"@.len() == 4 && "port"@[0] == 'p',
        "portrange"@.len() == 9 && "portrange"@[0] == 'p',
        "host"@.len() == 4 && "host"@[0] == 'h',
{
    reveal_strlit("tcp");
    reveal_strlit("udp");
    reveal_strlit("icmp");
    reveal_strlit("icmp6");
    reveal_strlit("icmpv6");
    reveal_strlit("arp");
    reveal_strlit("ip");
    reveal_strlit("ip6");
    reveal_strlit("ipv6");
    reveal_strlit("broadcast");
    reveal_strlit("multicast");
    reveal_strlit("port");
    reveal_strlit("portrange");
    reveal_strlit("host");
}

/// Which packets the words for an EtherType accept: those of at least 14 bytes
/// with the type's two bytes at offset 12. These are 08 06 for ARP, 08 00 for
/// IPv4 and 86 dd for IPv6.
pub proof fn law_ethertype_words(expr: Seq<char>, linktype: i32, pkt: Seq<u8>)
    requires
        tokens(words(expr)).len() > 0,
    ensures
        ({
            let t = tokens(words(expr));
            let w = lowered(t[0]);
            let c = compiled(expr, linktype);
            let plain = t.len() == 1 || (lowered(t[1]) != "broadcast"@ && lowered(t[1])
                != "multicast"@);
            &&& w == "arp"@ ==> c is Ok && (accepts(c->Ok_0, pkt) <==> pkt.len() >= 14 && pkt[12]
                == 0x08 && pkt[13] == 0x06)
            &&& w == "ip"@ && plain ==> c is Ok && (accepts(c->Ok_0, pkt) <==> pkt.len() >= 14
                && pkt[12] == 0x08 && pkt[13] == 0x00)
            &&& w == "ip6"@ || w == "ipv6"@ ==> c is Ok && (accepts(c->Ok_0, pkt) <==> pkt.len()
                >= 14 && pkt[12] == 0x86 && pkt[13] == 0xdd)
        }),
{
    lemma_words_differ();
    law_big_endian(pkt, 12);
    let t = tokens(words(expr));
    if parsed(t) is Ok {
        lemma_host_octets(t);
        law_filter_accepts(expr, linktype, pkt);
    }
}

/// Which packets the words for a protocol of IP accept: those whose protocol
/// byte, the tenth of the IPv4 header behind the link-layer header, is there and
/// has the protocol's number. These are 6 for TCP, 17 for UDP, 1 for ICMP and
/// 58 for ICMPv6.
pub proof fn law_protocol_words(expr: Seq<char>, linktype: i32, pkt: Seq<u8>)
    requires
        tokens(words(expr)).len() > 0,
    ensures
        ({
            let w = lowered(tokens(words(expr))[0]);
            let c = compiled(expr, linktype);
            let at = header_len(linktype) + 9;
            &&& w == "tcp"@ ==> c is Ok && (accepts(c->Ok_0, pkt) <==> pkt.len() > at && pkt[at]
                == 6)
            &&& w == "udp"@ ==> c is Ok && (accepts(c->Ok_0, pkt) <==> pkt.len() > at && pkt[at]
                == 17)
            &&& w == "icmp"@ ==> c is Ok && (accepts(c->Ok_0, pkt) <==> pkt.len() > at && pkt[at]
                == 1)
            &&& w == "icmp6"@ || w == "icmpv6"@ ==> c is Ok && (accepts(c->Ok_0, pkt) <==> pkt.len()
                > at && pkt[at] == 58)
        }),
{
    lemma_words_differ();
    let t = tokens(words(expr));
    if parsed(t) is Ok {
        lemma_host_octets(t);
        law_filter_accepts(expr, linktype, pkt);
    }
}

/// Which packets `broadcast` and `multicast` accept, alone or behind `ip`: those
/// whose IPv4 destination, 16 bytes behind the link-layer header, is
/// 255.255.255.255, or starts with a byte from 224 to 239.
pub proof fn law_cast_words(expr: Seq<char>, linktype: i32, pkt: Seq<u8>)
    requires
        tokens(words(expr)).len() > 0,
    ensures
        ({
            let t = tokens(words(expr));
            let w = lowered(t[0]);
            let c = compiled(expr, linktype);
            let at = header_len(linktype) + 16;
            let behind_ip = w == "ip"@ && t.len() > 1;
            &&& w == "broadcast"@ || behind_ip && lowered(t[1]) == "broadcast"@ ==> c is Ok && (
            accepts(c->Ok_0, pkt) <==> pkt.len() >= at + 4 && pkt[at] == 255 && pkt[at + 1] == 255
                && pkt[at + 2] == 255 && pkt[at + 3] == 255)
            &&& w == "multicast"@ || behind_ip && lowered(t[1]) == "multicast"@ ==> c is Ok && (
            accepts(c->Ok_0, pkt) <==> pkt.len() > at && 224 <= pkt[at] <= 239)
        }),
{
    lemma_words_differ();
    let t = tokens(words(expr));
    let at = header_len(linktype) + 16;
    if parsed(t) is Ok {
        lemma_host_octets(t);
        law_filter_accepts(expr, linktype, pkt);
    }
    if pkt.len() >= at + 4 {
        let s = pkt.subrange(at, at + 4);
        let o = seq![255u8, 255u8, 255u8, 255u8];
        assert(s[0] == pkt[at] && s[1] == pkt[at + 1] && s[2] == pkt[at + 2] && s[3] == pkt[at
            + 3]);
        if pkt[at] == 255 && pkt[at + 1] == 255 && pkt[at + 2] == 255 && pkt[at + 3] == 255 {
            assert(s =~= o);
        }
        if s == o {
            assert(s[0] == 255 && s[1] == 255 && s[2] == 255 && s[3] == 255);
        }
    }
}

/// Which packets `host` with an IPv4 address accepts: those that hold a whole
/// IPv4 header whose source, 12 bytes behind the link-layer header, or
/// destination, 16 bytes behind it, is the address. Any other text behind
/// `host` is refused.
pub proof fn law_host_word(expr: Seq<char>, linktype: i32, pkt: Seq<u8>, o: Seq<u8>)
    requires
        tokens(words(expr)).len() > 0,
        lowered(tokens(words(expr))[0]) == "host"@,
        o.len() == 4,
    ensures
        ({
            let t = tokens(words(expr));
            let c = compiled(expr, linktype);
            let ip = header_len(linktype);
            let source = pkt[ip + 12] == o[0] && pkt[ip + 13] == o[1] && pkt[ip + 14] == o[2]
                && pkt[ip + 15] == o[3];
            let destination = pkt[ip + 16] == o[0] && pkt[ip + 17] == o[1] && pkt[ip + 18] == o[2]
                && pkt[ip + 19] == o[3];
            &&& t.len() == 1 ==> c is Err
            &&& t.len() > 1 && ipv4_text(t[1]) is None ==> c is Err
            &&& t.len() > 1 && t[1] == ipv4_shown(o) ==> c is Ok && (accepts(c->Ok_0, pkt)
                <==> pkt.len() >= ip + 20 && (source || destination))
        }),
{
    lemma_words_differ();
    law_ipv4_roundtrip(o);
    let t = tokens(words(expr));
    let ip = header_len(linktype);
    if parsed(t) is Ok {
        lemma_host_octets(t);
        law_filter_accepts(expr, linktype, pkt);
    }
    if pkt.len() >= ip + 20 {
        lemma_four_bytes(pkt, ip + 12, o);
        lemma_four_bytes(pkt, ip + 16, o);
    }
}

/// Four bytes of a packet are an address where each of them is.
proof fn lemma_four_bytes(pkt: Seq<u8>, at: int, o: Seq<u8>)
    requires
        0 <= at,
        at + 4 <= pkt.len(),
        o.len() == 4,
    ensures
        pkt.subrange(at, at + 4) == o <==> pkt[at] == o[0] && pkt[at + 1] == o[1] && pkt[at + 2]
            == o[2] && pkt[at + 3] == o[3],
{
    let s = pkt.subrange(at, at + 4);
    assert(s[0] == pkt[at] && s[1] == pkt[at + 1] && s[2] == pkt[at + 2] && s[3] == pkt[at + 3]);
    if pkt[at] == o[0] && pkt[at + 1] == o[1] && pkt[at + 2] == o[2] && pkt[at + 3] == o[3] {
        assert(s =~= o);
    }
}

/// An address that was read has four octets.
proof fn lemma_host_octets(t: Seq<Seq<char>>)
    ensures
        parsed(t) is Ok ==> (parsed(t)->Ok_0 matches Meaning::Host(o) ==> o.len() == 4),
{
}

/// `port` takes a port number, written in decimal, and `portrange` two of them,
/// with or without a dash between them. Both accept every packet. Without the
/// numbers they are refused.
pub proof fn law_port_words(expr: Seq<char>, linktype: i32, pkt: Seq<u8>, a: u16, b: u16)
    requires
        tokens(words(expr)).len() > 0,
    ensures
        ({
            let t = tokens(words(expr));
            let w = lowered(t[0]);
            let c = compiled(expr, linktype);
            &&& w == "port"@ && t.len() > 1 && t[1] == decimal(a as int) ==> c is Ok && accepts(
                c->Ok_0,
                pkt,
            ) && parsed(t) == Ok::<Meaning, Seq<char>>(Meaning::Port(a))
            &&& w == "port"@ && (t.len() == 1 || port_text(t[1]) is None) ==> c is Err
            &&& w == "portrange"@ && t.len() > 2 && t[1] == decimal(a as int) && t[2] == decimal(
                b as int,
            ) ==> c is Ok && accepts(c->Ok_0, pkt) && parsed(t) == Ok::<Meaning, Seq<char>>(
                Meaning::PortRange(a, b),
            )
            &&& w == "portrange"@ && t.len() > 3 && t[1] == decimal(a as int) && t[2] == seq!['-']
                && t[3] == decimal(b as int) ==> c is Ok && accepts(c->Ok_0, pkt) && parsed(t)
                == Ok::<Meaning, Seq<char>>(Meaning::PortRange(a, b))
            &&& w == "portrange"@ && t.len() < 3 ==> c is Err
            &&& w == "portrange"@ && port_text(t[1]) is None ==> c is Err
        }),
{
    lemma_words_differ();
    law_port_text(a as int);
    law_port_text(b as int);
    let t = tokens(words(expr));
    if parsed(t) is Ok {
        lemma_host_octets(t);
        law_filter_accepts(expr, linktype, pkt);
    }
    law_number_digits(b as int, 10);
    let d = decimal(b as int);
    if d == seq!['-'] {
        assert(digit(d[0], 10) is Some);
    }
}

/// A number is read as a port where it fits in 16 bits.
pub proof fn law_port_text(n: int)
    requires
        n >= 0,
    ensures
        port_text(decimal(n)) == (if n <= 65535 {
            Some(n)
        } else {
            None
        }),
{
    law_number_digits(n, 10);
    law_unsigned(decimal(n), 10, 65535);
}

/// A word that is none of the language's is refused, and named in the message
/// in lower case.
pub proof fn law_unknown_word(expr: Seq<char>, linktype: i32)
    requires
        tokens(words(expr)).len() > 0,
    ensures
        ({
            let w = lowered(tokens(words(expr))[0]);
            let known = w == "tcp"@ || w == "udp"@ || w == "icmp"@ || w == "icmp6"@ || w == "icmpv6"@
                || w == "arp"@ || w == "ip"@ || w == "ip6"@ || w == "ipv6"@ || w == "broadcast"@ || w
                == "multicast"@ || w == "port"@ || w == "portrange"@ || w == "host"@;
            !known ==> compiled(expr, linktype) == Err::<Seq<BpfInsn>, Seq<char>>(
                "unknown filter primitive '"@ + w + seq!['\''],
            )
        }),
{
    let w = lowered(tokens(words(expr))[0]);
    assert(quoting("unknown filter primitive '"@, w) =~= "unknown filter primitive '"@ + w
        + seq!['\'']);
}

/// A word that has no dash in it is one token. Two port numbers with a dash
/// between them are three.
pub proof fn law_word_tokens(w: Seq<char>, a: u16, b: u16)
    ensures
        !w.contains('-') ==> word_tokens(w) == seq![w],
        word_tokens(decimal(a as int) + seq!['-'] + decimal(b as int)) == seq![
            decimal(a as int),
            seq!['-'],
            decimal(b as int),
        ],
{
    let x = decimal(a as int);
    let y = decimal(b as int);
    let s = x + seq!['-'] + y;
    lemma_no_dash(a as int);
    lemma_no_dash(b as int);
    law_port_text(a as int);
    law_port_text(b as int);
    lemma_split_without(x, '-');
    lemma_split_tail(x, '-', y);
    assert(x.push('-') + y =~= s);
    let p = split(s, '-');
    assert(p =~= seq![x, y]);
    assert(s[x.len() as int] == '-');
    assert(s.contains('-'));
}

/// Decimal digits hold no dash.
proof fn lemma_no_dash(n: int)
    requires
        n >= 0,
    ensures
        !decimal(n).contains('-'),
{
    law_number_digits(n, 10);
    let d = decimal(n);
    if d.contains('-') {
        let i = choose|i: int| 0 <= i < d.len() && d[i] == '-';
        assert(digit(d[i], 10) is Some);
    }
}

/// The tokens of words are those of the first ones, then those of the last.
pub proof fn law_tokens(ws: Seq<Seq<char>>, w: Seq<char>)
    ensures
        tokens(Seq::empty()) == Seq::<Seq<char>>::empty(),
        tokens(ws.push(w)) == tokens(ws) + word_tokens(w),
{
    assert(ws.push(w).drop_last() =~= ws);
}

/// The numbers of the instructions that filters are made of.
pub proof fn law_filter_codes(k: u32, jt: u8, jf: u8)
    ensures
        load_code(0x00, 0x00, k) == (BpfInsn { code: 0x20, jt: 0, jf: 0, k }),
        load_code(0x00, 0x08, k) == (BpfInsn { code: 0x28, jt: 0, jf: 0, k }),
        load_code(0x00, 0x10, k) == (BpfInsn { code: 0x30, jt: 0, jf: 0, k }),
        jmp_code(0x10, k, jt, jf) == (BpfInsn { code: 0x15, jt, jf, k }),
        jmp_code(0x20, k, jt, jf) == (BpfInsn { code: 0x25, jt, jf, k }),
        jmp_code(0x30, k, jt, jf) == (BpfInsn { code: 0x35, jt, jf, k }),
        ret_code(k) == (BpfInsn { code: 0x06, jt: 0, jf: 0, k }),
{
    assert((0u16 | 0u16) | 0x20u16 == 0x20 && (0u16 | 0x08u16) | 0x20u16 == 0x28 && (0u16 | 0x10u16)
        | 0x20u16 == 0x30 && 0x05u16 | 0x10u16 == 0x15 && 0x05u16 | 0x20u16 == 0x25 && 0x05u16
        | 0x30u16 == 0x35 && 0x06u16 | 0u16 == 0x06) by (bit_vector);
}

} // verus!
