//! The command line.
//!
//! * `wnr --interfaces`: enumerate interfaces
//! * `wnr --scan <host> [-p port,port-range]`: parallel connect scan
//! * `wnr --pcap <file> [--filter expr]`: analyze a pcap savefile
//! * `wnr --route <host>`: show the route to a host
//!
//! Arguments are turned into an [`Action`] and results into the lines to
//! print; carrying actions out is up to the caller.

use vstd::prelude::*;

use crate::addr::{addr_shown, Addr, Address, ADDR_TYPE_HW};
use crate::bpf::{accepts, BpfInsn};
use crate::capture::{
    all_passing, header_of, law_filtered, law_unfiltered, left, strip_link_header, Capture,
    PacketHeader, Source,
};
use crate::datalink::header_len;
use crate::eth::{mac_shown, push_mac};
use crate::event::{EventId, EventStatus, EventType};
use crate::filter::compiled;
use crate::intf::{
    same_string, Interface, IntfEntry, INTF_FLAG_LOOPBACK, INTF_FLAG_POINTOPOINT, INTF_FLAG_UP,
};
use crate::iod::{Iod, IodKind};
use crate::ip::{
    ipv4_shown, ipv4_text, ipv6_shown, ipv6_text, law_ipv4_only, parse_ipv4, parse_ipv6, push_ipv4,
    push_ipv6, segments_of, IpAddr, Ipv4Addr, Ipv6Addr, SocketAddr,
};
use crate::pool::{connect_deadline_after, new_event, Pool, PoolState};
use crate::savefile::{file_header, next_record, records, Packet, PcapFileHeader};
use crate::text::{
    chars_of, decimal, has_char, integer, law_number_digits, law_signed, law_unsigned,
    left_aligned, lemma_number_lacks, lemma_split_both, lemma_split_tail, lemma_split_with,
    lemma_split_without, number, parse_i32, parse_unsigned, push_decimal, push_integer, push_left,
    push_right, right_aligned, signed, split, split_at_char, texts, unsigned,
};

verus! {

/// The version of this program.
pub const VERSION: &'static str = "0.1.0";

/// The command-line arguments as texts.
pub open spec fn arguments(args: Seq<String>) -> Seq<Seq<char>> {
    args.map_values(|a: String| a@)
}

/// Whether a text starts with a hyphen.
pub open spec fn is_option(s: Seq<char>) -> bool {
    s.len() > 0 && s[0] == '-'
}

/// Whether a text starts with a hyphen.
fn starts_option(s: &str) -> (r: bool)
    ensures
        r == is_option(s@),
{
    let chars: Vec<char> = chars_of(s);
    chars.len() > 0 && chars[0] == '-'
}

/// A copy of a string.
fn copy_of(s: &str) -> (r: String)
    ensures
        r@ == s@,
{
    let mut out: String = String::new();
    out.append(s);
    assert(out@ =~= s@);
    out
}

// ---------------------------------------------------------------------------
// Ports

/// The port that a text denotes.
pub open spec fn port_of(s: Seq<char>) -> Option<u16> {
    match unsigned(s, 10, 0xffff) {
        Some(v) => Some(v as u16),
        None => None,
    }
}

/// The ports from `a` to `b`, or `a` alone where `b` is below it.
pub open spec fn port_range(a: u16, b: u16) -> Seq<u16> {
    let end = if b < a {
        a
    } else {
        b
    };
    Seq::new((end - a + 1) as nat, |i: int| (a + i) as u16)
}

/// The ports that one piece of a port list denotes: a range `A-B`, where a bad
/// `A` is zero and a bad `B` is `A`, or a single port. Anything else is none.
pub open spec fn piece_ports(p: Seq<char>) -> Seq<u16> {
    if p.contains('-') {
        let ends = split(p, '-');
        let a = match port_of(ends[0]) {
            Some(v) => v,
            None => 0,
        };
        let b = match port_of(ends[1]) {
            Some(v) => v,
            None => a,
        };
        port_range(a, b)
    } else {
        match port_of(p) {
            Some(v) => seq![v],
            None => Seq::empty(),
        }
    }
}

/// The ports that the pieces of a port list denote, in order.
pub open spec fn pieces_ports(pieces: Seq<Seq<char>>) -> Seq<u16>
    decreases pieces.len(),
{
    if pieces.len() == 0 {
        Seq::empty()
    } else {
        pieces_ports(pieces.drop_last()) + piece_ports(pieces.last())
    }
}

/// The ports that a list such as `22,80,8000-8080` denotes.
pub open spec fn port_list(s: Seq<char>) -> Seq<u16> {
    pieces_ports(split(s, ','))
}

/// Read a port.
fn parse_port(v: &[char]) -> (r: Option<u16>)
    ensures
        r == port_of(v@),
{
    match parse_unsigned(v, 10, 0xffff) {
        Some(n) => Some(n as u16),
        None => None,
    }
}

/// Append the ports from `a` to `b`.
fn push_range(out: &mut Vec<u16>, a: u16, b: u16)
    ensures
        final(out)@ == old(out)@ + port_range(a, b),
{
    let end: u16 = if b < a {
        a
    } else {
        b
    };
    let mut p: u32 = a as u32;
    assert(out@ =~= old(out)@ + port_range(a, b).take(0));
    while p <= end as u32
        invariant
            a <= p <= end + 1,
            end == (if b < a {
                a
            } else {
                b
            }),
            out@ == old(out)@ + port_range(a, b).take(p - a),
        decreases end + 1 - p,
    {
        out.push(p as u16);
        p = p + 1;
        assert(out@ =~= old(out)@ + port_range(a, b).take(p - a));
    }
    assert(port_range(a, b).take(end + 1 - a) =~= port_range(a, b));
}

/// Read a list of ports and port ranges.
pub fn parse_ports(spec_text: &str) -> (r: Vec<u16>)
    ensures
        r@ == port_list(spec_text@),
{
    let chars: Vec<char> = chars_of(spec_text);
    let pieces: Vec<Vec<char>> = split_at_char(chars.as_slice(), ',');
    let ghost p = texts(pieces@);
    let mut out: Vec<u16> = Vec::new();
    let mut i: usize = 0;
    assert(out@ =~= pieces_ports(p.take(0)));
    while i < pieces.len()
        invariant
            i <= pieces@.len(),
            p == texts(pieces@),
            out@ == pieces_ports(p.take(i as int)),
        decreases pieces@.len() - i,
    {
        let ghost before = out@;
        let piece: &[char] = pieces[i].as_slice();
        assert(p.take(i + 1).drop_last() =~= p.take(i as int));
        assert(p.take(i + 1).last() == piece@);
        if has_char(piece, '-') {
            let ends: Vec<Vec<char>> = split_at_char(piece, '-');
            proof {
                lemma_split_with(piece@, '-');
            }
            assert(split(piece@, '-')[0] == ends@[0]@ && split(piece@, '-')[1] == ends@[1]@);
            let a: u16 = match parse_port(ends[0].as_slice()) {
                Some(v) => v,
                None => 0,
            };
            let b: u16 = match parse_port(ends[1].as_slice()) {
                Some(v) => v,
                None => a,
            };
            push_range(&mut out, a, b);
        } else {
            match parse_port(piece) {
                Some(v) => {
                    out.push(v);
                },
                None => {},
            }
        }
        assert(out@ =~= before + piece_ports(piece@));
        i = i + 1;
    }
    assert(p.take(p.len() as int) =~= p);
    out
}

/// A range that is written out is read as all of its ports, each once and in
/// order.
pub proof fn law_port_range(a: u16, b: u16)
    requires
        a <= b,
    ensures
        port_range(a, b).len() == b - a + 1,
        forall|i: int| 0 <= i < port_range(a, b).len() ==> #[trigger] port_range(a, b)[i] == a + i,
        forall|p: u16| a <= p <= b ==> #[trigger] port_range(a, b).contains(p),
{
    assert forall|p: u16| a <= p <= b implies #[trigger] port_range(a, b).contains(p) by {
        assert(port_range(a, b)[p - a] == p);
    }
}

// ---------------------------------------------------------------------------
// Arguments

/// What a scan was asked to do.
#[derive(Debug)]
pub struct ScanArgs {
    pub host: String,
    pub ports: Vec<u16>,
    pub timeout_ms: i32,
}

/// What an analysis was asked to do.
#[derive(Debug)]
pub struct PcapArgs {
    pub file: String,
    pub filter: Option<String>,
}

/// What the program was asked to do.
#[derive(Debug)]
pub enum Action {
    /// Print these texts, to the output and to the error output.
    Print { out: Option<String>, err: Option<String> },
    Interfaces,
    Scan(ScanArgs),
    Pcap(PcapArgs),
    Route(String),
}

/// An [`Action`] with its texts as sequences.
#[verifier::ext_equal]
pub enum Plan {
    Print { out: Option<Seq<char>>, err: Option<Seq<char>> },
    Interfaces,
    Scan { host: Seq<char>, ports: Seq<u16>, timeout_ms: i32 },
    Pcap { file: Seq<char>, filter: Option<Seq<char>> },
    Route(Seq<char>),
}

/// An optional string as an optional sequence.
pub open spec fn optional(s: Option<String>) -> Option<Seq<char>> {
    match s {
        Some(t) => Some(t@),
        None => None,
    }
}

impl View for Action {
    type V = Plan;

    open spec fn view(&self) -> Plan {
        match *self {
            Action::Print { out, err } => Plan::Print { out: optional(out), err: optional(err) },
            Action::Interfaces => Plan::Interfaces,
            Action::Scan(a) => Plan::Scan {
                host: a.host@,
                ports: a.ports@,
                timeout_ms: a.timeout_ms,
            },
            Action::Pcap(a) => Plan::Pcap { file: a.file@, filter: optional(a.filter) },
            Action::Route(host) => Plan::Route(host@),
        }
    }
}

/// Name and version.
pub open spec fn version_text() -> Seq<char> {
    "WNR (We Nmap in Rust) "@ + VERSION@
}

/// How to use the program.
pub open spec fn usage_text() -> Seq<char> {
    version_text()
        + "\n\nUSAGE:\n  wnr --interfaces                 enumerate network interfaces\n  wnr --scan <host> [-p PORT[,RANGE]...] [--timeout MS]\n  wnr --pcap <file> [--filter EXPR]\n  wnr --route <host>               show the route/next-hop to a host\n  wnr --version\n"@
}

/// What has been read of the arguments of a scan.
#[verifier::ext_equal]
pub struct ScanState {
    pub host: Option<Seq<char>>,
    pub ports: Seq<u16>,
    pub timeout_ms: i32,
}

/// What is read of the arguments of a scan from the one at `i` on. The last
/// host and the last timeout count; ports add up. A timeout that is no number
/// is three seconds.
pub open spec fn scan_from(a: Seq<Seq<char>>, i: int, st: ScanState) -> ScanState
    decreases a.len() - i,
{
    let valued = i + 1 < a.len();
    if i >= a.len() {
        st
    } else if a[i] == "-p"@ {
        if valued {
            scan_from(a, i + 2, ScanState { ports: st.ports + port_list(a[i + 1]), ..st })
        } else {
            scan_from(a, i + 1, st)
        }
    } else if a[i] == "--timeout"@ {
        if valued {
            let t = match signed(a[i + 1], i32::MAX as int) {
                Some(v) => v as i32,
                None => 3000,
            };
            scan_from(a, i + 2, ScanState { timeout_ms: t, ..st })
        } else {
            scan_from(a, i + 1, st)
        }
    } else if a[i] == "--filter"@ {
        if valued {
            scan_from(a, i + 2, st)
        } else {
            scan_from(a, i + 1, st)
        }
    } else if !is_option(a[i]) {
        scan_from(a, i + 1, ScanState { host: Some(a[i]), ..st })
    } else {
        scan_from(a, i + 1, st)
    }
}

/// What a scan was asked to do. Without ports, the first hundred are scanned.
pub open spec fn scan_plan(a: Seq<Seq<char>>) -> Plan {
    let st = scan_from(
        a,
        2,
        ScanState { host: None, ports: Seq::empty(), timeout_ms: 3000 },
    );
    match st.host {
        None => Plan::Print { out: None, err: Some("no host specified"@) },
        Some(host) => Plan::Scan {
            host,
            ports: if st.ports.len() == 0 {
                port_range(1, 100)
            } else {
                st.ports
            },
            timeout_ms: st.timeout_ms,
        },
    }
}

/// What is read of the arguments of an analysis from the one at `i` on. The
/// last file and the last filter count.
pub open spec fn pcap_from(
    a: Seq<Seq<char>>,
    i: int,
    file: Option<Seq<char>>,
    filter: Option<Seq<char>>,
) -> (Option<Seq<char>>, Option<Seq<char>>)
    decreases a.len() - i,
{
    if i >= a.len() {
        (file, filter)
    } else if a[i] == "--filter"@ && i + 1 < a.len() {
        pcap_from(a, i + 2, file, Some(a[i + 1]))
    } else if !is_option(a[i]) {
        pcap_from(a, i + 1, Some(a[i]), filter)
    } else {
        pcap_from(a, i + 1, file, filter)
    }
}

/// What an analysis was asked to do.
pub open spec fn pcap_plan(a: Seq<Seq<char>>) -> Plan {
    let (file, filter) = pcap_from(a, 2, None, None);
    match file {
        None => Plan::Print { out: None, err: Some("no pcap file specified"@) },
        Some(file) => Plan::Pcap { file, filter },
    }
}

/// The first argument from the one at `i` on that is no option.
pub open spec fn first_plain(a: Seq<Seq<char>>, i: int) -> Option<Seq<char>>
    decreases a.len() - i,
{
    if i >= a.len() {
        None
    } else if !is_option(a[i]) {
        Some(a[i])
    } else {
        first_plain(a, i + 1)
    }
}

/// What a route lookup was asked to do.
pub open spec fn route_plan(a: Seq<Seq<char>>) -> Plan {
    match first_plain(a, 2) {
        None => Plan::Print { out: None, err: Some("no host specified"@) },
        Some(host) => Plan::Route(host),
    }
}

/// What the arguments, the name of the program first, ask for.
pub open spec fn planned(a: Seq<Seq<char>>) -> Plan {
    if a.len() < 2 {
        Plan::Print { out: Some(usage_text()), err: None }
    } else if a[1] == "--interfaces"@ || a[1] == "-i"@ {
        Plan::Interfaces
    } else if a[1] == "--scan"@ || a[1] == "-s"@ {
        scan_plan(a)
    } else if a[1] == "--pcap"@ || a[1] == "-p"@ {
        pcap_plan(a)
    } else if a[1] == "--route"@ || a[1] == "-r"@ {
        route_plan(a)
    } else if a[1] == "--version"@ || a[1] == "-V"@ {
        Plan::Print { out: Some(version_text()), err: None }
    } else if a[1] == "--help"@ || a[1] == "-h"@ {
        Plan::Print { out: Some(usage_text()), err: None }
    } else {
        Plan::Print {
            out: Some(usage_text()),
            err: Some("unknown command '"@ + a[1] + "'"@),
        }
    }
}

/// Name and version.
pub fn version() -> (r: String)
    ensures
        r@ == version_text(),
{
    let mut out: String = String::new();
    out.append("WNR (We Nmap in Rust) ");
    out.append(VERSION);
    assert(out@ =~= version_text());
    out
}

/// How to use the program.
pub fn print_usage() -> (r: String)
    ensures
        r@ == usage_text(),
{
    let mut out: String = version();
    out.append(
        "\n\nUSAGE:\n  wnr --interfaces                 enumerate network interfaces\n  wnr --scan <host> [-p PORT[,RANGE]...] [--timeout MS]\n  wnr --pcap <file> [--filter EXPR]\n  wnr --route <host>               show the route/next-hop to a host\n  wnr --version\n",
    );
    assert(out@ =~= usage_text());
    out
}

/// Report an error and nothing else.
fn only_error(message: &str) -> (r: Action)
    ensures
        r@ == (Plan::Print { out: None, err: Some(message@) }),
{
    Action::Print { out: None, err: Some(copy_of(message)) }
}

/// Read the arguments of a scan.
fn read_scan(args: &Vec<String>) -> (r: Action)
    requires
        args@.len() >= 2,
    ensures
        r@ == scan_plan(arguments(args@)),
{
    let ghost a = arguments(args@);
    let ghost start = ScanState { host: None, ports: Seq::empty(), timeout_ms: 3000 };
    let mut host: Option<String> = None;
    let mut ports: Vec<u16> = Vec::new();
    let mut timeout_ms: i32 = 3000;
    let mut i: usize = 2;
    assert(ports@ =~= start.ports);
    while i < args.len()
        invariant
            i <= args@.len(),
            a == arguments(args@),
            scan_from(a, 2, start) == scan_from(
                a,
                i as int,
                ScanState { host: optional(host), ports: ports@, timeout_ms },
            ),
        decreases args@.len() - i,
    {
        assert(a[i as int] == args@[i as int]@);
        let arg: &str = args[i].as_str();
        let valued: bool = i + 1 < args.len();
        if valued {
            assert(a[i + 1] == args@[i + 1]@);
        }
        if same_string(arg, "-p") {
            if valued {
                let more: Vec<u16> = parse_ports(args[i + 1].as_str());
                push_ports(&mut ports, &more);
                i = i + 1;
            }
        } else if same_string(arg, "--timeout") {
            if valued {
                let chars: Vec<char> = chars_of(args[i + 1].as_str());
                timeout_ms = match parse_i32(chars.as_slice()) {
                    Some(v) => v,
                    None => 3000,
                };
                i = i + 1;
            }
        } else if same_string(arg, "--filter") {
            if valued {
                i = i + 1;
            }
        } else if !starts_option(arg) {
            host = Some(copy_of(arg));
        }
        i = i + 1;
    }
    match host {
        None => only_error("no host specified"),
        Some(host) => {
            if ports.len() == 0 {
                push_range(&mut ports, 1, 100);
                assert(ports@ =~= port_range(1, 100));
            }
            Action::Scan(ScanArgs { host, ports, timeout_ms })
        },
    }
}

/// Append ports.
fn push_ports(out: &mut Vec<u16>, more: &Vec<u16>)
    ensures
        final(out)@ == old(out)@ + more@,
{
    let mut i: usize = 0;
    assert(out@ =~= old(out)@ + more@.take(0));
    while i < more.len()
        invariant
            i <= more@.len(),
            out@ == old(out)@ + more@.take(i as int),
        decreases more@.len() - i,
    {
        out.push(more[i]);
        i = i + 1;
        assert(out@ =~= old(out)@ + more@.take(i as int));
    }
    assert(more@.take(more@.len() as int) =~= more@);
}

/// Read the arguments of an analysis.
fn read_pcap(args: &Vec<String>) -> (r: Action)
    requires
        args@.len() >= 2,
    ensures
        r@ == pcap_plan(arguments(args@)),
{
    let ghost a = arguments(args@);
    let mut file: Option<String> = None;
    let mut filter: Option<String> = None;
    let mut i: usize = 2;
    while i < args.len()
        invariant
            i <= args@.len(),
            a == arguments(args@),
            pcap_from(a, 2, None, None) == pcap_from(
                a,
                i as int,
                optional(file),
                optional(filter),
            ),
        decreases args@.len() - i,
    {
        assert(a[i as int] == args@[i as int]@);
        let arg: &str = args[i].as_str();
        if i + 1 < args.len() && same_string(arg, "--filter") {
            assert(a[i + 1] == args@[i + 1]@);
            filter = Some(copy_of(args[i + 1].as_str()));
            i = i + 1;
        } else if !starts_option(arg) {
            file = Some(copy_of(arg));
        }
        i = i + 1;
    }
    match file {
        None => only_error("no pcap file specified"),
        Some(file) => Action::Pcap(PcapArgs { file, filter }),
    }
}

/// Read the arguments of a route lookup.
fn read_route(args: &Vec<String>) -> (r: Action)
    requires
        args@.len() >= 2,
    ensures
        r@ == route_plan(arguments(args@)),
{
    let ghost a = arguments(args@);
    let mut i: usize = 2;
    while i < args.len()
        invariant
            i <= args@.len(),
            a == arguments(args@),
            first_plain(a, 2) == first_plain(a, i as int),
        decreases args@.len() - i,
    {
        assert(a[i as int] == args@[i as int]@);
        if !starts_option(args[i].as_str()) {
            return Action::Route(copy_of(args[i].as_str()));
        }
        i = i + 1;
    }
    only_error("no host specified")
}

/// Read the command line, the name of the program first.
pub fn command(args: &Vec<String>) -> (r: Action)
    ensures
        r@ == planned(arguments(args@)),
{
    let ghost a = arguments(args@);
    if args.len() < 2 {
        return Action::Print { out: Some(print_usage()), err: None };
    }
    assert(a[1] == args@[1]@);
    let word: &str = args[1].as_str();
    if same_string(word, "--interfaces") || same_string(word, "-i") {
        Action::Interfaces
    } else if same_string(word, "--scan") || same_string(word, "-s") {
        read_scan(args)
    } else if same_string(word, "--pcap") || same_string(word, "-p") {
        read_pcap(args)
    } else if same_string(word, "--route") || same_string(word, "-r") {
        read_route(args)
    } else if same_string(word, "--version") || same_string(word, "-V") {
        Action::Print { out: Some(version()), err: None }
    } else if same_string(word, "--help") || same_string(word, "-h") {
        Action::Print { out: Some(print_usage()), err: None }
    } else {
        let mut e: String = String::new();
        e.append("unknown command '");
        e.append(word);
        e.append("'");
        assert(e@ =~= "unknown command '"@ + a[1] + "'"@);
        Action::Print { out: Some(print_usage()), err: Some(e) }
    }
}

// ---------------------------------------------------------------------------
// Interfaces

/// The line above the table of interfaces.
pub open spec fn table_head() -> Seq<char> {
    left_aligned("INTERFACE"@, 16) + " "@ + left_aligned("ADDRESS"@, 18) + " "@ + left_aligned(
        "MAC"@,
        9,
    ) + " "@ + left_aligned("MTU"@, 6) + " "@ + "FLAGS"@
}

/// The hardware address of an interface as text, or a hyphen.
pub open spec fn mac_column(i: Interface) -> Seq<char> {
    if i.link_addr.addr_type == ADDR_TYPE_HW {
        mac_shown(i.link_addr.data.take(6))
    } else {
        "-"@
    }
}

/// One more word of a list with commas.
pub open spec fn listed(s: Seq<char>, on: bool, word: Seq<char>) -> Seq<char> {
    if !on {
        s
    } else if s.len() == 0 {
        word
    } else {
        s + ","@ + word
    }
}

/// The flags of an interface as text.
pub open spec fn flags_column(flags: u16) -> Seq<char> {
    let up = listed(Seq::empty(), flags & INTF_FLAG_UP != 0, "UP"@);
    let lo = listed(up, flags & INTF_FLAG_LOOPBACK != 0, "LOOPBACK"@);
    listed(lo, flags & INTF_FLAG_POINTOPOINT != 0, "P2P"@)
}

/// The line for an interface. Only the address is not aligned.
pub open spec fn table_line(i: Interface) -> Seq<char> {
    left_aligned(i.name, 16) + " "@ + addr_shown(i.addr) + " "@ + left_aligned(mac_column(i), 9)
        + " "@ + left_aligned(decimal(i.mtu as int), 6) + " "@ + flags_column(i.flags)
}

/// Append one more word of a list with commas.
fn push_listed(out: &mut String, on: bool, word: &str)
    ensures
        final(out)@ == listed(old(out)@, on, word@),
{
    if on {
        let chars: Vec<char> = chars_of(out.as_str());
        if chars.len() > 0 {
            out.append(",");
        }
        out.append(word);
        assert(out@ =~= listed(old(out)@, on, word@));
    }
}

/// The line for an interface.
pub fn interface_line(e: &IntfEntry) -> (r: String)
    ensures
        r@ == table_line(e@),
{
    let mut mac: String = String::new();
    match e.link_addr_slice() {
        Some(m) => {
            push_mac(&mut mac, &m);
            assert(mac@ =~= mac_column(e@));
        },
        None => {
            mac.append("-");
            assert(mac@ =~= mac_column(e@));
        },
    }
    let mut mtu: String = String::new();
    push_decimal(&mut mtu, e.mtu as u64);
    assert(mtu@ =~= decimal(e.mtu as int));
    let mut flags: String = String::new();
    push_listed(&mut flags, e.is_up(), "UP");
    push_listed(&mut flags, e.is_loopback(), "LOOPBACK");
    push_listed(&mut flags, e.is_point_to_point(), "P2P");
    let mut out: String = String::new();
    push_left(&mut out, e.name.as_str(), 16);
    out.append(" ");
    e.addr.push_to(&mut out);
    out.append(" ");
    push_left(&mut out, mac.as_str(), 9);
    out.append(" ");
    push_left(&mut out, mtu.as_str(), 6);
    out.append(" ");
    out.append(flags.as_str());
    assert(out@ =~= table_line(e@));
    out
}

/// The lines to print for the interfaces of the host.
pub open spec fn interface_lines(list: Seq<IntfEntry>) -> Seq<Seq<char>> {
    if list.len() == 0 {
        seq!["No network interfaces could be enumerated."@]
    } else {
        seq![table_head()] + list.map_values(|e: IntfEntry| table_line(e@))
    }
}

/// Print the interfaces of the host as a table.
pub fn cmd_interfaces(list: &Vec<IntfEntry>) -> (r: Vec<String>)
    ensures
        arguments(r@) == interface_lines(list@),
{
    let mut out: Vec<String> = Vec::new();
    if list.len() == 0 {
        out.push(copy_of("No network interfaces could be enumerated."));
        assert(arguments(out@) =~= interface_lines(list@));
        return out;
    }
    let mut head: String = String::new();
    push_left(&mut head, "INTERFACE", 16);
    head.append(" ");
    push_left(&mut head, "ADDRESS", 18);
    head.append(" ");
    push_left(&mut head, "MAC", 9);
    head.append(" ");
    push_left(&mut head, "MTU", 6);
    head.append(" ");
    head.append("FLAGS");
    assert(head@ =~= table_head());
    out.push(head);
    let ghost want = interface_lines(list@);
    let mut i: usize = 0;
    assert(arguments(out@) =~= want.take(1));
    while i < list.len()
        invariant
            i <= list@.len(),
            list@.len() > 0,
            want == interface_lines(list@),
            arguments(out@) == want.take(i + 1),
        decreases list@.len() - i,
    {
        let ghost before = out@;
        let line: String = interface_line(&list[i]);
        assert(want[i + 1] == line@);
        out.push(line);
        assert(arguments(out@) =~= arguments(before).push(line@));
        i = i + 1;
        assert(arguments(out@) =~= want.take(i + 1));
    }
    assert(want.take(want.len() as int) =~= want);
    out
}

// ---------------------------------------------------------------------------
// Scanning

/// The line before a scan.
pub fn scan_head(host: &str, ports: usize, timeout_ms: i32) -> (r: String)
    ensures
        r@ == "WNR connect-scan of "@ + host@ + " ("@ + decimal(ports as int) + " port(s), timeout "@
            + integer(timeout_ms as int) + "ms)"@,
{
    let mut out: String = String::new();
    out.append("WNR connect-scan of ");
    out.append(host);
    out.append(" (");
    push_decimal(&mut out, ports as u64);
    out.append(" port(s), timeout ");
    push_integer(&mut out, timeout_ms);
    out.append("ms)");
    assert(out@ =~= "WNR connect-scan of "@ + host@ + " ("@ + decimal(ports as int)
        + " port(s), timeout "@ + integer(timeout_ms as int) + "ms)"@);
    out
}

/// The line for a port, by what came of connecting to it.
pub fn port_line(port: u16, status: EventStatus) -> (r: String)
    ensures
        r@ == right_aligned(decimal(port as int), 5) + (if status == EventStatus::Success {
            "/tcp open"@
        } else {
            "/tcp closed"@
        }),
{
    let mut n: String = String::new();
    push_decimal(&mut n, port as u64);
    assert(n@ =~= decimal(port as int));
    let mut out: String = String::new();
    push_right(&mut out, n.as_str(), 5);
    match status {
        EventStatus::Success => {
            out.append("/tcp open");
        },
        _ => {
            out.append("/tcp closed");
        },
    }
    assert(out@ =~= right_aligned(decimal(port as int), 5) + (if status == EventStatus::Success {
        "/tcp open"@
    } else {
        "/tcp closed"@
    }));
    out
}

/// A connection attempt of a scan.
#[derive(Clone, Copy, Debug)]
pub struct Probe {
    pub port: u16,
    pub iod: u64,
    pub event: EventId,
    pub target: SocketAddr,
}

/// A pool with the first `n` probes of a scan under way.
pub open spec fn probed(s: PoolState, n: nat, timeout_ms: i32, now: u64) -> PoolState
    decreases n,
{
    if n == 0 {
        s
    } else {
        let t = probed(s, (n - 1) as nat, timeout_ms, now);
        let iod = (t.last_iod + 1) as u64;
        t.with_iod(Iod::idle(iod, IodKind::Tcp)).scheduled(
            new_event(
                Some(iod),
                EventType::Connect,
                Some(connect_deadline_after(timeout_ms as int, now)),
                None,
                0,
                false,
            ),
        )
    }
}

/// The probes of a scan take that many ids.
proof fn lemma_probe_ids(s: PoolState, n: nat, timeout_ms: i32, now: u64)
    requires
        s.last_iod + n <= u64::MAX,
        s.last_event + n <= u64::MAX,
    ensures
        probed(s, n, timeout_ms, now).last_iod == s.last_iod + n,
        probed(s, n, timeout_ms, now).last_event == s.last_event + n,
    decreases n,
{
    if n > 0 {
        lemma_probe_ids(s, (n - 1) as nat, timeout_ms, now);
    }
}

/// Each probe of a scan has an IOD and an event of its own: those with the
/// next ids, the event waiting for the connection of the IOD.
pub proof fn law_probes(s: PoolState, n: nat, timeout_ms: i32, now: u64, i: int)
    requires
        s.last_iod + n <= u64::MAX,
        s.last_event + n <= u64::MAX,
        0 <= i < n,
    ensures
        ({
            let t = probed(s, n, timeout_ms, now);
            let iod = (s.last_iod + 1 + i) as u64;
            let event = (s.last_event + 1 + i) as u64;
            &&& t.iods.contains_key(iod)
            &&& t.iods[iod] == Iod::idle(iod, IodKind::Tcp)
            &&& t.events.contains_key(event)
            &&& t.events[event] == new_event(
                Some(iod),
                EventType::Connect,
                Some(connect_deadline_after(timeout_ms as int, now)),
                None,
                0,
                false,
            )
        }),
    decreases n,
{
    lemma_probe_ids(s, (n - 1) as nat, timeout_ms, now);
    if i < n - 1 {
        law_probes(s, (n - 1) as nat, timeout_ms, now, i);
    }
}

/// Start a connect scan: one probe for each port, all at once.
pub fn cmd_scan(pool: &mut Pool, ports: &Vec<u16>, ip: IpAddr, timeout_ms: i32, now: u64) -> (r: Vec<
    Probe,
>)
    requires
        old(pool).wf(),
        old(pool)@.last_iod + ports@.len() <= u64::MAX,
        old(pool)@.last_event + ports@.len() <= u64::MAX,
        connect_deadline_after(timeout_ms as int, now) <= u64::MAX,
    ensures
        final(pool).wf(),
        final(pool)@ == probed(old(pool)@, ports@.len(), timeout_ms, now),
        r@.len() == ports@.len(),
        forall|i: int|
            0 <= i < r@.len() ==> (#[trigger] r@[i]) == (Probe {
                port: ports@[i],
                iod: (old(pool)@.last_iod + 1 + i) as u64,
                event: (old(pool)@.last_event + 1 + i) as u64,
                target: SocketAddr { ip, port: ports@[i] },
            }),
{
    let ghost s = pool@;
    let mut out: Vec<Probe> = Vec::new();
    let mut i: usize = 0;
    while i < ports.len()
        invariant
            i <= ports@.len(),
            i == out@.len(),
            pool.wf(),
            s.last_iod + ports@.len() <= u64::MAX,
            s.last_event + ports@.len() <= u64::MAX,
            connect_deadline_after(timeout_ms as int, now) <= u64::MAX,
            pool@ == probed(s, i as nat, timeout_ms, now),
            forall|j: int|
                0 <= j < i ==> (#[trigger] out@[j]) == (Probe {
                    port: ports@[j],
                    iod: (s.last_iod + 1 + j) as u64,
                    event: (s.last_event + 1 + j) as u64,
                    target: SocketAddr { ip, port: ports@[j] },
                }),
        decreases ports@.len() - i,
    {
        proof {
            lemma_probe_ids(s, i as nat, timeout_ms, now);
        }
        let port: u16 = ports[i];
        let iod: u64 = pool.create_iod_tcp();
        let event: EventId = pool.connect_tcp(iod, timeout_ms, now);
        out.push(Probe { port, iod, event, target: SocketAddr { ip, port } });
        i = i + 1;
    }
    out
}

/// The line for an event of a scan; none where it is not one of its probes.
pub fn probe_line(probes: &Vec<Probe>, id: EventId, status: EventStatus) -> (r: Option<String>)
    ensures
        match r {
            Some(line) => exists|i: int|
                0 <= i < probes@.len() && (#[trigger] probes@[i]).event == id && line@
                    == right_aligned(decimal(probes@[i].port as int), 5) + (if status
                    == EventStatus::Success {
                    "/tcp open"@
                } else {
                    "/tcp closed"@
                }),
            None => forall|i: int| 0 <= i < probes@.len() ==> (#[trigger] probes@[i]).event != id,
        },
{
    let mut i: usize = 0;
    while i < probes.len()
        invariant
            i <= probes@.len(),
            forall|j: int| 0 <= j < i ==> (#[trigger] probes@[j]).event != id,
        decreases probes@.len() - i,
    {
        if probes[i].event == id {
            return Some(port_line(probes[i].port, status));
        }
        i = i + 1;
    }
    None
}

/// The line behind a scan.
pub fn scan_done(ports: usize) -> (r: String)
    ensures
        r@ == "done ("@ + decimal(ports as int) + " ports scanned)"@,
{
    let mut out: String = String::new();
    out.append("done (");
    push_decimal(&mut out, ports as u64);
    out.append(" ports scanned)");
    assert(out@ =~= "done ("@ + decimal(ports as int) + " ports scanned)"@);
    out
}

/// The error for a host that has no address.
pub fn unresolved(host: &str) -> (r: String)
    ensures
        r@ == "could not resolve host '"@ + host@ + "'"@,
{
    let mut out: String = String::new();
    out.append("could not resolve host '");
    out.append(host);
    out.append("'");
    assert(out@ =~= "could not resolve host '"@ + host@ + "'"@);
    out
}

// ---------------------------------------------------------------------------
// Analyzing savefiles

/// What an analysis found.
#[derive(Debug)]
pub struct Analysis {
    /// How many packets there are.
    pub total: u64,
    /// How many bytes of them were captured.
    pub bytes: u64,
    /// A line for each of the first ten packets.
    pub lines: Vec<String>,
}

/// The captured bytes of all packets together.
pub open spec fn captured_bytes(s: Seq<Packet>) -> nat
    decreases s.len(),
{
    if s.len() == 0 {
        0
    } else {
        s[0].caplen as nat + captured_bytes(s.skip(1))
    }
}

/// The line for the packet with the number `n`. A frame that is shorter than
/// its link-layer header has no payload.
pub open spec fn packet_line(n: int, p: Packet, dlt: i32) -> Seq<char> {
    let off = if p.data.len() < header_len(dlt) {
        0
    } else {
        header_len(dlt)
    };
    let len = if p.data.len() < header_len(dlt) {
        0
    } else {
        p.data.len() - header_len(dlt)
    };
    "pkt #"@ + decimal(n) + ": "@ + decimal(p.caplen as int) + " bytes captured ("@ + decimal(
        p.origlen as int,
    ) + " on wire), "@ + decimal(len) + " l3 bytes at off "@ + decimal(off)
}

/// The lines for the first ten packets.
pub open spec fn first_lines(all: Seq<Packet>, dlt: i32) -> Seq<Seq<char>> {
    Seq::new(
        if all.len() < 10 {
            all.len()
        } else {
            10
        },
        |i: int| packet_line(i + 1, all[i], dlt),
    )
}

/// The packets that an analysis looks at.
pub open spec fn analyzed(h: PcapFileHeader, data: Seq<u8>, filter: Option<Seq<BpfInsn>>) -> Seq<
    Packet,
> {
    all_passing(Source::Offline(h, data.skip(24)), filter)
}

/// The filter that an analysis applies, or why there is none.
pub open spec fn chosen_filter(h: PcapFileHeader, filter: Option<Seq<char>>) -> Result<
    Option<Seq<BpfInsn>>,
    Seq<char>,
> {
    match filter {
        None => Ok(None),
        Some(f) => match compiled(f, h.linktype as i32) {
            Ok(insns) => Ok(Some(insns)),
            Err(e) => Err("invalid filter '"@ + f + "': "@ + e),
        },
    }
}

/// The captured bytes of a savefile's packets are in the savefile.
proof fn lemma_captured_bytes(h: PcapFileHeader, rest: Seq<u8>, filter: Option<Seq<BpfInsn>>)
    ensures
        captured_bytes(all_passing(Source::Offline(h, rest), filter)) <= rest.len(),
    decreases rest.len(),
{
    reveal(all_passing);
    let (r, behind) = next_record(h, rest);
    let s = Source::Offline(h, rest);
    match r {
        Ok(Some(p)) => {
            let swap = h.swapped();
            assert(crate::savefile::field32(swap, rest, 8) >= 0);
            assert(left(Source::Offline(h, behind)) < left(s));
            assert(p.caplen + 16 + behind.len() == rest.len());
            lemma_captured_bytes(h, behind, filter);
            let tail = all_passing(Source::Offline(h, behind), filter);
            assert((seq![p] + tail).skip(1) =~= tail);
        },
        _ => {},
    }
}

/// The line for a packet.
fn show_packet(n: u64, hdr: &PacketHeader, frame: &[u8], dlt: i32, Ghost(p): Ghost<Packet>) -> (r:
    String)
    requires
        *hdr == header_of(p),
        frame@ == p.data,
    ensures
        r@ == packet_line(n as int, p, dlt),
{
    let mut off: usize = 0;
    let mut len: usize = 0;
    match strip_link_header(dlt, frame) {
        Some((o, l, _)) => {
            off = o;
            len = l;
        },
        None => {},
    }
    let mut out: String = String::new();
    out.append("pkt #");
    push_decimal(&mut out, n);
    out.append(": ");
    push_decimal(&mut out, hdr.caplen as u64);
    out.append(" bytes captured (");
    push_decimal(&mut out, hdr.len as u64);
    out.append(" on wire), ");
    push_decimal(&mut out, len as u64);
    out.append(" l3 bytes at off ");
    push_decimal(&mut out, off as u64);
    assert(out@ =~= packet_line(n as int, p, dlt));
    out
}

/// The error for a file that cannot be opened.
pub fn open_failed(file: &str, e: &str) -> (r: String)
    ensures
        r@ == "failed to open '"@ + file@ + "': "@ + e@,
{
    let mut out: String = String::new();
    out.append("failed to open '");
    out.append(file);
    out.append("': ");
    out.append(e);
    assert(out@ =~= "failed to open '"@ + file@ + "': "@ + e@);
    out
}

/// Analyze the contents of a pcap savefile: the packets that the filter passes
/// on, up to the end of the file or the first bad record.
pub fn cmd_pcap(args: &PcapArgs, data: Vec<u8>) -> (r: Result<Analysis, String>)
    ensures
        match file_header(data@) {
            Err(cause) => r is Err && r->Err_0@ == "failed to open '"@ + args.file@ + "': "@
                + cause.text(),
            Ok(h) => match chosen_filter(h, optional(args.filter)) {
                Err(e) => r is Err && r->Err_0@ == e,
                Ok(filter) => r is Ok && ({
                    let all = analyzed(h, data@, filter);
                    let a = r->Ok_0;
                    &&& a.total == all.len()
                    &&& a.bytes == captured_bytes(all)
                    &&& arguments(a.lines@) == first_lines(all, h.linktype as i32)
                }),
            },
        },
{
    let ghost bytes_in = data@;
    let size: usize = data.len();
    let mut cap: Capture = match Capture::open_offline(data) {
        Ok(c) => c,
        Err(e) => {
            return Err(open_failed(args.file.as_str(), e.as_str()));
        },
    };
    let ghost h = file_header(bytes_in)->Ok_0;
    match &args.filter {
        Some(f) => {
            match cap.set_filter(f.as_str()) {
                Ok(_) => {},
                Err(e) => {
                    let mut out: String = String::new();
                    out.append("invalid filter '");
                    out.append(f.as_str());
                    out.append("': ");
                    out.append(e.as_str());
                    assert(out@ =~= "invalid filter '"@ + f@ + "': "@ + e@);
                    return Err(out);
                },
            }
        },
        None => {},
    }
    let ghost filter = cap@.filter;
    let ghost all = analyzed(h, bytes_in, filter);
    let ghost dlt_in = h.linktype as i32;
    proof {
        lemma_captured_bytes(h, bytes_in.skip(24), filter);
        crate::capture::lemma_at_most(cap@.source, filter);
    }
    let dlt: i32 = cap.datalink();
    let mut total: u64 = 0;
    let mut bytes: u64 = 0;
    let mut lines: Vec<String> = Vec::new();
    assert(all.skip(0) =~= all);
    assert(arguments(lines@) =~= first_lines(all, dlt).take(0));
    loop
        invariant_except_break
            all_passing(cap@.source, filter) == all.skip(total as int),
            bytes + captured_bytes(all.skip(total as int)) == captured_bytes(all),
        invariant
            cap@.filter == filter,
            total <= all.len() <= size,
            captured_bytes(all) <= size,
            arguments(lines@) == first_lines(all, dlt).take(
                if total < 10 {
                    total as int
                } else {
                    10
                },
            ),
        ensures
            total == all.len(),
            bytes == captured_bytes(all),
            arguments(lines@) == first_lines(all, dlt),
        decreases left(cap@.source),
    {
        match cap.pull() {
            Some((hdr, frame)) => {
                let ghost n = total as int;
                let ghost p = all[n];
                assert(p == all.skip(n)[0]);
                assert(all.skip(n).skip(1) =~= all.skip(n + 1));
                total = total + 1;
                bytes = bytes + hdr.caplen as u64;
                if total <= 10 {
                    let line: String = show_packet(total, &hdr, frame.as_slice(), dlt, Ghost(p));
                    let ghost before = lines@;
                    lines.push(line);
                    assert(arguments(lines@) =~= arguments(before).push(line@));
                    assert(first_lines(all, dlt)[n] == line@);
                    assert(arguments(lines@) =~= first_lines(all, dlt).take(total as int));
                }
            },
            None => {
                assert(all.skip(total as int).len() == 0);
                assert(arguments(lines@) =~= first_lines(all, dlt));
                break;
            },
        }
    }
    Ok(Analysis { total, bytes, lines })
}

/// The start of the line that sums an analysis up.
pub fn analysis_text(a: &Analysis, file: &str) -> (r: String)
    ensures
        r@ == "read "@ + decimal(a.total as int) + " packets ("@ + decimal(a.bytes as int)
            + " bytes) from '"@ + file@ + "'"@,
{
    let mut out: String = String::new();
    out.append("read ");
    push_decimal(&mut out, a.total);
    out.append(" packets (");
    push_decimal(&mut out, a.bytes);
    out.append(" bytes) from '");
    out.append(file);
    out.append("'");
    assert(out@ =~= "read "@ + decimal(a.total as int) + " packets ("@ + decimal(a.bytes as int)
        + " bytes) from '"@ + file@ + "'"@);
    out
}

/// The line that tells which filter was applied.
pub fn filter_text(filter: &str) -> (r: String)
    ensures
        r@ == "filter applied: '"@ + filter@ + "'"@,
{
    let mut out: String = String::new();
    out.append("filter applied: '");
    out.append(filter);
    out.append("'");
    assert(out@ =~= "filter applied: '"@ + filter@ + "'"@);
    out
}

// ---------------------------------------------------------------------------
// Routes

/// Whether `ip` is the address that a text denotes literally.
pub open spec fn denotes(s: Seq<char>, ip: IpAddr) -> bool {
    match ip {
        IpAddr::V4(a) => ipv4_text(s) == Some(a.octets@),
        IpAddr::V6(a) => ipv4_text(s) is None && ipv6_text(s) == Some(segments_of(a.octets@)),
    }
}

/// Whether a text is a literal address.
pub open spec fn is_literal(s: Seq<char>) -> bool {
    ipv4_text(s) is Some || ipv6_text(s) is Some
}

/// Read a literal address.
pub fn literal_ip(host: &str) -> (r: Option<IpAddr>)
    ensures
        match r {
            Some(ip) => denotes(host@, ip),
            None => !is_literal(host@),
        },
{
    let chars: Vec<char> = chars_of(host);
    match parse_ipv4(chars.as_slice()) {
        Some(a) => Some(IpAddr::V4(a)),
        None => match parse_ipv6(chars.as_slice()) {
            Some(a) => Some(IpAddr::V6(a)),
            None => None,
        },
    }
}

/// Resolve a hostname (or literal IP). `found` is the first address that the
/// system's resolver gives for the name, if any.
pub fn resolve_ip(host: &str, found: Option<IpAddr>) -> (r: Option<IpAddr>)
    ensures
        if is_literal(host@) {
            r is Some && denotes(host@, r->0)
        } else {
            r == found
        },
{
    match literal_ip(host) {
        Some(ip) => Some(ip),
        None => found,
    }
}

/// The text of an address.
pub open spec fn ip_shown(ip: IpAddr) -> Seq<char> {
    match ip {
        IpAddr::V4(a) => ipv4_shown(a.octets@),
        IpAddr::V6(a) => ipv6_shown(segments_of(a.octets@)),
    }
}

/// Append the text of an address.
fn push_ip(out: &mut String, ip: &IpAddr)
    ensures
        final(out)@ == old(out)@ + ip_shown(*ip),
{
    match ip {
        IpAddr::V4(a) => {
            push_ipv4(out, a);
        },
        IpAddr::V6(a) => {
            push_ipv6(out, a);
        },
    }
}

/// The address to look up the route for.
pub fn route_target(ip: &IpAddr) -> (r: Addr)
    ensures
        r@ == (match *ip {
            IpAddr::V4(a) => Address::ipv4(a.octets@),
            IpAddr::V6(a) => Address::ipv6(a.octets@),
        }),
{
    match ip {
        IpAddr::V4(a) => Addr::ipv4(*a),
        IpAddr::V6(a) => Addr::ipv6(*a),
    }
}

/// The line for a route: interface and source address, or that there is none.
pub fn cmd_route(host: &str, ip: &IpAddr, route: &Option<(String, Addr)>) -> (r: String)
    ensures
        r@ == (match *route {
            Some((name, src)) => "route to "@ + host@ + " ("@ + ip_shown(*ip)
                + ") -> via interface '"@ + name@ + "' with source "@ + addr_shown(src@),
            None => "no route to "@ + host@ + " ("@ + ip_shown(*ip) + ")"@,
        }),
{
    let mut out: String = String::new();
    match route {
        Some((name, src)) => {
            out.append("route to ");
            out.append(host);
            out.append(" (");
            push_ip(&mut out, ip);
            out.append(") -> via interface '");
            out.append(name.as_str());
            out.append("' with source ");
            src.push_to(&mut out);
            assert(out@ =~= "route to "@ + host@ + " ("@ + ip_shown(*ip) + ") -> via interface '"@
                + name@ + "' with source "@ + addr_shown(src@));
        },
        None => {
            out.append("no route to ");
            out.append(host);
            out.append(" (");
            push_ip(&mut out, ip);
            out.append(")");
            assert(out@ =~= "no route to "@ + host@ + " ("@ + ip_shown(*ip) + ")"@);
        },
    }
    out
}

// ---------------------------------------------------------------------------
// Laws on port lists

/// A number is a port where it fits in 16 bits.
pub proof fn law_port_of(n: int)
    requires
        n >= 0,
    ensures
        n <= 65535 ==> port_of(decimal(n)) is Some && port_of(decimal(n))->0 == n,
        n > 65535 ==> port_of(decimal(n)) is None,
        port_of(Seq::empty()) is None,
{
    law_number_digits(n, 10);
    law_unsigned(decimal(n), 10, 65535);
}

/// Decimal digits hold neither a hyphen nor a comma.
proof fn lemma_plain_digits(n: int)
    requires
        n >= 0,
    ensures
        !decimal(n).contains('-'),
        !decimal(n).contains(','),
{
    law_number_digits(n, 10);
    lemma_number_lacks(decimal(n), 10, '-');
    lemma_number_lacks(decimal(n), 10, ',');
}

/// A list with one port is that port; a range is all ports from its first to
/// its last, or the first alone where the last is below it.
pub proof fn law_port_pieces(a: u16, b: u16)
    ensures
        port_list(decimal(a as int)) == seq![a],
        ({
            let r = port_list(decimal(a as int) + seq!['-'] + decimal(b as int));
            &&& b < a ==> r == seq![a]
            &&& a <= b ==> r.len() == b - a + 1 && forall|i: int|
                0 <= i < r.len() ==> #[trigger] r[i] == a + i
        }),
{
    let x = decimal(a as int);
    let y = decimal(b as int);
    let s = x + seq!['-'] + y;
    lemma_plain_digits(a as int);
    lemma_plain_digits(b as int);
    law_port_of(a as int);
    law_port_of(b as int);
    lemma_split_without(x, ',');
    lemma_one_piece(x);
    assert(!s.contains(',')) by {
        if s.contains(',') {
            let i = choose|i: int| 0 <= i < s.len() && s[i] == ',';
            if i < x.len() {
                assert(x[i] == ',');
            } else if i > x.len() {
                assert(y[i - x.len() - 1] == ',');
            }
        }
    }
    lemma_split_without(s, ',');
    lemma_one_piece(s);
    law_range_piece(x, y);
    if b < a {
        assert(port_range(a, b) =~= seq![a]);
    }
}

/// The ports of one piece alone.
proof fn lemma_one_piece(p: Seq<char>)
    ensures
        pieces_ports(seq![p]) == piece_ports(p),
{
    reveal_with_fuel(pieces_ports, 2);
    assert(seq![p].drop_last() =~= Seq::<Seq<char>>::empty());
    assert(pieces_ports(seq![p]) =~= piece_ports(p));
}

/// What a piece with a hyphen stands for: the range between the ports before
/// and behind it. A first end that is no port counts as zero, and a second that
/// is none as the first.
pub proof fn law_range_piece(u: Seq<char>, v: Seq<char>)
    requires
        !u.contains('-'),
        !v.contains('-'),
    ensures
        ({
            let r = piece_ports(u + seq!['-'] + v);
            let a = if port_of(u) is Some {
                port_of(u)->0
            } else {
                0
            };
            let b = if port_of(v) is Some {
                port_of(v)->0
            } else {
                a
            };
            r == port_range(a, b)
        }),
{
    let s = u + seq!['-'] + v;
    lemma_split_without(u, '-');
    lemma_split_tail(u, '-', v);
    assert(u.push('-') + v =~= s);
    assert(split(s, '-') =~= seq![u, v]);
    assert(s[u.len() as int] == '-');
    assert(s.contains('-'));
}

/// A piece without a hyphen that is no number, or too large a one, stands for no
/// port.
pub proof fn law_bad_piece(p: Seq<char>)
    requires
        p.len() > 0,
        !p.contains('-'),
        p[0] != '+',
        number(p, 10) is None || number(p, 10)->0 > 65535,
    ensures
        piece_ports(p).len() == 0,
{
    law_unsigned(p, 10, 65535);
}

/// The pieces of two lists, one behind the other.
proof fn lemma_pieces_both(p: Seq<Seq<char>>, q: Seq<Seq<char>>)
    ensures
        pieces_ports(p + q) == pieces_ports(p) + pieces_ports(q),
    decreases q.len(),
{
    if q.len() == 0 {
        assert(p + q =~= p);
        assert(pieces_ports(p) + pieces_ports(q) =~= pieces_ports(p));
    } else {
        lemma_pieces_both(p, q.drop_last());
        assert((p + q).drop_last() =~= p + q.drop_last());
        assert(pieces_ports(p + q) =~= pieces_ports(p) + pieces_ports(q));
    }
}

/// A comma stands between lists: the ports before it come first, then those
/// behind it.
pub proof fn law_port_list_comma(x: Seq<char>, y: Seq<char>)
    ensures
        port_list(x + seq![','] + y) == port_list(x) + port_list(y),
{
    lemma_split_both(x, ',', y);
    assert(x.push(',') + y =~= x + seq![','] + y);
    lemma_pieces_both(split(x, ','), split(y, ','));
}

// ---------------------------------------------------------------------------
// Laws on arguments

/// The options that take a value begin with a hyphen and differ.
proof fn lemma_options_differ()
    ensures
        "-p"@.len() == 2 && "-p"@[0] == '-',
        "--timeout"@.len() == 9 && "--timeout"@[0] == '-',
        "--filter"@.len() == 8 && "--filter"@[0] == '-',
{
    reveal_strlit("-p");
    reveal_strlit("--timeout");
    reveal_strlit("--filter");
}

/// How the arguments of a scan are read, one after the other: what does not
/// begin with a hyphen is the host; `-p` adds the ports in its value to those
/// before; `--timeout` takes its value in milliseconds, or three seconds where
/// that is no number; the value of `--filter` is passed over. Other options, and
/// these without a value, are passed over alone.
pub proof fn law_scan_arguments(a: Seq<Seq<char>>, i: int, st: ScanState, n: i32)
    requires
        0 <= i,
    ensures
        i >= a.len() ==> scan_from(a, i, st) == st,
        i < a.len() && (a[i].len() == 0 || a[i][0] != '-') ==> scan_from(a, i, st) == scan_from(
            a,
            i + 1,
            ScanState { host: Some(a[i]), ports: st.ports, timeout_ms: st.timeout_ms },
        ),
        i + 1 < a.len() && a[i] == "-p"@ ==> scan_from(a, i, st) == scan_from(
            a,
            i + 2,
            ScanState {
                host: st.host,
                ports: st.ports + port_list(a[i + 1]),
                timeout_ms: st.timeout_ms,
            },
        ),
        i + 1 < a.len() && a[i] == "--timeout"@ && a[i + 1] == integer(n as int) ==> scan_from(
            a,
            i,
            st,
        ) == scan_from(a, i + 2, ScanState { host: st.host, ports: st.ports, timeout_ms: n }),
        i + 1 < a.len() && a[i] == "--timeout"@ && signed(a[i + 1], 0x7fff_ffff) is None
            ==> scan_from(a, i, st) == scan_from(
            a,
            i + 2,
            ScanState { host: st.host, ports: st.ports, timeout_ms: 3000 },
        ),
        i + 1 < a.len() && a[i] == "--filter"@ ==> scan_from(a, i, st) == scan_from(a, i + 2, st),
        i < a.len() && a[i].len() > 0 && a[i][0] == '-' && (i + 1 == a.len() || a[i] != "-p"@ && a[i]
            != "--timeout"@ && a[i] != "--filter"@) ==> scan_from(a, i, st) == scan_from(a, i + 1, st),
{
    lemma_options_differ();
    law_signed(n as int, 0x7fff_ffff);
}

/// What a scan does with what it read: it needs a host, and without ports scans
/// those from 1 to 100. It begins with no host, no ports and three seconds,
/// behind the second argument.
pub proof fn law_scan_plan(a: Seq<Seq<char>>, i: int)
    requires
        a.len() >= 2,
        a[1] == "--scan"@ || a[1] == "-s"@,
        0 <= i < 100,
    ensures
        ({
            let st = scan_from(
                a,
                2,
                ScanState { host: None, ports: Seq::empty(), timeout_ms: 3000 },
            );
            let p = planned(a);
            &&& st.host is None ==> p == Plan::Print { out: None, err: Some("no host specified"@) }
            &&& st.host is Some ==> {
                &&& p matches Plan::Scan { host, ports, timeout_ms }
                &&& Some(host) == st.host
                &&& timeout_ms == st.timeout_ms
                &&& st.ports.len() > 0 ==> ports == st.ports
                &&& st.ports.len() == 0 ==> ports.len() == 100 && ports[i] == i + 1
            }
        }),
{
    lemma_commands_differ();
}

/// How the arguments of an analysis are read, one after the other: what does not
/// begin with a hyphen is the file, and `--filter` takes its value. Other options
/// are passed over.
pub proof fn law_pcap_arguments(
    a: Seq<Seq<char>>,
    i: int,
    file: Option<Seq<char>>,
    filter: Option<Seq<char>>,
)
    requires
        0 <= i,
    ensures
        i >= a.len() ==> pcap_from(a, i, file, filter) == (file, filter),
        i < a.len() && (a[i].len() == 0 || a[i][0] != '-') ==> pcap_from(a, i, file, filter)
            == pcap_from(a, i + 1, Some(a[i]), filter),
        i + 1 < a.len() && a[i] == "--filter"@ ==> pcap_from(a, i, file, filter) == pcap_from(
            a,
            i + 2,
            file,
            Some(a[i + 1]),
        ),
        i < a.len() && a[i].len() > 0 && a[i][0] == '-' && (i + 1 == a.len() || a[i] != "--filter"@)
            ==> pcap_from(a, i, file, filter) == pcap_from(a, i + 1, file, filter),
{
    lemma_options_differ();
}

/// What an analysis does with what it read: it needs a file.
pub proof fn law_pcap_plan(a: Seq<Seq<char>>)
    requires
        a.len() >= 2,
        a[1] == "--pcap"@ || a[1] == "-p"@,
    ensures
        ({
            let (file, filter) = pcap_from(a, 2, None, None);
            &&& file is None ==> planned(a) == (Plan::Print {
                out: None,
                err: Some("no pcap file specified"@),
            })
            &&& file is Some ==> planned(a) == Plan::Pcap { file: file->0, filter }
        }),
{
    lemma_commands_differ();
}

/// The host of a route lookup is the first argument behind the command that
/// does not begin with a hyphen; there must be one.
pub proof fn law_route_plan(a: Seq<Seq<char>>, i: int)
    requires
        2 <= i <= a.len(),
        a[1] == "--route"@ || a[1] == "-r"@,
        forall|k: int| 2 <= k < i ==> (#[trigger] a[k]).len() > 0 && a[k][0] == '-',
        i < a.len() ==> a[i].len() == 0 || a[i][0] != '-',
    ensures
        i < a.len() ==> planned(a) == Plan::Route(a[i]),
        i == a.len() ==> planned(a) == (Plan::Print {
            out: None,
            err: Some("no host specified"@),
        }),
{
    lemma_commands_differ();
    lemma_first_plain(a, 2, i);
}

/// Options are passed over.
proof fn lemma_first_plain(a: Seq<Seq<char>>, from: int, i: int)
    requires
        0 <= from <= i <= a.len(),
        forall|k: int| from <= k < i ==> (#[trigger] a[k]).len() > 0 && a[k][0] == '-',
        i < a.len() ==> a[i].len() == 0 || a[i][0] != '-',
    ensures
        i < a.len() ==> first_plain(a, from) == Some(a[i]),
        i == a.len() ==> first_plain(a, from) is None,
    decreases i - from,
{
    if from < i {
        assert(a[from].len() > 0);
        lemma_first_plain(a, from + 1, i);
    }
}

/// The commands differ by their length or their third letter or, the short ones,
/// their second.
proof fn lemma_commands_differ()
    ensures
        "--interfaces"@.len() == 12,
        "-i"@.len() == 2 && "-i"@[1] == 'i',
        "--scan"@.len() == 6 && "--scan"@[2] == 's',
        "-s"@.len() == 2 && "-s"@[1] == 's',
        "--pcap"@.len() == 6 && "--pcap"@[2] == 'p',
        "-p"@.len() == 2 && "-p"@[1] == 'p',
        "--route"@.len() == 7,
        "-r"@.len() == 2 && "-r"@[1] == 'r',
        "--version"@.len() == 9,
        "-V"@.len() == 2 && "-V"@[1] == 'V',
        "--help"@.len() == 6 && "--help"@[2] == 'h',
        "-h"@.len() == 2 && "-h"@[1] == 'h',
{
    reveal_strlit("--interfaces");
    reveal_strlit("-i");
    reveal_strlit("--scan");
    reveal_strlit("-s");
    reveal_strlit("--pcap");
    reveal_strlit("-p");
    reveal_strlit("--route");
    reveal_strlit("-r");
    reveal_strlit("--version");
    reveal_strlit("-V");
    reveal_strlit("--help");
    reveal_strlit("-h");
}

/// What the other commands print: the version, or how to use the program. The
/// latter also goes with no command, and with an unknown one, which is an error
/// as well.
pub proof fn law_other_commands(a: Seq<Seq<char>>)
    ensures
        a.len() < 2 ==> planned(a) == (Plan::Print { out: Some(usage_text()), err: None }),
        a.len() >= 2 && (a[1] == "--interfaces"@ || a[1] == "-i"@) ==> planned(a) == Plan::Interfaces,
        a.len() >= 2 && (a[1] == "--version"@ || a[1] == "-V"@) ==> planned(a) == (Plan::Print {
            out: Some(version_text()),
            err: None,
        }),
        a.len() >= 2 && (a[1] == "--help"@ || a[1] == "-h"@) ==> planned(a) == (Plan::Print {
            out: Some(usage_text()),
            err: None,
        }),
        a.len() >= 2 && a[1] != "--interfaces"@ && a[1] != "-i"@ && a[1] != "--scan"@ && a[1] != "-s"@
            && a[1] != "--pcap"@ && a[1] != "-p"@ && a[1] != "--route"@ && a[1] != "-r"@ && a[1]
            != "--version"@ && a[1] != "-V"@ && a[1] != "--help"@ && a[1] != "-h"@ ==> planned(a) == (
        Plan::Print { out: Some(usage_text()), err: Some("unknown command '"@ + a[1] + "'"@) }),
{
    lemma_commands_differ();
}

/// The version as it is printed, and how to use the program.
pub proof fn law_program_texts()
    ensures
        version_text() == "WNR (We Nmap in Rust) "@ + "0.1.0"@,
        usage_text() == "WNR (We Nmap in Rust) "@ + "0.1.0"@
            + "\n\nUSAGE:\n  wnr --interfaces                 enumerate network interfaces\n  wnr --scan <host> [-p PORT[,RANGE]...] [--timeout MS]\n  wnr --pcap <file> [--filter EXPR]\n  wnr --route <host>               show the route/next-hop to a host\n  wnr --version\n"@,
{
}

// ---------------------------------------------------------------------------
// Laws on what is printed

/// The flags of an interface in words, by their bits: up, loopback and
/// point-to-point, in this order, with commas between them.
pub proof fn law_flags_column(flags: u16)
    ensures
        ({
            let up = flags & 0x01u16 != 0;
            let lo = flags & 0x02u16 != 0;
            let pp = flags & 0x04u16 != 0;
            let s = flags_column(flags);
            &&& !up && !lo && !pp ==> s.len() == 0
            &&& up && !lo && !pp ==> s == "UP"@
            &&& !up && lo && !pp ==> s == "LOOPBACK"@
            &&& !up && !lo && pp ==> s == "P2P"@
            &&& up && lo && !pp ==> s == "UP"@ + ","@ + "LOOPBACK"@
            &&& up && !lo && pp ==> s == "UP"@ + ","@ + "P2P"@
            &&& !up && lo && pp ==> s == "LOOPBACK"@ + ","@ + "P2P"@
            &&& up && lo && pp ==> s == "UP"@ + ","@ + "LOOPBACK"@ + ","@ + "P2P"@
        }),
{
    reveal_strlit("UP");
    reveal_strlit("LOOPBACK");
    reveal_strlit("P2P");
}

/// The columns of the table of interfaces: the name in 16 places, the address,
/// the hardware address or a hyphen in 9, the MTU in 6, and the flags, with a
/// space between each two.
pub proof fn law_table_line(i: Interface)
    requires
        i.link_addr.data.len() == 16,
    ensures
        ({
            let mac = if i.link_addr.addr_type == 4 {
                mac_shown(i.link_addr.data.subrange(0, 6))
            } else {
                "-"@
            };
            table_line(i) == left_aligned(i.name, 16) + " "@ + addr_shown(i.addr) + " "@
                + left_aligned(mac, 9) + " "@ + left_aligned(decimal(i.mtu as int), 6) + " "@
                + flags_column(i.flags)
        }),
        table_head() == left_aligned("INTERFACE"@, 16) + " "@ + left_aligned("ADDRESS"@, 18) + " "@
            + left_aligned("MAC"@, 9) + " "@ + left_aligned("MTU"@, 6) + " "@ + "FLAGS"@,
{
    assert(i.link_addr.data.take(6) =~= i.link_addr.data.subrange(0, 6));
}

/// The table has a head and then a line for each interface, in their order.
/// Without interfaces it is one line that says so.
pub proof fn law_interface_lines(list: Seq<IntfEntry>, i: int)
    ensures
        list.len() == 0 ==> interface_lines(list) == seq![
            "No network interfaces could be enumerated."@,
        ],
        list.len() > 0 ==> interface_lines(list).len() == list.len() + 1 && interface_lines(list)[0]
            == table_head(),
        0 <= i < list.len() ==> interface_lines(list)[i + 1] == table_line(list[i]@),
{
}

/// Captured bytes add up.
pub proof fn law_captured_bytes(a: Seq<Packet>, b: Seq<Packet>)
    ensures
        captured_bytes(a + b) == captured_bytes(a) + captured_bytes(b),
        a.len() == 0 ==> captured_bytes(a) == 0,
        a.len() == 1 ==> captured_bytes(a) == a[0].caplen,
    decreases a.len(),
{
    if a.len() == 0 {
        assert(a + b =~= b);
    } else {
        law_captured_bytes(a.skip(1), b);
        assert((a + b).skip(1) =~= a.skip(1) + b);
    }
}

/// An analysis prints a line for each of the first ten packets, numbered from
/// one on.
pub proof fn law_first_lines(all: Seq<Packet>, dlt: i32, i: int)
    ensures
        all.len() <= 10 ==> first_lines(all, dlt).len() == all.len(),
        all.len() > 10 ==> first_lines(all, dlt).len() == 10,
        0 <= i < 10 && i < all.len() ==> first_lines(all, dlt)[i] == packet_line(i + 1, all[i], dlt),
{
}

/// What the line for a packet says: both its lengths, and how many bytes stand
/// behind the link-layer header and where, or none where the frame ends before.
pub proof fn law_packet_line(n: int, p: Packet, dlt: i32)
    ensures
        ({
            let head = "pkt #"@ + decimal(n) + ": "@ + decimal(p.caplen as int)
                + " bytes captured ("@ + decimal(p.origlen as int) + " on wire), "@;
            let h = header_len(dlt);
            &&& p.data.len() >= h ==> packet_line(n, p, dlt) == head + decimal(p.data.len() - h)
                + " l3 bytes at off "@ + decimal(h)
            &&& p.data.len() < h ==> packet_line(n, p, dlt) == head + decimal(0)
                + " l3 bytes at off "@ + decimal(0)
        }),
{
}

/// An analysis looks at the records behind the 24 bytes of the header; with a
/// filter at those that it accepts, in their order.
pub proof fn law_analyzed(h: PcapFileHeader, data: Seq<u8>, filter: Seq<BpfInsn>)
    requires
        data.len() >= 24,
    ensures
        ({
            let all = records(h, data.subrange(24, data.len() as int));
            &&& analyzed(h, data, None) == all
            &&& analyzed(h, data, Some(filter)) == all.filter(|p: Packet| accepts(filter, p.data))
        }),
{
    let rest = data.subrange(24, data.len() as int);
    assert(data.skip(24) =~= rest);
    law_unfiltered(h, rest);
    law_filtered(Source::Offline(h, rest), filter);
}

/// The filter of an analysis is compiled for the link type of the file. One that
/// is not understood is named with the reason.
pub proof fn law_chosen_filter(h: PcapFileHeader, f: Seq<char>)
    ensures
        chosen_filter(h, None) == Ok::<Option<Seq<BpfInsn>>, Seq<char>>(None),
        compiled(f, h.linktype as i32) matches Ok(insns) ==> chosen_filter(h, Some(f)) == Ok::<
            Option<Seq<BpfInsn>>,
            Seq<char>,
        >(Some(insns)),
        compiled(f, h.linktype as i32) matches Err(e) ==> chosen_filter(h, Some(f)) == Err::<
            Option<Seq<BpfInsn>>,
            Seq<char>,
        >("invalid filter '"@ + f + "': "@ + e),
{
}

/// A host is taken literally where it is an address as that is written; what is
/// both an IPv4 and an IPv6 address is the former.
pub proof fn law_denotes(s: Seq<char>, v4: Ipv4Addr, v6: Ipv6Addr)
    ensures
        denotes(s, IpAddr::V4(v4)) <==> s == ipv4_shown(v4.octets@),
        denotes(s, IpAddr::V4(v4)) ==> !denotes(s, IpAddr::V6(v6)) && is_literal(s),
        ipv4_text(s) is None && ipv6_text(s) == Some(segments_of(v6.octets@)) <==> denotes(
            s,
            IpAddr::V6(v6),
        ),
        denotes(s, IpAddr::V6(v6)) ==> is_literal(s),
        is_literal(s) <==> ipv4_text(s) is Some || ipv6_text(s) is Some,
        ip_shown(IpAddr::V4(v4)) == ipv4_shown(v4.octets@),
        ip_shown(IpAddr::V6(v6)) == ipv6_shown(segments_of(v6.octets@)),
{
    law_ipv4_only(s, v4.octets@);
}

} // verus!
