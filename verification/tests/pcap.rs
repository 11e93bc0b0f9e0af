use wnr::addr::{addr_pton, Addr};
use wnr::bpf::{
    BpfInsn, BpfProgram, BpfVm, BPF_A, BPF_ABS, BPF_ACCEPT, BPF_ADD, BPF_ALU, BPF_B, BPF_DIV, BPF_H,
    BPF_IMM, BPF_IND, BPF_JA, BPF_JEQ, BPF_JMP, BPF_K, BPF_LD, BPF_LDX, BPF_LEN, BPF_LSH, BPF_MEM,
    BPF_MISC, BPF_MOD, BPF_MSH, BPF_NEG, BPF_REJECT, BPF_RET, BPF_ST, BPF_TAX, BPF_TXA, BPF_W, BPF_X,
};
use wnr::capture::{
    findalldevs, lookupdev, read_all, strip_link_header, Capture, PacketHeader, Platform,
};
use wnr::datalink::{
    datalink_ntop, link_header_len, DLT_EN10MB, DLT_IEEE802_11_RADIO, DLT_LINUX_SLL, DLT_RAW,
};
use wnr::filter::{compile_primitive, jmp_insn, load_insn, ret, FilterBuilder, Primitive};
use wnr::intf::{IntfEntry, INTF_FLAG_LOOPBACK, INTF_FLAG_UP, INTF_TYPE_ETH, INTF_TYPE_LOOPBACK};
use wnr::raw::{
    begin_windows, datagram, interface_ipv4, open_windows, pkttype_matches_dir, Direction, Next,
    OpenError, Opening, RawCapture, Received, WinOpenError, WinOpening, PKT_HOST, PKT_OUTGOING,
};
use wnr::savefile::{
    PcapFileHeader, PcapPacket, SavefileError, SavefileReader, SavefileWriter,
    PCAP_MAGIC_NUMBER_BE, PCAP_MAGIC_NUMBER_NANO,
};
use wnr::sendqueue::Sendqueue;

fn en10mb() -> i32 {
    DLT_EN10MB
}

fn eth_frame(dst: [u8; 6], src: [u8; 6], ethertype: u16, payload: &[u8]) -> Vec<u8> {
    let mut f = Vec::with_capacity(14 + payload.len());
    f.extend_from_slice(&dst);
    f.extend_from_slice(&src);
    f.extend_from_slice(&ethertype.to_be_bytes());
    f.extend_from_slice(payload);
    f
}

fn ip_frame(proto: u8, src: [u8; 4], dst: [u8; 4]) -> Vec<u8> {
    let mut ip = vec![0x45, 0, 0, 0, 0, 0, 0, 0, 64, proto, 0, 0];
    ip.extend_from_slice(&src);
    ip.extend_from_slice(&dst);
    eth_frame([0; 6], [0; 6], 0x0800, &ip)
}

#[test]
fn ip_filter_accepts_ip_and_rejects_arp() {
    let prog = FilterBuilder::compile("ip", en10mb()).unwrap();
    let ip_pkt = eth_frame([0; 6], [0; 6], 0x0800, &[0x45, 0, 0, 0, 0, 0, 0, 0, 64, 6, 0, 0]);
    let arp_pkt = eth_frame([0; 6], [0; 6], 0x0806, &[0u8; 20]);
    assert!(prog.filter(&ip_pkt));
    assert!(!prog.filter(&arp_pkt));
}

#[test]
fn tcp_filter_checks_protocol() {
    // IP header with protocol field = 6 at offset 9.
    let mut ip = vec![0x45, 0, 0, 0, 0, 0, 0, 0, 64, 6, 0, 0];
    ip.resize(20, 0);
    let pkt = eth_frame([0; 6], [0; 6], 0x0800, &ip);
    let prog = FilterBuilder::compile("tcp", en10mb()).unwrap();
    assert!(prog.filter(&pkt));

    let mut udp_ip = vec![0x45, 0, 0, 0, 0, 0, 0, 0, 64, 17, 0, 0];
    udp_ip.resize(20, 0);
    let udp = eth_frame([0; 6], [0; 6], 0x0800, &udp_ip);
    assert!(!prog.filter(&udp));
}

#[test]
fn empty_filter_accepts_all() {
    let prog = FilterBuilder::compile("", en10mb()).unwrap();
    assert!(prog.filter(&[0u8; 32]));
    assert!(FilterBuilder::compile(" \t ", en10mb()).unwrap().filter(&[]));
}

#[test]
fn host_filter() {
    let prog = FilterBuilder::compile("host 1.2.3.4", en10mb()).unwrap();
    // Build an IP packet dst=1.2.3.4, src=9.9.9.9
    let mut ip = vec![0x45, 0, 0, 0, 0, 0, 0, 0, 64, 6, 0, 0];
    ip.extend_from_slice(&[9, 9, 9, 9]); // src
    ip.extend_from_slice(&[1, 2, 3, 4]); // dst
    let pkt = eth_frame([0; 6], [0; 6], 0x0800, &ip);
    assert!(prog.filter(&pkt));
}

#[test]
fn host_filter_takes_either_address() {
    let prog = FilterBuilder::compile("host 1.2.3.4", en10mb()).unwrap();
    assert!(prog.filter(&ip_frame(6, [1, 2, 3, 4], [9, 9, 9, 9])));
    assert!(prog.filter(&ip_frame(6, [1, 2, 3, 4], [1, 2, 3, 4])));
    assert!(!prog.filter(&ip_frame(6, [1, 2, 3, 5], [9, 9, 9, 9])));
    assert!(!prog.filter(&ip_frame(6, [1, 2, 3, 4], [1, 2, 3, 4])[..33]));
}

#[test]
fn filters_by_primitive() {
    let frame = |dst: [u8; 4]| ip_frame(1, [9, 9, 9, 9], dst);
    let accepts = |expr: &str, pkt: &[u8]| {
        FilterBuilder::compile(expr, en10mb()).unwrap().filter(pkt)
    };
    assert!(accepts("broadcast", &frame([255, 255, 255, 255])));
    assert!(!accepts("broadcast", &frame([255, 255, 255, 254])));
    assert!(accepts("MultiCast", &frame([224, 0, 0, 1])));
    assert!(accepts("multicast", &frame([239, 0, 0, 1])));
    assert!(!accepts("multicast", &frame([223, 0, 0, 1])));
    assert!(!accepts("multicast", &frame([240, 0, 0, 1])));
    assert!(accepts("ip multicast", &frame([239, 0, 0, 1])));
    assert!(!accepts("ip multicast", &frame([10, 0, 0, 1])));
    assert!(accepts("IP Broadcast", &frame([255, 255, 255, 255])));
    assert!(!accepts("ip broadcast", &frame([10, 0, 0, 1])));
    assert!(accepts("ip", &frame([10, 0, 0, 1])));
    assert!(accepts("ip port 80", &frame([10, 0, 0, 1])));
    assert!(accepts("icmp", &frame([1, 1, 1, 1])));
    assert!(!accepts("icmp6", &frame([1, 1, 1, 1])));
    assert!(!accepts("ipv6", &frame([1, 1, 1, 1])));
    assert!(!accepts("arp", &frame([1, 1, 1, 1])));
    assert!(accepts("port 80", &frame([1, 1, 1, 1])));
    assert!(accepts("portrange 1-2", &[]));
    assert!(accepts("portrange 1 2", &[]));
    assert!(accepts("icmp port 80", &frame([1, 1, 1, 1])));
    assert!(!accepts("tcp", &[]));
    // On raw IP there is no link-layer header to skip.
    let raw = FilterBuilder::compile("icmp", DLT_RAW).unwrap();
    assert!(raw.filter(&frame([1, 1, 1, 1])[14..]));
    assert_eq!(compile_primitive(Primitive::All, DLT_RAW), vec![ret(BPF_ACCEPT)]);
}

#[test]
fn filter_errors() {
    let err = |expr: &str| FilterBuilder::compile(expr, en10mb()).unwrap_err();
    assert_eq!(err("port"), "missing port number");
    assert_eq!(err("port 70000"), "invalid port '70000'");
    assert_eq!(err("portrange"), "missing portrange start");
    assert_eq!(err("portrange 5"), "missing portrange end");
    assert_eq!(err("portrange x 5"), "bad port 'x'");
    assert_eq!(err("portrange 5 y"), "bad port 'y'");
    assert_eq!(err("portrange 5 -"), "missing portrange end");
    assert_eq!(err("host"), "missing host address");
    assert_eq!(err("host Name"), "invalid host 'Name'");
    assert_eq!(err("Bogus 1"), "unknown filter primitive 'bogus'");
}

#[test]
fn vm_program_executes() {
    // Program: load word at offset 12 == 0x0800
    let prog = vec![
        load_insn(BPF_LD, BPF_H, 12),
        jmp_insn(BPF_JEQ, 0x0800, 1, 0),
        ret(BPF_REJECT),
        ret(BPF_ACCEPT),
    ];
    let pkt = eth_frame([0; 6], [0; 6], 0x0800, &[]);
    let mut vm = BpfVm::new();
    assert!(vm.filter_ok(&prog, &pkt));
    let arp = eth_frame([0; 6], [0; 6], 0x0806, &[]);
    assert!(!vm.filter_ok(&prog, &arp));
}

fn insn(code: u8, k: u32) -> BpfInsn {
    BpfInsn::new(code as u16, 0, 0, k)
}

#[test]
fn vm_instructions() {
    let mut vm = BpfVm::new();
    let pkt = [0x45, 1, 2, 3, 4, 5, 6, 7];
    let mut run = |prog: &[BpfInsn]| vm.run(prog, &pkt);
    // A program without an end returns its accumulator.
    assert_eq!(run(&[load_insn(BPF_LD, BPF_W, 1)]), 0x0102_0304);
    assert_eq!(run(&[]), 0);
    assert_eq!(run(&[insn(BPF_LD | BPF_LEN, 0)]), 8);
    // Loads beyond the packet reject.
    assert_eq!(run(&[load_insn(BPF_LD, BPF_W, 5), ret(1)]), 0);
    assert_eq!(run(&[load_insn(BPF_LD, BPF_W, u32::MAX), ret(1)]), 0);
    assert_eq!(run(&[load_insn(BPF_LD, BPF_B, 7), ret(1)]), 1);
    // Index register, memory and transfers.
    assert_eq!(
        run(&[
            insn(BPF_LDX | BPF_IMM, 3),
            insn(BPF_LD | BPF_B | BPF_IND, 1),
            insn(BPF_ST, 15),
            insn(BPF_LD | BPF_IMM, 0),
            insn(BPF_LD | BPF_MEM, 15),
            insn(BPF_MISC | BPF_TAX, 0),
            insn(BPF_RET | BPF_X, 0),
        ]),
        4
    );
    assert_eq!(run(&[insn(BPF_ST, 16), ret(1)]), 0);
    assert_eq!(run(&[insn(BPF_LDX | BPF_MSH, 1), insn(BPF_RET | BPF_X, 0)]), 4);
    assert_eq!(run(&[insn(BPF_LDX | BPF_MSH, 0), insn(BPF_RET | BPF_X, 0)]), 20);
    assert_eq!(run(&[insn(BPF_LDX | BPF_MSH, 8), ret(1)]), 0);
    assert_eq!(run(&[insn(BPF_LD | BPF_IMM, 6), insn(BPF_RET | BPF_A, 5)]), 6);
    // An index that runs over is out of bounds.
    assert_eq!(
        run(&[insn(BPF_LDX | BPF_IMM, u32::MAX), insn(BPF_LD | BPF_B | BPF_IND, 2), ret(1)]),
        0
    );
    // Arithmetic wraps; dividing by zero rejects.
    assert_eq!(
        run(&[
            insn(BPF_LD | BPF_IMM, u32::MAX),
            insn(BPF_ALU | BPF_ADD, 2),
            insn(BPF_ALU | BPF_NEG, 0),
        ]),
        u32::MAX
    );
    assert_eq!(run(&[insn(BPF_LD | BPF_IMM, 7), insn(BPF_ALU | BPF_DIV, 2)]), 3);
    assert_eq!(run(&[insn(BPF_LD | BPF_IMM, 7), insn(BPF_ALU | BPF_MOD, 4), ret(9)]), 9);
    assert_eq!(run(&[insn(BPF_LD | BPF_IMM, 7), insn(BPF_ALU | BPF_DIV, 0), ret(1)]), 0);
    assert_eq!(run(&[insn(BPF_LD | BPF_IMM, 7), insn(BPF_ALU | BPF_MOD | BPF_X, 1), ret(1)]), 0);
    assert_eq!(run(&[insn(BPF_LD | BPF_IMM, 7), insn(BPF_ALU | BPF_LSH, 32)]), 0);
    // Jumps are relative to the next instruction.
    assert_eq!(run(&[insn(BPF_JMP | BPF_JA, 1), ret(1), ret(2)]), 2);
    assert_eq!(run(&[insn(BPF_JMP | BPF_JA, u32::MAX), ret(1)]), 0);
    assert_eq!(
        run(&[insn(BPF_LDX | BPF_IMM, 9), insn(BPF_MISC | BPF_TXA, 0), insn(BPF_JMP | 0x70, 0)]),
        0
    );
    assert_eq!((BPF_ABS, BPF_K), (0x20, 0));
    let copy = BpfProgram::from_insns(vec![ret(3)]).clone();
    assert!(copy.filter(&pkt));
}

#[test]
fn datalink_names_and_lengths() {
    assert_eq!(datalink_ntop(DLT_EN10MB), "EN10MB");
    assert_eq!(datalink_ntop(DLT_LINUX_SLL), "LINUX_SLL");
    assert_eq!(datalink_ntop(999), "UNKNOWN");
    assert_eq!(link_header_len(DLT_EN10MB), 14);
    assert_eq!(link_header_len(DLT_LINUX_SLL), 16);
    assert_eq!(link_header_len(DLT_IEEE802_11_RADIO), 32);
    assert_eq!(link_header_len(DLT_RAW), 0);
    assert_eq!(link_header_len(999), 14);
}

#[test]
fn roundtrip() {
    let mut w = SavefileWriter::create(65535, 1);
    w.write_packet(1000, 500, &[0xde, 0xad, 0xbe, 0xef]);
    w.write_packet(1001, 0, &[1, 2, 3, 4, 5]);
    let file = w.flush();
    let mut r = SavefileReader::open(file).unwrap();
    assert_eq!(r.header().linktype, 1);
    assert_eq!(r.header().snaplen, 65535);
    let p1 = r.next_packet().unwrap().unwrap();
    assert_eq!(p1.data, vec![0xde, 0xad, 0xbe, 0xef]);
    assert_eq!(p1.ts_sec, 1000);
    let p2 = r.next_packet().unwrap().unwrap();
    assert_eq!(p2.caplen, 5);
    assert!(r.next_packet().unwrap().is_none());
}

#[test]
fn savefile_bytes() {
    let mut w = SavefileWriter::create(3, 0x0102_0304);
    assert_eq!(*w.header(), PcapFileHeader::new(3, 0x0102_0304));
    assert_eq!(
        w.flush(),
        vec![
            0xd4, 0xc3, 0xb2, 0xa1, 2, 0, 4, 0, 0, 0, 0, 0, 0, 0, 0, 0, 3, 0, 0, 0, 4, 3, 2, 1
        ]
    );
    w.write_packet(1, 2, &[9, 8, 7, 6]);
    // Cut off at the snapshot length, with the original length kept.
    assert_eq!(w.flush(), vec![1, 0, 0, 0, 2, 0, 0, 0, 3, 0, 0, 0, 4, 0, 0, 0, 9, 8, 7]);
    assert_eq!(w.flush(), Vec::<u8>::new());
}

#[test]
fn savefile_errors() {
    let open = |data: Vec<u8>| SavefileReader::open(data).map(|_| ()).unwrap_err();
    assert_eq!(open(vec![0; 23]), SavefileError::Truncated);
    assert_eq!(open(vec![0; 24]), SavefileError::BadMagic);
    assert_eq!(SavefileError::BadMagic.message(), "not a pcap file (bad magic)");

    let start = |snaplen: u32| SavefileWriter::create(snaplen, 1).flush();
    // A frame that is cut short, then the end.
    let mut cut = start(10);
    cut.extend_from_slice(&[0, 0, 0, 0, 0, 0, 0, 0, 4, 0, 0, 0, 4, 0, 0, 0, 1, 2, 3]);
    let mut r = SavefileReader::open(cut).unwrap();
    assert_eq!(r.next_packet().unwrap_err(), SavefileError::Truncated);
    assert!(r.next_packet().unwrap().is_none());
    // An impossible length, then what stands behind its header.
    let mut big = start(10);
    big.extend_from_slice(&[0, 0, 0, 0, 0, 0, 0, 0, 1, 0, 0, 1, 4, 0, 0, 0]);
    big.extend_from_slice(&[5, 0, 0, 0, 0, 0, 0, 0, 0, 0, 0, 0, 0, 0, 0, 0]);
    let mut r = SavefileReader::open(big).unwrap();
    assert_eq!(r.next_packet().unwrap_err(), SavefileError::TooLarge);
    assert_eq!(r.next_packet().unwrap().unwrap().ts_sec, 5);
    // A record header that is cut short, then the end.
    let mut part = start(10);
    part.extend_from_slice(&[0; 15]);
    let mut r = SavefileReader::open(part).unwrap();
    assert_eq!(r.remaining(), 15);
    assert_eq!(r.next_packet().unwrap_err(), SavefileError::Truncated);
    assert_eq!(r.remaining(), 0);
    assert!(r.next_packet().unwrap().is_none());
}

#[test]
fn savefile_big_endian() {
    let mut data = vec![0xa1, 0xb2, 0xc3, 0xd4, 0, 2, 0, 4, 0xff, 0xff, 0xff, 0xff, 0, 0, 0, 7];
    data.extend_from_slice(&[0, 0, 0, 64, 0, 0, 0, 101]);
    data.extend_from_slice(&[0, 0, 0, 1, 0, 0, 0, 2, 0, 0, 0, 1, 0, 0, 0, 9, 0x55]);
    let mut r = SavefileReader::open(data).unwrap();
    let h = *r.header();
    assert_eq!(h.magic, PCAP_MAGIC_NUMBER_BE);
    assert!(h.needs_swap());
    assert!(!h.is_nano());
    assert_eq!((h.version_major, h.version_minor), (2, 4));
    assert_eq!((h.thiszone, h.sigfigs, h.snaplen, h.linktype), (-1, 7, 64, 101));
    let p = r.next_packet().unwrap().unwrap();
    assert_eq!((p.ts_sec, p.ts_frac, p.caplen, p.origlen), (1, 2, 1, 9));
    assert_eq!(p.data, vec![0x55]);
    let nano = PcapFileHeader { magic: PCAP_MAGIC_NUMBER_NANO, ..h };
    assert!(nano.is_nano());
    assert!(!nano.needs_swap());
}

fn pkt(n: u8) -> PcapPacket {
    PcapPacket {
        ts_sec: 1000 + n as u32,
        ts_frac: 0,
        caplen: n as u32,
        origlen: n as u32,
        pkttype: 0,
        data: vec![n; n as usize],
    }
}

#[test]
fn alloc_and_queue() {
    let mut q = Sendqueue::new(100);
    assert!(q.is_empty());
    assert_eq!(q.capacity(), 100);
    assert_eq!(q.remaining(), 100);

    q.add(pkt(10)).unwrap();
    q.add(pkt(20)).unwrap();
    assert_eq!(q.len(), 2);
    assert_eq!(q.bytes_queued(), 30);
    assert_eq!(q.remaining(), 70);
}

#[test]
fn capacity_is_enforced() {
    let mut q = Sendqueue::new(10);
    q.add(pkt(6)).unwrap();
    // A second 6-byte packet would push it over the 10-byte capacity.
    assert!(q.add(pkt(6)).is_err());
    assert_eq!(q.len(), 1);
    assert_eq!(q.bytes_queued(), 6);
    assert_eq!(
        q.add(pkt(5)).unwrap_err(),
        "sendqueue: queue full (6 bytes queued + 5 requested exceeds capacity 10)"
    );
    q.add(pkt(4)).unwrap();
    assert_eq!(q.remaining(), 0);
}

#[test]
fn add_raw_uses_fields() {
    let mut q = Sendqueue::new(64);
    q.add_raw(55, 44, vec![1, 2, 3, 4]).unwrap();
    let e = q.entries()[0].clone();
    assert_eq!(e.ts_sec, 55);
    assert_eq!(e.ts_frac, 44);
    assert_eq!(e.caplen, 4);
    assert_eq!(e.origlen, 4);
    assert_eq!(q.bytes_queued(), 4);
}

#[test]
fn clear_resets_counters() {
    let mut q = Sendqueue::new(100);
    q.add(pkt(10)).unwrap();
    q.add(pkt(20)).unwrap();
    q.clear();
    assert!(q.is_empty());
    assert_eq!(q.bytes_queued(), 0);
    assert_eq!(q.remaining(), 100);
}

#[test]
fn entries_preserves_order() {
    let mut q = Sendqueue::new(100);
    q.add(pkt(1)).unwrap();
    q.add(pkt(2)).unwrap();
    q.add(pkt(3)).unwrap();
    let secs: Vec<u32> = q.entries().iter().map(|p| p.ts_sec).collect();
    assert_eq!(secs, vec![1001, 1002, 1003]);
}

fn sample_file() -> Vec<u8> {
    let mut w = SavefileWriter::create(65535, 1);
    w.write_packet(1, 10, &ip_frame(6, [1, 1, 1, 1], [2, 2, 2, 2]));
    w.write_packet(2, 20, &ip_frame(17, [1, 1, 1, 1], [2, 2, 2, 2]));
    w.write_packet(3, 30, &ip_frame(6, [3, 3, 3, 3], [2, 2, 2, 2]));
    w.flush()
}

#[test]
fn offline_capture_filters() {
    let mut c = Capture::open_offline(sample_file()).unwrap();
    assert_eq!(c.datalink(), DLT_EN10MB);
    assert_eq!(c.snaplen(), 65535);
    assert_eq!(c.set_filter("bogus").unwrap_err(), "unknown filter primitive 'bogus'");
    c.set_filter("tcp").unwrap();
    let (h, data) = c.next_packet().unwrap().unwrap();
    assert_eq!(h, PacketHeader { ts_sec: 1, ts_frac: 10, caplen: 34, len: 34 });
    assert_eq!(data, ip_frame(6, [1, 1, 1, 1], [2, 2, 2, 2]));
    assert_eq!(c.next_packet().unwrap().unwrap().0.ts_sec, 3);
    assert!(c.next_packet().unwrap().is_none());
    assert_eq!(
        Capture::open_offline(vec![0; 30]).map(|_| ()).unwrap_err(),
        "not a pcap file (bad magic)"
    );
}

#[test]
fn captured_file_reads_back() {
    let mut c = Capture::open_offline(sample_file()).unwrap();
    c.set_filter("tcp").unwrap();
    let (file, count) = c.capture_to_file(1);
    assert_eq!(count, 2);
    let all = read_all(file).unwrap();
    let secs: Vec<u32> = all.iter().map(|p| p.0.ts_sec).collect();
    assert_eq!(secs, vec![1, 3]);
    assert_eq!(all[1].1, ip_frame(6, [3, 3, 3, 3], [2, 2, 2, 2]));
    assert_eq!(read_all(vec![]).unwrap_err(), "failed to fill whole buffer");
    // Reading stops at a bad record.
    let mut cut = sample_file();
    cut.truncate(cut.len() - 1);
    assert_eq!(read_all(cut.clone()).unwrap().len(), 2);
    let mut c = Capture::open_offline(cut).unwrap();
    assert!(c.next_packet().is_ok());
    assert!(c.next_packet().is_ok());
    assert_eq!(c.next_packet().unwrap_err(), "failed to fill whole buffer");
}

#[test]
fn live_capture_gives_what_it_receives() {
    let mut c = Capture::open_live(Platform::Unix, "eth0", 100, Ok(())).unwrap();
    assert_eq!(c.datalink(), DLT_EN10MB);
    assert!(c.next_packet().unwrap().is_none());
    c.set_filter("udp").unwrap();
    for proto in [6, 17] {
        let raw = RawCapture::new(5, 2, 100);
        let frame = ip_frame(proto, [1, 1, 1, 1], [2, 2, 2, 2]);
        match raw.next_packet(Received::Frame(frame, PKT_HOST)) {
            Next::Packet(p) => c.receive(p),
            other => panic!("{:?}", other),
        }
    }
    let (h, data) = c.next_packet().unwrap().unwrap();
    assert_eq!((h.caplen, h.len), (34, 34));
    assert_eq!(data[23], 17);
    assert!(c.next_packet().unwrap().is_none());

    let fail = |p: Platform| {
        Capture::open_live(p, "eth0", 1, Err("why".to_string())).map(|_| ()).unwrap_err()
    };
    assert_eq!(fail(Platform::Unix), "unable to open device: why");
    assert_eq!(
        fail(Platform::Windows),
        "unable to open device (why), try `--interfaces` to list devices"
    );
    assert_eq!(
        fail(Platform::Other),
        "live capture on 'eth0' is unsupported on this platform; use `wnr_pcap::open_offline` for savefile reading"
    );
    let win = Capture::open_live(Platform::Windows, "x", 1, Ok(())).unwrap();
    assert_eq!(win.datalink(), DLT_RAW);
}

#[test]
fn link_header_is_stripped() {
    let frame = [7u8; 20];
    assert_eq!(strip_link_header(DLT_EN10MB, &frame), Some((14, 6, &frame[14..])));
    assert_eq!(strip_link_header(DLT_RAW, &frame), Some((0, 20, &frame[..])));
    assert_eq!(strip_link_header(DLT_EN10MB, &frame[..14]), Some((14, 0, &frame[14..14])));
    assert_eq!(strip_link_header(DLT_EN10MB, &frame[..13]), None);
}

fn entry(name: &str, intf_type: u16, flags: u16, addr: &str) -> IntfEntry {
    let mut e = IntfEntry::default();
    e.name = name.to_string();
    e.intf_type = intf_type;
    e.flags = flags;
    e.addr = addr_pton(addr).unwrap();
    e
}

#[test]
fn devices_and_default() {
    let lo = entry("lo", INTF_TYPE_LOOPBACK, INTF_FLAG_UP | INTF_FLAG_LOOPBACK, "127.0.0.1");
    let mut eth = entry("eth0", INTF_TYPE_ETH, INTF_FLAG_UP, "10.0.0.1");
    eth.alias_addrs = vec![addr_pton("10.0.0.2").unwrap()];
    let devs = findalldevs(vec![lo.clone(), eth.clone(), entry("x", 0, 0, "::1")]);
    assert_eq!(devs.len(), 3);
    assert_eq!(devs[0].description, "Loopback interface");
    assert_eq!(devs[1].description, "Ethernet");
    assert_eq!(devs[2].description, "Network interface");
    assert_eq!(
        devs[1].addresses,
        vec![addr_pton("10.0.0.1").unwrap(), addr_pton("10.0.0.2").unwrap()]
    );
    assert_eq!(devs[1].flags, INTF_FLAG_UP);
    assert_eq!(lookupdev(vec![lo.clone(), eth]), Some("eth0".to_string()));
    assert_eq!(lookupdev(vec![lo.clone(), lo]), Some("lo".to_string()));
    assert_eq!(lookupdev(vec![]), None);
}

#[test]
fn directions() {
    assert!(pkttype_matches_dir(PKT_HOST, Direction::In));
    assert!(!pkttype_matches_dir(PKT_OUTGOING, Direction::In));
    assert!(pkttype_matches_dir(PKT_OUTGOING, Direction::Out));
    assert!(!pkttype_matches_dir(PKT_HOST, Direction::Out));
    assert!(pkttype_matches_dir(PKT_OUTGOING, Direction::InOut));
    let mut raw = RawCapture::new(3, 1, 10);
    assert_eq!(raw.buf_len, 64);
    raw.set_direction(Direction::Out);
    assert!(matches!(raw.next_packet(Received::Frame(vec![1], PKT_HOST)), Next::Again));
    assert!(matches!(raw.next_packet(Received::WouldBlock), Next::NotReady));
    assert!(matches!(raw.next_packet(Received::Failed), Next::Fail));
    assert_eq!(raw.set_nonblock(0x2, 0x800, true), 0x802);
    assert_eq!(raw.set_nonblock(0x802, 0x800, false), 0x2);
    let stats = [1, 0, 0, 0, 2, 0, 0, 0];
    assert_eq!(raw.poll_stats(&stats, true), (1, 2));
    assert_eq!(raw.poll_stats(&stats, false), (0x0100_0000, 0x0200_0000));
}

#[test]
fn opening_a_raw_socket() {
    let step = |s: Opening, answer: i32| RawCapture::open(s, "eth0", answer, 0x800);
    let s = step(Opening::Socket, 7);
    assert_eq!(s, Opening::Index { fd: 7 });
    let s = step(s, 3);
    assert_eq!(s, Opening::Bind { fd: 7, ifindex: 3 });
    let s = step(s, 0);
    assert_eq!(s, Opening::GetFlags { fd: 7, ifindex: 3 });
    let s = step(s, 0x2);
    assert_eq!(s, Opening::SetFlags { fd: 7, ifindex: 3, flags: 0x802 });
    let s = step(s, -1);
    assert_eq!(s, Opening::Open { fd: 7, ifindex: 3 });
    assert_eq!(step(s, 0), s);
    assert_eq!(
        step(Opening::Socket, -1),
        Opening::Failed { close: None, error: OpenError::System }
    );
    let failed = Opening::Failed { close: Some(7), error: OpenError::System };
    assert_eq!(step(Opening::Index { fd: 7 }, 0), failed);
    assert_eq!(step(Opening::Bind { fd: 7, ifindex: 3 }, -1), failed);
    assert_eq!(
        RawCapture::open(Opening::Socket, "e\0th", 7, 0x800),
        Opening::Failed { close: None, error: OpenError::BadName }
    );
}

#[test]
fn opening_on_windows() {
    let list = vec![
        entry("a", 0, 0, "::1"),
        {
            let mut e = entry("b", 0, 0, "::1");
            e.alias_addrs = vec![Addr::hw([0; 6]), addr_pton("10.1.2.3").unwrap()];
            e
        },
        entry("a", 0, 0, "10.0.0.9"),
    ];
    assert_eq!(interface_ipv4(&list, "a"), Some([10, 0, 0, 9]));
    assert_eq!(interface_ipv4(&list, "b"), Some([10, 1, 2, 3]));
    assert_eq!(interface_ipv4(&list, "c"), None);
    assert_eq!(
        begin_windows(None),
        WinOpening::Failed { close: false, error: WinOpenError::NoAddress }
    );
    let s = begin_windows(Some([1, 2, 3, 4]));
    assert_eq!(s, WinOpening::Socket);
    assert_eq!(
        open_windows(s, true, false),
        WinOpening::Failed { close: false, error: WinOpenError::Refused }
    );
    let s = open_windows(s, true, true);
    assert_eq!(s, WinOpening::Bind);
    assert_eq!(
        open_windows(s, true, false),
        WinOpening::Failed { close: true, error: WinOpenError::System }
    );
    assert_eq!(open_windows(s, false, true), WinOpening::NonBlocking);
    let s = open_windows(s, true, true);
    assert_eq!(s, WinOpening::CaptureAll);
    assert_eq!(
        open_windows(s, true, false),
        WinOpening::Failed { close: true, error: WinOpenError::CaptureAll }
    );
    let s = open_windows(open_windows(s, true, true), true, false);
    assert_eq!(s, WinOpening::Open);
    assert_eq!(
        WinOpenError::NoAddress.message("x").unwrap(),
        "no IPv4 address for interface 'x'"
    );
    assert!(WinOpenError::Refused.message("x").unwrap().starts_with("cannot open raw socket"));
    assert!(WinOpenError::CaptureAll.message("x").unwrap().starts_with("SIO_RCVALL failed"));
    assert_eq!(WinOpenError::System.message("x"), None);
    let p = datagram(vec![1, 2, 3], 5, 6).unwrap();
    assert_eq!((p.ts_sec, p.ts_frac, p.caplen, p.origlen, p.pkttype), (5, 6, 3, 3, 0));
    assert!(datagram(vec![], 5, 6).is_none());
}
