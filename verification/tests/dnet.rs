use wnr::addr::{
    addr_bcast, addr_btom, addr_cmp, addr_mtob, addr_net, addr_ntoa, addr_ntop, addr_pton, Addr,
    ADDR_TYPE_HW, ADDR_TYPE_IP, ADDR_TYPE_IP6, ADDR_TYPE_NONE,
};
use wnr::arp::{
    ArpCache, ArpEntry, ArpEthIp, ArpHdr, ArpMsg, ARP_HDR_LEN, ARP_HRD_ETH, ARP_OP_REQUEST,
};
use wnr::eth::{eth_ntop, eth_pton, EthAddr, EthHdr, ETH_ADDR_BROADCAST, ETH_HDR_LEN, ETH_TYPE_IP};
use wnr::intf::{
    adapter_entry, adapter_step, addr_to_sockaddr, family_target, interface_by_name,
    interface_list, intf_set, probe_bind, sockaddr_to_addr, source_addr_for_dest,
    source_addr_for_family, unix_entry, AdapterAddr, AdapterRecord, AdapterStep, FlagBits,
    IntfEntry, RawSockaddr, SystemRecords, UnixRecord, ADAPTER_BUFFER, INTF_FLAG_BROADCAST,
    INTF_FLAG_LOOPBACK, INTF_FLAG_MULTICAST, INTF_FLAG_UP, INTF_TYPE_ETH, INTF_TYPE_LOOPBACK,
};
use wnr::ip::{IpAddr, Ipv4Addr, Ipv6Addr, SocketAddr};
use wnr::route::{net_contains, route_add, route_delete, route_to, RouteEntry, RouteTable};

fn v6(a: u16, b: u16, h: u16) -> Ipv6Addr {
    Ipv6Addr::new(a, b, 0, 0, 0, 0, 0, h)
}

fn net(ip: Ipv4Addr, bits: u16) -> Addr {
    let mut a = Addr::ipv4(ip);
    a.addr_bits = bits;
    a
}

fn linux_bits() -> FlagBits {
    FlagBits {
        up: 0x1,
        loopback: 0x8,
        point_to_point: 0x10,
        noarp: 0x80,
        broadcast: 0x2,
        multicast: 0x1000,
    }
}

#[test]
fn ipv4_roundtrip() {
    let ip = Ipv4Addr::new(192, 168, 1, 1);
    let a = Addr::ipv4(ip);
    assert_eq!(a.to_ipv4(), Some(ip));
    assert_eq!(a.ip_version(), 4);
    assert_eq!(a.addr_bits, 32);
}

#[test]
fn ipv6_roundtrip() {
    let ip = addr_pton("2001:db8::1").unwrap().to_ipv6().unwrap();
    assert_eq!(ip, v6(0x2001, 0xdb8, 1));
    let a = Addr::ipv6(ip);
    assert_eq!(a.to_ipv6(), Some(ip));
    assert_eq!(a.ip_version(), 6);
}

#[test]
fn hw_roundtrip() {
    let mac = [0xde, 0xad, 0xbe, 0xef, 0x00, 0x01];
    let a = Addr::hw(mac);
    assert_eq!(a.to_hw(), Some(mac));
    assert_eq!(a.is_multicast_hw(), false);
    assert_eq!(a.to_string(), "de:ad:be:ef:00:01");
}

#[test]
fn broadcast_detected() {
    let bcast = [0xff; 6];
    let a = Addr::hw(bcast);
    assert!(a.is_multicast_hw());
}

#[test]
fn pton_ntoa_roundtrip() {
    let ip = Addr::ipv4(Ipv4Addr::new(192, 168, 1, 1));
    assert_eq!(addr_pton("192.168.1.1"), Some(ip));
    assert_eq!(addr_ntoa(&ip), "192.168.1.1");

    let ip6 = Addr::ipv6(v6(0x2001, 0xdb8, 1));
    assert_eq!(addr_pton("2001:db8::1"), Some(ip6));

    let mac = Addr::hw([0xaa, 0xbb, 0xcc, 0xdd, 0xee, 0x01]);
    assert_eq!(addr_pton("aa:bb:cc:dd:ee:01"), Some(mac));
    assert_eq!(addr_ntoa(&mac), "aa:bb:cc:dd:ee:01");
}

#[test]
fn ipv6_text_forms() {
    for (text, shown) in [
        ("::", "::"),
        ("::1", "::1"),
        ("1::", "1::"),
        ("fe80::1:0:0:2", "fe80::1:0:0:2"),
        ("1:0:0:2:0:0:0:3", "1:0:0:2::3"),
        ("1:2:3:4:5:6:7:0", "1:2:3:4:5:6:7:0"),
        ("2001:DB8::A", "2001:db8::a"),
        ("::ffff:1.2.3.4", "::ffff:1.2.3.4"),
        ("::ffff:102:304", "::ffff:1.2.3.4"),
        ("64:ff9b::192.0.2.33", "64:ff9b::c000:221"),
        (" ::1\n", "::1"),
    ] {
        let a = addr_pton(text).unwrap();
        assert_eq!(a.addr_type, ADDR_TYPE_IP6, "{}", text);
        assert_eq!(addr_ntop(&a), shown);
        assert_eq!(addr_pton(shown), Some(a));
    }
    for text in [
        "", ":", ":::", "1:2", "1:2:3:4:5:6:7", "1:2:3:4:5:6:7:8:9", "1::2::3", "12345::", "g::",
        "1:2:3:4:5:6:7::8", "1.2.3.4::", "1.2.3", "256.1.1.1", "01.2.3.4", "1.2.3.4.5", "+1.2.3.4",
        "1.2.3.", "a-b-c-d-e-f",
    ] {
        assert_eq!(addr_pton(text), None, "{}", text);
    }
    assert_eq!(
        Addr::from_str(" nonsense ").unwrap_err(),
        "could not parse address 'nonsense'"
    );
}

#[test]
fn cmp_orders() {
    let a = Addr::ipv4(Ipv4Addr::new(10, 0, 0, 1));
    let b = Addr::ipv4(Ipv4Addr::new(10, 0, 0, 2));
    let c = Addr::ipv4(Ipv4Addr::new(10, 0, 0, 1));
    assert!(addr_cmp(&a, &b) < 0);
    assert!(addr_cmp(&b, &a) > 0);
    assert_eq!(addr_cmp(&a, &c), 0);

    let d = Addr::hw([0, 0, 0, 0, 0, 1]);
    assert_ne!(addr_cmp(&a, &d), 0);
}

#[test]
fn cmp_exact_differences() {
    let mut a = Addr::ipv4(Ipv4Addr::new(10, 0, 0, 200));
    let b = Addr::ipv4(Ipv4Addr::new(10, 0, 0, 1));
    assert_eq!(a.addr_cmp(&b), 199);
    a.addr_bits = 24;
    assert_eq!(a.addr_cmp(&b), -8);
    a.addr_type = u32::MAX;
    assert_eq!(a.addr_cmp(&b), i32::MAX);
    assert_eq!(b.addr_cmp(&a), i32::MIN);
}

#[test]
fn net_and_broadcast() {
    // 192.168.1.5/24 => network 192.168.1.0, broadcast 192.168.1.255
    let mut a = Addr::ipv4(Ipv4Addr::new(192, 168, 1, 5));
    a.addr_bits = 24;
    assert_eq!(addr_net(&a).to_ipv4().unwrap(), Ipv4Addr::new(192, 168, 1, 0));
    assert_eq!(
        addr_bcast(&a).to_ipv4().unwrap(),
        Ipv4Addr::new(192, 168, 1, 255)
    );
    // Applying either twice changes nothing.
    assert_eq!(addr_net(&addr_net(&a)), addr_net(&a));
    assert_eq!(addr_bcast(&addr_net(&a)), addr_bcast(&a));
    assert_eq!(addr_bcast(&addr_bcast(&a)), addr_bcast(&a));
    // The padding stays zero.
    let mut all = Addr::ipv4(Ipv4Addr::new(192, 168, 1, 255));
    all.addr_bits = 24;
    assert_eq!(addr_bcast(&a), all);
    assert_eq!(addr_bcast(&a).data, [192, 168, 1, 255, 0, 0, 0, 0, 0, 0, 0, 0, 0, 0, 0, 0]);
    let mut six = addr_pton("2001:db8::1").unwrap();
    six.addr_bits = 120;
    assert_eq!(addr_ntoa(&addr_bcast(&six)), "2001:db8::ff");
}

#[test]
fn mask_bits_conversions() {
    // /24 mask
    assert_eq!(addr_btom(24, 4).unwrap(), vec![255, 255, 255, 0]);
    assert_eq!(addr_mtob(&[255, 255, 255, 0]), Some(24));
    assert_eq!(addr_mtob(&[255, 255, 255, 255]), Some(32));
    assert_eq!(addr_mtob(&[255, 255, 0, 255]), None); // non-contiguous
    assert_eq!(addr_mtob(&[128, 0, 0, 0]), Some(1));
    assert_eq!(addr_mtob(&[0, 0, 0, 0]), Some(0));
}

#[test]
fn masks_read_back() {
    for bits in 0..=128u16 {
        let mask = addr_btom(bits, 16).unwrap();
        assert_eq!(addr_mtob(&mask), Some(bits));
        let mut a = Addr::default();
        a.pack(ADDR_TYPE_IP6, bits, &mask);
        assert_eq!(a.mask_to_bits(), bits);
        assert_eq!(Addr::bits_to_mask(bits).to_vec(), mask);
    }
    assert_eq!(addr_btom(33, 4), None);
    assert_eq!(addr_mtob(&[]), Some(0));
    assert_eq!(addr_mtob(&[0xa0]), None);
    // Only the leading ones have to be few.
    let mut long = vec![0u8; 10_000];
    assert_eq!(addr_mtob(&long), Some(0));
    long[..8191].fill(0xff);
    long[8191] = 0xfe;
    assert_eq!(addr_mtob(&long), Some(65535));
    long[9000] = 1;
    assert_eq!(addr_mtob(&long), None);
    assert_eq!(Addr::bits_to_mask(129), [0u8; 16]);
    let mut odd = Addr::default();
    odd.pack(ADDR_TYPE_IP, 32, &[255, 0xa0]);
    assert_eq!(odd.mask_to_bits(), 0);
}

#[test]
fn pack_sets_bytes() {
    let mut a = Addr::default();
    a.pack(ADDR_TYPE_IP, 24, &[10, 0, 0]);
    assert_eq!(a.addr_type, ADDR_TYPE_IP);
    assert_eq!(a.addr_bits, 24);
    assert_eq!(a.data[..3], [10, 0, 0]);
    assert_eq!(a.data[3], 0);
    assert_eq!(a.addr_len(), 4);
}

#[test]
fn unknown_address_text() {
    assert_eq!(addr_ntoa(&Addr::default()), "(unknown)");
    assert_eq!(Addr::default().addr_type, ADDR_TYPE_NONE);
    assert_eq!(Addr::default().addr_len(), 0);
}

#[test]
fn ntop_pton_roundtrip() {
    let mac = EthAddr::new([0x00, 0x11, 0x22, 0xaa, 0xbb, 0xcc]);
    let text = eth_ntop(&mac);
    assert_eq!(text, "00:11:22:aa:bb:cc");
    assert_eq!(eth_pton(&text), Some(mac));
    assert_eq!(eth_pton("00-11-22-AA-BB-CC"), Some(mac));
    assert_eq!(eth_pton("001122aabbcc"), Some(mac));
}

#[test]
fn mac_text_edges() {
    let mac = EthAddr::new([0, 1, 2, 10, 11, 12]);
    assert_eq!(eth_pton(" 0:1:2:a:b:+c "), Some(mac));
    assert_eq!(eth_pton("0001.020a.0b0c"), Some(mac));
    assert_eq!(eth_pton("0:1:2:3:4"), None);
    assert_eq!(eth_pton("0:1:2:3:4:100"), None);
    assert_eq!(eth_pton("0:1:2:3:4:"), None);
    assert_eq!(eth_pton("0-1-2-3-4-5-6"), None);
    assert_eq!(eth_pton("001122aabbc"), None);
}

#[test]
fn broadcast() {
    let b = EthAddr::new(ETH_ADDR_BROADCAST);
    assert!(b.is_broadcast());
    assert!(b.is_multicast());
    assert!(!EthAddr::default().is_broadcast());
    assert_eq!(b.to_addr(), Addr::hw([0xff; 6]));
}

#[test]
fn header_encode_decode() {
    let hdr = EthHdr {
        dst: EthAddr::new(ETH_ADDR_BROADCAST),
        src: EthAddr::new([0xde, 0xad, 0xbe, 0xef, 0x00, 0x01]),
        proto: ETH_TYPE_IP,
    };
    let mut buf = [0u8; ETH_HDR_LEN];
    hdr.encode(&mut buf);
    let parsed = EthHdr::parse(&buf).unwrap();
    assert_eq!(parsed, hdr);
    assert_eq!(buf[12..14], [0x08, 0x00]);
    assert!(EthHdr::parse(&buf[..13]).is_none());
}

#[test]
fn arp_message_roundtrip() {
    let msg = ArpMsg::request(
        Addr::ipv4(Ipv4Addr::new(192, 0, 2, 1)),
        Addr::ipv4(Ipv4Addr::new(192, 0, 2, 2)),
        EthAddr::new([0xaa, 0xbb, 0xcc, 0xdd, 0xee, 0x01]),
    );
    let mut buf = vec![0u8; msg.total_len()];
    msg.encode(&mut buf);
    let hdr = ArpHdr::parse(&buf).unwrap();
    assert_eq!(hdr.op, ARP_OP_REQUEST);
    assert_eq!(hdr.hrd, ARP_HRD_ETH);
    let body = ArpEthIp::parse(&buf[ARP_HDR_LEN..]).unwrap();
    assert_eq!(body.spa, msg.body.spa);
    assert_eq!(body.tpa, msg.body.tpa);
    assert_eq!(body, msg.body);
    assert_eq!(hdr, msg.hdr);
    assert_eq!(
        buf,
        vec![
            0, 1, 8, 0, 6, 4, 0, 1, 0xaa, 0xbb, 0xcc, 0xdd, 0xee, 1, 192, 0, 2, 1, 0, 0, 0, 0, 0, 0,
            192, 0, 2, 2
        ]
    );
    assert!(ArpHdr::parse(&buf[..7]).is_none());
    assert!(ArpEthIp::parse(&buf[9..]).is_none());
}

#[test]
fn arp_body_without_ip_is_zero() {
    let body = ArpEthIp {
        sha: EthAddr::default(),
        spa: Addr::hw([1; 6]),
        tha: EthAddr::default(),
        tpa: Addr::default(),
    };
    let mut buf = [7u8; 21];
    body.encode(&mut buf);
    assert_eq!(buf[..20], [0u8; 20]);
    assert_eq!(buf[20], 7);
}

#[test]
fn cache_ops() {
    let mut c = ArpCache::new();
    let pa = Addr::ipv4(Ipv4Addr::new(10, 0, 0, 1));
    let ha = Addr::hw([0x00, 0x11, 0x22, 0x33, 0x44, 0x55]);
    assert!(c.is_empty());
    c.add(ArpEntry { pa, ha });
    assert_eq!(c.len(), 1);
    assert_eq!(c.get(&pa).unwrap().ha, ha);
    c.delete(&pa);
    assert!(c.is_empty());
}

#[test]
fn cache_replaces_in_place() {
    let mut c = ArpCache::new();
    let first = Addr::ipv4(Ipv4Addr::new(10, 0, 0, 1));
    let second = Addr::ipv4(Ipv4Addr::new(10, 0, 0, 2));
    c.add(ArpEntry { pa: first, ha: Addr::hw([1; 6]) });
    c.add(ArpEntry { pa: second, ha: Addr::hw([2; 6]) });
    c.add(ArpEntry { pa: first, ha: Addr::hw([3; 6]) });
    assert_eq!(c.len(), 2);
    assert_eq!(c.entries()[0], ArpEntry { pa: first, ha: Addr::hw([3; 6]) });
    assert_eq!(c.get(&second).unwrap().ha, Addr::hw([2; 6]));
    c.delete(&first);
    assert!(c.get(&first).is_none());
    assert_eq!(c.get(&second).unwrap().ha, Addr::hw([2; 6]));
}

#[test]
fn flag_helpers() {
    let mut e = IntfEntry::default();
    e.flags = INTF_FLAG_UP | INTF_FLAG_LOOPBACK;
    assert!(e.is_up());
    assert!(e.is_loopback());
    assert!(!e.is_point_to_point());
}

#[test]
fn constants_match_mib() {
    assert_eq!(INTF_TYPE_ETH, 6);
    assert_eq!(INTF_TYPE_LOOPBACK, 24);
    assert_eq!(INTF_FLAG_UP, 0x01);
}

#[test]
fn sockaddr_roundtrip() {
    let a = Addr::ipv4(Ipv4Addr::new(192, 168, 1, 5));
    let sa = addr_to_sockaddr(&a).expect("v4 addr should convert");
    assert_eq!(sa.port, 9);
    assert_eq!(
        sockaddr_to_addr(&sa).to_ipv4().unwrap(),
        Ipv4Addr::new(192, 168, 1, 5)
    );

    let a6 = Addr::ipv6(v6(0x2001, 0xdb8, 1));
    let sa6 = addr_to_sockaddr(&a6).expect("v6 addr should convert");
    assert_eq!(sockaddr_to_addr(&sa6).to_ipv6().unwrap(), a6.to_ipv6().unwrap());
    assert_eq!(probe_bind(&sa), "0.0.0.0:0");
    assert_eq!(probe_bind(&sa6), "[::]:0");
    assert!(addr_to_sockaddr(&Addr::hw([0; 6])).is_none());
}

#[test]
fn bad_family_rejected() {
    assert!(source_addr_for_family(0, None).is_none());
    assert!(source_addr_for_family(99, None).is_none());
    let local = SocketAddr { ip: IpAddr::V4(Ipv4Addr::new(10, 0, 0, 7)), port: 4000 };
    assert!(source_addr_for_family(0, Some(local)).is_none());
    assert!(source_addr_for_family(99, Some(local)).is_none());
}

#[test]
fn source_addresses() {
    let local = SocketAddr { ip: IpAddr::V4(Ipv4Addr::new(10, 0, 0, 7)), port: 4000 };
    let src = Addr::ipv4(Ipv4Addr::new(10, 0, 0, 7));
    assert_eq!(source_addr_for_family(2, Some(local)), Some(src));
    assert_eq!(source_addr_for_family(2, None), None);
    let dst = Addr::ipv4(Ipv4Addr::new(8, 8, 8, 8));
    assert_eq!(source_addr_for_dest(&dst, Some(local)), Some(src));
    assert_eq!(source_addr_for_dest(&Addr::hw([0; 6]), Some(local)), None);
    assert_eq!(family_target(2), addr_pton("255.255.255.255"));
    assert_eq!(family_target(10), addr_pton("ff01::1"));
    assert_eq!(family_target(23), addr_pton("ff01::1"));
    assert_eq!(family_target(1), None);
}

#[test]
fn intf_set_requires_real_iface() {
    // Empty name is rejected before any privilege handling.
    let e = IntfEntry::default();
    assert!(intf_set(&e, &vec![]).is_err());
    assert_eq!(intf_set(&e, &vec![]).unwrap_err(), "intf_set: empty interface name");
    let mut named = IntfEntry::default();
    named.name = "eth0".to_string();
    assert_eq!(
        intf_set(&named, &vec![]).unwrap_err(),
        "intf_set: no such interface 'eth0'"
    );
    assert_eq!(
        intf_set(&named, &vec![named.clone()]).unwrap_err(),
        "intf_set: applying interface configuration (MTU/flags/address) requires \
         elevated privileges; set them via the OS instead"
    );
}

#[test]
fn unix_records_become_entries() {
    let mut sin = [0u8; 16];
    sin[4..8].copy_from_slice(&[192, 168, 1, 5]);
    let e = unix_entry(
        UnixRecord { name: "eth0".to_string(), flags: 0x1043, addr: RawSockaddr::Inet(sin) },
        linux_bits(),
    );
    assert_eq!(e.name, "eth0");
    assert_eq!(e.addr, Addr::ipv4(Ipv4Addr::new(192, 168, 1, 5)));
    assert_eq!(e.flags, INTF_FLAG_UP | INTF_FLAG_BROADCAST | INTF_FLAG_MULTICAST);
    assert!(!e.is_loopback());

    let mut sin6 = [0u8; 28];
    sin6[8] = 0xfe;
    sin6[9] = 0x80;
    sin6[23] = 1;
    let mut ll = [0u8; 20];
    ll[11] = 6;
    ll[12..18].copy_from_slice(&[1, 2, 3, 4, 5, 6]);
    let mut short = ll;
    short[11] = 4;
    let recs = vec![
        UnixRecord { name: "lo".to_string(), flags: 0x49, addr: RawSockaddr::Inet6(sin6) },
        UnixRecord { name: "eth0".to_string(), flags: 1, addr: RawSockaddr::Packet(ll) },
        UnixRecord { name: "ib0".to_string(), flags: 0, addr: RawSockaddr::Packet(short) },
        UnixRecord { name: "tun0".to_string(), flags: 0x11, addr: RawSockaddr::Absent },
        UnixRecord {
            name: "en0".to_string(),
            flags: 0,
            addr: RawSockaddr::Link(vec![
                20, 18, 1, 0, 6, 3, 6, 0, 101, 110, 48, 10, 11, 12, 13, 14, 15, 0, 0, 0,
            ]),
        },
    ];
    let list = interface_list(SystemRecords::Unix(recs, linux_bits()));
    assert_eq!(list.len(), 5);
    assert_eq!(list[0].addr, addr_pton("fe80::1").unwrap());
    assert!(list[0].is_loopback());
    assert_eq!(list[1].link_addr_slice(), Some([1, 2, 3, 4, 5, 6]));
    assert_eq!(list[1].addr, Addr::default());
    assert_eq!(list[2].link_addr_slice(), None);
    assert!(list[3].is_point_to_point());
    assert_eq!(list[4].link_addr_slice(), Some([10, 11, 12, 13, 14, 15]));
    let found = interface_by_name(list.clone(), "ib0").unwrap();
    assert_eq!(found.name, "ib0");
    assert!(interface_by_name(list, "wlan0").is_none());
}

#[test]
fn adapter_records_become_entries() {
    let e = adapter_entry(AdapterRecord {
        friendly_name: String::new(),
        adapter_name: "{GUID}".to_string(),
        if_type: 6,
        oper_status: 1,
        mtu: 1500,
        physical_len: 6,
        physical: [1, 2, 3, 4, 5, 6, 0, 0],
        unicast: vec![
            AdapterAddr::Other,
            AdapterAddr::Inet6([0; 16]),
            AdapterAddr::Inet([10, 0, 0, 1]),
            AdapterAddr::Inet([10, 0, 0, 2]),
        ],
    });
    assert_eq!(e.name, "{GUID}");
    assert_eq!(e.intf_type, INTF_TYPE_ETH);
    assert_eq!(e.flags, INTF_FLAG_UP);
    assert_eq!(e.mtu, 1500);
    assert_eq!(e.link_addr, Addr::hw([1, 2, 3, 4, 5, 6]));
    assert_eq!(e.addr, addr_pton("::").unwrap());
    assert_eq!(
        e.alias_addrs,
        vec![addr_pton("10.0.0.1").unwrap(), addr_pton("10.0.0.2").unwrap()]
    );
    let lo = interface_list(SystemRecords::Windows(vec![AdapterRecord {
        friendly_name: String::new(),
        adapter_name: String::new(),
        if_type: 24,
        oper_status: 2,
        mtu: 0,
        physical_len: 0,
        physical: [0; 8],
        unicast: vec![],
    }]));
    assert_eq!(lo[0].name, "iface");
    assert_eq!(lo[0].intf_type, INTF_TYPE_LOOPBACK);
    assert_eq!(lo[0].flags, INTF_FLAG_LOOPBACK);
    assert_eq!(lo[0].addr, Addr::default());
    assert_eq!(adapter_step(true, false, ADAPTER_BUFFER), AdapterStep::Read);
    assert_eq!(adapter_step(false, true, ADAPTER_BUFFER), AdapterStep::Grow(23552));
    assert_eq!(adapter_step(false, false, ADAPTER_BUFFER), AdapterStep::GiveUp);
    assert_eq!(adapter_step(true, false, u32::MAX), AdapterStep::Read);
    assert_eq!(adapter_step(false, false, u32::MAX), AdapterStep::GiveUp);
}

#[test]
fn table_lives_and_loops() {
    let mut t = RouteTable::new();
    assert!(t.is_empty());
    t.add(RouteEntry {
        dst: net(Ipv4Addr::new(10, 0, 0, 0), 24),
        gw: Addr::ipv4(Ipv4Addr::new(10, 0, 0, 1)),
    });
    t.add(RouteEntry {
        dst: net(Ipv4Addr::new(0, 0, 0, 0), 0),
        gw: Addr::ipv4(Ipv4Addr::new(192, 168, 1, 1)),
    });
    assert_eq!(t.len(), 2);
    assert_eq!(t.entries()[0].dst, net(Ipv4Addr::new(10, 0, 0, 0), 24));
}

#[test]
fn get_prefers_most_specific() {
    let mut t = RouteTable::new();
    t.add(RouteEntry {
        dst: net(Ipv4Addr::new(0, 0, 0, 0), 0),
        gw: Addr::ipv4(Ipv4Addr::new(192, 168, 1, 1)),
    });
    t.add(RouteEntry {
        dst: net(Ipv4Addr::new(10, 0, 0, 0), 8),
        gw: Addr::ipv4(Ipv4Addr::new(10, 0, 0, 1)),
    });
    t.add(RouteEntry {
        dst: net(Ipv4Addr::new(10, 1, 0, 0), 16),
        gw: Addr::ipv4(Ipv4Addr::new(10, 1, 0, 1)),
    });
    // 10.1.2.3 should match the /16, not the /8 or default.
    let dst = Addr::ipv4(Ipv4Addr::new(10, 1, 2, 3));
    assert_eq!(t.get(&dst).unwrap().dst.addr_bits, 16);
    assert_eq!(
        t.get(&dst).unwrap().gw.to_ipv4().unwrap(),
        Ipv4Addr::new(10, 1, 0, 1)
    );
    // Unrelated address falls back to the default route.
    let other = Addr::ipv4(Ipv4Addr::new(203, 0, 113, 1));
    assert_eq!(t.get(&other).unwrap().dst.addr_bits, 0);
}

#[test]
fn get_takes_the_later_of_equals() {
    let mut t = RouteTable::new();
    t.add(RouteEntry { dst: net(Ipv4Addr::new(10, 0, 0, 1), 8), gw: Addr::hw([1; 6]) });
    t.add(RouteEntry { dst: net(Ipv4Addr::new(10, 0, 0, 2), 8), gw: Addr::hw([2; 6]) });
    let dst = Addr::ipv4(Ipv4Addr::new(10, 9, 9, 9));
    assert_eq!(t.get(&dst).unwrap().gw, Addr::hw([2; 6]));
    assert!(t.get(&Addr::ipv4(Ipv4Addr::new(11, 0, 0, 1))).is_none());
    assert!(!net_contains(&Addr::default(), &Addr::default()));
}

#[test]
fn get_respects_family() {
    let mut t = RouteTable::new();
    t.add(RouteEntry {
        dst: net(Ipv4Addr::new(0, 0, 0, 0), 0),
        gw: Addr::ipv4(Ipv4Addr::new(192, 168, 1, 1)),
    });
    t.add(RouteEntry {
        dst: {
            let mut a = Addr::ipv6(v6(0, 0, 0));
            a.addr_bits = 0;
            a
        },
        gw: addr_pton("fe80::1").unwrap(),
    });
    // IPv6 query must not match the IPv4 default route.
    let v6dst = Addr::ipv6(v6(0x2001, 0xdb8, 1));
    let expected_gw = v6(0xfe80, 0, 1);
    assert_eq!(t.get(&v6dst).unwrap().gw.to_ipv6().unwrap(), expected_gw);
    // And an IPv4 query must not match the IPv6 default route.
    let v4dst = Addr::ipv4(Ipv4Addr::new(1, 2, 3, 4));
    assert_eq!(t.get(&v4dst).unwrap().gw.to_ipv4().unwrap(), Ipv4Addr::new(192, 168, 1, 1));
}

#[test]
fn delete_removes() {
    let mut t = RouteTable::new();
    let d0 = net(Ipv4Addr::new(0, 0, 0, 0), 0);
    t.add(RouteEntry {
        dst: d0,
        gw: Addr::ipv4(Ipv4Addr::new(192, 168, 1, 1)),
    });
    t.delete(&d0);
    assert!(t.is_empty());
}

#[test]
fn add_dev_uses_network() {
    let mut t = RouteTable::new();
    t.add_dev(RouteEntry {
        dst: net(Ipv4Addr::new(10, 0, 0, 5), 24),
        gw: Addr::ipv4(Ipv4Addr::new(10, 0, 0, 1)),
    });
    // The destination is normalized to its network address.
    assert_eq!(
        t.entries()[0].dst.to_ipv4().unwrap(),
        Ipv4Addr::new(10, 0, 0, 0)
    );
    let query = Addr::ipv4(Ipv4Addr::new(10, 0, 0, 9));
    assert!(t.get(&query).is_some());
}

#[test]
fn route_add_validates() {
    // Empty destination is rejected.
    assert!(route_add(&RouteEntry { dst: Addr::default(), gw: Addr::default() }).is_err());
    // Invalid prefix length is rejected.
    let bad = RouteEntry {
        dst: net(Ipv4Addr::new(10, 0, 0, 0), 33),
        gw: Addr::ipv4(Ipv4Addr::new(10, 0, 0, 1)),
    };
    assert!(route_add(&bad).is_err());
    assert_eq!(route_add(&bad).unwrap_err(), "route_add: invalid prefix length 33");
    // A non-IP gateway is rejected.
    let badgw = RouteEntry {
        dst: net(Ipv4Addr::new(10, 0, 0, 0), 24),
        gw: Addr::hw([0, 0, 0, 0, 0, 0]),
    };
    assert!(route_add(&badgw).is_err());
    assert_eq!(route_add(&badgw).unwrap_err(), "route_add: gateway must be an IP address");
    // A valid entry reaches the privilege-rejection path (still an Err).
    let ok = RouteEntry {
        dst: net(Ipv4Addr::new(10, 0, 0, 0), 24),
        gw: Addr::ipv4(Ipv4Addr::new(10, 0, 0, 1)),
    };
    assert!(route_add(&ok).is_err());
    assert_eq!(
        route_add(&ok).unwrap_err(),
        "route_add: modifying the kernel routing table (SIOCADDRT) requires \
         elevated privileges; install the route via the OS instead"
    );
}

#[test]
fn route_delete_validates() {
    let none = RouteEntry { dst: Addr::default(), gw: Addr::default() };
    assert!(route_delete(&none).is_err());
    assert_eq!(
        route_delete(&none).unwrap_err(),
        "route_delete: empty destination address"
    );
    let some = RouteEntry { dst: Addr::hw([1; 6]), gw: Addr::default() };
    assert_eq!(
        route_delete(&some).unwrap_err(),
        "route_delete: modifying the kernel routing table (SIOCDELRT) requires \
         elevated privileges; remove the route via the OS instead"
    );
}

#[test]
fn route_names_the_interface() {
    let mut eth = IntfEntry::default();
    eth.name = "eth0".to_string();
    eth.addr = addr_pton("10.0.0.7").unwrap();
    eth.alias_addrs = vec![addr_pton("10.0.0.8").unwrap()];
    let list = vec![IntfEntry::default(), eth];
    let dst = addr_pton("8.8.8.8").unwrap();
    let local = |d: u8| Some(SocketAddr { ip: IpAddr::V4(Ipv4Addr::new(10, 0, 0, d)), port: 1 });
    assert_eq!(
        route_to(&dst, local(8), &list),
        Some(("eth0".to_string(), addr_pton("10.0.0.8").unwrap()))
    );
    assert_eq!(
        route_to(&dst, local(9), &list),
        Some(("?".to_string(), addr_pton("10.0.0.9").unwrap()))
    );
    assert_eq!(route_to(&dst, None, &list), None);
    assert_eq!(route_to(&Addr::hw([0; 6]), local(7), &list), None);
    assert_eq!(Addr::hw([0; 6]).addr_type, ADDR_TYPE_HW);
}
