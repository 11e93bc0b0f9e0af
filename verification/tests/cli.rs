use wnr::addr::addr_pton;
use wnr::cli::{
    analysis_text, cmd_interfaces, cmd_pcap, cmd_route, cmd_scan, command, filter_text,
    open_failed, parse_ports, port_line, probe_line, resolve_ip, route_target, scan_done,
    scan_head, unresolved, Action, PcapArgs, VERSION,
};
use wnr::event::EventStatus;
use wnr::intf::{IntfEntry, INTF_FLAG_LOOPBACK, INTF_FLAG_POINTOPOINT, INTF_FLAG_UP};
use wnr::ip::{IpAddr, Ipv4Addr, SocketAddr};
use wnr::pool::Pool;
use wnr::route::route_to;
use wnr::savefile::SavefileWriter;

fn args(list: &[&str]) -> Vec<String> {
    let mut out = vec!["wnr".to_string()];
    out.extend(list.iter().map(|s| s.to_string()));
    out
}

/// What is printed for a command line, to the output and to the error output.
fn run(list: &[&str]) -> (String, String) {
    match command(&args(list)) {
        Action::Print { out, err } => (out.unwrap_or_default(), err.unwrap_or_default()),
        other => panic!("{:?}", other),
    }
}

#[test]
fn parse_single_ports() {
    assert_eq!(parse_ports("80"), vec![80]);
    assert_eq!(parse_ports("80,443,22"), vec![80, 443, 22]);
}

#[test]
fn parse_ranges() {
    assert_eq!(parse_ports("1000-1002"), vec![1000, 1001, 1002]);
    assert_eq!(parse_ports("1-3,80"), vec![1, 2, 3, 80]);
}

#[test]
fn parse_single_is_treated_as_range_of_one() {
    assert_eq!(parse_ports("5-5"), vec![5]);
}

#[test]
fn parse_odd_ports() {
    assert_eq!(parse_ports(""), vec![]);
    assert_eq!(parse_ports("x,70000,+7"), vec![7]);
    assert_eq!(parse_ports("9-5"), vec![9]);
    assert_eq!(parse_ports("-2"), vec![0, 1, 2]);
    assert_eq!(parse_ports("3-"), vec![3]);
    assert_eq!(parse_ports("1-2-9"), vec![1, 2]);
    assert_eq!(parse_ports("65534-65535"), vec![65534, 65535]);
}

#[test]
fn resolve_ip_literal() {
    assert_eq!(
        resolve_ip("127.0.0.1", None),
        Some(IpAddr::V4(Ipv4Addr::new(127, 0, 0, 1)))
    );
    assert!(resolve_ip("not-a-real-host.invalid", None).is_none());
    let found = IpAddr::V4(Ipv4Addr::new(10, 0, 0, 1));
    assert_eq!(resolve_ip("some.host", Some(found)), Some(found));
    assert_ne!(resolve_ip("::1", Some(found)), Some(found));
}

#[test]
fn version_prints_name_and_version() {
    let (stdout, _) = run(&["--version"]);
    assert!(stdout.contains("WNR"), "got: {}", stdout);
    assert!(stdout.contains(VERSION), "got: {}", stdout);
    assert_eq!(run(&["-V"]).0, stdout);
}

#[test]
fn help_lists_commands() {
    let (stdout, _) = run(&["--help"]);
    for cmd in ["--interfaces", "--scan", "--pcap", "--route", "--version"] {
        assert!(stdout.contains(cmd), "missing '{}' in help: {}", cmd, stdout);
    }
    assert_eq!(run(&[]).0, stdout);
}

#[test]
fn unknown_command_reports_error() {
    let (_, stderr) = run(&["--bogus"]);
    assert!(stderr.contains("unknown command"), "got: {}", stderr);
    assert_eq!(stderr, "unknown command '--bogus'");
}

#[test]
fn scan_without_host_reports_error() {
    let (_, stderr) = run(&["--scan"]);
    assert!(stderr.contains("no host"), "got: {}", stderr);
}

#[test]
fn route_to_literal_localhost_succeeds() {
    // Resolving the loopback and querying the route ends either with a route
    // line or a "no route" line.
    let host = match command(&args(&["--route", "127.0.0.1"])) {
        Action::Route(host) => host,
        other => panic!("{:?}", other),
    };
    let ip = resolve_ip(&host, None).unwrap();
    let mut lo = IntfEntry::default();
    lo.name = "lo".to_string();
    lo.addr = addr_pton("127.0.0.1").unwrap();
    let list = vec![lo];
    for local in [Some(SocketAddr { ip, port: 5 }), None] {
        let stdout = cmd_route(&host, &ip, &route_to(&route_target(&ip), local, &list));
        assert!(
            stdout.contains("route") || stdout.contains("no route"),
            "got: {}",
            stdout
        );
        assert_eq!(
            stdout,
            if local.is_some() {
                "route to 127.0.0.1 (127.0.0.1) -> via interface 'lo' with source 127.0.0.1"
            } else {
                "no route to 127.0.0.1 (127.0.0.1)"
            }
        );
    }
}

#[test]
fn scan_arguments() {
    let scan = |list: &[&str]| match command(&args(list)) {
        Action::Scan(a) => (a.host, a.ports, a.timeout_ms),
        other => panic!("{:?}", other),
    };
    let (host, ports, timeout) = scan(&["--scan", "h"]);
    assert_eq!((host.as_str(), timeout), ("h", 3000));
    assert_eq!(ports, (1..=100).collect::<Vec<u16>>());
    let (host, ports, timeout) =
        scan(&["-s", "-p", "1-2", "a", "--timeout", "-5", "-p", "9", "--filter", "x", "b", "-p"]);
    assert_eq!((host.as_str(), timeout), ("b", -5));
    assert_eq!(ports, vec![1, 2, 9]);
    assert_eq!(scan(&["-s", "h", "--timeout", "soon"]).2, 3000);
    assert_eq!(scan(&["-s", "h", "--timeout", "2147483648"]).2, 3000);
    assert_eq!(scan(&["-s", "h", "--timeout", "-2147483648"]).2, i32::MIN);
}

#[test]
fn other_arguments() {
    assert!(matches!(command(&args(&["-i"])), Action::Interfaces));
    match command(&args(&["-p", "f.pcap", "--filter", "tcp", "-x"])) {
        Action::Pcap(a) => {
            assert_eq!(a.file, "f.pcap");
            assert_eq!(a.filter, Some("tcp".to_string()));
        }
        other => panic!("{:?}", other),
    }
    assert_eq!(run(&["--pcap", "--filter"]).1, "no pcap file specified");
    assert_eq!(run(&["--route", "-x"]).1, "no host specified");
}

#[test]
fn scan_output() {
    assert_eq!(
        scan_head("h", 3, -1),
        "WNR connect-scan of h (3 port(s), timeout -1ms)"
    );
    assert_eq!(port_line(80, EventStatus::Success), "   80/tcp open");
    assert_eq!(port_line(65535, EventStatus::Timeout), "65535/tcp closed");
    assert_eq!(scan_done(3), "done (3 ports scanned)");
    assert_eq!(unresolved("h"), "could not resolve host 'h'");
}

#[test]
fn scan_starts_all_probes() {
    let mut pool = Pool::new(0);
    let ip = IpAddr::V4(Ipv4Addr::new(10, 0, 0, 1));
    let probes = cmd_scan(&mut pool, &vec![22, 80], ip, 1000, 0);
    assert_eq!(probes.len(), 2);
    assert_eq!(probes[1].port, 80);
    assert_eq!(probes[1].target, SocketAddr { ip, port: 80 });
    assert_eq!(pool.pending_count(), 2);
    assert_eq!(pool.iod(probes[0].iod).unwrap().id(), probes[0].iod);
    assert_eq!(
        probe_line(&probes, probes[1].event, EventStatus::Error),
        Some("   80/tcp closed".to_string())
    );
    assert_eq!(probe_line(&probes, 77, EventStatus::Error), None);
}

#[test]
fn interface_table() {
    assert_eq!(
        cmd_interfaces(&vec![]),
        vec!["No network interfaces could be enumerated.".to_string()]
    );
    let mut eth = IntfEntry::default();
    eth.name = "eth0".to_string();
    eth.addr = addr_pton("10.0.0.7").unwrap();
    eth.link_addr = addr_pton("00:11:22:33:44:55").unwrap();
    eth.mtu = 1500;
    eth.flags = INTF_FLAG_UP | INTF_FLAG_POINTOPOINT;
    let mut lo = IntfEntry::default();
    lo.name = "a-name-of-many-letters".to_string();
    lo.flags = INTF_FLAG_LOOPBACK;
    assert_eq!(
        cmd_interfaces(&vec![eth, lo]),
        vec![
            "INTERFACE        ADDRESS            MAC       MTU    FLAGS".to_string(),
            "eth0             10.0.0.7 00:11:22:33:44:55 1500   UP,P2P".to_string(),
            "a-name-of-many-letters (unknown) -         0      LOOPBACK".to_string(),
        ]
    );
}

#[test]
fn pcap_analysis() {
    let mut w = SavefileWriter::create(65535, 1);
    for i in 0..12u8 {
        w.write_packet(i as u32, 0, &vec![i; 10 + i as usize]);
    }
    let data = w.flush();
    let mut a = PcapArgs { file: "f".to_string(), filter: None };
    let found = cmd_pcap(&a, data.clone()).unwrap();
    assert_eq!(found.total, 12);
    assert_eq!(found.bytes, (10..22).sum::<u64>());
    assert_eq!(found.lines.len(), 10);
    assert_eq!(
        found.lines[0],
        "pkt #1: 10 bytes captured (10 on wire), 0 l3 bytes at off 0"
    );
    assert_eq!(
        found.lines[9],
        "pkt #10: 19 bytes captured (19 on wire), 5 l3 bytes at off 14"
    );
    assert_eq!(analysis_text(&found, "f"), "read 12 packets (186 bytes) from 'f'");
    assert_eq!(filter_text("tcp"), "filter applied: 'tcp'");
    a.filter = Some("nope".to_string());
    assert_eq!(
        cmd_pcap(&a, data.clone()).unwrap_err(),
        "invalid filter 'nope': unknown filter primitive 'nope'"
    );
    a.filter = Some("ip".to_string());
    let none = cmd_pcap(&a, data).unwrap();
    assert_eq!((none.total, none.bytes, none.lines.len()), (0, 0, 0));
    assert_eq!(
        cmd_pcap(&a, vec![]).unwrap_err(),
        "failed to open 'f': failed to fill whole buffer"
    );
    assert_eq!(open_failed("f", "gone"), "failed to open 'f': gone");
}
