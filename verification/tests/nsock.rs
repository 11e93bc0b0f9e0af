use wnr::event::{EventId, EventStatus, EventType, LoopStatus};
use wnr::iod::{Iod, IodKind};
use wnr::ip::{IpAddr, Ipv4Addr, SocketAddr};
use wnr::pool::{
    connect_bounded, connect_deadline, run_limit, Cmd, ConnectOutcome, ConnectStep, IoOutcome, IoRequest,
    PassEnd, Pool, ReadOutcome, WriteOutcome, CONNECT_LIMIT, MS, NAP,
};

fn peer(port: u16) -> SocketAddr {
    SocketAddr { ip: IpAddr::V4(Ipv4Addr::new(127, 0, 0, 1)), port }
}

fn nothing(_: &IoRequest) -> IoOutcome {
    IoOutcome::Read(ReadOutcome::WouldBlock)
}

/// Run the loop on a clock of its own, with `io` in place of the sockets.
fn run(
    pool: &mut Pool,
    clock: &mut u64,
    msec_timeout: i32,
    io: &mut dyn FnMut(&IoRequest) -> IoOutcome,
    reports: &mut Vec<(EventId, EventStatus)>,
) -> LoopStatus {
    pool.begin_run();
    let start = *clock;
    let limit = run_limit(msec_timeout);
    loop {
        reports.extend(pool.drain_commands());
        let pass = pool.begin_pass(*clock);
        let outcomes: Vec<(EventId, IoOutcome)> =
            pass.requests.iter().map(|(id, q)| (*id, io(q))).collect();
        reports.extend(pool.finish_pass(pass.due, outcomes));
        match pool.end_pass(*clock - start, limit, *clock) {
            PassEnd::Return(status) => return status,
            PassEnd::Sleep(nap) => *clock += nap,
        }
    }
}

fn connected(pool: &mut Pool, clock: &mut u64, fd: i32) -> u64 {
    let iod = pool.create_iod_tcp();
    let ev = pool.connect_tcp(iod, 3000, *clock);
    pool.post(Cmd::ConnectResult(
        iod,
        ConnectOutcome::Connected { fd, peer: Some(peer(7)) },
    ));
    let mut reports = Vec::new();
    assert_eq!(run(pool, clock, -1, &mut nothing, &mut reports), LoopStatus::NoEvents);
    assert_eq!(reports, vec![(ev, EventStatus::Success)]);
    iod
}

#[test]
fn connect_write_read_roundtrip() {
    let mut clock = 0;
    let mut pool = Pool::new(0);
    let iod = connected(&mut pool, &mut clock, 40);
    assert!(pool.iod(iod).unwrap().connected);
    assert_eq!(pool.iod(iod).unwrap().tcp, Some(40));
    assert_eq!(pool.iod(iod).unwrap().peer, Some(peer(7)));

    // An echo server that takes four bytes at a time.
    let mut echo: Vec<u8> = Vec::new();
    let mut reports = Vec::new();
    let written = pool.write(iod, b"hello nsock", 3000, clock);
    run(
        &mut pool,
        &mut clock,
        -1,
        &mut |q| match q {
            IoRequest::WriteTcp(40, data) => {
                let n = data.len().min(4);
                echo.extend_from_slice(&data[..n]);
                IoOutcome::Write(WriteOutcome::Sent(n))
            }
            other => panic!("{:?}", other),
        },
        &mut reports,
    );
    assert_eq!(reports, vec![(written, EventStatus::Success)]);
    assert_eq!(echo, b"hello nsock");
    assert_eq!(pool.iod(iod).unwrap().write_count, 11);
    assert!(!pool.cancel(written, false).found);

    let mut reports = Vec::new();
    let read = pool.read_bytes(iod, 3000, 10, clock);
    run(
        &mut pool,
        &mut clock,
        -1,
        &mut |q| match q {
            IoRequest::ReadTcp(40) => {
                let n = echo.len().min(6);
                let data: Vec<u8> = echo.drain(..n).collect();
                IoOutcome::Read(ReadOutcome::Data(data))
            }
            other => panic!("{:?}", other),
        },
        &mut reports,
    );
    assert_eq!(reports, vec![(read, EventStatus::Success)]);
    assert_eq!(pool.take_read_buf(read), b"hello nsock");
    assert_eq!(pool.take_read_buf(read), b"");
    assert_eq!(pool.iod(iod).unwrap().read_count, 11);
}

#[test]
fn timer_fires() {
    let mut pool = Pool::new(0);
    let mut clock = 12345;
    let timer = pool.timer_create(50, clock);
    let mut fired = Vec::new();
    let status = run(&mut pool, &mut clock, 1000, &mut nothing, &mut fired);
    assert_eq!(status, LoopStatus::NoEvents);
    assert_eq!(fired, vec![(timer, EventStatus::Success)]);
    // Exactly at its deadline.
    assert_eq!(clock, 12345 + 50 * MS);
}

#[test]
fn readlines_gets_line() {
    let mut clock = 0;
    let mut pool = Pool::new(0);
    let iod = connected(&mut pool, &mut clock, 41);
    let line = pool.readlines(iod, 3000, 256, clock);
    let mut parts = vec![b"world\n".to_vec(), b"hello ".to_vec()];
    let mut reports = Vec::new();
    run(
        &mut pool,
        &mut clock,
        -1,
        &mut |_| IoOutcome::Read(ReadOutcome::Data(parts.pop().unwrap())),
        &mut reports,
    );
    assert_eq!(reports, vec![(line, EventStatus::Success)]);
    let buf = pool.take_read_buf(line);
    assert_eq!(buf, b"hello world\n");
    assert_eq!(pool.iod(iod).unwrap().id(), iod);
}

#[test]
fn write_fmt_and_printf_roundtrip() {
    let mut clock = 0;
    let mut pool = Pool::new(0);
    let iod = connected(&mut pool, &mut clock, 42);
    let n = 42;
    let mut sent: Vec<u8> = Vec::new();
    for text in [format!("value={}\n", n), "literal".to_string()] {
        let ev = if text == "literal" {
            pool.printf(iod, &text, 3000, clock)
        } else {
            pool.write_fmt(iod, &text, 3000, clock)
        };
        let mut reports = Vec::new();
        run(
            &mut pool,
            &mut clock,
            -1,
            &mut |q| match q {
                IoRequest::WriteTcp(_, data) => {
                    sent.extend_from_slice(data);
                    IoOutcome::Write(WriteOutcome::Sent(data.len()))
                }
                other => panic!("{:?}", other),
            },
            &mut reports,
        );
        assert_eq!(reports, vec![(ev, EventStatus::Success)]);
    }
    assert_eq!(sent, b"value=42\nliteral");
}

#[test]
fn delete_iod_kills_pending_events() {
    let mut pool = Pool::new(0);
    let iod = pool.create_iod_tcp();
    // Schedule a read that will never complete (no connection).
    let ev = pool.read(iod, 60000, 0);
    let timer = pool.timer_create(1, 0);
    let deleted = pool.delete_iod(iod);
    assert!(deleted.existed, "iod should exist");
    assert_eq!(deleted.killed, vec![ev]);
    assert!(pool.iod(iod).is_none(), "iod should be gone");
    assert!(!pool.delete_iod(iod).existed);
    // Only the timer remains once the iod's events were killed.
    assert_eq!(pool.pending_count(), 1);
    assert!(pool.cancel(timer, false).found);
    assert!(!pool.has_pending());
    let mut reports = Vec::new();
    let mut clock = 0;
    assert_eq!(
        run(&mut pool, &mut clock, 100, &mut nothing, &mut reports),
        LoopStatus::NoEvents
    );
    assert!(reports.is_empty());
}

#[test]
fn send_udp_datagram() {
    let mut pool = Pool::new(0);
    let iod = pool.create_iod_udp(Some(50));
    let (sock, ev) = pool.send_udp(iod, peer(9999), b"ping", 3000, 0);
    assert_eq!(sock, Some(50));
    assert_eq!(pool.iod(iod).unwrap().remote_ip(), Some(peer(9999).ip));
    let mut got: Vec<u8> = Vec::new();
    let mut reports = Vec::new();
    let mut clock = 0;
    run(
        &mut pool,
        &mut clock,
        -1,
        &mut |q| match q {
            IoRequest::WriteUdp(50, data) => {
                got.extend_from_slice(data);
                IoOutcome::Write(WriteOutcome::Sent(data.len()))
            }
            other => panic!("{:?}", other),
        },
        &mut reports,
    );
    assert_eq!(reports, vec![(ev, EventStatus::Success)]);
    assert_eq!(got, b"ping");
    assert_eq!(pool.iod(iod).unwrap().write_count, 4);
}

#[test]
fn create_iod_tcp_from_wraps_stream() {
    let mut pool = Pool::new(0);
    let iod = pool.create_iod_tcp_from(60, Some(peer(80)));
    assert_eq!(pool.iod(iod).unwrap().id(), iod);
    assert!(pool.iod(iod).unwrap().connected);

    let line = pool.readlines(iod, 3000, 128, 0);
    let mut reports = Vec::new();
    let mut clock = 0;
    run(
        &mut pool,
        &mut clock,
        -1,
        &mut |q| match q {
            IoRequest::ReadTcp(60) => IoOutcome::Read(ReadOutcome::Data(b"adopted\n".to_vec())),
            other => panic!("{:?}", other),
        },
        &mut reports,
    );
    assert_eq!(pool.take_read_buf(line), b"adopted\n");
}

#[test]
fn delete_pool_clears_state() {
    let mut pool = Pool::new(7);
    let iod = pool.create_iod_tcp();
    let ev = pool.read(iod, 60000, 0);
    let timer = pool.timer_create(5, 0);
    assert_eq!(pool.delete(), vec![ev, timer]);
    assert!(!pool.has_pending());
    assert_eq!(pool.pending_count(), 0);
    assert!(pool.iod(iod).is_none());
    assert_eq!(pool.udata(), 7);
}

#[test]
fn reads_time_out_and_end() {
    let mut clock = 0;
    let mut pool = Pool::default();
    pool.set_udata(3);
    assert_eq!(pool.udata(), 3);
    let iod = connected(&mut pool, &mut clock, 43);
    let ev = pool.read(iod, 20, clock);
    let mut reports = Vec::new();
    run(&mut pool, &mut clock, -1, &mut nothing, &mut reports);
    assert_eq!(reports, vec![(ev, EventStatus::Timeout)]);
    for (data, status) in [
        (ReadOutcome::Data(vec![]), EventStatus::Eof),
        (ReadOutcome::Failed, EventStatus::Error),
        (ReadOutcome::Data(vec![1]), EventStatus::Success),
    ] {
        let ev = pool.read(iod, -1, clock);
        assert_eq!(pool.try_read(ev, data), Some(status));
        assert!(pool.deliver(ev));
        assert!(!pool.deliver(ev));
    }
    // A read that is never answered ends with the time given to the loop.
    pool.read(iod, -1, clock);
    let mut reports = Vec::new();
    assert_eq!(
        run(&mut pool, &mut clock, 30, &mut nothing, &mut reports),
        LoopStatus::Timeout
    );
    assert!(reports.is_empty());
    // Asking the loop to stop.
    pool.loop_quit();
    assert_eq!(
        run(&mut pool, &mut clock, -1, &mut nothing, &mut reports),
        LoopStatus::Quit
    );
}

#[test]
fn line_reads_are_bounded() {
    let mut pool = Pool::new(0);
    let iod = pool.create_iod_tcp_from(61, None);
    let ev = pool.readlines(iod, -1, 4, 0);
    assert_eq!(pool.try_read(ev, ReadOutcome::Data(vec![1, 2, 3])), None);
    assert_eq!(pool.try_read(ev, ReadOutcome::WouldBlock), None);
    assert_eq!(
        pool.try_read(ev, ReadOutcome::Data(vec![4])),
        Some(EventStatus::Success)
    );
    // Not yet reported, the buffer can be looked at but stays.
    assert_eq!(pool.take_read_buf(ev), vec![1, 2, 3, 4]);
    assert_eq!(pool.take_read_buf(ev), vec![1, 2, 3, 4]);
}

#[test]
fn datagrams_are_whole() {
    let mut pool = Pool::new(0);
    let iod = pool.create_iod_udp_from(62, None);
    assert_eq!(pool.iod(iod).unwrap().kind, IodKind::Udp);
    let ev = pool.read_bytes(iod, -1, 100, 0);
    assert_eq!(pool.try_read(ev, ReadOutcome::Data(vec![9])), Some(EventStatus::Success));
    assert_eq!(pool.iod(iod).unwrap().read_count, 1);
    // An IOD without a socket asks for nothing.
    let none = pool.create_iod_udp(None);
    let idle = pool.write(none, b"x", -1, 0);
    assert!(pool.requests(0).iter().all(|(id, _)| *id != idle));
    assert_eq!(pool.try_write(idle, WriteOutcome::Sent(1)), None);
}

#[test]
fn writes_end_and_fail() {
    let mut pool = Pool::new(0);
    let iod = pool.create_iod_tcp_from(63, None);
    let ev = pool.write(iod, b"abc", -1, 0);
    assert_eq!(pool.try_write(ev, WriteOutcome::WouldBlock), None);
    assert_eq!(pool.try_write(ev, WriteOutcome::Sent(2)), None);
    assert_eq!(pool.try_write(ev, WriteOutcome::Sent(0)), Some(EventStatus::Eof));
    assert_eq!(pool.try_write(ev, WriteOutcome::Failed), Some(EventStatus::Error));
    assert_eq!(pool.try_write(ev, WriteOutcome::Sent(1)), Some(EventStatus::Success));
    assert_eq!(pool.iod(iod).unwrap().write_count, 3);
}

#[test]
fn oldest_connect_completes_first() {
    let mut pool = Pool::new(0);
    let iod = pool.create_iod_tcp();
    let a = pool.connect_tcp(iod, -1, 0);
    let b = pool.connect_tcp(iod, -1, 0);
    assert!(b > a);
    pool.post(Cmd::ConnectResult(iod, ConnectOutcome::Failed));
    pool.post(Cmd::ConnectResult(99, ConnectOutcome::Failed));
    assert_eq!(pool.drain_commands(), vec![(a, EventStatus::Error)]);
    // A cancelled connect is not reported again.
    let c = pool.cancel(b, true);
    assert!(c.found && c.report);
    let again = pool.cancel(b, true);
    assert!(again.found && !again.report);
    pool.post(Cmd::ConnectResult(iod, ConnectOutcome::Failed));
    assert_eq!(pool.drain_commands(), vec![]);
    assert!(!pool.has_pending());
}

#[test]
fn naps_are_short() {
    let mut pool = Pool::new(0);
    pool.timer_create(2, 0);
    assert_eq!(pool.end_pass(0, None, 0), PassEnd::Sleep(2 * MS));
    assert_eq!(pool.end_pass(0, None, 3 * MS), PassEnd::Sleep(0));
    let mut far = Pool::new(0);
    far.timer_create(1000, 0);
    assert_eq!(far.end_pass(0, Some(1), 0), PassEnd::Sleep(NAP));
    assert_eq!(far.end_pass(1, Some(1), 0), PassEnd::Return(LoopStatus::Timeout));
}

#[test]
fn connect_attempts_are_bounded() {
    assert_eq!(connect_deadline(-1, 5), 5 + CONNECT_LIMIT);
    assert_eq!(connect_deadline(3, 5), 5 + 3 * MS);
    assert_eq!(connect_bounded(4, 10), ConnectStep::Try(6));
    assert_eq!(connect_bounded(10, 10), ConnectStep::GiveUp);
}

#[test]
fn iods_know_their_sockets() {
    let mut iod = Iod::new_tcp();
    assert_eq!(iod.fd(), -1);
    assert_eq!(iod.local_addr(Some(peer(1)), Some(peer(2))), None);
    assert_eq!(iod.remote_ip(), None);
    iod.udp = Some(5);
    assert_eq!(iod.fd(), 5);
    assert_eq!(iod.local_addr(Some(peer(1)), Some(peer(2))), Some(peer(2)));
    iod.tcp = Some(4);
    assert_eq!(iod.fd(), 4);
    assert_eq!(iod.local_addr(Some(peer(1)), Some(peer(2))), Some(peer(1)));
    let mut pool = Pool::new(0);
    pool.set_broadcast(true);
    assert!(pool.broadcast());
    let id = pool.create_iod_tcp();
    pool.iod_mut(id).unwrap().udata = 9;
    assert_eq!(pool.iod(id).unwrap().udata, 9);
    assert!(pool.iod_mut(id + 1).is_none());
}

#[test]
fn event_names() {
    assert_eq!(EventType::Connect.as_str(), "CONNECT");
    assert_eq!(EventType::Timer.as_str(), "TIMER");
    assert_eq!(EventStatus::Success.as_str(), "SUCCESS");
    assert_eq!(EventStatus::Eof.as_str(), "EOF");
}

#[test]
fn ids_are_left() {
    let mut pool = Pool::new(0);
    assert!(pool.has_iod_ids(u64::MAX));
    assert!(pool.has_event_ids(u64::MAX));
    let iod = pool.create_iod_tcp();
    pool.read(iod, -1, 0);
    assert!(pool.has_iod_ids(u64::MAX - 1));
    assert!(!pool.has_iod_ids(u64::MAX));
    assert!(pool.has_event_ids(u64::MAX - 1));
    assert!(!pool.has_event_ids(u64::MAX));
}

#[test]
fn writes_go_on_where_they_stopped() {
    let mut clock = 0;
    let mut pool = Pool::new(0);
    let iod = connected(&mut pool, &mut clock, 5);
    let ev = pool.write(iod, b"abcdefg", -1, clock);
    let mut seen: Vec<Vec<u8>> = Vec::new();
    let mut reports = Vec::new();
    let mut io = |q: &IoRequest| match q {
        IoRequest::WriteTcp(5, data) => {
            seen.push(data.clone());
            IoOutcome::Write(WriteOutcome::Sent(data.len().min(3)))
        }
        other => panic!("{:?}", other),
    };
    assert_eq!(run(&mut pool, &mut clock, -1, &mut io, &mut reports), LoopStatus::NoEvents);
    assert_eq!(seen, vec![b"abcdefg".to_vec(), b"defg".to_vec(), b"g".to_vec()]);
    assert_eq!(reports, vec![(ev, EventStatus::Success)]);
    assert_eq!(pool.iod(iod).unwrap().write_count, 7);
}

#[test]
fn line_reads_leave_the_next_line() {
    let mut pool = Pool::new(0);
    let iod = pool.create_iod_tcp_from(64, None);
    let first = pool.readlines(iod, -1, 256, 0);
    let second = pool.readlines(iod, -1, 256, 0);
    let status = pool.try_read(first, ReadOutcome::Data(b"a\nb\nc".to_vec()));
    assert_eq!(status, Some(EventStatus::Success));
    assert_eq!(pool.take_read_buf(first), b"a\n");
    // The next line is there already, whatever the stream gives.
    assert_eq!(pool.try_read(second, ReadOutcome::WouldBlock), Some(EventStatus::Success));
    assert_eq!(pool.take_read_buf(second), b"b\n");
    assert_eq!(pool.iod(iod).unwrap().read_count, 5);
    // A plain read takes all that is left, and what comes behind it.
    let rest = pool.read_bytes(iod, -1, 3, 0);
    assert_eq!(pool.try_read(rest, ReadOutcome::WouldBlock), None);
    assert_eq!(pool.try_read(rest, ReadOutcome::Data(b"de\n".to_vec())), Some(EventStatus::Success));
    assert_eq!(pool.take_read_buf(rest), b"cde\n");
    // A line that is too long is cut, and goes on in the next read.
    let cut = pool.readlines(iod, -1, 4, 0);
    let end = pool.readlines(iod, -1, 4, 0);
    assert_eq!(pool.try_read(cut, ReadOutcome::Data(b"123456".to_vec())), Some(EventStatus::Success));
    assert_eq!(pool.take_read_buf(cut), b"1234");
    assert_eq!(pool.try_read(end, ReadOutcome::Data(vec![])), Some(EventStatus::Eof));
    assert_eq!(pool.take_read_buf(end), b"56");
    let after = pool.readlines(iod, -1, 4, 0);
    assert_eq!(pool.try_read(after, ReadOutcome::Failed), Some(EventStatus::Error));
}

#[test]
fn both_lines_of_one_packet_are_reported() {
    let mut clock = 0;
    let mut pool = Pool::new(0);
    let iod = connected(&mut pool, &mut clock, 65);
    let first = pool.readlines(iod, 3000, 256, clock);
    let second = pool.readlines(iod, 3000, 256, clock);
    let mut given = false;
    let mut reports = Vec::new();
    let mut io = |_: &IoRequest| {
        if given {
            return IoOutcome::Read(ReadOutcome::WouldBlock);
        }
        given = true;
        IoOutcome::Read(ReadOutcome::Data(b"one\ntwo\nrest".to_vec()))
    };
    assert_eq!(run(&mut pool, &mut clock, -1, &mut io, &mut reports), LoopStatus::NoEvents);
    assert_eq!(
        reports,
        vec![(first, EventStatus::Success), (second, EventStatus::Success)]
    );
    assert_eq!(pool.take_read_buf(first), b"one\n");
    assert_eq!(pool.take_read_buf(second), b"two\n");
    // A new connection has nothing of the one before it.
    let ev = pool.connect_tcp(iod, 10, clock);
    pool.post(Cmd::ConnectResult(iod, ConnectOutcome::Connected { fd: 66, peer: None }));
    assert_eq!(pool.drain_commands(), vec![(ev, EventStatus::Success)]);
    let read = pool.read(iod, -1, clock);
    assert_eq!(pool.try_read(read, ReadOutcome::WouldBlock), None);
}

#[test]
fn runs_have_limits() {
    assert_eq!(run_limit(-1), None);
    assert_eq!(run_limit(0), Some(0));
    assert_eq!(run_limit(30), Some(30 * MS));
    assert_eq!(run_limit(i32::MAX), Some(2_147_483_647_000_000));
}
