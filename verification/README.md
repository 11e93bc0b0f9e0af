# wnr

Packet capture, low-level networking and event-driven sockets, and a small
command-line scanner built from them. The library under `src/` is verified with
Verus: each function's contract says what it returns, and the laws that tie
functions together are public proof functions named `law_*`.

## Modules

| Module | What it holds |
|---|---|
| `bpf`, `filter` | the packet filter machine, and the compiler from filter expressions to its programs |
| `savefile`, `capture`, `sendqueue` | pcap savefiles, offline and live captures, transmission queues |
| `raw` | the steps of opening raw sockets, and what becomes of the frames they give |
| `datalink`, `eth`, `arp`, `ip`, `addr` | link types, headers and addresses, with their text forms |
| `intf`, `route` | interfaces from the system's records of them, routing tables |
| `event`, `iod`, `pool` | the event loop: I/O descriptors, pending operations, timeouts |
| `cli` | the command line: arguments to actions, results to lines |
| `text`, `wire`, `idmap` | characters, integers in byte order, maps by id |

The library makes no system calls. `app/` does: it holds `main`, the sockets,
the threads of connection attempts, files, and the queries for interfaces and
addresses. What to do next, and what an answer means, is decided in `src/`.

## The event loop

`Pool` knows time as nanoseconds and sockets as descriptors. A pass of the loop
is `drain_commands`, which takes note of connection attempts that ended;
`begin_pass`, which gives the events that are due and the operations to try;
`finish_pass`, which takes what came of them and gives the events to report; and
`end_pass`, which says whether to go on, for how long to sleep, or how the loop
ended. `app/nsock.rs` runs it with real sockets and a real clock; the tests run
it with made-up ones.
