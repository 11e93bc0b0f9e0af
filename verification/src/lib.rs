//! Packet capture, raw networking and event-driven sockets.

pub mod addr;
pub mod arp;
pub mod bpf;
pub mod capture;
pub mod cli;
pub mod datalink;
pub mod eth;
pub mod event;
pub mod filter;
pub mod idmap;
pub mod intf;
pub mod iod;
pub mod ip;
pub mod pool;
pub mod raw;
pub mod route;
pub mod savefile;
pub mod sendqueue;
pub mod text;
pub mod wire;
