//! Event types and statuses.

use vstd::prelude::*;

verus! {

/// The kinds of asynchronous events.
#[derive(Clone, Copy, Debug, PartialEq, Eq, Structural)]
pub enum EventType {
    Connect,
    Read,
    Write,
    Timer,
}

impl EventType {
    pub open spec fn name(self) -> Seq<char> {
        match self {
            EventType::Connect => "CONNECT"@,
            EventType::Read => "READ"@,
            EventType::Write => "WRITE"@,
            EventType::Timer => "TIMER"@,
        }
    }

    pub fn as_str(&self) -> (r: &'static str)
        ensures
            r@ == self.name(),
    {
        match self {
            EventType::Connect => "CONNECT",
            EventType::Read => "READ",
            EventType::Write => "WRITE",
            EventType::Timer => "TIMER",
        }
    }
}

/// The outcome of an asynchronous event.
#[derive(Clone, Copy, Debug, PartialEq, Eq, Structural)]
pub enum EventStatus {
    Success,
    Error,
    Timeout,
    Cancelled,
    Kill,
    Eof,
}

impl EventStatus {
    pub open spec fn name(self) -> Seq<char> {
        match self {
            EventStatus::Success => "SUCCESS"@,
            EventStatus::Error => "ERROR"@,
            EventStatus::Timeout => "TIMEOUT"@,
            EventStatus::Cancelled => "CANCELLED"@,
            EventStatus::Kill => "KILL"@,
            EventStatus::Eof => "EOF"@,
        }
    }

    pub fn as_str(&self) -> (r: &'static str)
        ensures
            r@ == self.name(),
    {
        match self {
            EventStatus::Success => "SUCCESS",
            EventStatus::Error => "ERROR",
            EventStatus::Timeout => "TIMEOUT",
            EventStatus::Cancelled => "CANCELLED",
            EventStatus::Kill => "KILL",
            EventStatus::Eof => "EOF",
        }
    }
}

/// Loop exit status.
#[derive(Clone, Copy, Debug, PartialEq, Eq, Structural)]
pub enum LoopStatus {
    /// There are no events left to process.
    NoEvents,
    /// A timeout value was supplied and elapsed before completion.
    Timeout,
    /// A fatal error occurred.
    Error,
    /// The loop was asked to stop.
    Quit,
}

/// An event id, unique within a pool.
pub type EventId = u64;

/// The names of events and of what becomes of them.
pub proof fn law_event_names()
    ensures
        EventType::Connect.name() == "CONNECT"@,
        EventType::Read.name() == "READ"@,
        EventType::Write.name() == "WRITE"@,
        EventType::Timer.name() == "TIMER"@,
        EventStatus::Success.name() == "SUCCESS"@,
        EventStatus::Error.name() == "ERROR"@,
        EventStatus::Timeout.name() == "TIMEOUT"@,
        EventStatus::Cancelled.name() == "CANCELLED"@,
        EventStatus::Kill.name() == "KILL"@,
        EventStatus::Eof.name() == "EOF"@,
{
}

} // verus!
