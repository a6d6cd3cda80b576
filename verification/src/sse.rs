//! A job's event stream, as decisions: the stream opens with the job's
//! current state, then sends one event per change — `progress` while the
//! job runs, and exactly one of `done`, `error` or `cancelled` as the last
//! event before the stream closes. A comment goes out when the job has been
//! quiet for a while. Waiting, and writing the job as JSON, are left to the
//! caller.
use vstd::prelude::*;
use crate::jobs::{finished, Status};
use crate::text::push_str;

verus! {

/// Where a stream stands.
#[derive(Debug, Clone, Copy, PartialEq, Eq, Structural)]
pub struct Cursor {
    /// Nothing was sent yet.
    pub first: bool,
    /// The last event sent was the job's final one.
    pub finished: bool,
}

/// What ended a wait for the job to change.
#[derive(Debug, Clone, Copy, PartialEq, Eq, Structural)]
pub enum Wake {
    /// The job's state changed.
    Changed,
    /// The job is gone; nothing more will happen.
    Gone,
    /// Nothing happened for the keep-alive interval.
    Quiet,
}

/// What the stream does next.
#[derive(Debug, Clone, Copy, PartialEq, Eq, Structural)]
pub enum Step {
    /// End the stream.
    Close,
    /// Wait for the job to change, then call `woke`.
    Wait,
    /// Send a keep-alive comment and keep waiting.
    KeepAlive,
    /// Read the job's state and send it with `emit`.
    Send,
}

/// A new stream: nothing sent, nothing finished.
pub fn open() -> (res: Cursor)
    ensures
        res == (Cursor { first: true, finished: false }),
{
    Cursor { first: true, finished: false }
}

/// The next step of a stream at `c`, before any waiting: a finished stream
/// closes, a new one sends the current state at once, and any other waits.
pub open spec fn poll_of(c: Cursor) -> Step {
    if c.finished {
        Step::Close
    } else if c.first {
        Step::Send
    } else {
        Step::Wait
    }
}

pub fn poll(c: Cursor) -> (res: Step)
    ensures
        res == poll_of(c),
{
    if c.finished {
        Step::Close
    } else if c.first {
        Step::Send
    } else {
        Step::Wait
    }
}

/// The step after a wait ended with `w`.
pub open spec fn woke_of(w: Wake) -> Step {
    match w {
        Wake::Changed => Step::Send,
        Wake::Gone => Step::Close,
        Wake::Quiet => Step::KeepAlive,
    }
}

pub fn woke(w: Wake) -> (res: Step)
    ensures
        res == woke_of(w),
{
    match w {
        Wake::Changed => Step::Send,
        Wake::Gone => Step::Close,
        Wake::Quiet => Step::KeepAlive,
    }
}

/// The comment that keeps a quiet connection open.
pub fn keep_alive() -> (res: &'static str)
    ensures
        res@ == ": keep-alive\n\n"@,
{
    ": keep-alive\n\n"
}

/// The event a state is sent as.
pub open spec fn event_of(s: Status) -> Seq<char> {
    match s {
        Status::Done => "done"@,
        Status::Error => "error"@,
        Status::Cancelled => "cancelled"@,
        Status::Queued | Status::Running => "progress"@,
    }
}

pub fn event_name(s: Status) -> (res: &'static str)
    ensures
        res@ == event_of(s),
{
    match s {
        Status::Done => "done",
        Status::Error => "error",
        Status::Cancelled => "cancelled",
        Status::Queued | Status::Running => "progress",
    }
}

/// The frame that sends a state of status `s` whose JSON is `data`; the
/// first frame of a stream also tells the client to wait 3 s before
/// reconnecting.
pub open spec fn frame_of(first: bool, s: Status, data: Seq<char>) -> Seq<char> {
    (if first {
        "retry: 3000\n\n"@
    } else {
        Seq::empty()
    }) + "event: "@ + event_of(s) + "\ndata: "@ + data + "\n\n"@
}

/// Sends a state of status `s`, whose JSON is `data`: the frame, and where
/// the stream stands after it.
pub fn emit(c: Cursor, s: Status, data: &str) -> (res: (Cursor, String))
    ensures
        res.0 == (Cursor { first: false, finished: finished(s) }),
        res.1@ == frame_of(c.first, s, data@),
{
    let mut out = String::new();
    if c.first {
        push_str(&mut out, "retry: 3000\n\n");
    }
    push_str(&mut out, "event: ");
    push_str(&mut out, event_name(s));
    push_str(&mut out, "\ndata: ");
    push_str(&mut out, data);
    push_str(&mut out, "\n\n");
    assert(out@ =~= frame_of(c.first, s, data@));
    (Cursor { first: false, finished: s.is_finished() }, out)
}

/// A stream's first step sends the job's current state, without waiting.
pub proof fn lemma_opens_with_current_state()
    ensures
        poll_of(Cursor { first: true, finished: false }) == Step::Send,
{
}

/// Only a final state ends the stream: the event it goes out as is `done`,
/// `error` or `cancelled`, and the stream closes right after it; any other
/// state goes out as `progress` and the stream waits for the next change.
pub proof fn lemma_last_event_is_final(c: Cursor, s: Status)
    ensures
        finished(s) ==> poll_of(Cursor { first: false, finished: finished(s) }) == Step::Close
            && (event_of(s) == "done"@ || event_of(s) == "error"@ || event_of(s)
            == "cancelled"@),
        !finished(s) ==> poll_of(Cursor { first: false, finished: finished(s) }) == Step::Wait
            && event_of(s) == "progress"@,
{
}

} // verus!
