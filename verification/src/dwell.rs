//! When the cursor has rested on a message long enough for it to count as
//! read.
//!
//! One number and one rule, shared. The rule protects a signal that cannot be
//! recovered once it is gone: a client that marks on arrival destroys unread
//! state the first time somebody scrolls a mailbox end to end. The *timer*
//! stays with each toolkit.
use vstd::prelude::*;

verus! {

/// How long the cursor rests on a message before it counts as read, in
/// milliseconds.
///
/// A second is about the shortest value that cleanly separates a sweep from
/// reading: a held key repeats roughly every 30ms, so a sweep of fifty
/// messages rests nowhere and marks nothing.
pub const DWELL_TO_READ: u64 = 1_000;

/// What a frontend should do about a cursor that has just moved.
///
/// The arming rule *and* the delay, together, so a frontend cannot arm a
/// clock without having asked.
#[derive(Debug, Clone, Copy, PartialEq, Eq, Structural)]
pub enum Arm {
    /// Cancel whatever is running and start a clock on this message.
    Start {
        /// The message the cursor landed on.
        message: i64,
        /// How long to wait before it counts as read, in milliseconds.
        after: u64,
    },
    /// Cancel whatever is running and start nothing.
    Cancel,
}

/// What to do when the cursor lands on `message`.
///
/// `None` means the cursor is nowhere, or on a row still being read. Both
/// cancel: a clock armed against an unknown message would mark whichever one
/// arrived first.
pub fn on_cursor(message: Option<i64>) -> (out: Arm)
    ensures
        out == (match message {
            Some(message) => Arm::Start { message, after: DWELL_TO_READ },
            None => Arm::Cancel,
        }),
{
    match message {
        Some(message) => Arm::Start { message, after: DWELL_TO_READ },
        None => Arm::Cancel,
    }
}

} // verus!
