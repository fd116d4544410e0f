//! What the application remembers about itself between runs: which layouts
//! of the session file it can read, which window rectangle is worth keeping,
//! and when a moving window's position is worth writing down.

use vstd::prelude::*;

verus! {

/// The layout this program writes. Version 2 added the recent list;
/// version 3 adds the panel split.
pub const VERSION: u32 = 3;

/// Whether a session file of layout `version` can be read: every layout so
/// far only added fields, so each older one reads into the current shape.
pub fn readable(version: u32) -> (readable: bool)
    ensures
        readable == (version == 1 || version == 2 || version == VERSION),
{
    version == 1 || version == 2 || version == VERSION
}

/// Whether the window was left maximized or fullscreen.
#[derive(Debug, Clone, Copy, PartialEq, Eq, Structural)]
pub enum WindowState {
    Normal,
    Maximized,
    Fullscreen,
}

impl Default for WindowState {
    fn default() -> (state: Self)
        ensures
            state == WindowState::Normal,
    {
        WindowState::Normal
    }
}

/// The rectangle to come back to, given what the window reports now: only an
/// ordinary window's report says what size it would return to.
pub fn restore_rectangle<G>(reported: G, state: WindowState) -> (kept: Option<G>)
    ensures
        kept == (if state == WindowState::Normal { Some(reported) } else { None }),
{
    match state {
        WindowState::Normal => Some(reported),
        _ => None,
    }
}

/// Shortest gap between two writes, in milliseconds.
pub const INTERVAL_MILLIS: u64 = 500;

/// When to write a stream of window positions: at most once per
/// [`INTERVAL_MILLIS`], timed from the last attempt (so a failure that
/// persists does not turn into an attempt on every frame), and never for a
/// position the file already holds. Times are milliseconds on one clock.
pub struct Schedule {
    pending: bool,
    last_attempt: Option<u64>,
}

/// Whether enough time has passed since `last` for another write at `now`;
/// a clock read before `last` counts as no time at all.
pub open spec fn due(last: Option<u64>, now: u64) -> bool {
    match last {
        None => true,
        Some(last) => now >= last && now - last >= INTERVAL_MILLIS,
    }
}

impl Schedule {
    /// Whether an offer newer than the file is waiting to be written.
    pub closed spec fn waiting(self) -> bool {
        self.pending
    }

    /// When a write was last attempted.
    pub closed spec fn attempted_at(self) -> Option<u64> {
        self.last_attempt
    }

    pub fn new() -> (schedule: Self)
        ensures
            !schedule.waiting(),
            schedule.attempted_at() is None,
    {
        Schedule { pending: false, last_attempt: None }
    }

    /// A position was offered; `unchanged` when it is the one the file holds.
    /// Answers whether to write it now.
    pub fn offer(&mut self, unchanged: bool, now: u64) -> (write: bool)
        ensures
            final(self).attempted_at() == old(self).attempted_at(),
            unchanged ==> !final(self).waiting() && !write,
            !unchanged ==> final(self).waiting() && write == due(old(self).attempted_at(), now),
    {
        if unchanged {
            self.pending = false;
            return false;
        }
        self.pending = true;
        match self.last_attempt {
            None => true,
            Some(last) => now >= last && now - last >= INTERVAL_MILLIS,
        }
    }

    /// The window is closing: whether anything is left to write.
    pub fn flush(&self) -> (write: bool)
        ensures
            write == self.waiting(),
    {
        self.pending
    }

    /// A write was attempted at `now`; `saved` when it reached the disk. A
    /// write that did not happen stays pending for the next chance.
    pub fn attempted(&mut self, now: u64, saved: bool)
        ensures
            final(self).attempted_at() == Some(now),
            final(self).waiting() == (old(self).waiting() && !saved),
    {
        self.last_attempt = Some(now);
        if saved {
            self.pending = false;
        }
    }
}

/// A failed write is not retried until the interval has passed, however
/// many positions are offered meanwhile; one that succeeded leaves nothing
/// pending.
pub proof fn lemma_attempts_are_spaced(attempt: u64, now: u64)
    requires
        attempt <= now < attempt + INTERVAL_MILLIS,
    ensures
        !due(Some(attempt), now),
        due(Some(attempt), (attempt + INTERVAL_MILLIS) as u64) || attempt + INTERVAL_MILLIS > u64::MAX,
{
}

} // verus!
