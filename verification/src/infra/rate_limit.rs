//! The spacing rule of the rate limiter.
//!
//! MangaDex limits requests. The limiter in the program serialises the
//! callers of a shared resource and sleeps between them; this window decides
//! how long a caller waits and when the next one may go. Times are counted in
//! nanoseconds from the creation of the limiter.

use vstd::prelude::*;

verus! {

/// The next instant at which a call may proceed, and the minimum distance
/// between two releases.
#[derive(Clone, Copy, Debug)]
pub struct RateWindow {
    /// Minimum distance between two releases, in nanoseconds.
    pub min_interval_ns: u128,
    /// Earliest time of the next release, in nanoseconds.
    pub next_available_ns: u128,
}

/// How long a call that arrives at `now` waits before it is released.
pub open spec fn wait_for(next_available: nat, now: nat) -> nat {
    if next_available > now {
        (next_available - now) as nat
    } else {
        0
    }
}

impl RateWindow {
    /// A window whose first call may proceed at once.
    pub fn new(min_interval_ns: u128) -> (r: RateWindow)
        ensures
            r.min_interval_ns == min_interval_ns,
            r.next_available_ns == 0,
    {
        RateWindow { min_interval_ns, next_available_ns: 0 }
    }

    /// How long a call arriving at `now_ns` waits.
    pub fn delay_before(&self, now_ns: u128) -> (r: u128)
        ensures
            r as nat == wait_for(self.next_available_ns as nat, now_ns as nat),
    {
        if self.next_available_ns > now_ns {
            self.next_available_ns - now_ns
        } else {
            0
        }
    }

    /// Records a release at `released_ns`: the next call may proceed one
    /// minimum interval later.
    pub fn release(&mut self, released_ns: u128)
        requires
            released_ns + old(self).min_interval_ns <= u128::MAX,
        ensures
            final(self).min_interval_ns == old(self).min_interval_ns,
            final(self).next_available_ns == released_ns + old(self).min_interval_ns,
    {
        self.next_available_ns = released_ns + self.min_interval_ns;
    }
}

/// Two consecutive releases are at least one minimum interval apart: after a
/// release at `first`, a call that arrives at `now` and is released at
/// `second` no earlier than its wait allows is released no earlier than
/// `first + min_interval`.
pub proof fn lemma_releases_spaced(min_interval: nat, first: nat, now: nat, second: nat)
    requires
        now >= first,
        second >= now + wait_for(first + min_interval, now),
    ensures
        second >= first + min_interval,
{
}

} // verus!
