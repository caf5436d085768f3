//! Hybrid logical clock: timestamps that follow the wall clock but never go
//! backwards and never fall behind a timestamp seen from a peer.

use vstd::prelude::*;
use crate::primitives::unix_time_millis;

verus! {

/// A hybrid logical clock: the latest timestamp issued or witnessed.
pub struct HybridClock {
    latest: u64,
}

/// The timestamp a tick issues when the clock holds `latest` and the wall
/// clock reads `physical`: the wall clock, unless that is not ahead of
/// `latest`, in which case one past `latest` (saturating at the maximum).
pub open spec fn tick_value(latest: u64, physical: u64) -> u64 {
    let next = if latest == u64::MAX {
        latest
    } else {
        (latest + 1) as u64
    };
    if physical > next {
        physical
    } else {
        next
    }
}

impl View for HybridClock {
    type V = u64;

    closed spec fn view(&self) -> u64 {
        self.latest
    }
}

impl HybridClock {
    /// A clock that has issued nothing.
    pub fn new() -> (res: HybridClock)
        ensures
            res@ == 0,
    {
        HybridClock { latest: 0 }
    }

    /// The latest timestamp issued or witnessed.
    pub fn latest(&self) -> (res: u64)
        ensures
            res == self@,
    {
        self.latest
    }

    /// Issues a timestamp for wall-clock reading `physical`.
    pub fn tick_at(&mut self, physical: u64) -> (res: u64)
        ensures
            res == tick_value(old(self)@, physical),
            final(self)@ == res,
    {
        let next = if self.latest == u64::MAX {
            self.latest
        } else {
            self.latest + 1
        };
        let t = if physical > next {
            physical
        } else {
            next
        };
        self.latest = t;
        t
    }

    /// Issues a timestamp for the current wall-clock time (milliseconds).
    pub fn tick(&mut self) -> (res: u64)
        ensures
            exists|physical: u64| res == tick_value(old(self)@, physical),
            final(self)@ == res,
            res >= old(self)@,
            old(self)@ < u64::MAX ==> res > old(self)@,
    {
        let now = unix_time_millis();
        self.tick_at(now)
    }

    /// Takes note of a timestamp seen from elsewhere.
    pub fn witness(&mut self, remote: u64)
        ensures
            final(self)@ == if remote > old(self)@ {
                remote
            } else {
                old(self)@
            },
    {
        if remote > self.latest {
            self.latest = remote;
        }
    }
}

/// A tick follows the wall clock when it is ahead and otherwise steps one
/// past the latest timestamp: the result is never below the wall-clock
/// reading, is above the latest timestamp (unless that is the largest
/// one), and is the least value with both properties.
pub proof fn lemma_tick_follows_wall_clock(latest: u64, physical: u64)
    ensures
        tick_value(latest, physical) >= physical,
        tick_value(latest, physical) >= latest,
        latest < u64::MAX ==> tick_value(latest, physical) > latest,
        latest < u64::MAX ==> (tick_value(latest, physical) == physical || tick_value(latest, physical) == latest + 1),
        latest == u64::MAX ==> tick_value(latest, physical) == u64::MAX,
        physical > latest + 1 ==> tick_value(latest, physical) == physical,
{
}

/// Successive ticks strictly increase while below the largest timestamp,
/// whatever the wall clock reads each time, even if it goes back.
pub proof fn lemma_ticks_increase(latest: u64, p1: u64, p2: u64)
    requires
        tick_value(latest, p1) < u64::MAX,
    ensures
        tick_value(tick_value(latest, p1), p2) > tick_value(latest, p1),
{
}

} // verus!
