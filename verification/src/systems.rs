//! A small library-provided system: it counts the ticks it receives and
//! stops itself once a fixed number have arrived. It is the consuming half
//! of a printing system — the side effect stays with the caller, the stop
//! decision lives here — and a convenient probe for how often a system was
//! stepped.

use vstd::prelude::*;

use crate::State;
use crate::System;

verus! {

/// A system that stays alive for a fixed number of ticks: it requests its
/// own removal on the tick that brings its count up to its limit.
pub struct StopAfter {
    limit: u32,
    count: u32,
}

impl StopAfter {
    /// The number of ticks after which the system stops itself.
    pub closed spec fn spec_limit(self) -> u32 {
        self.limit
    }

    /// How many ticks the system has received so far.
    pub closed spec fn spec_count(self) -> u32 {
        self.count
    }

    /// A system that will stop itself on the `limit`-th tick it receives.
    pub fn new(limit: u32) -> (s: Self)
        ensures
            s.spec_limit() == limit,
            s.spec_count() == 0,
    {
        StopAfter { limit, count: 0 }
    }

    /// The number of ticks after which the system stops itself.
    pub fn limit(&self) -> (r: u32)
        ensures
            r == self.spec_limit(),
    {
        self.limit
    }

    /// How many ticks the system has received so far.
    pub fn count(&self) -> (r: u32)
        ensures
            r == self.spec_count(),
    {
        self.count
    }

    /// Counts one received tick: the count grows until it reaches the limit,
    /// and the answer is `Stopped` exactly when the limit is reached.
    pub fn tick(&mut self) -> (r: State)
        ensures
            final(self).spec_limit() == old(self).spec_limit(),
            final(self).spec_count() == if old(self).spec_count() < old(self).spec_limit() {
                old(self).spec_count() + 1
            } else {
                old(self).spec_count() as int
            },
            r == State::Stopped <==> final(self).spec_count() >= final(self).spec_limit(),
    {
        if self.count < self.limit {
            self.count = self.count + 1;
        }
        if self.count >= self.limit {
            State::Stopped
        } else {
            State::Running
        }
    }
}

impl System for StopAfter {
    /// Ignores the derived values; only the number of ticks matters.
    fn step(&mut self, _values: &Vec<Vec<u8>>) -> State {
        self.tick()
    }
}

} // verus!
