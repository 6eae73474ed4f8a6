//! The monotonic tick counter.
//!
//! The timer interrupt increments it once per tick; everyone else only
//! reads it.  The counter itself is plain; making it an interrupt-safe
//! atomic cell is the runtime's side.

use vstd::prelude::*;

verus! {

/// Ticks per second the timer is calibrated to.
pub const TICK_FREQ: u32 = 1000;

/// Number of ticks since the system booted.
pub struct Ticks {
    pub count: u64,
}

impl Ticks {
    pub fn new() -> (r: Ticks)
        ensures
            r.count == 0,
    {
        Ticks { count: 0 }
    }

    pub fn get(&self) -> (r: u64)
        ensures
            r == self.count,
    {
        self.count
    }

    /// One more tick: the counter never decreases.
    pub fn inc(&mut self)
        requires
            old(self).count < u64::MAX,
        ensures
            final(self).count == old(self).count + 1,
    {
        self.count = self.count + 1;
    }
}

} // verus!
