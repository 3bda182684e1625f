//! A small xorshift pseudo-random generator, used to pick figures for the
//! basket refill.
use vstd::prelude::*;

verus! {

/// One step of the 13/17/5 xorshift recurrence on a 32-bit state.
pub open spec fn xorshift_step(s: u32) -> u32 {
    let a = s ^ (s << 13u32);
    let b = a ^ (a >> 17u32);
    b ^ (b << 5u32)
}

/// A xorshift generator: the whole state is one 32-bit word.
pub struct Random(u32);

impl Random {
    /// The current state word.
    pub closed spec fn state(&self) -> u32 {
        self.0
    }

    pub fn new(seed: u32) -> (r: Random)
        ensures
            r.state() == seed,
    {
        Random(seed)
    }

    /// Advances the state by one xorshift step and returns the new state.
    pub fn rand(&mut self) -> (r: u32)
        ensures
            r == xorshift_step(old(self).state()),
            final(self).state() == r,
    {
        self.0 = self.0 ^ (self.0 << 13u32);
        self.0 = self.0 ^ (self.0 >> 17u32);
        self.0 = self.0 ^ (self.0 << 5u32);
        self.0
    }
}

} // verus!
