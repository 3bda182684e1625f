//! The one piece of the game model that the persistence layer reports back
//! to its caller: how many full lines a move cleared in each direction.
use vstd::prelude::*;

verus! {

/// A count of cleared lines, per axis.
#[derive(Clone, Copy, PartialEq, Eq, Structural, Debug)]
pub struct Lines {
    pub x: u32,
    pub y: u32,
}

impl Lines {
    pub fn empty() -> (r: Lines)
        ensures
            r.x == 0 && r.y == 0,
    {
        Lines { x: 0, y: 0 }
    }

    pub fn not_empty(self) -> (r: bool)
        ensures
            r == (self.x != 0 || self.y != 0),
    {
        self.x != 0 || self.y != 0
    }
}

} // verus!
