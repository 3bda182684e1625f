//! Small geometry helpers: a two-dimensional integer coordinate with the
//! pixel-to-cell arithmetic the game uses to map pointer positions onto
//! grid cells.
use vstd::prelude::*;

verus! {

use vstd::arithmetic::div_mod::lemma_fundamental_div_mod;
use vstd::arithmetic::div_mod::lemma_fundamental_div_mod_converse;

/// A coordinate pair of 16-bit integers.
#[derive(Debug, Clone, Copy, PartialEq, Eq, Structural, Hash)]
pub struct Coord {
    pub x: i16,
    pub y: i16,
}

/// A value clamped into `[lo, hi]`, the lower bound applied first: when
/// `lo > hi`, the upper bound wins.
pub open spec fn clamped(v: int, lo: int, hi: int) -> int {
    let raised = if v < lo {
        lo
    } else {
        v
    };
    if raised > hi {
        hi
    } else {
        raised
    }
}

/// Floored division of a 16-bit value by a positive 16-bit divisor.
fn floor_div_i16(a: i16, b: i16) -> (q: i16)
    requires
        b > 0,
    ensures
        q == a as int / b as int,
{
    if a >= 0 {
        let q0: u32 = (a as u32) / (b as u32);
        proof {
            assert(q0 == a as int / b as int);
            assert(a as int / b as int <= a as int) by {
                vstd::arithmetic::div_mod::lemma_div_nonincreasing(a as int, b as int);
            }
            assert(a as int / b as int >= 0) by {
                vstd::arithmetic::div_mod::lemma_div_pos_is_pos(a as int, b as int);
            }
        }
        q0 as i16
    } else {
        let n: u32 = (-(a as i32)) as u32;
        let bu: u32 = b as u32;
        let q0: u32 = n / bu;
        let r0: u32 = n % bu;
        proof {
            lemma_fundamental_div_mod(n as int, bu as int);
            assert(q0 <= n) by (nonlinear_arith)
                requires
                    q0 == n as int / bu as int,
                    n == (q0 as int) * (bu as int) + r0,
                    bu >= 1,
                    r0 >= 0,
            ;
            if r0 == 0 {
                assert(a as int == (-(q0 as int)) * (b as int) + 0) by (nonlinear_arith)
                    requires
                        a as int == -(n as int),
                        n == (q0 as int) * (bu as int) + r0,
                        r0 == 0,
                        bu == b as int,
                ;
                lemma_fundamental_div_mod_converse(a as int, b as int, -(q0 as int), 0);
            } else {
                assert(q0 * bu < n) by (nonlinear_arith)
                    requires
                        n == (q0 as int) * (bu as int) + r0,
                        r0 > 0,
                ;
                assert(q0 as int * bu as int >= q0) by (nonlinear_arith)
                    requires
                        bu >= 1,
                        q0 >= 0,
                ;
                assert(a as int == (-(q0 as int) - 1) * (b as int) + (bu - r0)) by (
                nonlinear_arith)
                    requires
                        a as int == -(n as int),
                        n == (q0 as int) * (bu as int) + r0,
                        bu == b as int,
                ;
                lemma_fundamental_div_mod_converse(
                    a as int,
                    b as int,
                    -(q0 as int) - 1,
                    bu as int - r0 as int,
                );
            }
        }
        if r0 == 0 {
            (-(q0 as i32)) as i16
        } else {
            (-(q0 as i32) - 1) as i16
        }
    }
}

impl Coord {
    /// The cell index that a pixel offset falls into: floored division,
    /// coordinate by coordinate, by a positive cell size.
    pub fn floor_frac(self, rhs: Coord) -> (r: Coord)
        requires
            rhs.x > 0,
            rhs.y > 0,
        ensures
            r.x == self.x as int / rhs.x as int,
            r.y == self.y as int / rhs.y as int,
    {
        Coord { x: floor_div_i16(self.x, rhs.x), y: floor_div_i16(self.y, rhs.y) }
    }

    /// Both coordinates clamped into the box spanned by `lower` and
    /// `upper`, the lower bound applied first.
    pub fn normalize(self, lower: Coord, upper: Coord) -> (r: Coord)
        ensures
            r.x == clamped(self.x as int, lower.x as int, upper.x as int),
            r.y == clamped(self.y as int, lower.y as int, upper.y as int),
    {
        let mut out = self;
        if out.x < lower.x {
            out.x = lower.x;
        }
        if out.x > upper.x {
            out.x = upper.x;
        }
        if out.y < lower.y {
            out.y = lower.y;
        }
        if out.y > upper.y {
            out.y = upper.y;
        }
        out
    }

    pub fn is_zero(&self) -> (r: bool)
        ensures
            r == (self.x == 0 && self.y == 0),
    {
        self.x == 0 && self.y == 0
    }
}

} // verus!
