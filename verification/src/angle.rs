//! Circular (wrap-around) angular arithmetic.
//!
//! Azimuths are fixed-point angles: a value in `[0, turn)`, where `turn` is
//! the number of angle units in one full circle.  All distances here are
//! expressed in the same units.

use vstd::prelude::*;

verus! {

/// Angular distance from `a` to `b` walking in the direction of increasing
/// azimuth, wrapping from `turn` back to `0`.
pub open spec fn arc_up(a: int, b: int, turn: int) -> int {
    if b >= a {
        b - a
    } else {
        b + turn - a
    }
}

/// Circular angular distance between `a` and `b`: the shorter of the two
/// arcs that join them.
pub open spec fn circ_dist(a: int, b: int, turn: int) -> int {
    if arc_up(a, b, turn) <= arc_up(b, a, turn) {
        arc_up(a, b, turn)
    } else {
        arc_up(b, a, turn)
    }
}

/// Wrap-around correctness: two azimuths just on either side of the 0/turn
/// boundary are separated by the short arc across the boundary, not by the
/// long way around the circle.
pub proof fn lemma_wrap_around(eps: int, turn: int)
    requires
        0 < eps,
        4 * eps <= turn,
    ensures
        circ_dist(eps, turn - eps, turn) == 2 * eps,
{
}

} // verus!
