//! Ring geometry: the display radius of each ring, and the guard that keeps
//! the minimum-separation formula well defined.
//!
//! The minimum separation angle itself is `asin(w / sqrt(2) / radius) * 2 *
//! scatter`, a real-valued formula: callers evaluate it in their own
//! arithmetic, convert the results to fixed-point angle units, and hand them
//! to [`crate::target::Config`].  What this module proves is the part that is
//! exact integer arithmetic: the radius rule and the domain guard of `asin`.

use vstd::prelude::*;

verus! {

/// Display radius of ring `ring_index`: rings are evenly spaced at multiples
/// of twice the label width, ring 0 closest to the origin.
pub open spec fn spec_ring_radius(poi_width: int, ring_index: int) -> int {
    (ring_index + 1) * poi_width * 2
}

/// Computes the display radius of a ring.
pub fn ring_radius(poi_width: u64, ring_index: u64) -> (r: u64)
    requires
        ring_index < u64::MAX,
        spec_ring_radius(poi_width as int, ring_index as int) <= u64::MAX,
    ensures
        r == spec_ring_radius(poi_width as int, ring_index as int),
{
    proof {
        assert((ring_index + 1) * poi_width <= (ring_index + 1) * poi_width * 2
            && 0 <= (ring_index + 1) * poi_width) by (nonlinear_arith);
    }
    (ring_index + 1) * poi_width * 2
}

/// Whether the minimum-separation formula is defined for a label of width
/// `poi_width` on a ring of radius `radius`: the argument of `asin`,
/// `poi_width / sqrt(2) / radius`, is at most 1 exactly when
/// `poi_width^2 <= 2 * radius^2`.
pub open spec fn spec_separation_defined(poi_width: int, radius: int) -> bool {
    poi_width * poi_width <= 2 * radius * radius
}

/// Checks the `asin` domain guard: returns true exactly when two labels of
/// width `poi_width` can geometrically coexist on a ring of radius `radius`.
/// A false result is a fatal configuration error: the ring is too small for
/// the label size.
pub fn separation_defined(poi_width: u64, radius: u64) -> (r: bool)
    ensures
        r == spec_separation_defined(poi_width as int, radius as int),
{
    proof {
        assert(poi_width * poi_width + 1 <= u128::MAX && radius * radius <= u128::MAX)
            by (nonlinear_arith)
            requires
                poi_width <= u64::MAX,
                radius <= u64::MAX,
        ;
        assert(2 * (radius as int) * (radius as int) == 2 * ((radius as int) * (radius as int)))
            by (nonlinear_arith);
    }
    let w2: u128 = (poi_width as u128) * (poi_width as u128);
    let r2: u128 = (radius as u128) * (radius as u128);
    if w2 <= r2 {
        true
    } else {
        w2 - r2 <= r2
    }
}

/// Ring monotonicity: ring radii are strictly increasing with ring index.
pub proof fn lemma_ring_radius_monotonic(poi_width: int, i: int, j: int)
    requires
        1 <= poi_width,
        0 <= i < j,
    ensures
        spec_ring_radius(poi_width, i) < spec_ring_radius(poi_width, j),
{
    assert((i + 1) * poi_width * 2 < (j + 1) * poi_width * 2) by (nonlinear_arith)
        requires
            1 <= poi_width,
            0 <= i < j,
    ;
}

/// The radius rule keeps the separation formula defined on every ring: for
/// any positive label width, `asin`'s argument stays within its domain.
pub proof fn lemma_separation_always_defined(poi_width: int, ring_index: int)
    requires
        1 <= poi_width,
        0 <= ring_index,
    ensures
        spec_separation_defined(poi_width, spec_ring_radius(poi_width, ring_index)),
{
    let r = spec_ring_radius(poi_width, ring_index);
    assert(poi_width * poi_width <= 2 * r * r) by (nonlinear_arith)
        requires
            1 <= poi_width,
            0 <= ring_index,
            r == (ring_index + 1) * poi_width * 2,
    ;
}

} // verus!
