//! Ordered ring storage: one display ring's members, kept sorted by azimuth,
//! with nearest-neighbor-by-angle queries and the wrap-around overlap test.
//!
//! Members are held in a vector sorted strictly ascending by azimuth, so the
//! ordered-map queries of the placement algorithm are binary searches.

use vstd::prelude::*;

use crate::angle::{arc_up, circ_dist};
use crate::target::Target;

verus! {

/// Members are strictly ascending by azimuth: azimuths are unique keys.
pub open spec fn sorted_by_azimuth(s: Seq<Target>) -> bool {
    forall|i: int, j: int| 0 <= i < j < s.len() ==> s[i].azimuth < s[j].azimuth
}

/// Every member's azimuth lies in `[0, turn)`.
pub open spec fn all_below(s: Seq<Target>, turn: int) -> bool {
    forall|i: int| 0 <= i < s.len() ==> s[i].azimuth < turn
}

/// A well-formed ring: unique sorted azimuths, all within one turn.
pub open spec fn ring_wf(s: Seq<Target>, turn: int) -> bool {
    sorted_by_azimuth(s) && all_below(s, turn)
}

/// The position of the first member whose azimuth is at or above `az`
/// (`s.len()` if there is none): the rank of `az` among the members.
pub open spec fn spec_lower_bound(s: Seq<Target>, az: int) -> int
    decreases s.len(),
{
    if s.len() == 0 {
        0
    } else if s[0].azimuth < az {
        1 + spec_lower_bound(s.drop_first(), az)
    } else {
        0
    }
}

/// An azimuth's rank is always between 0 and the number of members.
pub proof fn lemma_lower_bound_in_range(s: Seq<Target>, az: int)
    ensures
        0 <= spec_lower_bound(s, az) <= s.len(),
    decreases s.len(),
{
    if s.len() > 0 && s[0].azimuth < az {
        lemma_lower_bound_in_range(s.drop_first(), az);
    }
}

/// On a sorted ring, the rank splits the members into those strictly below
/// `az` and those at or above it.
pub proof fn lemma_lower_bound_props(s: Seq<Target>, az: int)
    requires
        sorted_by_azimuth(s),
    ensures
        0 <= spec_lower_bound(s, az) <= s.len(),
        forall|j: int| 0 <= j < spec_lower_bound(s, az) ==> s[j].azimuth < az,
        forall|j: int| spec_lower_bound(s, az) <= j < s.len() ==> s[j].azimuth >= az,
    decreases s.len(),
{
    lemma_lower_bound_in_range(s, az);
    if s.len() == 0 {
    } else if s[0].azimuth < az {
        let rest = s.drop_first();
        assert(sorted_by_azimuth(rest)) by {
            assert forall|i: int, j: int| 0 <= i < j < rest.len() implies rest[i].azimuth
                < rest[j].azimuth by {
                assert(s[i + 1].azimuth < s[j + 1].azimuth);
            }
        }
        lemma_lower_bound_props(rest, az);
        let lb = spec_lower_bound(s, az);
        assert forall|j: int| 0 <= j < lb implies s[j].azimuth < az by {
            if j > 0 {
                assert(rest[j - 1].azimuth < az);
            }
        }
        assert forall|j: int| lb <= j < s.len() implies s[j].azimuth >= az by {
            assert(rest[j - 1].azimuth >= az);
        }
    } else {
        assert forall|j: int| 0 <= j < s.len() implies s[j].azimuth >= az by {
            if j > 0 {
                assert(s[0].azimuth < s[j].azimuth);
            }
        }
    }
}

/// The rank is the only position with members below `az` on its left and
/// members at or above `az` on its right.
pub proof fn lemma_lower_bound_unique(s: Seq<Target>, az: int, r: int)
    requires
        sorted_by_azimuth(s),
        0 <= r <= s.len(),
        forall|j: int| 0 <= j < r ==> s[j].azimuth < az,
        forall|j: int| r <= j < s.len() ==> s[j].azimuth >= az,
    ensures
        r == spec_lower_bound(s, az),
{
    lemma_lower_bound_props(s, az);
    let lb = spec_lower_bound(s, az);
    if r < lb {
        assert(s[r].azimuth < az);
        assert(s[r].azimuth >= az);
    }
    if lb < r {
        assert(s[lb].azimuth < az);
        assert(s[lb].azimuth >= az);
    }
}

/// Distance from `az`, walking in the direction of increasing azimuth and
/// wrapping at `turn`, to the nearest member in that direction: the successor
/// if one exists, and otherwise around the boundary to the smallest member.
pub open spec fn succ_gap(s: Seq<Target>, az: int, turn: int) -> int
    recommends
        s.len() > 0,
{
    let lb = spec_lower_bound(s, az);
    if lb < s.len() {
        s[lb].azimuth - az
    } else {
        s[0].azimuth + turn - az
    }
}

/// Distance from `az`, walking in the direction of decreasing azimuth and
/// wrapping at `0`, to the nearest member in that direction: the predecessor
/// if one exists, and otherwise around the boundary to the largest member.
pub open spec fn pred_gap(s: Seq<Target>, az: int, turn: int) -> int
    recommends
        s.len() > 0,
{
    let lb = spec_lower_bound(s, az);
    if lb > 0 {
        az - s[lb - 1].azimuth
    } else {
        az + turn - s[s.len() - 1].azimuth
    }
}

/// `az` keeps a circular distance of at least `min_sep` to every member.
pub open spec fn spec_fits(s: Seq<Target>, az: int, min_sep: int, turn: int) -> bool {
    forall|i: int|
        0 <= i < s.len() ==> circ_dist(#[trigger] s[i].azimuth as int, az, turn) >= min_sep
}

/// No-overlap invariant of one ring: every pair of distinct members keeps a
/// circular distance of at least `min_sep`.
pub open spec fn ring_ok(s: Seq<Target>, min_sep: int, turn: int) -> bool {
    forall|i: int, j: int|
        0 <= i < s.len() && 0 <= j < s.len() && i != j ==> circ_dist(
            #[trigger] s[i].azimuth as int,
            #[trigger] s[j].azimuth as int,
            turn,
        ) >= min_sep
}

/// The overlap test needs only the two neighbors of `az`: on a non-empty
/// well-formed ring, `az` keeps `min_sep` of circular distance to every
/// member exactly when both its successor gap and its predecessor gap are at
/// least `min_sep`.
pub proof fn lemma_fits_equiv_neighbor_checks(s: Seq<Target>, az: int, min_sep: int, turn: int)
    requires
        ring_wf(s, turn),
        s.len() > 0,
        0 <= az < turn,
        0 <= min_sep <= turn,
    ensures
        spec_fits(s, az, min_sep, turn) <==> succ_gap(s, az, turn) >= min_sep && pred_gap(
            s,
            az,
            turn,
        ) >= min_sep,
{
    lemma_lower_bound_props(s, az);
    let lb = spec_lower_bound(s, az);
    let sg = succ_gap(s, az, turn);
    let pg = pred_gap(s, az, turn);
    if sg >= min_sep && pg >= min_sep {
        assert forall|i: int| 0 <= i < s.len() implies circ_dist(
            #[trigger] s[i].azimuth as int,
            az,
            turn,
        ) >= min_sep by {
            let m = s[i].azimuth as int;
            if i >= lb {
                assert(s[lb].azimuth <= m) by {
                    if lb < i {
                        assert(s[lb].azimuth < s[i].azimuth);
                    }
                }
                if m == az {
                    // a member sits exactly at `az`, so the successor gap is
                    // zero and only `min_sep == 0` admits the hypothesis
                    assert(sg == 0);
                } else {
                    // up-arc: reached at or after the successor
                    assert(arc_up(az, m, turn) >= sg);
                    // down-arc: reached at or after the predecessor
                    if lb > 0 {
                        assert(arc_up(m, az, turn) == az + turn - m >= pg);
                    } else {
                        assert(m <= s[s.len() - 1].azimuth) by {
                            if i < s.len() - 1 {
                                assert(s[i].azimuth < s[s.len() - 1].azimuth);
                            }
                        }
                        assert(arc_up(m, az, turn) >= pg);
                    }
                }
            } else {
                // member strictly below `az`
                assert(m < az);
                assert(s[0].azimuth <= m) by {
                    if 0 < i {
                        assert(s[0].azimuth < s[i].azimuth);
                    }
                }
                // down-arc: reached at or after the predecessor
                assert(arc_up(m, az, turn) == az - m >= pg) by {
                    assert(m <= s[lb - 1].azimuth) by {
                        if i < lb - 1 {
                            assert(s[i].azimuth < s[lb - 1].azimuth);
                        }
                    }
                }
                // up-arc: goes the long way around, past the successor
                if lb < s.len() {
                    assert(arc_up(az, m, turn) == m + turn - az >= sg);
                } else {
                    assert(arc_up(az, m, turn) >= sg);
                }
            }
        }
    }
    if spec_fits(s, az, min_sep, turn) {
        if lb < s.len() {
            assert(circ_dist(s[lb].azimuth as int, az, turn) >= min_sep);
            assert(sg >= min_sep);
        } else {
            assert(circ_dist(s[0].azimuth as int, az, turn) >= min_sep);
            assert(sg >= min_sep);
        }
        if lb > 0 {
            assert(circ_dist(s[lb - 1].azimuth as int, az, turn) >= min_sep);
            assert(pg >= min_sep);
        } else {
            let m = s[s.len() - 1].azimuth as int;
            assert(circ_dist(m, az, turn) >= min_sep);
            if m == az {
                // the largest member sits exactly at `az`: the wrap-around
                // predecessor gap is a full turn
                assert(pg == turn);
            } else {
                assert(pg >= min_sep);
            }
        }
    }
}

/// Inserting an azimuth that fits cannot duplicate a key: a duplicate would
/// sit at circular distance zero.
pub proof fn lemma_fits_no_duplicate(s: Seq<Target>, az: int, min_sep: int, turn: int)
    requires
        all_below(s, turn),
        0 <= az < turn,
        1 <= min_sep,
        spec_fits(s, az, min_sep, turn),
    ensures
        forall|j: int| 0 <= j < s.len() ==> #[trigger] s[j].azimuth != az,
{
    assert forall|j: int| 0 <= j < s.len() implies #[trigger] s[j].azimuth != az by {
        if s[j].azimuth == az {
            assert(circ_dist(s[j].azimuth as int, az, turn) == 0);
        }
    }
}

/// Inserting a fresh azimuth at its rank keeps the members strictly sorted.
pub proof fn lemma_insert_sorted(s: Seq<Target>, t: Target)
    requires
        sorted_by_azimuth(s),
        forall|j: int| 0 <= j < s.len() ==> #[trigger] s[j].azimuth != t.azimuth,
    ensures
        sorted_by_azimuth(s.insert(spec_lower_bound(s, t.azimuth as int), t)),
{
    lemma_lower_bound_props(s, t.azimuth as int);
    let lb = spec_lower_bound(s, t.azimuth as int);
    s.insert_ensures(lb, t);
    let s2 = s.insert(lb, t);
    assert forall|i: int, j: int| 0 <= i < j < s2.len() implies s2[i].azimuth
        < s2[j].azimuth by {
        if i < lb && j < lb {
            assert(s2[i] == s[i] && s2[j] == s[j]);
        } else if i < lb && j == lb {
            assert(s2[i] == s[i] && s2[j] == t);
        } else if i < lb && j > lb {
            assert(s2[i] == s[i] && s2[j] == s[j - 1]);
            if i < j - 1 {
                assert(s[i].azimuth < s[j - 1].azimuth);
            }
        } else if i == lb {
            assert(s2[i] == t && s2[j] == s[j - 1]);
            assert(s[j - 1].azimuth >= t.azimuth && s[j - 1].azimuth != t.azimuth);
        } else {
            assert(s2[i] == s[i - 1] && s2[j] == s[j - 1]);
        }
    }
}

/// Inserting a fresh azimuth below `turn` keeps the ring well formed.
pub proof fn lemma_insert_wf(s: Seq<Target>, t: Target, turn: int)
    requires
        ring_wf(s, turn),
        t.azimuth < turn,
        forall|j: int| 0 <= j < s.len() ==> #[trigger] s[j].azimuth != t.azimuth,
    ensures
        ring_wf(s.insert(spec_lower_bound(s, t.azimuth as int), t), turn),
{
    lemma_insert_sorted(s, t);
    lemma_lower_bound_props(s, t.azimuth as int);
    let lb = spec_lower_bound(s, t.azimuth as int);
    s.insert_ensures(lb, t);
    let s2 = s.insert(lb, t);
    assert forall|i: int| 0 <= i < s2.len() implies s2[i].azimuth < turn by {
        if i < lb {
            assert(s2[i] == s[i]);
        } else if i == lb {
            assert(s2[i] == t);
        } else {
            assert(s2[i] == s[i - 1]);
        }
    }
}

/// No-overlap preservation: placing a target that fits keeps every pair of
/// members separated, old pairs and new ones alike.
pub proof fn lemma_insert_keeps_ok(s: Seq<Target>, t: Target, min_sep: int, turn: int)
    requires
        ring_wf(s, turn),
        t.azimuth < turn,
        1 <= min_sep,
        ring_ok(s, min_sep, turn),
        spec_fits(s, t.azimuth as int, min_sep, turn),
    ensures
        ring_wf(s.insert(spec_lower_bound(s, t.azimuth as int), t), turn),
        ring_ok(s.insert(spec_lower_bound(s, t.azimuth as int), t), min_sep, turn),
        forall|j: int| 0 <= j < s.len() ==> #[trigger] s[j].azimuth != t.azimuth,
{
    lemma_fits_no_duplicate(s, t.azimuth as int, min_sep, turn);
    lemma_insert_wf(s, t, turn);
    lemma_lower_bound_props(s, t.azimuth as int);
    let lb = spec_lower_bound(s, t.azimuth as int);
    s.insert_ensures(lb, t);
    let s2 = s.insert(lb, t);
    assert forall|i: int, j: int|
        0 <= i < s2.len() && 0 <= j < s2.len() && i != j implies circ_dist(
        #[trigger] s2[i].azimuth as int,
        #[trigger] s2[j].azimuth as int,
        turn,
    ) >= min_sep by {
        let oi: int = if i < lb { i } else { i - 1 };
        let oj: int = if j < lb { j } else { j - 1 };
        if i == lb && j == lb {
            // impossible: i != j
        } else if i == lb {
            assert(s2[i] == t && s2[j] == s[oj]);
            assert(circ_dist(s[oj].azimuth as int, t.azimuth as int, turn) >= min_sep);
        } else if j == lb {
            assert(s2[i] == s[oi] && s2[j] == t);
            assert(circ_dist(s[oi].azimuth as int, t.azimuth as int, turn) >= min_sep);
        } else {
            assert(s2[i] == s[oi] && s2[j] == s[oj]);
            assert(circ_dist(s[oi].azimuth as int, s[oj].azimuth as int, turn) >= min_sep);
        }
    }
}

/// One display ring: its members, an ordered mapping from azimuth to target.
pub struct Ring {
    members: Vec<Target>,
}

impl View for Ring {
    type V = Seq<Target>;

    closed spec fn view(&self) -> Seq<Target> {
        self.members@
    }
}

impl Ring {
    /// A new, empty ring.
    pub fn new() -> (r: Ring)
        ensures
            r@ == Seq::<Target>::empty(),
    {
        Ring { members: Vec::new() }
    }

    /// How many members the ring holds.
    pub fn len(&self) -> (n: usize)
        ensures
            n == self@.len(),
    {
        self.members.len()
    }

    /// Whether the ring holds no member.
    pub fn is_empty(&self) -> (b: bool)
        ensures
            b == (self@.len() == 0),
    {
        self.members.len() == 0
    }

    /// The member at position `i` in azimuth order.
    pub fn member(&self, i: usize) -> (t: &Target)
        requires
            i < self@.len(),
        ensures
            *t == self@[i as int],
    {
        &self.members[i]
    }

    /// Binary search for the rank of `az`: the position of the first member
    /// whose azimuth is at or above `az`.
    pub fn lower_bound(&self, az: u64) -> (r: usize)
        requires
            sorted_by_azimuth(self@),
        ensures
            r == spec_lower_bound(self@, az as int),
    {
        let mut lo: usize = 0;
        let mut hi: usize = self.members.len();
        while lo < hi
            invariant
                lo <= hi <= self@.len(),
                sorted_by_azimuth(self@),
                forall|j: int| 0 <= j < lo ==> self@[j].azimuth < az,
                forall|j: int| hi <= j < self@.len() ==> self@[j].azimuth >= az,
            decreases hi - lo,
        {
            let mid = lo + (hi - lo) / 2;
            if self.members[mid].azimuth < az {
                proof {
                    assert forall|j: int| 0 <= j < mid + 1 implies self@[j].azimuth < az by {
                        if j < mid {
                            assert(self@[j].azimuth < self@[mid as int].azimuth);
                        }
                    }
                }
                lo = mid + 1;
            } else {
                proof {
                    assert forall|j: int| mid <= j < self@.len() implies self@[j].azimuth
                        >= az by {
                        if mid < j {
                            assert(self@[mid as int].azimuth < self@[j].azimuth);
                        }
                    }
                }
                hi = mid;
            }
        }
        proof {
            lemma_lower_bound_unique(self@, az as int, lo as int);
        }
        lo
    }

    /// The member with the smallest azimuth at or above `az`, if any.
    pub fn nearest_at_or_above(&self, az: u64) -> (r: Option<&Target>)
        requires
            sorted_by_azimuth(self@),
        ensures
            ({
                let lb = spec_lower_bound(self@, az as int);
                match r {
                    Some(t) => lb < self@.len() && *t == self@[lb],
                    None => lb == self@.len(),
                }
            }),
    {
        let lb = self.lower_bound(az);
        proof {
            lemma_lower_bound_in_range(self@, az as int);
        }
        if lb < self.members.len() {
            Some(&self.members[lb])
        } else {
            None
        }
    }

    /// The member with the largest azimuth strictly below `az`, if any.
    pub fn nearest_below(&self, az: u64) -> (r: Option<&Target>)
        requires
            sorted_by_azimuth(self@),
        ensures
            ({
                let lb = spec_lower_bound(self@, az as int);
                match r {
                    Some(t) => lb > 0 && *t == self@[lb - 1],
                    None => lb == 0,
                }
            }),
    {
        let lb = self.lower_bound(az);
        proof {
            lemma_lower_bound_in_range(self@, az as int);
        }
        if lb > 0 {
            Some(&self.members[lb - 1])
        } else {
            None
        }
    }

    /// The member with the smallest azimuth: the wrap-around successor when
    /// no member lies at or above a query azimuth.
    pub fn smallest(&self) -> (t: &Target)
        requires
            self@.len() > 0,
        ensures
            *t == self@[0],
    {
        &self.members[0]
    }

    /// The member with the largest azimuth: the wrap-around predecessor when
    /// no member lies strictly below a query azimuth.
    pub fn largest(&self) -> (t: &Target)
        requires
            self@.len() > 0,
        ensures
            *t == self@[self@.len() - 1],
    {
        &self.members[self.members.len() - 1]
    }

    /// The overlap test: whether a target at `az` would keep at least
    /// `min_sep` of circular distance to every member of this ring.  Checks
    /// only the two neighbors of `az`, wrapping at the 0/`full_turn`
    /// boundary; the contract says this decides the distance to all members.
    pub fn fits(&self, az: u64, min_sep: u64, full_turn: u64) -> (b: bool)
        requires
            ring_wf(self@, full_turn as int),
            az < full_turn,
            full_turn <= crate::target::MAX_FULL_TURN,
            min_sep <= full_turn,
        ensures
            b == spec_fits(self@, az as int, min_sep as int, full_turn as int),
    {
        let n = self.members.len();
        if n == 0 {
            return true;
        }
        let lb = self.lower_bound(az);
        proof {
            lemma_lower_bound_props(self@, az as int);
        }
        let sg: u64 = if lb < n {
            self.members[lb].azimuth - az
        } else {
            self.members[0].azimuth + full_turn - az
        };
        let pg: u64 = if lb > 0 {
            az - self.members[lb - 1].azimuth
        } else {
            az + full_turn - self.members[n - 1].azimuth
        };
        proof {
            assert(sg == succ_gap(self@, az as int, full_turn as int));
            assert(pg == pred_gap(self@, az as int, full_turn as int));
            lemma_fits_equiv_neighbor_checks(
                self@,
                az as int,
                min_sep as int,
                full_turn as int,
            );
        }
        sg >= min_sep && pg >= min_sep
    }

    /// Inserts a target keyed by its azimuth at its rank, keeping the members
    /// sorted.  A duplicate azimuth is rejected: the ring is left unchanged
    /// and `false` is returned, so no data is silently dropped.
    pub fn insert(&mut self, t: Target) -> (ok: bool)
        requires
            sorted_by_azimuth(old(self)@),
        ensures
            ({
                let lb = spec_lower_bound(old(self)@, t.azimuth as int);
                if exists|j: int|
                    0 <= j < old(self)@.len() && (#[trigger] old(self)@[j].azimuth)
                        == t.azimuth {
                    !ok && final(self)@ == old(self)@
                } else {
                    ok && final(self)@ == old(self)@.insert(lb, t) && sorted_by_azimuth(final(self)@)
                }
            }),
    {
        let lb = self.lower_bound(t.azimuth);
        proof {
            lemma_lower_bound_props(self@, t.azimuth as int);
        }
        if lb < self.members.len() && self.members[lb].azimuth == t.azimuth {
            return false;
        }
        proof {
            assert forall|j: int| 0 <= j < self@.len() implies (#[trigger] self@[j].azimuth)
                != t.azimuth by {
                if j >= lb && lb < self@.len() && j > lb {
                    assert(self@[lb as int].azimuth < self@[j].azimuth);
                }
            }
            lemma_insert_sorted(self@, t);
        }
        self.members.insert(lb, t);
        true
    }
}

} // verus!
