//! The placement algorithm: a greedy, deterministic assignment of targets to
//! rings.  Targets arrive sorted by ascending distance; each one goes to the
//! lowest-indexed ring where it keeps the ring's minimum angular separation
//! to both of its circular neighbors, overflowing outward on conflict.

use vstd::prelude::*;
use vstd::multiset::Multiset;

use crate::ring::{
    ring_ok, ring_wf, spec_fits, spec_lower_bound, Ring,
    lemma_fits_no_duplicate, lemma_insert_keeps_ok, lemma_lower_bound_in_range,
};
use crate::target::{Config, Target};

verus! {

/// Targets are sorted by ascending distance: the precondition the caller
/// supplies, under which the nearest targets fill the innermost rings first.
pub open spec fn sorted_by_dist(s: Seq<Target>) -> bool {
    forall|i: int, j: int| 0 <= i <= j < s.len() ==> s[i].dist <= s[j].dist
}

/// The member sequence of ring `k`; a ring that does not exist yet is empty.
pub open spec fn ring_at(rings: Seq<Seq<Target>>, k: int) -> Seq<Target> {
    if 0 <= k < rings.len() {
        rings[k]
    } else {
        Seq::empty()
    }
}

/// Whether a target at azimuth `az` fits on ring `k` under `cfg`: it keeps
/// ring `k`'s minimum separation to every member placed there so far.
pub open spec fn ring_fits_at(rings: Seq<Seq<Target>>, k: int, az: int, cfg: Config) -> bool {
    spec_fits(ring_at(rings, k), az, cfg.min_seps@[k] as int, cfg.full_turn as int)
}

/// The ring the greedy scan starting at ring `k` picks for azimuth `az`: the
/// lowest index at or above `k` that fits, or `cfg.spec_max_rings()` when
/// every available ring conflicts.
pub open spec fn spec_choose_ring(rings: Seq<Seq<Target>>, az: int, cfg: Config, k: int) -> int
    decreases cfg.spec_max_rings() - k,
{
    if k < 0 || k >= cfg.spec_max_rings() {
        cfg.spec_max_rings()
    } else if ring_fits_at(rings, k, az, cfg) {
        k
    } else {
        spec_choose_ring(rings, az, cfg, k + 1)
    }
}

/// The greedy scan picks the first fitting ring: everything it skipped
/// conflicts, and what it picked (if within bounds) fits.  A scan never
/// passes an absent ring, since an absent ring is empty and fits trivially.
pub proof fn lemma_choose_ring_props(rings: Seq<Seq<Target>>, az: int, cfg: Config, k: int)
    requires
        0 <= k <= cfg.spec_max_rings(),
    ensures
        k <= spec_choose_ring(rings, az, cfg, k) <= cfg.spec_max_rings(),
        forall|j: int|
            k <= j < spec_choose_ring(rings, az, cfg, k) ==> !ring_fits_at(rings, j, az, cfg),
        spec_choose_ring(rings, az, cfg, k) < cfg.spec_max_rings() ==> ring_fits_at(
            rings,
            spec_choose_ring(rings, az, cfg, k),
            az,
            cfg,
        ),
        k <= rings.len() && rings.len() < cfg.spec_max_rings() ==> spec_choose_ring(
            rings,
            az,
            cfg,
            k,
        ) <= rings.len(),
    decreases cfg.spec_max_rings() - k,
{
    if k < cfg.spec_max_rings() && !ring_fits_at(rings, k, az, cfg) {
        lemma_choose_ring_props(rings, az, cfg, k + 1);
    }
}

/// The greedy choice is pinned down by its two properties: no earlier ring
/// fits, and the chosen ring fits (or every ring was exhausted).
pub proof fn lemma_choose_ring_unique(rings: Seq<Seq<Target>>, az: int, cfg: Config, r: int)
    requires
        0 <= r <= cfg.spec_max_rings(),
        forall|j: int| 0 <= j < r ==> !ring_fits_at(rings, j, az, cfg),
        r < cfg.spec_max_rings() ==> ring_fits_at(rings, r, az, cfg),
    ensures
        r == spec_choose_ring(rings, az, cfg, 0),
{
    lemma_choose_ring_props(rings, az, cfg, 0);
    let c = spec_choose_ring(rings, az, cfg, 0);
    if r < c {
        assert(!ring_fits_at(rings, r, az, cfg));
        assert(ring_fits_at(rings, r, az, cfg));
    }
    if c < r {
        assert(!ring_fits_at(rings, c, az, cfg));
        assert(ring_fits_at(rings, c, az, cfg));
    }
}

/// One placement step: the state of the rings and of the unplaced targets
/// after target `t` is handled.  `t` goes at its azimuth into the chosen
/// ring — a fresh ring is created when the scan moved past every existing
/// one — or, when all available rings conflict, into the unplaced overflow.
pub open spec fn spec_place(
    rings: Seq<Seq<Target>>,
    unplaced: Seq<Target>,
    t: Target,
    cfg: Config,
) -> (Seq<Seq<Target>>, Seq<Target>) {
    let k = spec_choose_ring(rings, t.azimuth as int, cfg, 0);
    if k == cfg.spec_max_rings() {
        (rings, unplaced.push(t))
    } else if k < rings.len() {
        (
            rings.update(k, rings[k].insert(spec_lower_bound(rings[k], t.azimuth as int), t)),
            unplaced,
        )
    } else {
        (rings.push(seq![t]), unplaced)
    }
}

/// The placement state after every target of `targets`, in order, has been
/// handled, starting from no rings: the algorithm's result.
pub open spec fn spec_arrange(targets: Seq<Target>, cfg: Config) -> (Seq<Seq<Target>>, Seq<Target>)
    decreases targets.len(),
{
    if targets.len() == 0 {
        (Seq::<Seq<Target>>::empty(), Seq::<Target>::empty())
    } else {
        let prev = spec_arrange(targets.drop_last(), cfg);
        spec_place(prev.0, prev.1, targets.last(), cfg)
    }
}

/// Well-formedness of a whole ring set: no more rings than the configuration
/// provides; every ring well formed, non-empty (rings are created lazily,
/// only to receive a target), and free of overlaps at its own separation.
pub open spec fn rings_wf(rings: Seq<Seq<Target>>, cfg: Config) -> bool {
    &&& rings.len() <= cfg.spec_max_rings()
    &&& forall|k: int| 0 <= k < rings.len() ==> ring_wf(#[trigger] rings[k], cfg.full_turn as int)
    &&& forall|k: int|
        0 <= k < rings.len() ==> ring_ok(
            #[trigger] rings[k],
            cfg.min_seps@[k] as int,
            cfg.full_turn as int,
        )
    &&& forall|k: int| 0 <= k < rings.len() ==> (#[trigger] rings[k]).len() > 0
}

/// Placing one target preserves ring-set well-formedness — in particular the
/// no-overlap invariant of every ring.
pub proof fn lemma_place_wf(
    rings: Seq<Seq<Target>>,
    unplaced: Seq<Target>,
    t: Target,
    cfg: Config,
)
    requires
        cfg.wf(),
        rings_wf(rings, cfg),
        t.azimuth < cfg.full_turn,
    ensures
        rings_wf(spec_place(rings, unplaced, t, cfg).0, cfg),
{
    lemma_choose_ring_props(rings, t.azimuth as int, cfg, 0);
    let k = spec_choose_ring(rings, t.azimuth as int, cfg, 0);
    let out = spec_place(rings, unplaced, t, cfg).0;
    if k == cfg.spec_max_rings() {
        // nothing placed
    } else if k < rings.len() {
        let s = rings[k];
        let min_sep = cfg.min_seps@[k] as int;
        assert(spec_fits(s, t.azimuth as int, min_sep, cfg.full_turn as int));
        lemma_insert_keeps_ok(s, t, min_sep, cfg.full_turn as int);
        lemma_lower_bound_in_range(s, t.azimuth as int);
        let s2 = s.insert(spec_lower_bound(s, t.azimuth as int), t);
        s.insert_ensures(spec_lower_bound(s, t.azimuth as int), t);
        assert forall|j: int| 0 <= j < out.len() implies ring_wf(
            #[trigger] out[j],
            cfg.full_turn as int,
        ) && ring_ok(out[j], cfg.min_seps@[j] as int, cfg.full_turn as int) && out[j].len()
            > 0 by {
            if j != k {
                assert(out[j] == rings[j]);
            } else {
                assert(out[j] == s2);
            }
        }
    } else {
        // the scan moved past every existing ring: k is the next fresh index
        assert(k == rings.len());
        assert(out == rings.push(seq![t]));
        assert forall|j: int| 0 <= j < out.len() implies ring_wf(
            #[trigger] out[j],
            cfg.full_turn as int,
        ) && ring_ok(out[j], cfg.min_seps@[j] as int, cfg.full_turn as int) && out[j].len()
            > 0 by {
            if j < rings.len() {
                assert(out[j] == rings[j]);
            } else {
                assert(out[j] =~= seq![t]);
            }
        }
    }
}

/// The no-overlap invariant holds of every ring the algorithm produces, for
/// any input sequence.
pub proof fn lemma_arrange_wf(targets: Seq<Target>, cfg: Config)
    requires
        cfg.wf(),
        forall|i: int| 0 <= i < targets.len() ==> (#[trigger] targets[i]).azimuth < cfg.full_turn,
    ensures
        rings_wf(spec_arrange(targets, cfg).0, cfg),
    decreases targets.len(),
{
    if targets.len() > 0 {
        lemma_arrange_wf(targets.drop_last(), cfg);
        let prev = spec_arrange(targets.drop_last(), cfg);
        lemma_place_wf(prev.0, prev.1, targets.last(), cfg);
    }
}

/// All targets held by all rings, as a multiset.
pub open spec fn rings_multiset(rings: Seq<Seq<Target>>) -> Multiset<Target>
    decreases rings.len(),
{
    if rings.len() == 0 {
        Multiset::<Target>::empty()
    } else {
        rings_multiset(rings.drop_last()).add(rings.last().to_multiset())
    }
}

/// Growing one ring by one target grows the collection of all placed targets
/// by exactly that target.
proof fn lemma_rings_multiset_update(
    rings: Seq<Seq<Target>>,
    k: int,
    s2: Seq<Target>,
    t: Target,
)
    requires
        0 <= k < rings.len(),
        s2.to_multiset() == rings[k].to_multiset().insert(t),
    ensures
        rings_multiset(rings.update(k, s2)) =~= rings_multiset(rings).insert(t),
    decreases rings.len(),
{
    broadcast use vstd::multiset::group_multiset_axioms;

    let u = rings.update(k, s2);
    if k == rings.len() - 1 {
        assert(u.drop_last() =~= rings.drop_last());
        assert(u.last() == s2);
    } else {
        assert(u.drop_last() =~= rings.drop_last().update(k, s2));
        assert(u.last() == rings.last());
        lemma_rings_multiset_update(rings.drop_last(), k, s2, t);
    }
}

/// A fresh one-member ring grows the collection of all placed targets by
/// exactly its member.
proof fn lemma_rings_multiset_push(rings: Seq<Seq<Target>>, t: Target)
    ensures
        rings_multiset(rings.push(seq![t])) =~= rings_multiset(rings).insert(t),
{
    broadcast use vstd::multiset::group_multiset_axioms;
    broadcast use vstd::seq_lib::group_to_multiset_ensures;

    let u = rings.push(seq![t]);
    assert(u.drop_last() =~= rings);
    assert(u.last() == seq![t]);
    assert(seq![t] =~= Seq::<Target>::empty().push(t));
    assert(seq![t].to_multiset() =~= Multiset::<Target>::empty().insert(t));
}

/// One placement step conserves targets: placed and unplaced together, it
/// adds exactly the handled target.
proof fn lemma_place_conserves(
    rings: Seq<Seq<Target>>,
    unplaced: Seq<Target>,
    t: Target,
    cfg: Config,
)
    ensures
        ({
            let next = spec_place(rings, unplaced, t, cfg);
            rings_multiset(next.0).add(next.1.to_multiset()) =~= rings_multiset(rings).add(
                unplaced.to_multiset(),
            ).insert(t)
        }),
{
    broadcast use vstd::multiset::group_multiset_axioms;
    broadcast use vstd::seq_lib::group_to_multiset_ensures;

    lemma_choose_ring_props(rings, t.azimuth as int, cfg, 0);
    let k = spec_choose_ring(rings, t.azimuth as int, cfg, 0);
    if k == cfg.spec_max_rings() {
        assert(unplaced.push(t).to_multiset() =~= unplaced.to_multiset().insert(t));
    } else if k < rings.len() {
        let s = rings[k];
        let lb = spec_lower_bound(s, t.azimuth as int);
        lemma_lower_bound_in_range(s, t.azimuth as int);
        assert(s.insert(lb, t).to_multiset() == s.to_multiset().insert(t)) by {
            vstd::seq_lib::to_multiset_insert(s, lb, t);
        }
        lemma_rings_multiset_update(rings, k, s.insert(lb, t), t);
    } else {
        lemma_rings_multiset_push(rings, t);
    }
}

/// Conservation: every input target ends up in exactly one ring's member set
/// or in the unplaced overflow — together they are exactly the input, no
/// target duplicated or silently dropped.
pub proof fn lemma_arrange_conserves(targets: Seq<Target>, cfg: Config)
    ensures
        ({
            let out = spec_arrange(targets, cfg);
            rings_multiset(out.0).add(out.1.to_multiset()) =~= targets.to_multiset()
        }),
    decreases targets.len(),
{
    broadcast use vstd::multiset::group_multiset_axioms;
    broadcast use vstd::seq_lib::group_to_multiset_ensures;

    if targets.len() == 0 {
        assert(targets.to_multiset() =~= Multiset::<Target>::empty());
    } else {
        let prev = spec_arrange(targets.drop_last(), cfg);
        lemma_arrange_conserves(targets.drop_last(), cfg);
        lemma_place_conserves(prev.0, prev.1, targets.last(), cfg);
        assert(targets =~= targets.drop_last().push(targets.last()));
        assert(targets.drop_last().push(targets.last()).to_multiset() =~= targets.drop_last()
            .to_multiset().insert(targets.last()));
    }
}

/// Determinism: the same input sequence and parameters give the identical
/// placement, run after run.
pub proof fn lemma_arrange_deterministic(
    targets1: Seq<Target>,
    targets2: Seq<Target>,
    cfg1: Config,
    cfg2: Config,
)
    requires
        targets1 == targets2,
        cfg1 == cfg2,
    ensures
        spec_arrange(targets1, cfg1) == spec_arrange(targets2, cfg2),
{
}

/// An empty input produces an empty ring set: no rings and nothing unplaced.
pub proof fn lemma_arrange_empty(cfg: Config)
    ensures
        spec_arrange(Seq::<Target>::empty(), cfg).0 == Seq::<Seq<Target>>::empty(),
        spec_arrange(Seq::<Target>::empty(), cfg).1 == Seq::<Target>::empty(),
{
}

/// A single target lands alone on ring 0: one ring with one member, nothing
/// unplaced, whenever the configuration provides at least one ring.
pub proof fn lemma_arrange_single(t: Target, cfg: Config)
    requires
        cfg.spec_max_rings() >= 1,
    ensures
        spec_arrange(seq![t], cfg).0 =~~= seq![seq![t]],
        spec_arrange(seq![t], cfg).1 =~= Seq::<Target>::empty(),
{
    let s = seq![t];
    assert(s.drop_last() =~= Seq::<Target>::empty());
    assert(s.last() == t);
    lemma_arrange_empty(cfg);
    let none: Seq<Seq<Target>> = Seq::empty();
    assert(spec_arrange(s.drop_last(), cfg).0 == none);
    assert(spec_arrange(s.drop_last(), cfg).1 == Seq::<Target>::empty());
    assert(ring_at(none, 0) =~= Seq::<Target>::empty());
    assert(ring_fits_at(none, 0, t.azimuth as int, cfg));
    assert(spec_choose_ring(none, t.azimuth as int, cfg, 0) == 0);
    assert(spec_place(none, Seq::empty(), t, cfg).0 =~~= seq![seq![t]]);
}

/// The algorithm's output: the rings, in order of increasing index, and the
/// targets that could not be placed because every available ring conflicted
/// (empty unless the input's angular density exhausts the configuration).
pub struct RingSet {
    pub rings: Vec<Ring>,
    pub unplaced: Vec<Target>,
}

/// The member sequences of a sequence of rings.
pub open spec fn rings_views(rings: Seq<Ring>) -> Seq<Seq<Target>> {
    rings.map_values(|r: Ring| r@)
}

impl RingSet {
    /// The mathematical content of the rings: each ring's member sequence.
    pub open spec fn rings_view(&self) -> Seq<Seq<Target>> {
        rings_views(self.rings@)
    }

    /// How many rings were created.
    pub fn num_rings(&self) -> (n: usize)
        ensures
            n == self.rings_view().len(),
    {
        self.rings.len()
    }

    /// The ring at index `k`.
    pub fn ring(&self, k: usize) -> (r: &Ring)
        requires
            k < self.rings_view().len(),
        ensures
            r@ == self.rings_view()[k as int],
    {
        &self.rings[k]
    }
}

/// Places every target, in input order, on the lowest-indexed ring where it
/// keeps that ring's minimum angular separation to its circular neighbors;
/// targets that fit nowhere are reported back unplaced, without aborting the
/// rest of the batch.
///
/// The result is exactly `spec_arrange(targets@, *cfg)` — deterministic in
/// the input — its rings satisfy the no-overlap invariant, and placed and
/// unplaced targets together are exactly the input.
#[verifier::loop_isolation(false)]
pub fn arrange_targets(targets: &Vec<Target>, cfg: &Config) -> (out: RingSet)
    requires
        cfg.wf(),
        sorted_by_dist(targets@),
        forall|i: int|
            0 <= i < targets@.len() ==> (#[trigger] targets@[i]).azimuth < cfg.full_turn,
    ensures
        out.rings_view() == spec_arrange(targets@, *cfg).0,
        out.unplaced@ == spec_arrange(targets@, *cfg).1,
        rings_wf(out.rings_view(), *cfg),
        rings_multiset(out.rings_view()).add(out.unplaced@.to_multiset())
            == targets@.to_multiset(),
{
    let mut rings: Vec<Ring> = Vec::new();
    let mut unplaced: Vec<Target> = Vec::new();
    let cap = cfg.min_seps.len();
    let mut idx: usize = 0;
    proof {
        assert(targets@.take(0) =~= Seq::<Target>::empty());
        assert(rings_views(rings@) =~= Seq::<Seq<Target>>::empty());
    }
    while idx < targets.len()
        invariant
            idx <= targets@.len(),
            rings_views(rings@) == spec_arrange(targets@.take(idx as int), *cfg).0,
            unplaced@ == spec_arrange(targets@.take(idx as int), *cfg).1,
        decreases targets@.len() - idx,
    {
        let ghost prefix = targets@.take(idx as int);
        let ghost rv = rings_views(rings@);
        proof {
            lemma_arrange_wf(prefix, *cfg);
            assert(rings_wf(rv, *cfg));
            assert(targets@.take(idx + 1).drop_last() =~= prefix);
            assert(targets@.take(idx + 1).last() == targets@[idx as int]);
        }
        let t = &targets[idx];
        let az = t.azimuth;
        let mut k: usize = 0;
        #[verifier::loop_isolation(true)]
        while k < cap
            invariant
                cfg.wf(),
                cap == cfg.spec_max_rings(),
                az < cfg.full_turn,
                rv == rings_views(rings@),
                rings_wf(rv, *cfg),
                k <= cap,
                k <= rings@.len(),
                forall|j: int| 0 <= j < k ==> !ring_fits_at(rv, j, az as int, *cfg),
            ensures
                k <= cap,
                k <= rings@.len(),
                forall|j: int| 0 <= j < k ==> !ring_fits_at(rv, j, az as int, *cfg),
                k < cap ==> ring_fits_at(rv, k as int, az as int, *cfg),
            decreases cap - k,
        {
            if k == rings.len() {
                proof {
                    assert(ring_at(rv, k as int) =~= Seq::<Target>::empty());
                }
                break;
            }
            let sep = cfg.min_seps[k];
            proof {
                assert(rv[k as int] == rings@[k as int]@);
            }
            if rings[k].fits(az, sep, cfg.full_turn) {
                proof {
                    assert(ring_at(rv, k as int) == rv[k as int]);
                }
                break;
            }
            proof {
                assert(ring_at(rv, k as int) == rv[k as int]);
                assert(!ring_fits_at(rv, k as int, az as int, *cfg));
            }
            k += 1;
        }
        proof {
            lemma_choose_ring_unique(rv, az as int, *cfg, k as int);
        }
        if k == cap {
            unplaced.push(t.clone());
            proof {
                assert(rings_views(rings@) == spec_arrange(targets@.take(idx + 1), *cfg).0);
                assert(unplaced@ == spec_arrange(targets@.take(idx + 1), *cfg).1);
            }
        } else if k == rings.len() {
            let mut fresh = Ring::new();
            let ok = fresh.insert(t.clone());
            proof {
                assert(ok);
                assert(fresh@ =~= seq![*t]);
            }
            rings.push(fresh);
            proof {
                assert(rings_views(rings@) =~= rv.push(seq![*t]));
                assert(rings_views(rings@) == spec_arrange(targets@.take(idx + 1), *cfg).0);
            }
        } else {
            proof {
                assert(ring_fits_at(rv, k as int, az as int, *cfg));
                assert(ring_at(rv, k as int) == rv[k as int]);
                assert(rv[k as int] == rings@[k as int]@);
                lemma_fits_no_duplicate(
                    rings@[k as int]@,
                    az as int,
                    cfg.min_seps@[k as int] as int,
                    cfg.full_turn as int,
                );
            }
            let ok = rings[k].insert(t.clone());
            proof {
                assert(ok);
                assert(rings_views(rings@) =~= rv.update(
                    k as int,
                    rv[k as int].insert(spec_lower_bound(rv[k as int], az as int), *t),
                ));
                assert(rings_views(rings@) == spec_arrange(targets@.take(idx + 1), *cfg).0);
            }
        }
        idx += 1;
    }
    proof {
        assert(targets@.take(targets@.len() as int) =~= targets@);
        lemma_arrange_wf(targets@, *cfg);
        lemma_arrange_conserves(targets@, *cfg);
    }
    RingSet { rings, unplaced }
}

} // verus!
