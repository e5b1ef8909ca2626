//! End-to-end tests of the placement algorithm.
//!
//! Angle units are nanoradians: a full circle is `2 * PI * 1e9` units, and
//! the per-ring minimum separation angles come from the label-geometry
//! formula `asin(w / sqrt(2) / radius) * 2 * scatter`, evaluated in `f64`
//! and scaled.

use square_ring::assign::{arrange_targets, RingSet};
use square_ring::target::{Config, Target};

const SCALE: f64 = 1_000_000_000.0;
const SCATTER: f64 = 1.2;

fn full_turn_units() -> u64 {
    (std::f64::consts::PI * 2.0 * SCALE) as u64
}

fn radians_to_units(a: f64) -> u64 {
    (a * SCALE) as u64
}

fn min_sep_units(poi_width: f64, ring_index: usize) -> u64 {
    let radius = (ring_index as f64 + 1.0) * poi_width * 2.0;
    let angle = (poi_width / 2f64.sqrt() / radius).asin() * 2.0 * SCATTER;
    radians_to_units(angle)
}

fn config_for(poi_width: f64, num_rings: usize) -> Config {
    let mut seps: Vec<u64> = Vec::new();
    for k in 0..num_rings {
        seps.push(min_sep_units(poi_width, k));
    }
    Config::new(full_turn_units(), seps).unwrap()
}

fn target(id: i32, azimuth: u64, dist: u64) -> Target {
    Target { id, text: format!("poi {}", id), azimuth, dist }
}

fn ring_ids(out: &RingSet, k: usize) -> Vec<i32> {
    let ring = out.ring(k);
    let mut ids = Vec::new();
    for i in 0..ring.len() {
        ids.push(ring.member(i).id);
    }
    ids
}

#[test]
fn empty_input_gives_empty_ringset() {
    let cfg = config_for(30.0, 4);
    let targets: Vec<Target> = Vec::new();
    let out = arrange_targets(&targets, &cfg);
    assert_eq!(out.num_rings(), 0);
    assert!(out.unplaced.is_empty());
}

#[test]
fn single_target_lands_on_ring_zero() {
    let cfg = config_for(30.0, 4);
    let targets = vec![target(7, radians_to_units(1.25), 10)];
    let out = arrange_targets(&targets, &cfg);
    assert_eq!(out.num_rings(), 1);
    assert_eq!(ring_ids(&out, 0), vec![7]);
    assert_eq!(out.ring(0).member(0).azimuth, radians_to_units(1.25));
    assert_eq!(out.ring(0).member(0).text, "poi 7");
    assert!(out.unplaced.is_empty());
}

#[test]
fn scenario_two_pois_overflow_to_ring_one() {
    // poi_width = 30: ring 0 radius 60, min separation
    // asin(30 / sqrt(2) / 60) * 2 * 1.2 ~ 0.867 rad; on ring 1 (radius 120)
    // it is ~ 0.425 rad.
    let sep0 = min_sep_units(30.0, 0) as f64 / SCALE;
    let sep1 = min_sep_units(30.0, 1) as f64 / SCALE;
    assert!((sep0 - 0.867).abs() < 0.005);
    assert!((sep1 - 0.425).abs() < 0.005);

    // Two targets at azimuths 0.0 and 0.5: the second conflicts on ring 0
    // (0.5 < 0.867) and fits on ring 1 (0.5 >= 0.425).
    let cfg = config_for(30.0, 4);
    let targets = vec![target(0, radians_to_units(0.0), 1), target(1, radians_to_units(0.5), 2)];
    let out = arrange_targets(&targets, &cfg);
    assert_eq!(out.num_rings(), 2);
    assert_eq!(ring_ids(&out, 0), vec![0]);
    assert_eq!(ring_ids(&out, 1), vec![1]);
    assert!(out.unplaced.is_empty());
}

#[test]
fn wrap_around_pois_conflict_across_boundary() {
    // Azimuths 0.01 and 2 * PI - 0.01 are ~ 0.02 rad apart across the
    // 0/full-turn boundary, far below ring 0's ~ 0.867 rad separation: the
    // second target must overflow, not share ring 0 as if they were
    // ~ 2 * PI - 0.02 apart.
    let cfg = config_for(30.0, 4);
    let high = full_turn_units() - radians_to_units(0.01);
    let targets = vec![target(0, radians_to_units(0.01), 1), target(1, high, 2)];
    let out = arrange_targets(&targets, &cfg);
    assert_eq!(out.num_rings(), 2);
    assert_eq!(ring_ids(&out, 0), vec![0]);
    assert_eq!(ring_ids(&out, 1), vec![1]);
}

#[test]
fn determinism_repeated_runs_identical() {
    let cfg1 = config_for(30.0, 6);
    let cfg2 = config_for(30.0, 6);
    let mut targets = Vec::new();
    for i in 0..40 {
        let az = radians_to_units((i as f64 * 0.61803) % (2.0 * std::f64::consts::PI));
        targets.push(target(i, az, 10 + i as u64));
    }
    let out1 = arrange_targets(&targets, &cfg1);
    let out2 = arrange_targets(&targets, &cfg2);
    assert_eq!(out1.num_rings(), out2.num_rings());
    for k in 0..out1.num_rings() {
        assert_eq!(ring_ids(&out1, k), ring_ids(&out2, k));
        for i in 0..out1.ring(k).len() {
            assert_eq!(out1.ring(k).member(i).azimuth, out2.ring(k).member(i).azimuth);
        }
    }
    assert_eq!(out1.unplaced.len(), out2.unplaced.len());
}

#[test]
fn conservation_every_target_exactly_once() {
    let cfg = config_for(30.0, 3);
    let mut targets = Vec::new();
    for i in 0..60 {
        // crowded: many targets share a narrow angular band, so some
        // overflow all three rings and come back unplaced
        let az = radians_to_units((i as f64 * 0.05) % (2.0 * std::f64::consts::PI));
        targets.push(target(i, az, 10 + i as u64));
    }
    let out = arrange_targets(&targets, &cfg);
    let mut seen: Vec<i32> = Vec::new();
    for k in 0..out.num_rings() {
        seen.extend(ring_ids(&out, k));
    }
    for t in &out.unplaced {
        seen.push(t.id);
    }
    seen.sort();
    let expected: Vec<i32> = (0..60).collect();
    assert_eq!(seen, expected);
}

#[test]
fn no_overlap_invariant_holds_on_output() {
    let cfg = config_for(25.0, 5);
    let full_turn = full_turn_units();
    let mut targets = Vec::new();
    for i in 0..50 {
        let az = radians_to_units((i as f64 * 1.61803) % (2.0 * std::f64::consts::PI));
        targets.push(target(i, az, 100 + i as u64));
    }
    let out = arrange_targets(&targets, &cfg);
    for k in 0..out.num_rings() {
        let min_sep = cfg.min_seps[k];
        let ring = out.ring(k);
        for i in 0..ring.len() {
            for j in 0..ring.len() {
                if i != j {
                    let a = ring.member(i).azimuth;
                    let b = ring.member(j).azimuth;
                    let diff = if a > b { a - b } else { b - a };
                    let circ = diff.min(full_turn - diff);
                    assert!(circ >= min_sep);
                }
            }
        }
    }
}

#[test]
fn members_sorted_ascending_by_azimuth() {
    let cfg = config_for(10.0, 2);
    let mut targets = Vec::new();
    for i in 0..20 {
        let az = radians_to_units(((20 - i) as f64 * 0.3) % (2.0 * std::f64::consts::PI));
        targets.push(target(i, az, i as u64));
    }
    let out = arrange_targets(&targets, &cfg);
    for k in 0..out.num_rings() {
        let ring = out.ring(k);
        for i in 1..ring.len() {
            assert!(ring.member(i - 1).azimuth < ring.member(i).azimuth);
        }
    }
}

#[test]
fn unplaced_when_all_rings_conflict() {
    // One ring whose minimum separation is a full turn: it can hold only a
    // single target, every later one is reported back unplaced.
    let cfg = Config::new(full_turn_units(), vec![full_turn_units()]).unwrap();
    let targets = vec![
        target(0, radians_to_units(1.0), 1),
        target(1, radians_to_units(2.0), 2),
        target(2, radians_to_units(3.0), 3),
    ];
    let out = arrange_targets(&targets, &cfg);
    assert_eq!(out.num_rings(), 1);
    assert_eq!(ring_ids(&out, 0), vec![0]);
    assert_eq!(out.unplaced.len(), 2);
    assert_eq!(out.unplaced[0].id, 1);
    assert_eq!(out.unplaced[1].id, 2);
}

#[test]
fn duplicate_azimuths_never_share_a_ring() {
    // Three targets at the identical azimuth: each needs its own ring, and
    // with only two rings the third is unplaced, not silently dropped.
    let cfg = config_for(30.0, 2);
    let az = radians_to_units(2.5);
    let targets = vec![target(0, az, 1), target(1, az, 2), target(2, az, 3)];
    let out = arrange_targets(&targets, &cfg);
    assert_eq!(out.num_rings(), 2);
    assert_eq!(ring_ids(&out, 0), vec![0]);
    assert_eq!(ring_ids(&out, 1), vec![1]);
    assert_eq!(out.unplaced.len(), 1);
    assert_eq!(out.unplaced[0].id, 2);
}
