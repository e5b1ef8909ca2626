//! Tests of the ordered ring storage: sorted insertion, nearest-neighbor
//! queries, and the wrap-around overlap test.

use square_ring::ring::Ring;
use square_ring::target::Target;

fn target(id: i32, azimuth: u64) -> Target {
    Target { id, text: format!("poi {}", id), azimuth, dist: 0 }
}

#[test]
fn new_ring_is_empty() {
    let ring = Ring::new();
    assert!(ring.is_empty());
    assert_eq!(ring.len(), 0);
}

#[test]
fn insert_keeps_members_sorted() {
    let mut ring = Ring::new();
    assert!(ring.insert(target(0, 500)));
    assert!(ring.insert(target(1, 100)));
    assert!(ring.insert(target(2, 900)));
    assert!(ring.insert(target(3, 300)));
    assert_eq!(ring.len(), 4);
    let azimuths: Vec<u64> = (0..ring.len()).map(|i| ring.member(i).azimuth).collect();
    assert_eq!(azimuths, vec![100, 300, 500, 900]);
    let ids: Vec<i32> = (0..ring.len()).map(|i| ring.member(i).id).collect();
    assert_eq!(ids, vec![1, 3, 0, 2]);
}

#[test]
fn duplicate_key_rejected_without_losing_data() {
    let mut ring = Ring::new();
    assert!(ring.insert(target(0, 250)));
    assert!(!ring.insert(target(1, 250)));
    assert_eq!(ring.len(), 1);
    assert_eq!(ring.member(0).id, 0);
}

#[test]
fn nearest_queries_split_at_key() {
    let mut ring = Ring::new();
    ring.insert(target(0, 100));
    ring.insert(target(1, 300));
    ring.insert(target(2, 500));

    let above = ring.nearest_at_or_above(200).unwrap();
    assert_eq!(above.azimuth, 300);
    let below = ring.nearest_below(200).unwrap();
    assert_eq!(below.azimuth, 100);

    // an exact hit counts as "at or above", not as "below"
    let at = ring.nearest_at_or_above(300).unwrap();
    assert_eq!(at.azimuth, 300);
    let strictly_below = ring.nearest_below(300).unwrap();
    assert_eq!(strictly_below.azimuth, 100);

    // past the ends
    assert!(ring.nearest_at_or_above(600).is_none());
    assert!(ring.nearest_below(100).is_none());
    assert_eq!(ring.smallest().azimuth, 100);
    assert_eq!(ring.largest().azimuth, 500);
}

#[test]
fn fits_measures_direct_distance() {
    let full_turn: u64 = 1000;
    let mut ring = Ring::new();
    ring.insert(target(0, 400));
    // distance from 450 to the member is 50
    assert!(!ring.fits(450, 51, full_turn));
    assert!(ring.fits(450, 50, full_turn));
    assert!(!ring.fits(350, 51, full_turn));
    assert!(ring.fits(350, 50, full_turn));
}

#[test]
fn fits_measures_wrapped_distance() {
    // member near the top of the circle, query near the bottom: their
    // circular distance crosses the 0/full-turn boundary and is 30, not 970
    let full_turn: u64 = 1000;
    let mut ring = Ring::new();
    ring.insert(target(0, 990));
    assert!(!ring.fits(20, 31, full_turn));
    assert!(ring.fits(20, 30, full_turn));
}

#[test]
fn fits_checks_both_neighbors() {
    let full_turn: u64 = 1000;
    let mut ring = Ring::new();
    ring.insert(target(0, 100));
    ring.insert(target(1, 200));
    // 150 sits 50 from both neighbors
    assert!(ring.fits(150, 50, full_turn));
    assert!(!ring.fits(150, 51, full_turn));
    // 120 is 20 above 100 even though it is 80 below 200
    assert!(!ring.fits(120, 50, full_turn));
}

#[test]
fn fits_on_empty_ring_always_succeeds() {
    let ring = Ring::new();
    assert!(ring.fits(0, 1000, 1000));
}

#[test]
fn fits_at_occupied_azimuth_conflicts() {
    let full_turn: u64 = 1000;
    let mut ring = Ring::new();
    ring.insert(target(0, 700));
    assert!(!ring.fits(700, 1, full_turn));
}
