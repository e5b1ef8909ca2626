//! Radial label placement: assign labeled points of interest (targets) to
//! concentric display rings so that no two square labels on the same ring
//! overlap angularly.
//!
//! Angles are fixed-point integers: an azimuth is a `u64` in `[0, full_turn)`
//! angle units, where `full_turn` stands for one full circle.  Callers pick
//! the scale (for instance nanoradians) and derive the per-ring minimum
//! separation angles from their label geometry.

pub mod angle;
pub mod assign;
pub mod geometry;
pub mod ring;
pub mod target;
