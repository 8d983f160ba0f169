//! Weapon fire in a 2D world: when guns fire within a frame, how fired
//! projectiles move and slow, and what they strike on the way.
//!
//! Time is counted in integer nanoseconds and space in integer length units,
//! at a scale that the caller picks (one world unit may span several units).
//! `guns` schedules shots, `kinematics` launches and slows projectiles and
//! removes stopped ones, `grid` walks a segment through a tile grid,
//! `geometry` tests segments and points against circles, and `hits` picks
//! what each projectile strikes first.

use vstd::prelude::*;

pub mod geometry;
pub mod grid;
pub mod guns;
pub mod hits;
pub mod kinematics;

verus! {

/// Nanoseconds in one second.
pub const NANOS_PER_SECOND: u64 = 1_000_000_000;

} // verus!
