use vstd::prelude::*;

pub mod distance;
pub mod geometry;
pub mod map;
pub mod map_builder;
pub mod random;
pub mod reach;
pub mod systems;
pub mod world;

verus! {

/// Number of tile columns in every level.
pub const SCREEN_WIDTH: i32 = 80;

/// Number of tile rows in every level.
pub const SCREEN_HEIGHT: i32 = 50;

} // verus!
