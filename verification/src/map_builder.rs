use vstd::prelude::*;
use bracket_random::prelude::RandomNumberGenerator;
use crate::distance::{is_farthest, most_distant, nothing_beyond};
use crate::geometry::{Point, Rect};
use crate::map::{floor_at, GridMap, TileType, NUM_TILES};

pub mod by_center;
pub mod carve;
pub mod corridors;
pub mod rooms;

verus! {

/// Why a level could not be built.
#[derive(Clone, Copy, Debug, PartialEq, Eq, Structural)]
pub enum BuildError {
    /// The attempts allowed for placing rooms ran out before enough rooms fit.
    OutOfAttempts,
    /// No floor tile other than the player's start can be reached from it.
    NoDistantTile,
}

/// A level under construction and, once an architect is done with it, the
/// finished level: the map, the rooms in the order in which they were placed,
/// and where the player, the amulet and the monsters start.
pub struct MapBuilder {
    pub map: GridMap,
    pub rooms: Vec<Rect>,
    pub monster_spawns: Vec<Point>,
    pub player_start: Point,
    pub amulet_start: Point,
}

impl MapBuilder {
    /// Overwrites every cell of the map with `tile`.
    pub fn fill(&mut self, tile: TileType)
        requires
            old(self).map.wf(),
        ensures
            final(self).map.wf(),
            forall|i: int| 0 <= i < NUM_TILES ==> final(self).map@[i] == tile,
            final(self).rooms == old(self).rooms,
            final(self).monster_spawns == old(self).monster_spawns,
            final(self).player_start == old(self).player_start,
            final(self).amulet_start == old(self).amulet_start,
    {
        self.map.fill(tile);
    }

    /// The floor cell farthest from the player's start among those that can
    /// be reached from it; of several, the first in row-major order. `None`
    /// where no walk from the player's start leads to another cell.
    pub fn find_most_distant(&self) -> (goal: Option<Point>)
        requires
            self.map.wf(),
        ensures
            match goal {
                Some(p) => is_farthest(
                    self.map@,
                    self.player_start.x as int,
                    self.player_start.y as int,
                    p.x as int,
                    p.y as int,
                ) && floor_at(self.map@, p.x as int, p.y as int),
                None => nothing_beyond(
                    self.map@,
                    self.player_start.x as int,
                    self.player_start.y as int,
                ),
            },
    {
        most_distant(&self.map, self.player_start)
    }

    /// Puts the amulet on the cell that `find_most_distant` names. Where it
    /// names none the level is of no use, and nothing is changed.
    pub fn place_amulet(&mut self) -> (res: Result<(), BuildError>)
        requires
            old(self).map.wf(),
        ensures
            final(self).map == old(self).map,
            final(self).rooms == old(self).rooms,
            final(self).monster_spawns == old(self).monster_spawns,
            final(self).player_start == old(self).player_start,
            match res {
                Ok(_) => is_farthest(
                    old(self).map@,
                    old(self).player_start.x as int,
                    old(self).player_start.y as int,
                    final(self).amulet_start.x as int,
                    final(self).amulet_start.y as int,
                ) && floor_at(
                    old(self).map@,
                    final(self).amulet_start.x as int,
                    final(self).amulet_start.y as int,
                ),
                Err(e) => e == BuildError::NoDistantTile && nothing_beyond(
                    old(self).map@,
                    old(self).player_start.x as int,
                    old(self).player_start.y as int,
                ) && final(self).amulet_start == old(self).amulet_start,
            },
    {
        match self.find_most_distant() {
            Some(p) => {
                self.amulet_start = p;
                Ok(())
            },
            None => Err(BuildError::NoDistantTile),
        }
    }
}

/// A way of building levels.
pub trait MapArchitect {
    /// Whether the architect's settings describe a level that can exist.
    spec fn ready(&self) -> bool;

    /// Builds a level, drawing from `rng` wherever there is a choice.
    fn new(&mut self, rng: &mut RandomNumberGenerator) -> (res: Result<MapBuilder, BuildError>)
        requires
            old(self).ready(),
        ensures
            res matches Ok(mb) ==> mb.map.wf(),
    ;
}

} // verus!
