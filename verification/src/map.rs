use vstd::prelude::*;
use crate::geometry::Point;
use crate::{SCREEN_HEIGHT, SCREEN_WIDTH};

verus! {

/// Number of cells of the grid: `SCREEN_WIDTH * SCREEN_HEIGHT`.
pub const NUM_TILES: usize = 4000;

/// Number of cells in a row of the grid: `SCREEN_WIDTH`, as an index.
pub const ROW_LENGTH: usize = 80;

/// Number of rows of the grid: `SCREEN_HEIGHT`, as an index.
pub const NUM_ROWS: usize = 50;

/// What a grid cell holds.
#[derive(Clone, Copy, Debug, PartialEq, Eq, Structural)]
pub enum TileType {
    Wall,
    Floor,
}

/// Whether `(x, y)` names a cell of the grid.
pub open spec fn on_grid(x: int, y: int) -> bool {
    0 <= x < SCREEN_WIDTH && 0 <= y < SCREEN_HEIGHT
}

/// Row-major position of the cell `(x, y)` in the tile sequence.
pub open spec fn cell_index(x: int, y: int) -> int {
    y * SCREEN_WIDTH + x
}

/// Column of the cell at row-major position `i`.
pub open spec fn cell_x(i: int) -> int {
    i % (SCREEN_WIDTH as int)
}

/// Row of the cell at row-major position `i`.
pub open spec fn cell_y(i: int) -> int {
    i / (SCREEN_WIDTH as int)
}

/// Whether `tiles` holds one tile for every cell of the grid.
pub open spec fn grid_sized(tiles: Seq<TileType>) -> bool {
    tiles.len() == NUM_TILES
}

/// Whether `(x, y)` is a cell of the grid that holds a floor tile.
pub open spec fn floor_at(tiles: Seq<TileType>, x: int, y: int) -> bool {
    on_grid(x, y) && tiles[cell_index(x, y)] == TileType::Floor
}

/// Index of the cell `(x, y)`; the caller vouches that the cell is on the grid.
pub fn map_idx(x: i32, y: i32) -> (idx: usize)
    requires
        on_grid(x as int, y as int),
    ensures
        idx == cell_index(x as int, y as int),
        idx < NUM_TILES,
{
    ((y * SCREEN_WIDTH) + x) as usize
}

/// The cell at the row-major position `idx`.
pub fn index_to_point(idx: usize) -> (p: Point)
    requires
        idx < NUM_TILES,
    ensures
        p.x == cell_x(idx as int),
        p.y == cell_y(idx as int),
        on_grid(p.x as int, p.y as int),
        cell_index(p.x as int, p.y as int) == idx,
{
    Point::new((idx % ROW_LENGTH) as i32, (idx / ROW_LENGTH) as i32)
}

/// The tile grid of one level, stored row by row.
pub struct GridMap {
    tiles: Vec<TileType>,
}

impl View for GridMap {
    type V = Seq<TileType>;

    closed spec fn view(&self) -> Seq<TileType> {
        self.tiles@
    }
}

impl GridMap {
    /// Every map holds exactly one tile per grid cell.
    pub open spec fn wf(&self) -> bool {
        grid_sized(self@)
    }

    /// A map of walls only.
    pub fn new() -> (map: GridMap)
        ensures
            map.wf(),
            forall|i: int| 0 <= i < NUM_TILES ==> map@[i] == TileType::Wall,
    {
        let mut tiles: Vec<TileType> = Vec::new();
        let mut i: usize = 0;
        while i < NUM_TILES
            invariant
                i <= NUM_TILES,
                tiles@.len() == i,
                forall|j: int| 0 <= j < i ==> tiles@[j] == TileType::Wall,
            decreases NUM_TILES - i,
        {
            tiles.push(TileType::Wall);
            i = i + 1;
        }
        GridMap { tiles }
    }

    /// Overwrites every cell with `tile`.
    pub fn fill(&mut self, tile: TileType)
        requires
            old(self).wf(),
        ensures
            final(self).wf(),
            forall|i: int| 0 <= i < NUM_TILES ==> final(self)@[i] == tile,
    {
        let mut i: usize = 0;
        while i < NUM_TILES
            invariant
                i <= NUM_TILES,
                self.tiles@.len() == NUM_TILES,
                forall|j: int| 0 <= j < i ==> self.tiles@[j] == tile,
            decreases NUM_TILES - i,
        {
            self.tiles.set(i, tile);
            i = i + 1;
        }
    }

    pub fn in_bounds(&self, point: Point) -> (b: bool)
        ensures
            b == on_grid(point.x as int, point.y as int),
    {
        point.x >= 0 && point.x < SCREEN_WIDTH && point.y >= 0 && point.y < SCREEN_HEIGHT
    }

    /// Index of the cell at `point`, or `None` where `point` lies off the grid.
    pub fn try_idx(&self, point: Point) -> (idx: Option<usize>)
        ensures
            on_grid(point.x as int, point.y as int) ==> idx == Some(
                cell_index(point.x as int, point.y as int) as usize,
            ),
            !on_grid(point.x as int, point.y as int) ==> idx.is_none(),
    {
        if !self.in_bounds(point) {
            None
        } else {
            Some(map_idx(point.x, point.y))
        }
    }

    /// The tile at `idx`.
    pub fn tile(&self, idx: usize) -> (t: TileType)
        requires
            self.wf(),
            idx < NUM_TILES,
        ensures
            t == self@[idx as int],
    {
        self.tiles[idx]
    }

    /// The tile at `point`, or `None` where `point` lies off the grid.
    pub fn tile_at(&self, point: Point) -> (t: Option<TileType>)
        requires
            self.wf(),
        ensures
            on_grid(point.x as int, point.y as int) ==> t == Some(
                self@[cell_index(point.x as int, point.y as int)],
            ),
            !on_grid(point.x as int, point.y as int) ==> t.is_none(),
    {
        match self.try_idx(point) {
            Some(idx) => Some(self.tiles[idx]),
            None => None,
        }
    }

    /// Stores `tile` at `idx` and leaves every other cell as it was.
    pub fn set_tile(&mut self, idx: usize, tile: TileType)
        requires
            old(self).wf(),
            idx < NUM_TILES,
        ensures
            final(self)@ == old(self)@.update(idx as int, tile),
            final(self).wf(),
    {
        self.tiles.set(idx, tile);
    }

    /// Whether the cell at `point` can be walked on.
    pub fn can_enter_tile(&self, point: Point) -> (b: bool)
        requires
            self.wf(),
        ensures
            b == floor_at(self@, point.x as int, point.y as int),
    {
        match self.try_idx(point) {
            Some(idx) => self.tiles[idx] == TileType::Floor,
            None => false,
        }
    }
}

/// The row-major index of a grid cell gives back the cell's column and row.
pub proof fn lemma_cell_of_index(x: int, y: int)
    requires
        on_grid(x, y),
    ensures
        0 <= cell_index(x, y) < NUM_TILES,
        cell_index(x, y) % (SCREEN_WIDTH as int) == x,
        cell_index(x, y) / (SCREEN_WIDTH as int) == y,
{
}

} // verus!
