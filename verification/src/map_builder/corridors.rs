use vstd::prelude::*;
use crate::geometry::{Point, Rect};
use crate::map::{cell_index, floor_at, grid_sized, lemma_cell_of_index, on_grid, TileType};
use crate::map_builder::carve::{off_edge, walled_in};
use crate::reach::{
    connected, floors_kept, lemma_column_walk, lemma_row_walk, lemma_within_joined,
};
use crate::{SCREEN_HEIGHT, SCREEN_WIDTH};

verus! {

/// Whether `v` lies between `a` and `b`, ends included, whichever is the larger.
pub open spec fn between(a: int, b: int, v: int) -> bool {
    (a <= v <= b) || (b <= v <= a)
}

/// The tiles after the cells of row `y` from column `x1` to column `x2`, ends
/// included, have been turned into floor. Columns off the grid are passed over.
pub open spec fn dig_row(tiles: Seq<TileType>, x1: int, x2: int, y: int) -> Seq<TileType> {
    Seq::new(
        tiles.len(),
        |i: int|
            if i / (SCREEN_WIDTH as int) == y && between(x1, x2, i % (SCREEN_WIDTH as int)) {
                TileType::Floor
            } else {
                tiles[i]
            },
    )
}

/// The tiles after the cells of column `x` from row `y1` to row `y2`, ends
/// included, have been turned into floor. Rows off the grid are passed over.
pub open spec fn dig_column(tiles: Seq<TileType>, y1: int, y2: int, x: int) -> Seq<TileType> {
    Seq::new(
        tiles.len(),
        |i: int|
            if i % (SCREEN_WIDTH as int) == x && between(y1, y2, i / (SCREEN_WIDTH as int)) {
                TileType::Floor
            } else {
                tiles[i]
            },
    )
}

/// The tiles after a corridor with one bend has been dug from `prev` to
/// `next`. With `along_prev_row` it leaves `prev` along its row and bends into
/// the column of `next`; without, it runs along the row of `next` and bends
/// into the column of `prev`.
pub open spec fn dig_elbow(tiles: Seq<TileType>, prev: Point, next: Point, along_prev_row: bool) -> Seq<
    TileType,
> {
    if along_prev_row {
        dig_column(
            dig_row(tiles, prev.x as int, next.x as int, prev.y as int),
            prev.y as int,
            next.y as int,
            next.x as int,
        )
    } else {
        dig_column(
            dig_row(tiles, prev.x as int, next.x as int, next.y as int),
            prev.y as int,
            next.y as int,
            prev.x as int,
        )
    }
}

/// The tiles after one corridor has been dug for each entry of `turns`: the
/// corridor for entry `i` leads from the center of `path[i]` to the center of
/// `path[i + 1]` and bends as the entry says.
pub open spec fn dig_corridors(tiles: Seq<TileType>, path: Seq<Rect>, turns: Seq<bool>) -> Seq<TileType>
    decreases turns.len(),
{
    if turns.len() == 0 {
        tiles
    } else {
        let n = turns.len() as int;
        dig_elbow(
            dig_corridors(tiles, path, turns.drop_last()),
            path[n - 1].midpoint(),
            path[n].midpoint(),
            turns.last(),
        )
    }
}

/// Whether the center of every room of `rooms` can be computed.
pub open spec fn all_have_centers(rooms: Seq<Rect>) -> bool {
    forall|i: int| 0 <= i < rooms.len() ==> (#[trigger] rooms[i]).has_center()
}

/// Whether the center of every room of `rooms` is a cell of the grid.
pub open spec fn centers_on_grid(rooms: Seq<Rect>) -> bool {
    forall|i: int|
        0 <= i < rooms.len() ==> on_grid(
            (#[trigger] rooms[i]).midpoint().x as int,
            rooms[i].midpoint().y as int,
        )
}

/// Whether a walk leads from the center of each room of `rooms` to the center
/// of each other one.
pub open spec fn centers_connected(tiles: Seq<TileType>, rooms: Seq<Rect>) -> bool {
    forall|i: int, j: int|
        0 <= i < rooms.len() && 0 <= j < rooms.len() ==> connected(
            tiles,
            (#[trigger] rooms[i]).midpoint(),
            (#[trigger] rooms[j]).midpoint(),
        )
}

/// A corridor with one bend keeps every floor tile, wherever it is dug.
pub proof fn lemma_elbow_keeps(tiles: Seq<TileType>, prev: Point, next: Point, along_prev_row: bool)
    requires
        grid_sized(tiles),
    ensures
        floors_kept(tiles, dig_elbow(tiles, prev, next, along_prev_row)),
{
    let dug = dig_elbow(tiles, prev, next, along_prev_row);
    assert forall|x: int, y: int| floor_at(tiles, x, y) implies floor_at(dug, x, y) by {
        lemma_cell_of_index(x, y);
    }
}

/// A corridor with one bend between two cells of the grid keeps every floor
/// tile and connects the two cells in both directions.
pub proof fn lemma_elbow_connects(tiles: Seq<TileType>, prev: Point, next: Point, along_prev_row: bool)
    requires
        grid_sized(tiles),
        on_grid(prev.x as int, prev.y as int),
        on_grid(next.x as int, next.y as int),
    ensures
        floors_kept(tiles, dig_elbow(tiles, prev, next, along_prev_row)),
        connected(dig_elbow(tiles, prev, next, along_prev_row), prev, next),
        connected(dig_elbow(tiles, prev, next, along_prev_row), next, prev),
{
    let dug = dig_elbow(tiles, prev, next, along_prev_row);
    let (px, py, nx, ny) = (prev.x as int, prev.y as int, next.x as int, next.y as int);
    let row = if along_prev_row { py } else { ny };
    let col = if along_prev_row { nx } else { px };
    assert forall|x: int, y: int| floor_at(tiles, x, y) implies floor_at(dug, x, y) by {
        lemma_cell_of_index(x, y);
    }
    assert forall|x: int| between(px, nx, x) implies #[trigger] floor_at(dug, x, row) by {
        lemma_cell_of_index(x, row);
    }
    assert forall|y: int| between(py, ny, y) implies #[trigger] floor_at(dug, col, y) by {
        lemma_cell_of_index(col, y);
    }
    let across = if px <= nx { (nx - px) as nat } else { (px - nx) as nat };
    let down = if py <= ny { (ny - py) as nat } else { (py - ny) as nat };
    lemma_row_walk(dug, px, nx, row);
    lemma_row_walk(dug, nx, px, row);
    lemma_column_walk(dug, py, ny, col);
    lemma_column_walk(dug, ny, py, col);
    if along_prev_row {
        lemma_within_joined(dug, px, py, nx, py, nx, ny, across, down);
        lemma_within_joined(dug, nx, ny, nx, py, px, py, down, across);
    } else {
        lemma_within_joined(dug, px, py, px, ny, nx, ny, down, across);
        lemma_within_joined(dug, nx, ny, px, ny, px, py, across, down);
    }
}

/// A corridor between two cells off the edge of the grid, dug into a level
/// with a wall all around, leaves the wall standing.
pub proof fn lemma_elbow_walled_in(tiles: Seq<TileType>, prev: Point, next: Point, along_prev_row: bool)
    requires
        grid_sized(tiles),
        walled_in(tiles),
        off_edge(prev),
        off_edge(next),
    ensures
        walled_in(dig_elbow(tiles, prev, next, along_prev_row)),
{
    let dug = dig_elbow(tiles, prev, next, along_prev_row);
    assert forall|x: int, y: int| #[trigger] floor_at(dug, x, y) implies 0 < x < SCREEN_WIDTH - 1 && 0
        < y < SCREEN_HEIGHT - 1 by {
        lemma_cell_of_index(x, y);
        if !floor_at(tiles, x, y) {
            assert(tiles[cell_index(x, y)] != TileType::Floor);
        }
    }
}

/// Corridors between rooms whose centers lie off the edge of the grid, dug
/// into a level with a wall all around, leave the wall standing.
pub proof fn lemma_corridors_walled_in(tiles: Seq<TileType>, path: Seq<Rect>, turns: Seq<bool>)
    requires
        grid_sized(tiles),
        walled_in(tiles),
        turns.len() < path.len(),
        forall|i: int| 0 <= i < path.len() ==> off_edge((#[trigger] path[i]).midpoint()),
    ensures
        walled_in(dig_corridors(tiles, path, turns)),
        grid_sized(dig_corridors(tiles, path, turns)),
    decreases turns.len(),
{
    if turns.len() > 0 {
        let n = turns.len() as int;
        lemma_corridors_walled_in(tiles, path, turns.drop_last());
        lemma_elbow_walled_in(
            dig_corridors(tiles, path, turns.drop_last()),
            path[n - 1].midpoint(),
            path[n].midpoint(),
            turns.last(),
        );
    }
}

} // verus!
