use vstd::prelude::*;
use crate::geometry::{Point, Rect};
use crate::map::{
    cell_index, cell_x, cell_y, floor_at, grid_sized, lemma_cell_of_index, map_idx, on_grid, GridMap,
    TileType, NUM_TILES,
};
use crate::{SCREEN_HEIGHT, SCREEN_WIDTH};

verus! {

/// Whether carving `room` turns the cell `(x, y)` into floor: the cell belongs
/// to the room and lies off the grid's first row and first column.
pub open spec fn carved_by(room: Rect, x: int, y: int) -> bool {
    room.covers(x, y) && 0 < x < SCREEN_WIDTH && 0 < y < SCREEN_HEIGHT
}

/// The tiles after `room` has been carved into `tiles`.
pub open spec fn carve_room(tiles: Seq<TileType>, room: Rect) -> Seq<TileType> {
    Seq::new(
        tiles.len(),
        |i: int|
            if carved_by(room, i % (SCREEN_WIDTH as int), i / (SCREEN_WIDTH as int)) {
                TileType::Floor
            } else {
                tiles[i]
            },
    )
}

/// The tiles after every room of `rooms` has been carved into `tiles`.
pub open spec fn carve_rooms(tiles: Seq<TileType>, rooms: Seq<Rect>) -> Seq<TileType> {
    Seq::new(
        tiles.len(),
        |i: int|
            if exists|k: int|
                0 <= k < rooms.len() && carved_by(
                    #[trigger] rooms[k],
                    i % (SCREEN_WIDTH as int),
                    i / (SCREEN_WIDTH as int),
                ) {
                TileType::Floor
            } else {
                tiles[i]
            },
    )
}

/// The tiles of a map of walls only.
pub open spec fn all_walls() -> Seq<TileType> {
    Seq::new(NUM_TILES as nat, |i: int| TileType::Wall)
}

/// Whether `room` overlaps none of `rooms`.
pub open spec fn clear_of(rooms: Seq<Rect>, room: Rect) -> bool {
    forall|k: int| 0 <= k < rooms.len() ==> !(#[trigger] rooms[k]).overlaps(room)
}

/// Whether no two rooms of `rooms` overlap.
pub open spec fn pairwise_apart(rooms: Seq<Rect>) -> bool {
    forall|i: int, j: int|
        0 <= i < j < rooms.len() ==> !(#[trigger] rooms[i]).overlaps(#[trigger] rooms[j])
}

/// Whether `room` is one that the generator may propose: its corner leaves a
/// margin to the grid's edge that holds the largest room, and each side is
/// from 2 to 9 cells long.
pub open spec fn in_range(room: Rect) -> bool {
    &&& 1 <= room.x1 < SCREEN_WIDTH - 10
    &&& 1 <= room.y1 < SCREEN_HEIGHT - 10
    &&& 2 <= room.x2 - room.x1 < 10
    &&& 2 <= room.y2 - room.y1 < 10
}

/// Whether every room of `cands` is one that the generator may propose.
pub open spec fn all_in_range(cands: Seq<Rect>) -> bool {
    forall|k: int| 0 <= k < cands.len() ==> in_range(#[trigger] cands[k])
}

/// The rooms that are there once the candidates `cands` have been proposed
/// in turn to a level that holds `rooms`: each candidate that overlaps none
/// of the rooms there before it is added, each other is dropped.
pub open spec fn kept(rooms: Seq<Rect>, cands: Seq<Rect>) -> Seq<Rect>
    decreases cands.len(),
{
    if cands.len() == 0 {
        rooms
    } else {
        let before = kept(rooms, cands.drop_last());
        if clear_of(before, cands.last()) {
            before.push(cands.last())
        } else {
            before
        }
    }
}

/// Whether every floor cell lies off the outermost rows and columns of the
/// grid, so that a wall runs all around the level.
pub open spec fn walled_in(tiles: Seq<TileType>) -> bool {
    forall|x: int, y: int| #[trigger]
        floor_at(tiles, x, y) ==> 0 < x < SCREEN_WIDTH - 1 && 0 < y < SCREEN_HEIGHT - 1
}

/// Whether `p` lies off the outermost rows and columns of the grid.
pub open spec fn off_edge(p: Point) -> bool {
    0 < p.x < SCREEN_WIDTH - 1 && 0 < p.y < SCREEN_HEIGHT - 1
}

/// The tiles while `room` is being carved row by row: the rows above `y` are
/// done, and of row `y` the cells left of `x`.
spec fn carve_upto(tiles: Seq<TileType>, room: Rect, y: int, x: int) -> Seq<TileType> {
    Seq::new(
        tiles.len(),
        |i: int|
            {
                let cx = i % (SCREEN_WIDTH as int);
                let cy = i / (SCREEN_WIDTH as int);
                if carved_by(room, cx, cy) && (cy < y || (cy == y && cx < x)) {
                    TileType::Floor
                } else {
                    tiles[i]
                }
            },
    )
}

/// Adds `room` to the level unless it overlaps a room that is already there:
/// an accepted room is carved into the map and appended to `rooms`, a
/// rejected one changes nothing.
pub fn place_room(map: &mut GridMap, rooms: &mut Vec<Rect>, room: Rect) -> (placed: bool)
    requires
        old(map).wf(),
    ensures
        placed == clear_of(old(rooms)@, room),
        placed ==> final(rooms)@ == old(rooms)@.push(room),
        placed ==> final(map)@ == carve_room(old(map)@, room),
        !placed ==> final(rooms)@ == old(rooms)@,
        !placed ==> final(map)@ == old(map)@,
        final(map).wf(),
        forall|i: int|
            0 <= i < NUM_TILES && final(map)@[i] != old(map)@[i] ==> 0 < cell_x(i) < SCREEN_WIDTH
                && 0 < cell_y(i) < SCREEN_HEIGHT && room.covers(cell_x(i), cell_y(i)),
{
    let ghost before = map@;
    let mut k: usize = 0;
    while k < rooms.len()
        invariant
            map.wf(),
            map@ == before,
            k <= rooms.len(),
            forall|j: int| 0 <= j < k ==> !(#[trigger] rooms@[j]).overlaps(room),
        decreases rooms.len() - k,
    {
        if rooms[k].intersect(&room) {
            return false;
        }
        k = k + 1;
    }
    let mut y: i32 = room.y1;
    assert(map@ =~= carve_upto(before, room, room.y1 as int, room.x1 as int));
    while y < room.y2
        invariant
            map.wf(),
            grid_sized(before),
            room.y1 <= y,
            y <= room.y2 || room.y2 < room.y1,
            map@ == carve_upto(before, room, y as int, room.x1 as int),
        decreases room.y2 - y,
    {
        let mut x: i32 = room.x1;
        while x < room.x2
            invariant
                map.wf(),
                grid_sized(before),
                room.y1 <= y < room.y2,
                room.x1 <= x,
                x <= room.x2 || room.x2 < room.x1,
                map@ == carve_upto(before, room, y as int, x as int),
            decreases room.x2 - x,
        {
            if x > 0 && x < SCREEN_WIDTH && y > 0 && y < SCREEN_HEIGHT {
                let idx = map_idx(x, y);
                map.set_tile(idx, TileType::Floor);
            }
            assert(map@ =~= carve_upto(before, room, y as int, x + 1));
            x = x + 1;
        }
        assert(map@ =~= carve_upto(before, room, y + 1, room.x1 as int));
        y = y + 1;
    }
    assert(map@ =~= carve_room(before, room));
    rooms.push(room);
    true
}

/// Carving one more room after a list of rooms is carving the longer list.
pub proof fn lemma_carve_push(tiles: Seq<TileType>, rooms: Seq<Rect>, room: Rect)
    ensures
        carve_room(carve_rooms(tiles, rooms), room) == carve_rooms(tiles, rooms.push(room)),
{
    let longer = rooms.push(room);
    let w = SCREEN_WIDTH as int;
    assert forall|i: int| 0 <= i < tiles.len() implies carve_room(carve_rooms(tiles, rooms), room)[i]
        == carve_rooms(tiles, longer)[i] by {
        if carved_by(room, i % w, i / w) {
            assert(longer[rooms.len() as int] == room);
        } else if exists|k: int| 0 <= k < rooms.len() && carved_by(#[trigger] rooms[k], i % w, i / w) {
            let k = choose|k: int| 0 <= k < rooms.len() && carved_by(#[trigger] rooms[k], i % w, i / w);
            assert(longer[k] == rooms[k]);
        } else {
            assert forall|k: int| 0 <= k < longer.len() implies !carved_by(
                #[trigger] longer[k],
                i % w,
                i / w,
            ) by {
                if k < rooms.len() {
                    assert(longer[k] == rooms[k]);
                }
            }
        }
    }
    assert(carve_room(carve_rooms(tiles, rooms), room) =~= carve_rooms(tiles, longer));
}

/// Carving a room that the generator may propose turns each of its cells into
/// floor and nothing else, and all of them lie off the outermost rows and
/// columns of the grid.
pub proof fn lemma_room_carved(room: Rect, x: int, y: int)
    requires
        in_range(room),
    ensures
        carved_by(room, x, y) == room.covers(x, y),
        room.covers(x, y) ==> 0 < x < SCREEN_WIDTH - 1 && 0 < y < SCREEN_HEIGHT - 1,
{
}

/// Rooms that the generator may propose, carved into a level with a wall all
/// around, leave the wall standing.
pub proof fn lemma_rooms_walled_in(tiles: Seq<TileType>, rooms: Seq<Rect>)
    requires
        grid_sized(tiles),
        walled_in(tiles),
        forall|i: int| 0 <= i < rooms.len() ==> in_range(#[trigger] rooms[i]),
    ensures
        walled_in(carve_rooms(tiles, rooms)),
{
    let carved = carve_rooms(tiles, rooms);
    assert forall|x: int, y: int| #[trigger] floor_at(carved, x, y) implies 0 < x < SCREEN_WIDTH - 1
        && 0 < y < SCREEN_HEIGHT - 1 by {
        lemma_cell_of_index(x, y);
        let i = cell_index(x, y);
        if exists|k: int| 0 <= k < rooms.len() && carved_by(#[trigger] rooms[k], x, y) {
            let k = choose|k: int| 0 <= k < rooms.len() && carved_by(#[trigger] rooms[k], x, y);
            lemma_room_carved(rooms[k], x, y);
        } else {
            assert(carved[i] == tiles[i]);
            assert(floor_at(tiles, x, y));
        }
    }
}

/// The center of a room that the generator may propose lies off the edge of
/// the grid and within the room's bounding box, and the cell to its left is
/// carved with the room.
pub proof fn lemma_center_in_room(room: Rect)
    requires
        in_range(room),
    ensures
        room.has_center(),
        on_grid(room.midpoint().x as int, room.midpoint().y as int),
        off_edge(room.midpoint()),
        room.x1 <= room.midpoint().x <= room.x2,
        room.y1 <= room.midpoint().y <= room.y2,
        carved_by(room, room.midpoint().x - 1, room.midpoint().y as int),
{
}

/// Rooms that do not overlap have different centers.
pub proof fn lemma_centers_differ(a: Rect, b: Rect)
    requires
        in_range(a),
        in_range(b),
        !a.overlaps(b),
    ensures
        a.midpoint() != b.midpoint(),
{
    lemma_center_in_room(a);
    lemma_center_in_room(b);
}

} // verus!
