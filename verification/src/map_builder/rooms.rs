use vstd::prelude::*;
use bracket_random::prelude::RandomNumberGenerator;
use crate::distance::is_farthest;
use crate::geometry::{Point, Rect};
use crate::map::{floor_at, grid_sized, lemma_cell_of_index, on_grid, GridMap, TileType};
use crate::map_builder::by_center::{lemma_sorted_by_center, sort_by_center, sorted_by_center};
use crate::map_builder::carve::{
    all_in_range, all_walls, carve_rooms, clear_of, in_range, kept, lemma_carve_push,
    lemma_center_in_room, lemma_centers_differ, lemma_rooms_walled_in, off_edge, pairwise_apart,
    place_room, walled_in,
};
use crate::map_builder::corridors::{
    all_have_centers, centers_connected, centers_on_grid, dig_column, dig_corridors,
    dig_elbow, dig_row, lemma_corridors_walled_in, lemma_elbow_connects, lemma_elbow_keeps,
};
use crate::map_builder::{BuildError, MapArchitect, MapBuilder};
use crate::random::range;
use crate::reach::{
    connected, floors_kept, lemma_connected_chain, lemma_connected_kept, lemma_connected_self,
    within,
};
use crate::{SCREEN_HEIGHT, SCREEN_WIDTH};

verus! {

/// Row `y` with the columns from `lo` up to, but not including, `x` dug out.
spec fn dig_row_before(tiles: Seq<TileType>, lo: int, x: int, y: int) -> Seq<TileType> {
    Seq::new(
        tiles.len(),
        |i: int|
            if i / (SCREEN_WIDTH as int) == y && lo <= i % (SCREEN_WIDTH as int) < x {
                TileType::Floor
            } else {
                tiles[i]
            },
    )
}

/// Column `x` with the rows from `lo` up to, but not including, `y` dug out.
spec fn dig_column_before(tiles: Seq<TileType>, lo: int, y: int, x: int) -> Seq<TileType> {
    Seq::new(
        tiles.len(),
        |i: int|
            if i % (SCREEN_WIDTH as int) == x && lo <= i / (SCREEN_WIDTH as int) < y {
                TileType::Floor
            } else {
                tiles[i]
            },
    )
}

/// Builds levels out of rectangular rooms joined by corridors.
#[derive(Clone, Copy, Debug)]
pub struct RoomsArchitect {
    /// How many rooms a level holds.
    pub num_rooms: usize,
    /// How many candidate rooms may be drawn before the build is given up.
    pub max_attempts: usize,
}

/// Number of rooms of a level, unless the architect is told otherwise.
pub const NUM_ROOMS: usize = 20;

/// Number of candidate rooms that may be drawn for a level, unless the
/// architect is told otherwise.
pub const MAX_ATTEMPTS: usize = 10000;

impl Default for RoomsArchitect {
    fn default() -> (architect: RoomsArchitect)
        ensures
            architect.num_rooms == NUM_ROOMS,
            architect.max_attempts == MAX_ATTEMPTS,
    {
        RoomsArchitect { num_rooms: NUM_ROOMS, max_attempts: MAX_ATTEMPTS }
    }
}

/// Whether an architect who wants `num_rooms` rooms and allows itself
/// `max_attempts` candidates, and who finds the rooms `before`, may have been
/// proposed the candidates `cands` and have ended with the rooms `after`,
/// giving up if `gave_up`. The architect asks for a candidate as long as rooms
/// are wanting, and gives up only when it has used all its attempts.
pub open spec fn rooms_drawn(
    num_rooms: nat,
    max_attempts: nat,
    before: Seq<Rect>,
    cands: Seq<Rect>,
    after: Seq<Rect>,
    gave_up: bool,
) -> bool {
    &&& cands.len() <= max_attempts
    &&& all_in_range(cands)
    &&& after == kept(before, cands)
    &&& forall|k: int| 0 <= k < cands.len() ==> (#[trigger] kept(before, cands.take(k))).len() < num_rooms
    &&& gave_up == (after.len() < num_rooms)
    &&& gave_up ==> cands.len() == max_attempts
}

/// Tells from the draw of a coin with the faces 0 and 1 which way a corridor
/// bends: 1 sends it along the row of the room it leaves.
pub fn bends_along_prev_row(draw: i32) -> (b: bool)
    ensures
        b == (draw == 1),
{
    draw == 1
}

impl RoomsArchitect {
    /// Draws candidate rooms and places those that fit until `rooms` holds
    /// `num_rooms` of them, or `max_attempts` candidates have been drawn.
    pub fn build_random_rooms(
        &mut self,
        map: &mut GridMap,
        rooms: &mut Vec<Rect>,
        rng: &mut RandomNumberGenerator,
    ) -> (res: Result<(), BuildError>)
        requires
            old(map).wf(),
        ensures
            *final(self) == *old(self),
            final(map).wf(),
            old(rooms)@.len() <= final(rooms)@.len(),
            final(rooms)@.take(old(rooms)@.len() as int) == old(rooms)@,
            forall|j: int|
                old(rooms)@.len() <= j < final(rooms)@.len() ==> in_range(
                    #[trigger] final(rooms)@[j],
                ) && clear_of(final(rooms)@.take(j), final(rooms)@[j]),
            pairwise_apart(old(rooms)@) ==> pairwise_apart(final(rooms)@),
            final(map)@ == carve_rooms(old(map)@, final(rooms)@.skip(old(rooms)@.len() as int)),
            res is Ok <==> final(rooms)@.len() >= old(self).num_rooms,
            res is Err ==> res == Err::<(), BuildError>(BuildError::OutOfAttempts),
            old(rooms)@.len() >= old(self).num_rooms ==> final(rooms)@ == old(rooms)@,
            old(rooms)@.len() < old(self).num_rooms ==> final(rooms)@.len() <= old(self).num_rooms,
            final(rooms)@.len() - old(rooms)@.len() <= old(self).max_attempts,
            old(rooms)@.len() == 0 && old(self).num_rooms >= 1 && old(self).max_attempts >= 1
                ==> final(rooms)@.len() >= 1,
            exists|cands: Seq<Rect>| #[trigger]
                rooms_drawn(
                    old(self).num_rooms as nat,
                    old(self).max_attempts as nat,
                    old(rooms)@,
                    cands,
                    final(rooms)@,
                    res is Err,
                ),
    {
        let ghost tiles0 = map@;
        let ghost rooms0 = rooms@;
        let ghost mut cands: Seq<Rect> = Seq::empty();
        let mut attempts: usize = 0;
        assert(rooms@.skip(rooms0.len() as int) =~= Seq::<Rect>::empty());
        assert(map@ =~= carve_rooms(tiles0, Seq::<Rect>::empty()));
        assert(rooms@.take(rooms0.len() as int) =~= rooms0);
        while rooms.len() < self.num_rooms
            invariant
                map.wf(),
                grid_sized(tiles0),
                tiles0 == old(map)@,
                rooms0 == old(rooms)@,
                *self == *old(self),
                attempts <= self.max_attempts,
                rooms0.len() <= rooms@.len(),
                rooms@.len() - rooms0.len() <= attempts,
                rooms@.take(rooms0.len() as int) == rooms0,
                forall|j: int|
                    rooms0.len() <= j < rooms@.len() ==> in_range(#[trigger] rooms@[j]) && clear_of(
                        rooms@.take(j),
                        rooms@[j],
                    ),
                pairwise_apart(rooms0) ==> pairwise_apart(rooms@),
                map@ == carve_rooms(tiles0, rooms@.skip(rooms0.len() as int)),
                rooms0.len() < self.num_rooms ==> rooms@.len() <= self.num_rooms,
                rooms0.len() >= self.num_rooms ==> rooms@ == rooms0,
                rooms0.len() == 0 && attempts >= 1 ==> rooms@.len() >= 1,
                cands.len() == attempts,
                all_in_range(cands),
                rooms@ == kept(rooms0, cands),
                forall|k: int|
                    0 <= k < cands.len() ==> (#[trigger] kept(rooms0, cands.take(k))).len()
                        < self.num_rooms,
            decreases self.max_attempts - attempts,
        {
            if attempts >= self.max_attempts {
                let res: Result<(), BuildError> = Err(BuildError::OutOfAttempts);
                assert(rooms_drawn(
                    old(self).num_rooms as nat,
                    old(self).max_attempts as nat,
                    old(rooms)@,
                    cands,
                    rooms@,
                    res is Err,
                ));
                return res;
            }
            attempts = attempts + 1;
            let x = range(rng, 1, SCREEN_WIDTH - 10);
            let y = range(rng, 1, SCREEN_HEIGHT - 10);
            let w = range(rng, 2, 10);
            let h = range(rng, 2, 10);
            let room = Rect::with_size(x, y, w, h);
            let ghost earlier = rooms@;
            let ghost tiles = map@;
            let placed = place_room(map, rooms, room);
            proof {
                let drawn = cands.push(room);
                assert(drawn.drop_last() =~= cands);
                assert forall|k: int| 0 <= k < drawn.len() implies (#[trigger] kept(
                    rooms0,
                    drawn.take(k),
                )).len() < self.num_rooms by {
                    if k < cands.len() {
                        assert(drawn.take(k) =~= cands.take(k));
                    } else {
                        assert(drawn.take(k) =~= cands);
                    }
                }
                cands = drawn;
                if placed {
                    let n0 = rooms0.len() as int;
                    lemma_carve_push(tiles0, earlier.skip(n0), room);
                    assert(rooms@.skip(n0) =~= earlier.skip(n0).push(room));
                    assert(rooms@.take(n0) =~= earlier.take(n0));
                    assert forall|j: int| n0 <= j < rooms@.len() implies in_range(
                        #[trigger] rooms@[j],
                    ) && clear_of(rooms@.take(j), rooms@[j]) by {
                        if j < earlier.len() {
                            assert(rooms@[j] == earlier[j]);
                            assert(rooms@.take(j) =~= earlier.take(j));
                        } else {
                            assert(rooms@.take(j) =~= earlier);
                        }
                    }
                    if pairwise_apart(rooms0) {
                        assert forall|i: int, j: int| 0 <= i < j < rooms@.len() implies !(
                        #[trigger] rooms@[i]).overlaps(#[trigger] rooms@[j]) by {
                            if j < earlier.len() {
                                assert(rooms@[i] == earlier[i] && rooms@[j] == earlier[j]);
                            } else {
                                assert(rooms@[i] == earlier[i]);
                            }
                        }
                    }
                }
            }
        }
        assert(rooms_drawn(
            self.num_rooms as nat,
            self.max_attempts as nat,
            rooms0,
            cands,
            rooms@,
            false,
        ));
        Ok(())
    }

    /// Turns the cells of column `x` from row `y1` to row `y2` into floor.
    pub fn apply_vertical_tunnel(&mut self, map: &mut GridMap, y1: i32, y2: i32, x: i32)
        requires
            old(map).wf(),
        ensures
            *final(self) == *old(self),
            final(map).wf(),
            final(map)@ == dig_column(old(map)@, y1 as int, y2 as int, x as int),
    {
        let ghost before = map@;
        let lo: i64 = if y1 <= y2 { y1 as i64 } else { y2 as i64 };
        let hi: i64 = if y1 <= y2 { y2 as i64 } else { y1 as i64 };
        let mut y: i64 = lo;
        assert(map@ =~= dig_column_before(before, lo as int, lo as int, x as int));
        while y <= hi
            invariant
                map.wf(),
                grid_sized(before),
                i32::MIN <= lo <= y <= hi + 1 <= i32::MAX + 1,
                map@ == dig_column_before(before, lo as int, y as int, x as int),
            decreases hi + 1 - y,
        {
            if let Some(idx) = map.try_idx(Point::new(x, y as i32)) {
                map.set_tile(idx, TileType::Floor);
            }
            assert(map@ =~= dig_column_before(before, lo as int, y + 1, x as int));
            y = y + 1;
        }
        assert(map@ =~= dig_column(before, y1 as int, y2 as int, x as int));
    }

    /// Turns the cells of row `y` from column `x1` to column `x2` into floor.
    pub fn apply_horizontal_tunnel(&mut self, map: &mut GridMap, x1: i32, x2: i32, y: i32)
        requires
            old(map).wf(),
        ensures
            *final(self) == *old(self),
            final(map).wf(),
            final(map)@ == dig_row(old(map)@, x1 as int, x2 as int, y as int),
    {
        let ghost before = map@;
        let lo: i64 = if x1 <= x2 { x1 as i64 } else { x2 as i64 };
        let hi: i64 = if x1 <= x2 { x2 as i64 } else { x1 as i64 };
        let mut x: i64 = lo;
        assert(map@ =~= dig_row_before(before, lo as int, lo as int, y as int));
        while x <= hi
            invariant
                map.wf(),
                grid_sized(before),
                i32::MIN <= lo <= x <= hi + 1 <= i32::MAX + 1,
                map@ == dig_row_before(before, lo as int, x as int, y as int),
            decreases hi + 1 - x,
        {
            if let Some(idx) = map.try_idx(Point::new(x as i32, y)) {
                map.set_tile(idx, TileType::Floor);
            }
            assert(map@ =~= dig_row_before(before, lo as int, x + 1, y as int));
            x = x + 1;
        }
        assert(map@ =~= dig_row(before, x1 as int, x2 as int, y as int));
    }

    /// Digs the corridor with one bend from `prev` to `next` that
    /// `along_prev_row` selects.
    pub fn apply_elbow(&mut self, map: &mut GridMap, prev: Point, next: Point, along_prev_row: bool)
        requires
            old(map).wf(),
        ensures
            *final(self) == *old(self),
            final(map).wf(),
            final(map)@ == dig_elbow(old(map)@, prev, next, along_prev_row),
    {
        if along_prev_row {
            self.apply_horizontal_tunnel(map, prev.x, next.x, prev.y);
            self.apply_vertical_tunnel(map, prev.y, next.y, next.x);
        } else {
            self.apply_horizontal_tunnel(map, prev.x, next.x, next.y);
            self.apply_vertical_tunnel(map, prev.y, next.y, prev.x);
        }
    }

    /// Joins the rooms by corridors: in ascending order of their centers'
    /// columns, each room is joined to the next by a corridor with one bend,
    /// and a coin decides which way each corridor bends. `rooms` itself keeps
    /// its order.
    pub fn build_corridors(
        &mut self,
        map: &mut GridMap,
        rooms: &Vec<Rect>,
        rng: &mut RandomNumberGenerator,
    )
        requires
            old(map).wf(),
            all_have_centers(rooms@),
        ensures
            *final(self) == *old(self),
            final(map).wf(),
            exists|turns: Seq<bool>|
                turns.len() == (if rooms@.len() == 0 { 0 } else { rooms@.len() - 1 })
                    && final(map)@ == dig_corridors(
                    old(map)@,
                    sorted_by_center(rooms@),
                    turns,
                ),
            floors_kept(old(map)@, final(map)@),
            centers_on_grid(rooms@) ==> centers_connected(final(map)@, rooms@),
    {
        let ghost before = map@;
        let sorted = sort_by_center(rooms);
        let ghost mut turns: Seq<bool> = Seq::empty();
        proof {
            broadcast use vstd::seq_lib::group_seq_properties;

            lemma_sorted_by_center(rooms@);
            assert forall|k: int| 0 <= k < sorted@.len() implies (#[trigger] sorted@[k]).has_center()
                && (centers_on_grid(rooms@) ==> on_grid(
                sorted@[k].midpoint().x as int,
                sorted@[k].midpoint().y as int,
            )) by {
                assert(sorted@.contains(sorted@[k]));
                assert(rooms@.contains(sorted@[k]));
            }
            if sorted@.len() > 0 && centers_on_grid(rooms@) {
                lemma_connected_self(map@, sorted@[0].midpoint());
            }
        }
        let mut i: usize = 1;
        while i < sorted.len()
            invariant
                map.wf(),
                grid_sized(before),
                *self == *old(self),
                before == old(map)@,
                sorted@ == sorted_by_center(rooms@),
                1 <= i,
                sorted@.len() == rooms@.len(),
                i <= sorted@.len() || (sorted@.len() == 0 && i == 1),
                turns.len() == i - 1,
                map@ == dig_corridors(before, sorted@, turns),
                floors_kept(before, map@),
                forall|k: int| 0 <= k < sorted@.len() ==> (#[trigger] sorted@[k]).has_center(),
                centers_on_grid(rooms@) ==> centers_on_grid(sorted@),
                centers_on_grid(rooms@) ==> forall|a: int|
                    0 <= a < i && a < sorted@.len() ==> connected(
                        map@,
                        sorted@[0].midpoint(),
                        (#[trigger] sorted@[a]).midpoint(),
                    ) && connected(map@, sorted@[a].midpoint(), sorted@[0].midpoint()),
            decreases sorted.len() - i,
        {
            let prev = sorted[i - 1].center();
            let next = sorted[i].center();
            let along_prev_row = bends_along_prev_row(range(rng, 0, 2));
            let ghost tiles = map@;
            self.apply_elbow(map, prev, next, along_prev_row);
            proof {
                assert(turns.push(along_prev_row).drop_last() =~= turns);
                turns = turns.push(along_prev_row);
                if centers_on_grid(rooms@) {
                    lemma_elbow_connects(tiles, prev, next, along_prev_row);
                    let first = sorted@[0].midpoint();
                    assert forall|a: int| 0 <= a < i + 1 && a < sorted@.len() implies connected(
                        map@,
                        first,
                        (#[trigger] sorted@[a]).midpoint(),
                    ) && connected(map@, sorted@[a].midpoint(), first) by {
                        if a < i {
                            lemma_connected_kept(tiles, map@, first, sorted@[a].midpoint());
                            lemma_connected_kept(tiles, map@, sorted@[a].midpoint(), first);
                        } else {
                            lemma_connected_kept(tiles, map@, first, prev);
                            lemma_connected_kept(tiles, map@, prev, first);
                            lemma_connected_chain(map@, first, prev, next);
                            lemma_connected_chain(map@, next, prev, first);
                        }
                    }
                } else {
                    lemma_elbow_keeps(tiles, prev, next, along_prev_row);
                }
            }
            i = i + 1;
        }
        proof {
            broadcast use vstd::seq_lib::group_seq_properties;

            assert(map@ == dig_corridors(old(map)@, sorted_by_center(rooms@), turns));
            if centers_on_grid(rooms@) {
                assert forall|a: int, b: int|
                    0 <= a < rooms@.len() && 0 <= b < rooms@.len() implies connected(
                    map@,
                    (#[trigger] rooms@[a]).midpoint(),
                    (#[trigger] rooms@[b]).midpoint(),
                ) by {
                    lemma_sorted_by_center(rooms@);
                    assert(rooms@.contains(rooms@[a]));
                    assert(rooms@.contains(rooms@[b]));
                    assert(sorted@.contains(rooms@[a]));
                    assert(sorted@.contains(rooms@[b]));
                    let sa = choose|k: int| 0 <= k < sorted@.len() && sorted@[k] == rooms@[a];
                    let sb = choose|k: int| 0 <= k < sorted@.len() && sorted@[k] == rooms@[b];
                    lemma_connected_chain(
                        map@,
                        sorted@[sa].midpoint(),
                        sorted@[0].midpoint(),
                        sorted@[sb].midpoint(),
                    );
                }
            }
        }
    }
}

/// Whether `level` is a level of `num_rooms` rooms as this architect builds
/// them.
pub open spec fn built_of_rooms(level: MapBuilder, num_rooms: nat) -> bool {
    let rooms = level.rooms@;
    &&& level.map.wf()
    &&& rooms.len() == num_rooms
    &&& forall|i: int| 0 <= i < rooms.len() ==> in_range(#[trigger] rooms[i])
    &&& pairwise_apart(rooms)
    &&& exists|turns: Seq<bool>|
        turns.len() == num_rooms - 1 && level.map@ == dig_corridors(
            carve_rooms(all_walls(), rooms),
            sorted_by_center(rooms),
            turns,
        )
    &&& walled_in(level.map@)
    &&& centers_connected(level.map@, rooms)
    &&& level.player_start == rooms[0].midpoint()
    &&& is_farthest(
        level.map@,
        level.player_start.x as int,
        level.player_start.y as int,
        level.amulet_start.x as int,
        level.amulet_start.y as int,
    )
    &&& floor_at(level.map@, level.amulet_start.x as int, level.amulet_start.y as int)
    &&& level.monster_spawns@.len() == num_rooms - 1
    &&& forall|i: int|
        0 <= i < level.monster_spawns@.len() ==> #[trigger] level.monster_spawns@[i] == rooms[i
            + 1].midpoint()
    &&& forall|i: int|
        0 <= i < level.monster_spawns@.len() ==> #[trigger] level.monster_spawns@[i]
            != level.player_start
}

/// Whether an architect who wants `num_rooms` rooms and allows itself
/// `max_attempts` candidates may have been proposed the candidates `cands`
/// for an empty level and have ended with `res`: a level of the rooms it kept
/// of them, or an error because too few of them fit.
pub open spec fn level_drawn(
    num_rooms: nat,
    max_attempts: nat,
    cands: Seq<Rect>,
    res: Result<MapBuilder, BuildError>,
) -> bool {
    rooms_drawn(
        num_rooms,
        max_attempts,
        Seq::empty(),
        cands,
        match res {
            Ok(level) => level.rooms@,
            Err(_) => kept(Seq::empty(), cands),
        },
        res is Err,
    )
}

impl MapArchitect for RoomsArchitect {
    /// The architect needs at least one room, for the player to start in.
    open spec fn ready(&self) -> bool {
        self.num_rooms >= 1
    }

    /// Builds a level: places the rooms, joins them by corridors, puts the
    /// player in the center of the first room, the amulet on the floor cell
    /// farthest from the player, and one monster in the center of every
    /// other room.
    fn new(&mut self, rng: &mut RandomNumberGenerator) -> (res: Result<MapBuilder, BuildError>)
        ensures
            *final(self) == *old(self),
            res matches Ok(level) ==> built_of_rooms(level, old(self).num_rooms as nat),
            res matches Err(e) ==> e == BuildError::OutOfAttempts,
            old(self).num_rooms == 1 && old(self).max_attempts >= 1 ==> res is Ok,
            old(self).max_attempts < old(self).num_rooms ==> res is Err,
            exists|cands: Seq<Rect>| #[trigger]
                level_drawn(
                    old(self).num_rooms as nat,
                    old(self).max_attempts as nat,
                    cands,
                    res,
                ),
    {
        let mut mb = MapBuilder {
            map: GridMap::new(),
            rooms: Vec::new(),
            monster_spawns: Vec::new(),
            player_start: Point::zero(),
            amulet_start: Point::zero(),
        };
        mb.fill(TileType::Wall);
        assert(mb.map@ =~= all_walls());
        let built = self.build_random_rooms(&mut mb.map, &mut mb.rooms, rng);
        let ghost cands = choose|cands: Seq<Rect>| #[trigger]
            rooms_drawn(
                self.num_rooms as nat,
                self.max_attempts as nat,
                Seq::empty(),
                cands,
                mb.rooms@,
                built is Err,
            );
        match built {
            Err(e) => {
                let res: Result<MapBuilder, BuildError> = Err(e);
                assert(level_drawn(
                    old(self).num_rooms as nat,
                    old(self).max_attempts as nat,
                    cands,
                    res,
                ));
                return res;
            },
            Ok(_) => {},
        }
        let ghost carved = mb.map@;
        proof {
            assert(mb.rooms@.skip(0) =~= mb.rooms@);
            assert forall|i: int| 0 <= i < mb.rooms@.len() implies in_range(
                #[trigger] mb.rooms@[i],
            ) && mb.rooms@[i].has_center() && on_grid(
                mb.rooms@[i].midpoint().x as int,
                mb.rooms@[i].midpoint().y as int,
            ) by {
                lemma_center_in_room(mb.rooms@[i]);
            }
            assert(pairwise_apart(Seq::<Rect>::empty()));
        }
        self.build_corridors(&mut mb.map, &mb.rooms, rng);
        proof {
            broadcast use vstd::seq_lib::group_seq_properties;

            let path = sorted_by_center(mb.rooms@);
            let turns = choose|turns: Seq<bool>|
                turns.len() == mb.rooms@.len() - 1 && mb.map@ == dig_corridors(carved, path, turns);
            lemma_sorted_by_center(mb.rooms@);
            lemma_rooms_walled_in(all_walls(), mb.rooms@);
            assert forall|i: int| 0 <= i < path.len() implies off_edge(
                (#[trigger] path[i]).midpoint(),
            ) by {
                assert(path.contains(path[i]));
                assert(mb.rooms@.contains(path[i]));
                lemma_center_in_room(path[i]);
            }
            lemma_corridors_walled_in(carved, path, turns);
        }
        mb.player_start = mb.rooms[0].center();
        match mb.place_amulet() {
            Ok(_) => {},
            Err(e) => {
                proof {
                    let (cx, cy) = (mb.player_start.x as int, mb.player_start.y as int);
                    lemma_center_in_room(mb.rooms@[0]);
                    lemma_cell_of_index(cx - 1, cy);
                    assert(floor_at(carved, cx - 1, cy));
                    assert(floor_at(mb.map@, cx - 1, cy));
                    assert(within(mb.map@, cx, cy, cx, cy, 0));
                    assert(within(mb.map@, cx, cy, cx - 1, cy, 1));
                }
                return Err(e);
            },
        }
        let ghost level = mb;
        let mut i: usize = 1;
        while i < mb.rooms.len()
            invariant
                1 <= i <= mb.rooms@.len(),
                mb.map == level.map,
                mb.rooms == level.rooms,
                mb.player_start == level.player_start,
                mb.amulet_start == level.amulet_start,
                mb.monster_spawns@.len() == i - 1,
                mb.player_start == mb.rooms@[0].midpoint(),
                pairwise_apart(mb.rooms@),
                forall|k: int| 0 <= k < mb.rooms@.len() ==> in_range(#[trigger] mb.rooms@[k]),
                forall|k: int|
                    0 <= k < mb.monster_spawns@.len() ==> #[trigger] mb.monster_spawns@[k]
                        == mb.rooms@[k + 1].midpoint(),
                forall|k: int|
                    0 <= k < mb.monster_spawns@.len() ==> #[trigger] mb.monster_spawns@[k]
                        != mb.player_start,
            decreases mb.rooms.len() - i,
        {
            proof {
                lemma_center_in_room(mb.rooms@[i as int]);
                lemma_centers_differ(mb.rooms@[0], mb.rooms@[i as int]);
            }
            let spawn = mb.rooms[i].center();
            mb.monster_spawns.push(spawn);
            i = i + 1;
        }
        let res: Result<MapBuilder, BuildError> = Ok(mb);
        assert(level_drawn(
            old(self).num_rooms as nat,
            old(self).max_attempts as nat,
            cands,
            res,
        ));
        res
    }
}



} // verus!
