use vstd::prelude::*;
use crate::geometry::Point;
use crate::map::{
    cell_index, cell_x, cell_y, floor_at, index_to_point, map_idx, on_grid, GridMap, TileType,
    NUM_ROWS, NUM_TILES, ROW_LENGTH,
};
use crate::reach::{
    at_distance, lemma_within_more, lemma_within_on_grid, lemma_within_settled, within,
};

verus! {

/// Whether `dist` gives every cell of the grid its distance from `(sx, sy)`:
/// the number of steps of the shortest walk to it, or `None` where no walk
/// leads to it.
pub open spec fn is_distance_map(
    tiles: Seq<TileType>,
    sx: int,
    sy: int,
    dist: Seq<Option<usize>>,
) -> bool {
    &&& dist.len() == NUM_TILES
    &&& forall|i: int|
        0 <= i < NUM_TILES ==> match #[trigger] dist[i] {
            Some(d) => at_distance(tiles, sx, sy, cell_x(i), cell_y(i), d as nat),
            None => forall|k: nat| !within(tiles, sx, sy, cell_x(i), cell_y(i), k),
        }
}

/// Whether the cells at row-major positions `a` and `b` are neighbours.
spec fn adjacent(a: int, b: int) -> bool {
    ||| (cell_y(a) == cell_y(b) && (cell_x(a) == cell_x(b) + 1 || cell_x(a) + 1 == cell_x(b)))
    ||| (cell_x(a) == cell_x(b) && (cell_y(a) == cell_y(b) + 1 || cell_y(a) + 1 == cell_y(b)))
}

/// The neighbours of the cell at position `c` are the cells one position to
/// either side within its row, and one row's length to either side.
proof fn lemma_neighbours(c: int)
    requires
        0 <= c < NUM_TILES,
    ensures
        cell_x(c) > 0 ==> adjacent(c, c - 1),
        cell_x(c) + 1 < ROW_LENGTH ==> adjacent(c, c + 1),
        cell_y(c) > 0 ==> adjacent(c, c - ROW_LENGTH),
        cell_y(c) + 1 < NUM_ROWS ==> adjacent(c, c + ROW_LENGTH),
        forall|i: int|
            0 <= i < NUM_TILES && adjacent(c, i) ==> i == c - 1 || i == c + 1 || i == c - ROW_LENGTH
                || i == c + ROW_LENGTH,
{
}

/// Every label is the true distance of its cell and none exceeds `cap`.
#[verifier::opaque]
spec fn labels_true(tiles: Seq<TileType>, sx: int, sy: int, dist: Seq<Option<usize>>, cap: nat) -> bool {
    forall|i: int|
        0 <= i < NUM_TILES ==> match #[trigger] dist[i] {
            Some(d) => d <= cap && at_distance(tiles, sx, sy, cell_x(i), cell_y(i), d as nat),
            None => true,
        }
}

/// No cell without a label is within `level` steps.
#[verifier::opaque]
spec fn blanks_far(tiles: Seq<TileType>, sx: int, sy: int, dist: Seq<Option<usize>>, level: nat) -> bool {
    forall|i: int|
        0 <= i < NUM_TILES && (#[trigger] dist[i]) is None ==> !within(
            tiles,
            sx,
            sy,
            cell_x(i),
            cell_y(i),
            level,
        )
}

/// `cells` holds the cells labelled `level`, all of them and no others.
#[verifier::opaque]
spec fn lists_level(dist: Seq<Option<usize>>, cells: Seq<usize>, level: nat) -> bool {
    &&& forall|t: int|
        0 <= t < cells.len() ==> (#[trigger] cells[t]) < NUM_TILES && dist[cells[t] as int] == Some(
            level as usize,
        )
    &&& forall|i: int|
        0 <= i < NUM_TILES && (#[trigger] dist[i]) == Some(level as usize) ==> exists|t: int|
            0 <= t < cells.len() && #[trigger] cells[t] == i
}

/// Every floor neighbour of the first `done` cells of `cells` has a label.
#[verifier::opaque]
spec fn served(tiles: Seq<TileType>, dist: Seq<Option<usize>>, cells: Seq<usize>, done: int) -> bool {
    forall|t: int, i: int|
        0 <= t < done && 0 <= i < NUM_TILES && adjacent((#[trigger] cells[t]) as int, i) && tiles[i]
            == TileType::Floor ==> (#[trigger] dist[i]) is Some
}

/// Number of cells without a label.
spec fn blanks(dist: Seq<Option<usize>>) -> nat
    decreases dist.len(),
{
    if dist.len() == 0 {
        0
    } else {
        blanks(dist.drop_last()) + (if dist.last() is None { 1nat } else { 0nat })
    }
}

/// Labelling a cell that had no label leaves one cell fewer without.
proof fn lemma_blanks_update(dist: Seq<Option<usize>>, i: int, d: usize)
    requires
        0 <= i < dist.len(),
        dist[i] is None,
    ensures
        blanks(dist.update(i, Some(d))) + 1 == blanks(dist),
    decreases dist.len(),
{
    let after = dist.update(i, Some(d));
    if i == dist.len() - 1 {
        assert(after.drop_last() =~= dist.drop_last());
    } else {
        lemma_blanks_update(dist.drop_last(), i, d);
        assert(after.drop_last() =~= dist.drop_last().update(i, Some(d)));
    }
}

/// Where no cell has a label, every cell is without one.
proof fn lemma_blanks_all(dist: Seq<Option<usize>>)
    requires
        forall|i: int| 0 <= i < dist.len() ==> dist[i] is None,
    ensures
        blanks(dist) == dist.len(),
    decreases dist.len(),
{
    if dist.len() > 0 {
        lemma_blanks_all(dist.drop_last());
    }
}

/// Nothing is reached from a start that is off the grid.
proof fn lemma_no_walk_off_grid(tiles: Seq<TileType>, sx: int, sy: int, x: int, y: int, k: nat)
    requires
        !on_grid(sx, sy),
    ensures
        !within(tiles, sx, sy, x, y, k),
{
    if within(tiles, sx, sy, x, y, k) {
        lemma_within_on_grid(tiles, sx, sy, x, y, k);
    }
}

/// A cell without a label cannot be entered from the neighbour `(qx, qy)`
/// within `level + 1` steps, once the cells labelled `level` have been served.
proof fn lemma_neighbour_blocked(
    tiles: Seq<TileType>,
    sx: int,
    sy: int,
    dist: Seq<Option<usize>>,
    cells: Seq<usize>,
    level: nat,
    i: int,
    qx: int,
    qy: int,
)
    requires
        tiles.len() == NUM_TILES,
        dist.len() == NUM_TILES,
        level < NUM_TILES,
        labels_true(tiles, sx, sy, dist, level + 1),
        blanks_far(tiles, sx, sy, dist, level),
        lists_level(dist, cells, level),
        served(tiles, dist, cells, cells.len() as int),
        0 <= i < NUM_TILES,
        dist[i] is None,
        floor_at(tiles, cell_x(i), cell_y(i)),
        (qy == cell_y(i) && (qx == cell_x(i) + 1 || qx + 1 == cell_x(i))) || (qx == cell_x(i) && (qy
            == cell_y(i) + 1 || qy + 1 == cell_y(i))),
    ensures
        !within(tiles, sx, sy, qx, qy, level),
{
    reveal(labels_true);
    reveal(blanks_far);
    reveal(lists_level);
    reveal(served);
    if within(tiles, sx, sy, qx, qy, level) {
        lemma_within_on_grid(tiles, sx, sy, qx, qy, level);
        let q = cell_index(qx, qy);
        assert(cell_x(q) == qx && cell_y(q) == qy);
        assert(0 <= q < NUM_TILES);
        match dist[q] {
            None => {
                assert(!within(tiles, sx, sy, cell_x(q), cell_y(q), level));
            },
            Some(d) => {
                assert(at_distance(tiles, sx, sy, cell_x(q), cell_y(q), d as nat));
                if d < level {
                    assert(within(tiles, sx, sy, cell_x(i), cell_y(i), (d + 1) as nat));
                    lemma_within_more(tiles, sx, sy, cell_x(i), cell_y(i), (d + 1) as nat, level);
                } else if d == level {
                    let t = choose|t: int| 0 <= t < cells.len() && #[trigger] cells[t] == q;
                    assert(adjacent(cells[t] as int, i));
                    assert(tiles[i] == TileType::Floor);
                    assert(dist[i] is Some);
                }
            },
        }
    }
}

/// Once the cells labelled `level` have been served, no cell without a label
/// is within `level + 1` steps.
proof fn lemma_level_done(
    tiles: Seq<TileType>,
    sx: int,
    sy: int,
    dist: Seq<Option<usize>>,
    cells: Seq<usize>,
    level: nat,
)
    requires
        tiles.len() == NUM_TILES,
        dist.len() == NUM_TILES,
        level < NUM_TILES,
        labels_true(tiles, sx, sy, dist, level + 1),
        blanks_far(tiles, sx, sy, dist, level),
        lists_level(dist, cells, level),
        served(tiles, dist, cells, cells.len() as int),
    ensures
        blanks_far(tiles, sx, sy, dist, level + 1),
{
    reveal(blanks_far);
    assert forall|i: int| 0 <= i < NUM_TILES && (#[trigger] dist[i]) is None implies !within(
        tiles,
        sx,
        sy,
        cell_x(i),
        cell_y(i),
        level + 1,
    ) by {
        let (x, y) = (cell_x(i), cell_y(i));
        assert(!within(tiles, sx, sy, x, y, level));
        if floor_at(tiles, x, y) {
            lemma_neighbour_blocked(tiles, sx, sy, dist, cells, level, i, x - 1, y);
            lemma_neighbour_blocked(tiles, sx, sy, dist, cells, level, i, x + 1, y);
            lemma_neighbour_blocked(tiles, sx, sy, dist, cells, level, i, x, y - 1);
            lemma_neighbour_blocked(tiles, sx, sy, dist, cells, level, i, x, y + 1);
        }
    }
}

/// When no cell is labelled `level`, the cells without a label are out of reach.
proof fn lemma_search_done(
    tiles: Seq<TileType>,
    sx: int,
    sy: int,
    dist: Seq<Option<usize>>,
    level: nat,
)
    requires
        tiles.len() == NUM_TILES,
        dist.len() == NUM_TILES,
        level >= 1,
        labels_true(tiles, sx, sy, dist, level),
        blanks_far(tiles, sx, sy, dist, level),
        forall|i: int| 0 <= i < NUM_TILES ==> dist[i] != Some(level as usize),
    ensures
        is_distance_map(tiles, sx, sy, dist),
{
    reveal(labels_true);
    reveal(blanks_far);
    let last = (level - 1) as nat;
    assert forall|cx: int, cy: int| #[trigger]
        within(tiles, sx, sy, cx, cy, last + 1) implies within(tiles, sx, sy, cx, cy, last) by {
        lemma_within_on_grid(tiles, sx, sy, cx, cy, level);
        let q = cell_index(cx, cy);
        assert(cell_x(q) == cx && cell_y(q) == cy);
        match dist[q] {
            None => {},
            Some(d) => {
                assert(at_distance(tiles, sx, sy, cell_x(q), cell_y(q), d as nat));
                lemma_within_more(tiles, sx, sy, cx, cy, d as nat, last);
            },
        }
    }
    assert forall|i: int| 0 <= i < NUM_TILES implies match #[trigger] dist[i] {
        Some(d) => at_distance(tiles, sx, sy, cell_x(i), cell_y(i), d as nat),
        None => forall|k: nat| !within(tiles, sx, sy, cell_x(i), cell_y(i), k),
    } by {
        if dist[i] is None {
            assert forall|k: nat| !within(tiles, sx, sy, cell_x(i), cell_y(i), k) by {
                if within(tiles, sx, sy, cell_x(i), cell_y(i), k) {
                    lemma_within_settled(tiles, sx, sy, cell_x(i), cell_y(i), last, k);
                    lemma_within_more(tiles, sx, sy, cell_x(i), cell_y(i), last, level);
                }
            }
        }
    }
}

/// Labels the cell `n`, a neighbour of the cell `c` that is labelled `level`,
/// with `level + 1` and notes it in `next`, if it is a floor cell that has no
/// label yet.
fn label_neighbour(
    map: &GridMap,
    dist: &mut Vec<Option<usize>>,
    next: &mut Vec<usize>,
    Ghost(sx): Ghost<int>,
    Ghost(sy): Ghost<int>,
    Ghost(cells): Ghost<Seq<usize>>,
    Ghost(done): Ghost<int>,
    c: usize,
    n: usize,
    level: usize,
)
    requires
        map.wf(),
        old(dist)@.len() == NUM_TILES,
        c < NUM_TILES,
        n < NUM_TILES,
        level < NUM_TILES,
        adjacent(c as int, n as int),
        old(dist)@[c as int] == Some(level),
        labels_true(map@, sx, sy, old(dist)@, (level + 1) as nat),
        blanks_far(map@, sx, sy, old(dist)@, level as nat),
        lists_level(old(dist)@, old(next)@, (level + 1) as nat),
        lists_level(old(dist)@, cells, level as nat),
        served(map@, old(dist)@, cells, done),
    ensures
        final(dist)@.len() == NUM_TILES,
        final(dist)@[c as int] == Some(level),
        labels_true(map@, sx, sy, final(dist)@, (level + 1) as nat),
        blanks_far(map@, sx, sy, final(dist)@, level as nat),
        lists_level(final(dist)@, final(next)@, (level + 1) as nat),
        lists_level(final(dist)@, cells, level as nat),
        served(map@, final(dist)@, cells, done),
        forall|i: int|
            0 <= i < NUM_TILES && old(dist)@[i] is Some ==> (#[trigger] final(dist)@[i]) is Some,
        map@[n as int] == TileType::Floor ==> final(dist)@[n as int] is Some,
        blanks(final(dist)@) + final(next)@.len() == blanks(old(dist)@) + old(next)@.len(),
{
    reveal(labels_true);
    reveal(blanks_far);
    reveal(lists_level);
    reveal(served);
    if map.tile(n) == TileType::Floor && dist[n].is_none() {
        proof {
            let (x, y) = (cell_x(n as int), cell_y(n as int));
            assert(at_distance(map@, sx, sy, cell_x(c as int), cell_y(c as int), level as nat));
            assert(floor_at(map@, x, y));
            assert(within(map@, sx, sy, x, y, (level + 1) as nat));
            assert(!within(map@, sx, sy, x, y, level as nat));
            lemma_blanks_update(dist@, n as int, (level + 1) as usize);
        }
        let ghost before = dist@;
        let ghost listed = next@;
        dist.set(n, Some(level + 1));
        next.push(n);
        proof {
            assert forall|i: int|
                0 <= i < NUM_TILES && (#[trigger] dist@[i]) == Some(
                    (level + 1) as usize,
                ) implies exists|t: int| 0 <= t < next@.len() && #[trigger] next@[t] == i by {
                if i == n {
                    assert(next@[listed.len() as int] == n);
                } else {
                    assert(before[i] == Some((level + 1) as usize));
                    let t = choose|t: int| 0 <= t < listed.len() && #[trigger] listed[t] == i;
                    assert(next@[t] == i);
                }
            }
            assert forall|t: int| 0 <= t < next@.len() implies (#[trigger] next@[t]) < NUM_TILES
                && dist@[next@[t] as int] == Some((level + 1) as usize) by {
                if t < listed.len() {
                    assert(next@[t] == listed[t]);
                }
            }
            assert forall|i: int|
                0 <= i < NUM_TILES && (#[trigger] dist@[i]) == Some(
                    level as usize,
                ) implies exists|t: int| 0 <= t < cells.len() && #[trigger] cells[t] == i by {
                assert(before[i] == Some(level as usize));
            }
            assert forall|t: int, i: int|
                0 <= t < done && 0 <= i < NUM_TILES && adjacent((#[trigger] cells[t]) as int, i)
                    && map@[i] == TileType::Floor implies (#[trigger] dist@[i]) is Some by {
                assert(before[i] is Some);
            }
        }
    }
}

/// A cell whose floor neighbours all have labels has been served.
proof fn lemma_cell_served(tiles: Seq<TileType>, dist: Seq<Option<usize>>, cells: Seq<usize>, done: int)
    requires
        dist.len() == NUM_TILES,
        0 <= done < cells.len(),
        cells[done] < NUM_TILES,
        served(tiles, dist, cells, done),
        forall|i: int|
            0 <= i < NUM_TILES && adjacent(cells[done] as int, i) && tiles[i] == TileType::Floor ==> (
            #[trigger] dist[i]) is Some,
    ensures
        served(tiles, dist, cells, done + 1),
{
    reveal(served);
}

/// The cells listed for a level are cells of the grid with that label.
proof fn lemma_listed(dist: Seq<Option<usize>>, cells: Seq<usize>, level: nat, t: int)
    requires
        lists_level(dist, cells, level),
        0 <= t < cells.len(),
    ensures
        cells[t] < NUM_TILES,
        dist[cells[t] as int] == Some(level as usize),
{
    reveal(lists_level);
}

/// The distance of every cell from `source`, found by visiting the cells in
/// the order of their distance.
pub fn distance_map(map: &GridMap, source: Point) -> (dist: Vec<Option<usize>>)
    requires
        map.wf(),
    ensures
        is_distance_map(map@, source.x as int, source.y as int, dist@),
{
    let ghost sx = source.x as int;
    let ghost sy = source.y as int;
    let mut dist: Vec<Option<usize>> = Vec::new();
    let mut i: usize = 0;
    while i < NUM_TILES
        invariant
            i <= NUM_TILES,
            dist@.len() == i,
            forall|j: int| 0 <= j < i ==> dist@[j] is None,
        decreases NUM_TILES - i,
    {
        dist.push(None);
        i = i + 1;
    }
    if !map.in_bounds(source) {
        proof {
            assert forall|j: int, k: nat| 0 <= j < NUM_TILES implies !within(
                map@,
                sx,
                sy,
                cell_x(j),
                cell_y(j),
                k,
            ) by {
                lemma_no_walk_off_grid(map@, sx, sy, cell_x(j), cell_y(j), k);
            }
        }
        return dist;
    }
    let start = map_idx(source.x, source.y);
    proof {
        lemma_blanks_all(dist@);
        lemma_blanks_update(dist@, start as int, 0);
    }
    dist.set(start, Some(0));
    let mut frontier: Vec<usize> = Vec::new();
    frontier.push(start);
    let mut level: usize = 0;
    proof {
        assert(within(map@, sx, sy, cell_x(start as int), cell_y(start as int), 0));
        assert forall|j: int| 0 <= j < NUM_TILES && (#[trigger] dist@[j]) is None implies !within(
            map@,
            sx,
            sy,
            cell_x(j),
            cell_y(j),
            0,
        ) by {}
        assert(frontier@[0] == start);
        reveal(labels_true);
        reveal(blanks_far);
        reveal(lists_level);
    }
    while frontier.len() > 0
        invariant
            map.wf(),
            dist@.len() == NUM_TILES,
            sx == source.x as int,
            sy == source.y as int,
            labels_true(map@, sx, sy, dist@, level as nat),
            blanks_far(map@, sx, sy, dist@, level as nat),
            lists_level(dist@, frontier@, level as nat),
            level + blanks(dist@) + (if frontier@.len() > 0 { 1nat } else { 0nat }) <= NUM_TILES,
            frontier@.len() == 0 ==> level >= 1,
        decreases blanks(dist@), frontier@.len(),
    {
        let mut next: Vec<usize> = Vec::new();
        let mut j: usize = 0;
        let ghost blanks_before = blanks(dist@);
        proof {
            reveal(labels_true);
            reveal(lists_level);
            reveal(served);
            assert(labels_true(map@, sx, sy, dist@, (level + 1) as nat));
            assert(lists_level(dist@, next@, (level + 1) as nat));
            assert(served(map@, dist@, frontier@, 0));
        }
        while j < frontier.len()
            invariant
                map.wf(),
                dist@.len() == NUM_TILES,
                j <= frontier@.len(),
                level < NUM_TILES,
                level + blanks_before + 1 <= NUM_TILES,
                labels_true(map@, sx, sy, dist@, (level + 1) as nat),
                blanks_far(map@, sx, sy, dist@, level as nat),
                lists_level(dist@, frontier@, level as nat),
                lists_level(dist@, next@, (level + 1) as nat),
                served(map@, dist@, frontier@, j as int),
                blanks(dist@) + next@.len() == blanks_before,
            decreases frontier.len() - j,
        {
            let c = frontier[j];
            proof {
                lemma_listed(dist@, frontier@, level as nat, j as int);
            }
            let x = c % ROW_LENGTH;
            let y = c / ROW_LENGTH;
            proof {
                lemma_neighbours(c as int);
            }
            if x > 0 {
                label_neighbour(
                    map,
                    &mut dist,
                    &mut next,
                    Ghost(sx),
                    Ghost(sy),
                    Ghost(frontier@),
                    Ghost(j as int),
                    c,
                    c - 1,
                    level,
                );
            }
            if x + 1 < ROW_LENGTH {
                label_neighbour(
                    map,
                    &mut dist,
                    &mut next,
                    Ghost(sx),
                    Ghost(sy),
                    Ghost(frontier@),
                    Ghost(j as int),
                    c,
                    c + 1,
                    level,
                );
            }
            if y > 0 {
                label_neighbour(
                    map,
                    &mut dist,
                    &mut next,
                    Ghost(sx),
                    Ghost(sy),
                    Ghost(frontier@),
                    Ghost(j as int),
                    c,
                    c - ROW_LENGTH,
                    level,
                );
            }
            if y + 1 < NUM_ROWS {
                label_neighbour(
                    map,
                    &mut dist,
                    &mut next,
                    Ghost(sx),
                    Ghost(sy),
                    Ghost(frontier@),
                    Ghost(j as int),
                    c,
                    c + ROW_LENGTH,
                    level,
                );
            }
            proof {
                assert forall|i: int|
                    0 <= i < NUM_TILES && adjacent(c as int, i) && map@[i]
                        == TileType::Floor implies (#[trigger] dist@[i]) is Some by {
                    assert(i == c - 1 || i == c + 1 || i == c - ROW_LENGTH || i == c
                        + ROW_LENGTH);
                }
                lemma_cell_served(map@, dist@, frontier@, j as int);
            }
            j = j + 1;
        }
        proof {
            lemma_level_done(map@, sx, sy, dist@, frontier@, level as nat);
        }
        frontier = next;
        level = level + 1;
    }
    proof {
        reveal(lists_level);
        assert forall|i: int| 0 <= i < NUM_TILES implies dist@[i] != Some(level) by {
            if dist@[i] == Some(level) {
                let t = choose|t: int| 0 <= t < frontier@.len() && #[trigger] frontier@[t] == i;
            }
        }
        lemma_search_done(map@, sx, sy, dist@, level as nat);
    }
    dist
}

/// Whether `(x, y)` is `d > 0` steps from `(sx, sy)`, no cell that can be
/// reached at all is farther, and among the cells just as far `(x, y)` comes
/// first in row-major order.
pub open spec fn farthest_at(tiles: Seq<TileType>, sx: int, sy: int, x: int, y: int, d: nat) -> bool {
    &&& d > 0
    &&& at_distance(tiles, sx, sy, x, y, d)
    &&& forall|cx: int, cy: int, k: nat| #[trigger]
        within(tiles, sx, sy, cx, cy, k) ==> within(tiles, sx, sy, cx, cy, d)
    &&& forall|cx: int, cy: int| #[trigger]
        at_distance(tiles, sx, sy, cx, cy, d) ==> cell_index(x, y) <= cell_index(cx, cy)
}

/// Whether `(x, y)` is the cell farthest from `(sx, sy)` among those that can
/// be reached from it, the first in row-major order where several are.
pub open spec fn is_farthest(tiles: Seq<TileType>, sx: int, sy: int, x: int, y: int) -> bool {
    exists|d: nat| farthest_at(tiles, sx, sy, x, y, d)
}

/// Whether no walk from `(sx, sy)` leads anywhere else.
pub open spec fn nothing_beyond(tiles: Seq<TileType>, sx: int, sy: int) -> bool {
    forall|cx: int, cy: int, k: nat| #[trigger]
        within(tiles, sx, sy, cx, cy, k) ==> cx == sx && cy == sy
}

/// A cell has one distance only.
pub proof fn lemma_one_distance(tiles: Seq<TileType>, sx: int, sy: int, x: int, y: int, a: nat, b: nat)
    requires
        at_distance(tiles, sx, sy, x, y, a),
        at_distance(tiles, sx, sy, x, y, b),
    ensures
        a == b,
{
    if a < b {
        lemma_within_more(tiles, sx, sy, x, y, a, (b - 1) as nat);
    } else if b < a {
        lemma_within_more(tiles, sx, sy, x, y, b, (a - 1) as nat);
    }
}

/// The label that a distance map gives a cell that a walk leads to: the
/// length of the shortest such walk.
proof fn lemma_label_of_reached(
    tiles: Seq<TileType>,
    sx: int,
    sy: int,
    dist: Seq<Option<usize>>,
    x: int,
    y: int,
    k: nat,
) -> (d: usize)
    requires
        is_distance_map(tiles, sx, sy, dist),
        within(tiles, sx, sy, x, y, k),
    ensures
        on_grid(x, y),
        dist[cell_index(x, y)] == Some(d),
        at_distance(tiles, sx, sy, x, y, d as nat),
        d <= k,
{
    lemma_within_on_grid(tiles, sx, sy, x, y, k);
    let q = cell_index(x, y);
    assert(cell_x(q) == x && cell_y(q) == y);
    assert(dist[q] is Some);
    let d = dist[q]->Some_0;
    if d > k {
        lemma_within_more(tiles, sx, sy, x, y, k, (d - 1) as nat);
    }
    d
}

/// The floor cell farthest from `source` among those that can be reached from
/// it; of several, the first in row-major order. `None` where no walk from
/// `source` leads to another cell.
pub fn most_distant(map: &GridMap, source: Point) -> (goal: Option<Point>)
    requires
        map.wf(),
    ensures
        match goal {
            Some(p) => is_farthest(
                map@,
                source.x as int,
                source.y as int,
                p.x as int,
                p.y as int,
            ) && floor_at(map@, p.x as int, p.y as int),
            None => nothing_beyond(map@, source.x as int, source.y as int),
        },
{
    let ghost sx = source.x as int;
    let ghost sy = source.y as int;
    let dist = distance_map(map, source);
    let mut best: usize = 0;
    let mut best_d: usize = 0;
    let mut i: usize = 0;
    while i < NUM_TILES
        invariant
            i <= NUM_TILES,
            dist@.len() == NUM_TILES,
            forall|j: int| 0 <= j < i && (#[trigger] dist@[j]) is Some ==> dist@[j]->Some_0 <= best_d,
            best <= i,
            best_d > 0 ==> best < i && dist@[best as int] == Some(best_d),
            forall|j: int| 0 <= j < best && (#[trigger] dist@[j]) is Some ==> dist@[j]->Some_0 < best_d,
        decreases NUM_TILES - i,
    {
        match dist[i] {
            Some(d) => {
                if d > best_d {
                    best = i;
                    best_d = d;
                }
            },
            None => {},
        }
        i = i + 1;
    }
    if best_d == 0 {
        proof {
            assert forall|cx: int, cy: int, k: nat| #[trigger]
                within(map@, sx, sy, cx, cy, k) implies cx == sx && cy == sy by {
                let d = lemma_label_of_reached(map@, sx, sy, dist@, cx, cy, k);
            }
        }
        None
    } else {
        let goal = index_to_point(best);
        proof {
            let (gx, gy) = (goal.x as int, goal.y as int);
            assert(at_distance(map@, sx, sy, gx, gy, best_d as nat));
            assert forall|cx: int, cy: int, k: nat| #[trigger]
                within(map@, sx, sy, cx, cy, k) implies within(
                map@,
                sx,
                sy,
                cx,
                cy,
                best_d as nat,
            ) by {
                let d = lemma_label_of_reached(map@, sx, sy, dist@, cx, cy, k);
                lemma_within_more(map@, sx, sy, cx, cy, d as nat, best_d as nat);
            }
            assert forall|cx: int, cy: int| #[trigger]
                at_distance(map@, sx, sy, cx, cy, best_d as nat) implies cell_index(gx, gy)
                <= cell_index(cx, cy) by {
                let d = lemma_label_of_reached(map@, sx, sy, dist@, cx, cy, best_d as nat);
                lemma_one_distance(map@, sx, sy, cx, cy, d as nat, best_d as nat);
                let q = cell_index(cx, cy);
                assert(0 <= q < NUM_TILES);
                assert(dist@[q] == Some(best_d));
                if q < best {
                    assert(dist@[q]->Some_0 < best_d);
                }
            }
            assert(farthest_at(map@, sx, sy, gx, gy, best_d as nat));
        }
        Some(goal)
    }
}

} // verus!
