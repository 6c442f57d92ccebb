use vstd::prelude::*;
use crate::geometry::Point;
use crate::map::{floor_at, on_grid, TileType};

verus! {

/// Whether a walk of at most `k` steps leads from `(sx, sy)` to `(x, y)`.
/// A step goes to one of the four neighbouring cells and must end on a floor
/// tile of the grid; the starting cell must be on the grid and may hold
/// anything.
pub open spec fn within(tiles: Seq<TileType>, sx: int, sy: int, x: int, y: int, k: nat) -> bool
    decreases k,
{
    if k == 0 {
        x == sx && y == sy && on_grid(sx, sy)
    } else {
        let j = (k - 1) as nat;
        within(tiles, sx, sy, x, y, j) || (floor_at(tiles, x, y) && (within(
            tiles,
            sx,
            sy,
            x - 1,
            y,
            j,
        ) || within(tiles, sx, sy, x + 1, y, j) || within(tiles, sx, sy, x, y - 1, j) || within(
            tiles,
            sx,
            sy,
            x,
            y + 1,
            j,
        )))
    }
}

/// Whether the shortest walk from `(sx, sy)` to `(x, y)` takes exactly `d` steps.
pub open spec fn at_distance(tiles: Seq<TileType>, sx: int, sy: int, x: int, y: int, d: nat) -> bool {
    within(tiles, sx, sy, x, y, d) && (d == 0 || !within(tiles, sx, sy, x, y, (d - 1) as nat))
}

/// Whether some walk leads from `from` to `to`.
pub open spec fn connected(tiles: Seq<TileType>, from: Point, to: Point) -> bool {
    exists|k: nat| within(tiles, from.x as int, from.y as int, to.x as int, to.y as int, k)
}

/// Whether every floor cell of `a` is a floor cell of `b` too.
pub open spec fn floors_kept(a: Seq<TileType>, b: Seq<TileType>) -> bool {
    forall|x: int, y: int| floor_at(a, x, y) ==> floor_at(b, x, y)
}

/// A walk of at most `k` steps is a walk of at most `m` steps for every `m >= k`.
pub proof fn lemma_within_more(
    tiles: Seq<TileType>,
    sx: int,
    sy: int,
    x: int,
    y: int,
    k: nat,
    m: nat,
)
    requires
        within(tiles, sx, sy, x, y, k),
        k <= m,
    ensures
        within(tiles, sx, sy, x, y, m),
    decreases m,
{
    if k < m {
        lemma_within_more(tiles, sx, sy, x, y, k, (m - 1) as nat);
    }
}

/// A walk stays a walk when walls turn into floor.
pub proof fn lemma_within_kept(
    a: Seq<TileType>,
    b: Seq<TileType>,
    sx: int,
    sy: int,
    x: int,
    y: int,
    k: nat,
)
    requires
        floors_kept(a, b),
        within(a, sx, sy, x, y, k),
    ensures
        within(b, sx, sy, x, y, k),
    decreases k,
{
    if k > 0 {
        let j = (k - 1) as nat;
        if within(a, sx, sy, x, y, j) {
            lemma_within_kept(a, b, sx, sy, x, y, j);
        } else if within(a, sx, sy, x - 1, y, j) {
            lemma_within_kept(a, b, sx, sy, x - 1, y, j);
        } else if within(a, sx, sy, x + 1, y, j) {
            lemma_within_kept(a, b, sx, sy, x + 1, y, j);
        } else if within(a, sx, sy, x, y - 1, j) {
            lemma_within_kept(a, b, sx, sy, x, y - 1, j);
        } else {
            lemma_within_kept(a, b, sx, sy, x, y + 1, j);
        }
    }
}

/// Two walks laid end to end make one walk.
pub proof fn lemma_within_joined(
    tiles: Seq<TileType>,
    ax: int,
    ay: int,
    bx: int,
    by: int,
    cx: int,
    cy: int,
    k: nat,
    m: nat,
)
    requires
        within(tiles, ax, ay, bx, by, k),
        within(tiles, bx, by, cx, cy, m),
    ensures
        within(tiles, ax, ay, cx, cy, k + m),
    decreases m,
{
    if m > 0 {
        let j = (m - 1) as nat;
        if within(tiles, bx, by, cx, cy, j) {
            lemma_within_joined(tiles, ax, ay, bx, by, cx, cy, k, j);
        } else if within(tiles, bx, by, cx - 1, cy, j) {
            lemma_within_joined(tiles, ax, ay, bx, by, cx - 1, cy, k, j);
        } else if within(tiles, bx, by, cx + 1, cy, j) {
            lemma_within_joined(tiles, ax, ay, bx, by, cx + 1, cy, k, j);
        } else if within(tiles, bx, by, cx, cy - 1, j) {
            lemma_within_joined(tiles, ax, ay, bx, by, cx, cy - 1, k, j);
        } else {
            lemma_within_joined(tiles, ax, ay, bx, by, cx, cy + 1, k, j);
        }
    }
}

/// Walks start on the grid and never leave it.
pub proof fn lemma_within_on_grid(tiles: Seq<TileType>, sx: int, sy: int, x: int, y: int, k: nat)
    requires
        within(tiles, sx, sy, x, y, k),
    ensures
        on_grid(sx, sy),
        on_grid(x, y),
    decreases k,
{
    if k > 0 {
        let j = (k - 1) as nat;
        if within(tiles, sx, sy, x, y, j) {
            lemma_within_on_grid(tiles, sx, sy, x, y, j);
        } else if within(tiles, sx, sy, x - 1, y, j) {
            lemma_within_on_grid(tiles, sx, sy, x - 1, y, j);
        } else if within(tiles, sx, sy, x + 1, y, j) {
            lemma_within_on_grid(tiles, sx, sy, x + 1, y, j);
        } else if within(tiles, sx, sy, x, y - 1, j) {
            lemma_within_on_grid(tiles, sx, sy, x, y - 1, j);
        } else {
            lemma_within_on_grid(tiles, sx, sy, x, y + 1, j);
        }
    }
}

/// Once a further step reaches no new cell, no number of steps does.
pub proof fn lemma_within_settled(
    tiles: Seq<TileType>,
    sx: int,
    sy: int,
    x: int,
    y: int,
    level: nat,
    k: nat,
)
    requires
        forall|cx: int, cy: int| #[trigger]
            within(tiles, sx, sy, cx, cy, level + 1) ==> within(tiles, sx, sy, cx, cy, level),
        within(tiles, sx, sy, x, y, k),
    ensures
        within(tiles, sx, sy, x, y, level),
    decreases k,
{
    if k <= level {
        lemma_within_more(tiles, sx, sy, x, y, k, level);
    } else {
        let j = (k - 1) as nat;
        if within(tiles, sx, sy, x, y, j) {
            lemma_within_settled(tiles, sx, sy, x, y, level, j);
        } else {
            let (qx, qy) = if within(tiles, sx, sy, x - 1, y, j) {
                (x - 1, y)
            } else if within(tiles, sx, sy, x + 1, y, j) {
                (x + 1, y)
            } else if within(tiles, sx, sy, x, y - 1, j) {
                (x, y - 1)
            } else {
                (x, y + 1)
            };
            lemma_within_settled(tiles, sx, sy, qx, qy, level, j);
            assert(within(tiles, sx, sy, x, y, level + 1));
        }
    }
}

/// Every cell of the grid is connected to itself.
pub proof fn lemma_connected_self(tiles: Seq<TileType>, p: Point)
    requires
        on_grid(p.x as int, p.y as int),
    ensures
        connected(tiles, p, p),
{
    assert(within(tiles, p.x as int, p.y as int, p.x as int, p.y as int, 0));
}

/// Being connected carries over from one pair of cells to the next.
pub proof fn lemma_connected_chain(tiles: Seq<TileType>, a: Point, b: Point, c: Point)
    requires
        connected(tiles, a, b),
        connected(tiles, b, c),
    ensures
        connected(tiles, a, c),
{
    let k = choose|k: nat| within(tiles, a.x as int, a.y as int, b.x as int, b.y as int, k);
    let m = choose|m: nat| within(tiles, b.x as int, b.y as int, c.x as int, c.y as int, m);
    lemma_within_joined(
        tiles,
        a.x as int,
        a.y as int,
        b.x as int,
        b.y as int,
        c.x as int,
        c.y as int,
        k,
        m,
    );
}

/// Cells that are connected stay so when walls turn into floor.
pub proof fn lemma_connected_kept(a: Seq<TileType>, b: Seq<TileType>, from: Point, to: Point)
    requires
        floors_kept(a, b),
        connected(a, from, to),
    ensures
        connected(b, from, to),
{
    let k = choose|k: nat| within(a, from.x as int, from.y as int, to.x as int, to.y as int, k);
    lemma_within_kept(a, b, from.x as int, from.y as int, to.x as int, to.y as int, k);
}

/// Along a row whose cells between two columns are all floor, either end is
/// within reach of the other.
pub proof fn lemma_row_walk(tiles: Seq<TileType>, x1: int, x2: int, y: int)
    requires
        forall|x: int|
            (x1 <= x <= x2 || x2 <= x <= x1) ==> #[trigger] floor_at(tiles, x, y),
    ensures
        within(tiles, x1, y, x2, y, if x1 <= x2 { (x2 - x1) as nat } else { (x1 - x2) as nat }),
    decreases if x1 <= x2 { x2 - x1 } else { x1 - x2 },
{
    assert(floor_at(tiles, x1, y));
    if x1 < x2 {
        lemma_row_walk(tiles, x1, x2 - 1, y);
        assert(floor_at(tiles, x2, y));
    } else if x2 < x1 {
        lemma_row_walk(tiles, x1, x2 + 1, y);
        assert(floor_at(tiles, x2, y));
    }
}

/// Along a column whose cells between two rows are all floor, either end is
/// within reach of the other.
pub proof fn lemma_column_walk(tiles: Seq<TileType>, y1: int, y2: int, x: int)
    requires
        forall|y: int|
            (y1 <= y <= y2 || y2 <= y <= y1) ==> #[trigger] floor_at(tiles, x, y),
    ensures
        within(tiles, x, y1, x, y2, if y1 <= y2 { (y2 - y1) as nat } else { (y1 - y2) as nat }),
    decreases if y1 <= y2 { y2 - y1 } else { y1 - y2 },
{
    assert(floor_at(tiles, x, y1));
    if y1 < y2 {
        lemma_column_walk(tiles, y1, y2 - 1, x);
        assert(floor_at(tiles, x, y2));
    } else if y2 < y1 {
        lemma_column_walk(tiles, y1, y2 + 1, x);
        assert(floor_at(tiles, x, y2));
    }
}

} // verus!
