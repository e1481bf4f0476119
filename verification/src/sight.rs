//! What holds of the field of view.

use crate::fov::{
    fov_spec, lemma_col_bounds, max_col, min_col, seen_from, seen_in_row, shown, slope_of, steep_ok, wall_at,
    Cardinal, Quadrant,
};
use crate::level::LevelView;
use crate::position::Position;
use crate::ratio::Slope;
use vstd::prelude::*;

verus! {

/// A viewer sees its own cell, whatever stands around it and however far
/// it sees.
pub proof fn lemma_origin_in_sight(level: LevelView, origin: Position, distance: nat)
    ensures
        fov_spec(level, origin, distance).contains(origin),
{
}

/// Whether `p` is the cell of a tile of the quadrant in the rows from
/// `depth` on, `distance` rows in all, and within as many columns to
/// either side as the row is deep.
pub open spec fn in_rows(quadrant: Quadrant, depth: int, distance: int, p: Position) -> bool {
    exists|d: int, c: int|
        depth <= d < depth + distance && -d <= c <= d && #[trigger] quadrant.spec_transform(d, c)
            == Some(p)
}

/// A tile on the grid is at most 31 rows away from a viewer on the grid.
proof fn lemma_row_on_grid(quadrant: Quadrant, row: int, col: int)
    requires
        quadrant.origin.in_bounds(),
        row >= 1,
        quadrant.spec_transform(row, col) is Some,
    ensures
        row <= 31,
{
}

/// What a scan sees lies in the rows that it scans, within as many
/// columns to either side as the row is deep.
pub proof fn lemma_seen_in_rows(
    level: LevelView,
    quadrant: Quadrant,
    depth: int,
    start: Slope,
    end: Slope,
    distance: nat,
    p: Position,
)
    requires
        quadrant.origin.in_bounds(),
        1 <= depth <= 32,
        steep_ok(start),
        steep_ok(end),
        seen_from(level, quadrant, depth, start, end, distance).contains(p),
    ensures
        in_rows(quadrant, depth, distance as int, p),
    decreases distance, 1int, 0int,
{
    lemma_col_bounds(depth, start);
    lemma_col_bounds(depth, end);
    lemma_row_seen_in_rows(
        level,
        quadrant,
        depth,
        start,
        end,
        distance,
        min_col(depth, start),
        None,
        max_col(depth, end),
        p,
    );
}

/// What the rest of a row and the rows behind it show lies in those rows,
/// within as many columns to either side as the row is deep.
proof fn lemma_row_seen_in_rows(
    level: LevelView,
    quadrant: Quadrant,
    depth: int,
    start: Slope,
    end: Slope,
    distance: nat,
    col: int,
    before: Option<bool>,
    last: int,
    p: Position,
)
    requires
        quadrant.origin.in_bounds(),
        1 <= depth <= 32,
        steep_ok(start),
        steep_ok(end),
        -depth <= col,
        last <= depth,
        before is Some ==> col >= -depth + 1,
        before == Some(false) ==> depth <= 31,
        seen_in_row(level, quadrant, depth, start, end, distance, col, before, last).contains(p),
    ensures
        in_rows(quadrant, depth, distance as int, p),
    decreases distance, 0int, last - col + 1,
{
    if distance == 0 {
    } else if col > last {
        lemma_seen_in_rows(level, quadrant, depth + 1, start, end, (distance - 1) as nat, p);
        lemma_in_rows_wider(quadrant, depth, distance as int, p);
    } else {
        let wall = wall_at(level, quadrant, depth, col);
        let here = shown(level, quadrant, depth, col, start, end);
        let corner = slope_of(depth, col);
        if !wall {
            lemma_row_on_grid(quadrant, depth, col);
        }
        if here.contains(p) {
            assert(quadrant.spec_transform(depth, col) == Some(p));
        } else if before == Some(false) && wall && seen_from(
            level,
            quadrant,
            depth + 1,
            start,
            corner,
            (distance - 1) as nat,
        ).contains(p) {
            lemma_seen_in_rows(level, quadrant, depth + 1, start, corner, (distance - 1) as nat, p);
            lemma_in_rows_wider(quadrant, depth, distance as int, p);
        } else {
            let onward = if before == Some(true) && !wall {
                corner
            } else {
                start
            };
            lemma_row_seen_in_rows(
                level,
                quadrant,
                depth,
                onward,
                end,
                distance,
                col + 1,
                Some(wall),
                last,
                p,
            );
        }
    }
}

/// A cell in the rows behind a row is in the rows from that row on.
proof fn lemma_in_rows_wider(quadrant: Quadrant, depth: int, distance: int, p: Position)
    requires
        distance >= 1,
        in_rows(quadrant, depth + 1, distance - 1, p),
    ensures
        in_rows(quadrant, depth, distance, p),
{
    let (d, c) = choose|d: int, c: int|
        depth + 1 <= d < depth + 1 + (distance - 1) && -d <= c <= d
            && #[trigger] quadrant.spec_transform(d, c) == Some(p);
    assert(quadrant.spec_transform(d, c) == Some(p));
}

/// The number of steps between two cells when a step may go to any of the
/// eight cells around.
pub open spec fn king_steps(a: Position, b: Position) -> int {
    let dx = if a.x <= b.x {
        b.x - a.x
    } else {
        a.x - b.x
    };
    let dy = if a.y <= b.y {
        b.y - a.y
    } else {
        a.y - b.y
    };
    if dx >= dy {
        dx
    } else {
        dy
    }
}

/// A viewer sees only cells of the grid that are no more rows and columns
/// away than it sees far.
pub proof fn lemma_sight_is_bounded(level: LevelView, origin: Position, distance: nat, p: Position)
    requires
        origin.in_bounds(),
        fov_spec(level, origin, distance).contains(p),
    ensures
        p.in_bounds(),
        king_steps(origin, p) <= distance,
{
    let full = Slope { numer: 1i32, denom: 1i32 };
    let back = Slope { numer: (-1) as i32, denom: 1i32 };
    if p != origin {
        let north = Quadrant { origin, cardinal: Cardinal::North };
        let east = Quadrant { origin, cardinal: Cardinal::East };
        let south = Quadrant { origin, cardinal: Cardinal::South };
        let west = Quadrant { origin, cardinal: Cardinal::West };
        let quadrant = if seen_from(level, north, 1, back, full, distance).contains(p) {
            north
        } else if seen_from(level, east, 1, back, full, distance).contains(p) {
            east
        } else if seen_from(level, south, 1, back, full, distance).contains(p) {
            south
        } else {
            west
        };
        lemma_seen_in_rows(level, quadrant, 1, back, full, distance, p);
        let (d, c) = choose|d: int, c: int|
            1 <= d < 1 + distance && -d <= c <= d && #[trigger] quadrant.spec_transform(d, c)
                == Some(p);
        assert(quadrant.spec_transform(d, c) == Some(p));
    }
}

/// Whether `p` is the cell of a tile of the quadrant in a column to the
/// left of the middle one.
pub open spec fn left_of_middle(quadrant: Quadrant, p: Position) -> bool {
    exists|d: int, c: int| c <= -1 && #[trigger] quadrant.spec_transform(d, c) == Some(p)
}

/// Whether `p` is the cell of a tile of the quadrant in a column to the
/// right of the middle one.
pub open spec fn right_of_middle(quadrant: Quadrant, p: Position) -> bool {
    exists|d: int, c: int| c >= 1 && #[trigger] quadrant.spec_transform(d, c) == Some(p)
}

/// A row that ends at or below -1 has its last column at or below -1.
proof fn lemma_max_col_left(depth: int, end: Slope)
    requires
        1 <= depth,
        0 < end.denom,
        depth * end.numer <= -end.denom,
    ensures
        max_col(depth, end) <= -1,
{
    let d = end.denom as int;
    let c = d - 2 * (depth * end.numer);
    let b = 2 * d;
    let r = c / b;
    vstd::arithmetic::div_mod::lemma_fundamental_div_mod(c, b);
    vstd::arithmetic::div_mod::lemma_mod_bound(c, b);
    assert(r >= 1) by (nonlinear_arith)
        requires
            c == b * r + c % b,
            0 <= c % b < b,
            b == 2 * d,
            d > 0,
            c >= 3 * d,
    ;
}

/// A row that starts at or above 1 has its first column at or above 1.
proof fn lemma_min_col_right(depth: int, start: Slope)
    requires
        1 <= depth,
        0 < start.denom,
        depth * start.numer >= start.denom,
    ensures
        min_col(depth, start) >= 1,
{
    let d = start.denom as int;
    let a = 2 * (depth * start.numer) + d;
    let b = 2 * d;
    let q = a / b;
    vstd::arithmetic::div_mod::lemma_fundamental_div_mod(a, b);
    vstd::arithmetic::div_mod::lemma_mod_bound(a, b);
    assert(q >= 1) by (nonlinear_arith)
        requires
            a == b * q + a % b,
            0 <= a % b < b,
            b == 2 * d,
            d > 0,
            a >= 3 * d,
    ;
}

/// A scan whose end slope lies at or below the column -1 of its first row
/// sees only cells to the left of the middle column.
pub proof fn lemma_seen_left(
    level: LevelView,
    quadrant: Quadrant,
    depth: int,
    start: Slope,
    end: Slope,
    distance: nat,
    p: Position,
)
    requires
        quadrant.origin.in_bounds(),
        1 <= depth <= 32,
        steep_ok(start),
        steep_ok(end),
        depth * end.numer <= -end.denom,
        seen_from(level, quadrant, depth, start, end, distance).contains(p),
    ensures
        left_of_middle(quadrant, p),
    decreases distance, 1int, 0int,
{
    lemma_max_col_left(depth, end);
    lemma_col_bounds(depth, start);
    lemma_row_seen_left(
        level,
        quadrant,
        depth,
        start,
        end,
        distance,
        min_col(depth, start),
        None,
        max_col(depth, end),
        p,
    );
}

proof fn lemma_row_seen_left(
    level: LevelView,
    quadrant: Quadrant,
    depth: int,
    start: Slope,
    end: Slope,
    distance: nat,
    col: int,
    before: Option<bool>,
    last: int,
    p: Position,
)
    requires
        quadrant.origin.in_bounds(),
        1 <= depth <= 32,
        steep_ok(start),
        steep_ok(end),
        depth * end.numer <= -end.denom,
        last <= -1,
        -depth <= col,
        before is Some ==> col >= -depth + 1,
        before == Some(false) ==> depth <= 31,
        seen_in_row(level, quadrant, depth, start, end, distance, col, before, last).contains(p),
    ensures
        left_of_middle(quadrant, p),
    decreases distance, 0int, last - col + 1,
{
    if distance == 0 {
    } else if col > last {
        assert((depth + 1) * end.numer <= -end.denom) by (nonlinear_arith)
            requires
                depth * end.numer <= -end.denom,
                end.denom > 0,
                depth >= 1,
        ;
        lemma_seen_left(level, quadrant, depth + 1, start, end, (distance - 1) as nat, p);
    } else {
        let wall = wall_at(level, quadrant, depth, col);
        let here = shown(level, quadrant, depth, col, start, end);
        let corner = slope_of(depth, col);
        if !wall {
            lemma_row_on_grid(quadrant, depth, col);
        }
        if here.contains(p) {
            assert(quadrant.spec_transform(depth, col) == Some(p));
        } else if before == Some(false) && wall && seen_from(
            level,
            quadrant,
            depth + 1,
            start,
            corner,
            (distance - 1) as nat,
        ).contains(p) {
            assert((depth + 1) * (2 * col - 1) <= -(2 * depth)) by (nonlinear_arith)
                requires
                    col <= -1,
                    depth >= 1,
            ;
            lemma_seen_left(level, quadrant, depth + 1, start, corner, (distance - 1) as nat, p);
        } else {
            let onward = if before == Some(true) && !wall {
                corner
            } else {
                start
            };
            lemma_row_seen_left(
                level,
                quadrant,
                depth,
                onward,
                end,
                distance,
                col + 1,
                Some(wall),
                last,
                p,
            );
        }
    }
}

/// A scan whose start slope lies at or above the column 1 of its first
/// row sees only cells to the right of the middle column.
pub proof fn lemma_seen_right(
    level: LevelView,
    quadrant: Quadrant,
    depth: int,
    start: Slope,
    end: Slope,
    distance: nat,
    p: Position,
)
    requires
        quadrant.origin.in_bounds(),
        1 <= depth <= 32,
        steep_ok(start),
        steep_ok(end),
        depth * start.numer >= start.denom,
        seen_from(level, quadrant, depth, start, end, distance).contains(p),
    ensures
        right_of_middle(quadrant, p),
    decreases distance, 1int, 0int,
{
    lemma_min_col_right(depth, start);
    lemma_col_bounds(depth, end);
    assert((depth + 1) * start.numer >= start.denom) by (nonlinear_arith)
        requires
            depth * start.numer >= start.denom,
            start.denom > 0,
            depth >= 1,
    ;
    lemma_row_seen_right(
        level,
        quadrant,
        depth,
        start,
        end,
        distance,
        min_col(depth, start),
        None,
        max_col(depth, end),
        p,
    );
}

proof fn lemma_row_seen_right(
    level: LevelView,
    quadrant: Quadrant,
    depth: int,
    start: Slope,
    end: Slope,
    distance: nat,
    col: int,
    before: Option<bool>,
    last: int,
    p: Position,
)
    requires
        quadrant.origin.in_bounds(),
        1 <= depth <= 32,
        steep_ok(start),
        steep_ok(end),
        (depth + 1) * start.numer >= start.denom,
        1 <= col,
        last <= depth,
        before is Some ==> col >= 2,
        before == Some(false) ==> depth <= 31,
        seen_in_row(level, quadrant, depth, start, end, distance, col, before, last).contains(p),
    ensures
        right_of_middle(quadrant, p),
    decreases distance, 0int, last - col + 1,
{
    if distance == 0 {
    } else if col > last {
        lemma_seen_right(level, quadrant, depth + 1, start, end, (distance - 1) as nat, p);
    } else {
        let wall = wall_at(level, quadrant, depth, col);
        let here = shown(level, quadrant, depth, col, start, end);
        let corner = slope_of(depth, col);
        if !wall {
            lemma_row_on_grid(quadrant, depth, col);
        }
        if here.contains(p) {
            assert(quadrant.spec_transform(depth, col) == Some(p));
        } else if before == Some(false) && wall && seen_from(
            level,
            quadrant,
            depth + 1,
            start,
            corner,
            (distance - 1) as nat,
        ).contains(p) {
            lemma_seen_right(level, quadrant, depth + 1, start, corner, (distance - 1) as nat, p);
        } else {
            let onward = if before == Some(true) && !wall {
                corner
            } else {
                start
            };
            if before == Some(true) && !wall {
                assert((depth + 1) * (2 * col - 1) >= 2 * depth) by (nonlinear_arith)
                    requires
                        col >= 2,
                        depth >= 1,
                ;
            }
            lemma_row_seen_right(
                level,
                quadrant,
                depth,
                onward,
                end,
                distance,
                col + 1,
                Some(wall),
                last,
                p,
            );
        }
    }
}

/// The cell `k` steps from `origin` straight into the quadrant.
pub open spec fn ray_cell(origin: Position, cardinal: Cardinal, k: int) -> Option<Position> {
    (Quadrant { origin, cardinal }).spec_transform(k, 0)
}

/// A cell that blocks sight right beside the viewer hides every cell
/// behind it, straight on.
pub proof fn lemma_wall_hides_ray(
    level: LevelView,
    origin: Position,
    distance: nat,
    cardinal: Cardinal,
    k: int,
    p: Position,
)
    requires
        origin.in_bounds(),
        ray_cell(origin, cardinal, 1) matches Some(wall) && level.opaque_at(wall),
        k >= 2,
        ray_cell(origin, cardinal, k) == Some(p),
    ensures
        !fov_spec(level, origin, distance).contains(p),
{
    let full = Slope { numer: 1i32, denom: 1i32 };
    let back = Slope { numer: (-1) as i32, denom: 1i32 };
    let own = Quadrant { origin, cardinal };
    let north = Quadrant { origin, cardinal: Cardinal::North };
    let east = Quadrant { origin, cardinal: Cardinal::East };
    let south = Quadrant { origin, cardinal: Cardinal::South };
    let west = Quadrant { origin, cardinal: Cardinal::West };
    assert forall|other: Quadrant|
        other.origin == origin && other.cardinal != cardinal implies !seen_from(
        level,
        other,
        1,
        back,
        full,
        distance,
    ).contains(p) by {
        if seen_from(level, other, 1, back, full, distance).contains(p) {
            lemma_seen_in_rows(level, other, 1, back, full, distance, p);
            let (d, c) = choose|d: int, c: int|
                1 <= d < 1 + distance && -d <= c <= d && #[trigger] other.spec_transform(d, c)
                    == Some(p);
            assert(other.spec_transform(d, c) == Some(p));
        }
    }
    lemma_own_quadrant(level, own, distance, k, p);
    assert(own == north || own == east || own == south || own == west);
}

/// The part of `lemma_wall_hides_ray` for the quadrant that holds the
/// ray.
proof fn lemma_own_quadrant(level: LevelView, own: Quadrant, distance: nat, k: int, p: Position)
    requires
        own.origin.in_bounds(),
        own.spec_transform(1, 0) matches Some(wall) && level.opaque_at(wall),
        k >= 2,
        own.spec_transform(k, 0) == Some(p),
    ensures
        !seen_from(
            level,
            own,
            1,
            Slope { numer: (-1) as i32, denom: 1i32 },
            Slope { numer: 1i32, denom: 1i32 },
            distance,
        ).contains(p),
{
    let full = Slope { numer: 1i32, denom: 1i32 };
    let back = Slope { numer: (-1) as i32, denom: 1i32 };
    if distance == 0 || !seen_from(level, own, 1, back, full, distance).contains(p) {
        return ;
    }
    let deeper = (distance - 1) as nat;
    assert(min_col(1, back) == -1) by {
        assert((2int * (1int * (-1int)) + 1int) / (2int * 1int) == -1int);
    }
    assert(max_col(1, full) == 1) by {
        assert((1int - 2int * (1int * 1int)) / (2int * 1int) == -1int);
    }
    let wall_left = wall_at(level, own, 1, -1);
    let wall_right = wall_at(level, own, 1, 1);
    let left_corner = slope_of(1, 0);
    let right_corner = slope_of(1, 1);
    let onward = if !wall_right {
        right_corner
    } else {
        back
    };
    let row0 = seen_in_row(level, own, 1, back, full, distance, -1, None, 1);
    let row1 = seen_in_row(level, own, 1, back, full, distance, 0, Some(wall_left), 1);
    let row2 = seen_in_row(level, own, 1, back, full, distance, 1, Some(true), 1);
    let row3 = seen_in_row(level, own, 1, onward, full, distance, 2, Some(wall_right), 1);
    assert(seen_from(level, own, 1, back, full, distance) == row0);
    assert(wall_at(level, own, 1, 0));
    let behind_left = if wall_left {
        Set::<Position>::empty()
    } else {
        seen_from(level, own, 2, back, left_corner, deeper)
    };
    assert(row0 == shown(level, own, 1, -1, back, full).union(Set::empty()).union(row1));
    assert(row1 == shown(level, own, 1, 0, back, full).union(behind_left).union(row2));
    assert(row2 == shown(level, own, 1, 1, back, full).union(Set::empty()).union(row3));
    assert(!shown(level, own, 1, -1, back, full).contains(p));
    assert(!shown(level, own, 1, 0, back, full).contains(p));
    assert(!shown(level, own, 1, 1, back, full).contains(p));
    if behind_left.contains(p) {
        lemma_row_on_grid(own, 1, -1);
        lemma_seen_left(level, own, 2, back, left_corner, deeper, p);
        let (d, c) = choose|d: int, c: int|
            c <= -1 && #[trigger] own.spec_transform(d, c) == Some(p);
        assert(own.spec_transform(d, c) == Some(p));
    } else {
        assert(row3.contains(p));
        assert(!wall_right);
        lemma_row_on_grid(own, 1, 1);
        assert(row3 == seen_from(level, own, 2, right_corner, full, deeper));
        lemma_seen_right(level, own, 2, right_corner, full, deeper, p);
        let (d, c) = choose|d: int, c: int|
            c >= 1 && #[trigger] own.spec_transform(d, c) == Some(p);
        assert(own.spec_transform(d, c) == Some(p));
    }
}

/// The leftmost column of a quadrant that lies on the grid.
pub open spec fn left_edge(quadrant: Quadrant) -> int {
    match quadrant.cardinal {
        Cardinal::North | Cardinal::East => -(quadrant.origin.x as int),
        Cardinal::South | Cardinal::West => -(quadrant.origin.y as int),
    }
}

/// The rightmost column of a quadrant that lies on the grid.
pub open spec fn right_edge(quadrant: Quadrant) -> int {
    match quadrant.cardinal {
        Cardinal::North | Cardinal::East => 15 - quadrant.origin.x,
        Cardinal::South | Cardinal::West => 31 - quadrant.origin.y,
    }
}

/// The last row of a quadrant that lies on the grid.
pub open spec fn last_row(quadrant: Quadrant) -> int {
    match quadrant.cardinal {
        Cardinal::North => quadrant.origin.y as int,
        Cardinal::East => 31 - quadrant.origin.y,
        Cardinal::South => 15 - quadrant.origin.x,
        Cardinal::West => quadrant.origin.x as int,
    }
}

/// The greater of two numbers.
pub open spec fn greater(a: int, b: int) -> int {
    if a >= b {
        a
    } else {
        b
    }
}

/// The lesser of two numbers.
pub open spec fn lesser(a: int, b: int) -> int {
    if a <= b {
        a
    } else {
        b
    }
}

/// Whether every cell of the grid lets sight pass.
pub open spec fn open_ground(level: LevelView) -> bool {
    forall|q: Position| q.in_bounds() ==> !#[trigger] level.opaque_at(q)
}

/// Whether the start slope of a row lets the row begin at its left end:
/// the first column on the grid, or the column as far left as the row is
/// deep.
spec fn starts_left(quadrant: Quadrant, depth: int, start: Slope) -> bool {
    depth * start.numer <= greater(left_edge(quadrant), -depth) * start.denom
}

/// Whether the end slope of a row lets the row run to its right end.
spec fn ends_right(quadrant: Quadrant, depth: int, end: Slope) -> bool {
    depth * end.numer >= lesser(right_edge(quadrant), depth) * end.denom
}

/// On open ground a tile is a wall where it is off the grid.
proof fn lemma_walls_of_open_ground(level: LevelView, quadrant: Quadrant, row: int, col: int)
    requires
        quadrant.origin.in_bounds(),
        open_ground(level),
        row >= 1,
    ensures
        wall_at(level, quadrant, row, col) == !(left_edge(quadrant) <= col <= right_edge(quadrant)
            && row <= last_row(quadrant)),
        quadrant.spec_transform(row, col) is Some <==> (left_edge(quadrant) <= col <= right_edge(
            quadrant,
        ) && row <= last_row(quadrant)),
        left_edge(quadrant) <= 0 <= right_edge(quadrant),
        last_row(quadrant) <= 31,
{
    if let Some(p) = quadrant.spec_transform(row, col) {
        assert(p.in_bounds());
        assert(!level.opaque_at(p));
    }
}

proof fn lemma_first_col(quadrant: Quadrant, depth: int, start: Slope)
    requires
        depth >= 1,
        start.denom > 0,
        starts_left(quadrant, depth, start),
    ensures
        min_col(depth, start) <= greater(left_edge(quadrant), -depth),
{
    let l = greater(left_edge(quadrant), -depth);
    let d = start.denom as int;
    let a = 2 * (depth * start.numer) + d;
    let b = 2 * d;
    let q = a / b;
    vstd::arithmetic::div_mod::lemma_fundamental_div_mod(a, b);
    vstd::arithmetic::div_mod::lemma_mod_bound(a, b);
    assert(q <= l) by (nonlinear_arith)
        requires
            a == b * q + a % b,
            0 <= a % b < b,
            b == 2 * d,
            d > 0,
            a <= 2 * (l * d) + d,
    ;
}

proof fn lemma_last_col(quadrant: Quadrant, depth: int, end: Slope)
    requires
        depth >= 1,
        end.denom > 0,
        ends_right(quadrant, depth, end),
    ensures
        max_col(depth, end) >= lesser(right_edge(quadrant), depth),
{
    let r = lesser(right_edge(quadrant), depth);
    let d = end.denom as int;
    let c = d - 2 * (depth * end.numer);
    let b = 2 * d;
    let q = c / b;
    vstd::arithmetic::div_mod::lemma_fundamental_div_mod(c, b);
    vstd::arithmetic::div_mod::lemma_mod_bound(c, b);
    assert(-q >= r) by (nonlinear_arith)
        requires
            c == b * q + c % b,
            0 <= c % b < b,
            b == 2 * d,
            d > 0,
            c <= d - 2 * (r * d),
    ;
}

proof fn lemma_starts_left_deeper(quadrant: Quadrant, depth: int, start: Slope)
    requires
        depth >= 1,
        start.denom > 0,
        left_edge(quadrant) <= 0,
        starts_left(quadrant, depth, start),
    ensures
        starts_left(quadrant, depth + 1, start),
{
    let l = left_edge(quadrant);
    let n = start.numer as int;
    let d = start.denom as int;
    if l <= -depth {
        assert((depth + 1) * n <= -(depth + 1) * d) by (nonlinear_arith)
            requires
                depth * n <= -depth * d,
                depth >= 1,
                d > 0,
        ;
        assert(-(depth + 1) * d <= greater(l, -(depth + 1)) * d) by (nonlinear_arith)
            requires
                -(depth + 1) <= greater(l, -(depth + 1)),
                d > 0,
        ;
    } else {
        assert((depth + 1) * n <= l * d) by (nonlinear_arith)
            requires
                depth * n <= l * d,
                l <= 0,
                depth >= 1,
                d > 0,
        ;
    }
}

proof fn lemma_ends_right_deeper(quadrant: Quadrant, depth: int, end: Slope)
    requires
        depth >= 1,
        end.denom > 0,
        right_edge(quadrant) >= 0,
        ends_right(quadrant, depth, end),
    ensures
        ends_right(quadrant, depth + 1, end),
{
    let r = right_edge(quadrant);
    let n = end.numer as int;
    let d = end.denom as int;
    if r >= depth {
        assert((depth + 1) * n >= (depth + 1) * d) by (nonlinear_arith)
            requires
                depth * n >= depth * d,
                depth >= 1,
                d > 0,
        ;
        assert((depth + 1) * d >= lesser(r, depth + 1) * d) by (nonlinear_arith)
            requires
                depth + 1 >= lesser(r, depth + 1),
                d > 0,
        ;
    } else {
        assert((depth + 1) * n >= r * d) by (nonlinear_arith)
            requires
                depth * n >= r * d,
                r >= 0,
                depth >= 1,
                d > 0,
        ;
    }
}

proof fn lemma_corner_starts_left(quadrant: Quadrant, depth: int)
    requires
        1 <= depth <= 32,
        -depth + 1 <= left_edge(quadrant) <= 0,
    ensures
        starts_left(quadrant, depth, slope_of(depth, left_edge(quadrant))),
        starts_left(quadrant, depth + 1, slope_of(depth, left_edge(quadrant))),
        steep_ok(slope_of(depth, left_edge(quadrant))),
{
    let l = left_edge(quadrant);
    assert(depth * (2 * l - 1) <= l * (2 * depth)) by (nonlinear_arith)
        requires
            depth >= 1,
    ;
    assert((depth + 1) * (2 * l - 1) <= l * (2 * depth)) by (nonlinear_arith)
        requires
            depth >= 1,
            l <= 0,
    ;
}

proof fn lemma_corner_ends_right(quadrant: Quadrant, depth: int)
    requires
        1 <= depth <= 32,
        0 <= right_edge(quadrant),
        right_edge(quadrant) + 1 <= depth,
    ensures
        ends_right(quadrant, depth + 1, slope_of(depth, right_edge(quadrant) + 1)),
        steep_ok(slope_of(depth, right_edge(quadrant) + 1)),
{
    let r = right_edge(quadrant);
    assert((depth + 1) * (2 * (r + 1) - 1) >= r * (2 * depth)) by (nonlinear_arith)
        requires
            depth >= 1,
            r >= 0,
    ;
}

proof fn lemma_centre_between(quadrant: Quadrant, depth: int, col: int, start: Slope, end: Slope)
    requires
        depth >= 1,
        start.denom > 0,
        end.denom > 0,
        starts_left(quadrant, depth, start),
        ends_right(quadrant, depth, end),
        greater(left_edge(quadrant), -depth) <= col <= lesser(right_edge(quadrant), depth),
    ensures
        crate::fov::symmetric(depth, col, start, end),
{
    let l = greater(left_edge(quadrant), -depth);
    let r = lesser(right_edge(quadrant), depth);
    assert(col * start.denom >= l * start.denom) by (nonlinear_arith)
        requires
            col >= l,
            start.denom > 0,
    ;
    assert(col * end.denom <= r * end.denom) by (nonlinear_arith)
        requires
            col <= r,
            end.denom > 0,
    ;
}

/// On open ground a scan that can begin at the left end of its first row
/// and run to the right end of it sees every cell of the grid in its
/// rows, as many columns to either side as the row is deep.
proof fn lemma_open_rows(
    level: LevelView,
    quadrant: Quadrant,
    depth: int,
    start: Slope,
    end: Slope,
    distance: nat,
    d: int,
    c: int,
)
    requires
        quadrant.origin.in_bounds(),
        open_ground(level),
        1 <= depth <= 32,
        steep_ok(start),
        steep_ok(end),
        starts_left(quadrant, depth, start),
        ends_right(quadrant, depth, end),
        depth <= d < depth + distance,
        d <= last_row(quadrant),
        greater(left_edge(quadrant), -d) <= c <= lesser(right_edge(quadrant), d),
    ensures
        seen_from(level, quadrant, depth, start, end, distance).contains(
            quadrant.spec_transform(d, c).unwrap(),
        ),
    decreases distance, 1int, 0int,
{
    lemma_walls_of_open_ground(level, quadrant, depth, 0);
    lemma_first_col(quadrant, depth, start);
    lemma_last_col(quadrant, depth, end);
    lemma_col_bounds(depth, start);
    lemma_col_bounds(depth, end);
    lemma_starts_left_deeper(quadrant, depth, start);
    lemma_open_row(
        level,
        quadrant,
        depth,
        start,
        end,
        distance,
        min_col(depth, start),
        None,
        max_col(depth, end),
        d,
        c,
    );
}

proof fn lemma_open_row(
    level: LevelView,
    quadrant: Quadrant,
    depth: int,
    start: Slope,
    end: Slope,
    distance: nat,
    col: int,
    before: Option<bool>,
    last: int,
    d: int,
    c: int,
)
    requires
        quadrant.origin.in_bounds(),
        open_ground(level),
        1 <= depth <= 31,
        depth <= last_row(quadrant),
        steep_ok(start),
        steep_ok(end),
        starts_left(quadrant, depth, start),
        starts_left(quadrant, depth + 1, start),
        ends_right(quadrant, depth, end),
        -depth <= col,
        lesser(right_edge(quadrant), depth) <= last <= depth,
        before is None ==> col <= greater(left_edge(quadrant), -depth),
        before matches Some(wall) ==> col >= -depth + 1 && wall == wall_at(
            level,
            quadrant,
            depth,
            col - 1,
        ),
        depth <= d < depth + distance,
        d <= last_row(quadrant),
        greater(left_edge(quadrant), -d) <= c <= lesser(right_edge(quadrant), d),
        d == depth ==> c >= col,
        d > depth ==> col <= right_edge(quadrant) + 1,
    ensures
        seen_in_row(level, quadrant, depth, start, end, distance, col, before, last).contains(
            quadrant.spec_transform(d, c).unwrap(),
        ),
    decreases distance, 0int, last - col + 1,
{
    let target = quadrant.spec_transform(d, c).unwrap();
    let l = left_edge(quadrant);
    let r = right_edge(quadrant);
    lemma_walls_of_open_ground(level, quadrant, depth, col);
    lemma_walls_of_open_ground(level, quadrant, depth, col - 1);
    lemma_walls_of_open_ground(level, quadrant, d, c);
    if col > last {
        assert(d > depth);
        assert(before == Some(false));
        lemma_ends_right_deeper(quadrant, depth, end);
        lemma_open_rows(level, quadrant, depth + 1, start, end, (distance - 1) as nat, d, c);
    } else {
        let wall = wall_at(level, quadrant, depth, col);
        let corner = slope_of(depth, col);
        if d == depth && c == col {
            lemma_centre_between(quadrant, depth, col, start, end);
            assert(shown(level, quadrant, depth, col, start, end).contains(target));
        } else if d > depth && col == r + 1 {
            assert(wall);
            assert(before == Some(false));
            lemma_corner_ends_right(quadrant, depth);
            lemma_open_rows(level, quadrant, depth + 1, start, corner, (distance - 1) as nat, d, c);
        } else {
            let onward = if before == Some(true) && !wall {
                corner
            } else {
                start
            };
            if before == Some(true) && !wall {
                assert(col == l);
                lemma_corner_starts_left(quadrant, depth);
            }
            lemma_open_row(
                level,
                quadrant,
                depth,
                onward,
                end,
                distance,
                col + 1,
                Some(wall),
                last,
                d,
                c,
            );
        }
    }
}

/// On open ground a viewer sees just the cells of the grid that are no
/// more rows and columns away than it sees far: a square around the
/// viewer, cut off at the edges of the grid.
pub proof fn lemma_open_ground_sight(
    level: LevelView,
    origin: Position,
    distance: nat,
    p: Position,
)
    requires
        origin.in_bounds(),
        open_ground(level),
    ensures
        fov_spec(level, origin, distance).contains(p) <==> (p.in_bounds() && king_steps(origin, p)
            <= distance),
{
    if fov_spec(level, origin, distance).contains(p) {
        lemma_sight_is_bounded(level, origin, distance, p);
    }
    if p.in_bounds() && king_steps(origin, p) <= distance && p != origin {
        let full = Slope { numer: 1i32, denom: 1i32 };
        let back = Slope { numer: (-1) as i32, denom: 1i32 };
        let dx = p.x - origin.x;
        let dy = p.y - origin.y;
        let across = if dx >= 0 {
            dx
        } else {
            -dx
        };
        let along = if dy >= 0 {
            dy
        } else {
            -dy
        };
        let cardinal = if along >= across {
            if dy < 0 {
                Cardinal::North
            } else {
                Cardinal::East
            }
        } else {
            if dx > 0 {
                Cardinal::South
            } else {
                Cardinal::West
            }
        };
        let quadrant = Quadrant { origin, cardinal };
        let (d, c) = match cardinal {
            Cardinal::North => (-dy, dx),
            Cardinal::East => (dy, dx),
            Cardinal::South => (dx, dy),
            Cardinal::West => (-dx, dy),
        };
        assert(quadrant.spec_transform(d, c) == Some(p));
        lemma_walls_of_open_ground(level, quadrant, d, c);
        lemma_open_rows(level, quadrant, 1, back, full, distance, d, c);
    }
}

/// On open ground sight is mutual: whoever sees the cell of another is
/// seen from there at the same view distance.
pub proof fn lemma_open_ground_symmetry(level: LevelView, a: Position, b: Position, distance: nat)
    requires
        a.in_bounds(),
        b.in_bounds(),
        open_ground(level),
    ensures
        fov_spec(level, a, distance).contains(b) <==> fov_spec(level, b, distance).contains(a),
{
    lemma_open_ground_sight(level, a, distance, b);
    lemma_open_ground_sight(level, b, distance, a);
}

} // verus!
