//! Field of view by symmetric shadowcasting.
//!
//! The cells around the viewer are scanned in four quadrants, each row by
//! row away from the viewer. A row is bounded by two slopes; a cell that
//! blocks sight narrows the slopes of the rows behind it. Slopes are exact
//! fractions.

use crate::level::{Level, LevelView};
use crate::position::{Position, LEVEL_HEIGHT, LEVEL_WIDTH};
use crate::ratio::{
    between, lemma_between_transfer, lemma_round_transfer, round_ties_down, round_ties_up,
    spec_round_ties_down, spec_round_ties_up, times, Slope,
};
use vstd::prelude::*;

verus! {

/// A set of cells of the grid: what is in sight.
pub struct ShadowMap {
    visible: [bool; 512],
}

impl View for ShadowMap {
    type V = Set<Position>;

    closed spec fn view(&self) -> Set<Position> {
        Set::new(|p: Position| p.in_bounds() && self.visible@[p.x * LEVEL_HEIGHT + p.y])
    }
}

impl ShadowMap {
    /// The empty set.
    pub fn new() -> (map: ShadowMap)
        ensures
            map@ == Set::<Position>::empty(),
    {
        let map = ShadowMap { visible: [false;512] };
        assert(map@ =~= Set::<Position>::empty());
        map
    }

    pub fn contains(&self, position: &Position) -> (inside: bool)
        ensures
            inside == self@.contains(*position),
    {
        if position.x < LEVEL_WIDTH && position.y < LEVEL_HEIGHT {
            self.visible[position.x * LEVEL_HEIGHT + position.y]
        } else {
            false
        }
    }

    pub fn insert(&mut self, position: Position)
        requires
            position.in_bounds(),
        ensures
            final(self)@ == old(self)@.insert(position),
    {
        self.visible[position.x * LEVEL_HEIGHT + position.y] = true;
        assert(self@ =~= old(self)@.insert(position));
    }

    /// Adds each cell of `other`.
    pub fn extend(&mut self, other: &ShadowMap)
        ensures
            final(self)@ == old(self)@.union(other@),
    {
        let mut k: usize = 0;
        while k < 512
            invariant
                k <= 512,
                forall|m: int|
                    0 <= m < k ==> #[trigger] self.visible@[m] == (old(self).visible@[m]
                        || other.visible@[m]),
                forall|m: int| k <= m < 512 ==> #[trigger] self.visible@[m] == old(self).visible@[m],
            decreases 512 - k,
        {
            if other.visible[k] {
                self.visible[k] = true;
            }
            k += 1;
        }
        assert(self@ =~= old(self)@.union(other@));
    }

    /// Takes over what is in sight now.
    pub fn cast_shadows(&mut self, visible: ShadowMap)
        ensures
            final(self)@ == visible@,
    {
        *self = visible;
    }
}

/// The four quadrants of the scan.
#[derive(Debug, Clone, Copy, PartialEq, Eq, Structural)]
pub enum Cardinal {
    North,
    East,
    South,
    West,
}

/// The four quadrants in the order in which they are scanned.
pub open spec fn all_cardinals() -> Seq<Cardinal> {
    seq![Cardinal::North, Cardinal::East, Cardinal::South, Cardinal::West]
}

impl Cardinal {
    /// The four quadrants in the order in which they are scanned.
    pub fn iter() -> (cardinals: [Cardinal; 4])
        ensures
            cardinals@ == all_cardinals(),
    {
        let cardinals: [Cardinal; 4] = [
            Cardinal::North,
            Cardinal::East,
            Cardinal::South,
            Cardinal::West,
        ];
        assert(cardinals@ =~= all_cardinals());
        cardinals
    }
}

/// One quarter of the surroundings of `origin`.
#[derive(Debug, Clone, Copy, PartialEq, Eq, Structural)]
pub struct Quadrant {
    pub origin: Position,
    pub cardinal: Cardinal,
}

impl Quadrant {
    pub fn new(origin: Position, cardinal: Cardinal) -> (quadrant: Quadrant)
        ensures
            quadrant == (Quadrant { origin, cardinal }),
    {
        Quadrant { origin, cardinal }
    }

    /// The cell of the grid at row `row` and column `col` of the quadrant,
    /// or `None` where that place is off the grid.
    pub open spec fn spec_transform(self, row: int, col: int) -> Option<Position> {
        let (x, y) = match self.cardinal {
            Cardinal::North => (self.origin.x + col, self.origin.y - row),
            Cardinal::East => (self.origin.x + col, self.origin.y + row),
            Cardinal::South => (self.origin.x + row, self.origin.y + col),
            Cardinal::West => (self.origin.x - row, self.origin.y + col),
        };
        if 0 <= x < LEVEL_WIDTH && 0 <= y < LEVEL_HEIGHT {
            Some(Position { x: x as usize, y: y as usize })
        } else {
            None
        }
    }

    /// The cell of the grid that a tile (row, column) of the quadrant
    /// stands for, or `None` where it is off the grid.
    pub fn transform(&self, tile: (i32, i32)) -> (position: Option<Position>)
        requires
            self.origin.in_bounds(),
            -64 <= tile.0 <= 64,
            -64 <= tile.1 <= 64,
        ensures
            position == self.spec_transform(tile.0 as int, tile.1 as int),
    {
        let (row, col) = tile;
        let ox: i32 = self.origin.x as i32;
        let oy: i32 = self.origin.y as i32;
        let (x, y): (i32, i32) = match self.cardinal {
            Cardinal::North => (ox + col, oy - row),
            Cardinal::East => (ox + col, oy + row),
            Cardinal::South => (ox + row, oy + col),
            Cardinal::West => (ox - row, oy + col),
        };
        if 0 <= x && x < 16 && 0 <= y && y < 32 {
            Some(Position { x: x as usize, y: y as usize })
        } else {
            None
        }
    }
}

/// A row of a quadrant: its distance from the viewer and the slopes that
/// bound it.
#[derive(Debug, Clone, Copy, PartialEq, Eq, Structural)]
pub struct Row {
    pub depth: i32,
    pub start_slope: Slope,
    pub end_slope: Slope,
}

/// Whether a slope lies between -1 and 1 and its terms are small.
pub open spec fn steep_ok(slope: Slope) -> bool {
    0 < slope.denom <= 64 && -slope.denom <= slope.numer <= slope.denom
}

/// The first column of a row.
pub open spec fn min_col(depth: int, start: Slope) -> int {
    spec_round_ties_up(depth * start.numer, start.denom as int)
}

/// The last column of a row.
pub open spec fn max_col(depth: int, end: Slope) -> int {
    spec_round_ties_down(depth * end.numer, end.denom as int)
}

/// Whether the centre of the cell at column `col` of a row lies between
/// the slopes of the row.
pub open spec fn symmetric(depth: int, col: int, start: Slope, end: Slope) -> bool {
    col * start.denom >= depth * start.numer && col * end.denom <= depth * end.numer
}

/// The slope that touches the near left corner of a tile.
pub open spec fn slope_of(row: int, col: int) -> Slope {
    Slope { numer: (2 * col - 1) as i32, denom: (2 * row) as i32 }
}

/// The tiles of a row from column `first` to column `last`.
pub open spec fn row_tiles(depth: int, first: int, last: int) -> Seq<(i32, i32)> {
    Seq::new(
        if last >= first {
            (last - first + 1) as nat
        } else {
            0
        },
        |k: int| (depth as i32, (first + k) as i32),
    )
}

/// Whether sight stops at a tile of a quadrant: the tile is off the grid
/// or holds an obstacle that blocks sight.
pub open spec fn wall_at(level: LevelView, quadrant: Quadrant, row: int, col: int) -> bool {
    match quadrant.spec_transform(row, col) {
        Some(p) => level.opaque_at(p),
        None => true,
    }
}

/// The cell that a tile shows, if it shows one: a tile on the grid that
/// blocks sight or lies between the slopes.
pub open spec fn shown(
    level: LevelView,
    quadrant: Quadrant,
    depth: int,
    col: int,
    start: Slope,
    end: Slope,
) -> Set<Position> {
    match quadrant.spec_transform(depth, col) {
        Some(p) => if level.opaque_at(p) || symmetric(depth, col, start, end) {
            set![p]
        } else {
            Set::empty()
        },
        None => Set::empty(),
    }
}

/// The cells seen in the row at `depth` between the two slopes and in the
/// rows behind it, `distance` rows in all.
pub open spec fn seen_from(
    level: LevelView,
    quadrant: Quadrant,
    depth: int,
    start: Slope,
    end: Slope,
    distance: nat,
) -> Set<Position>
    decreases distance, 1int, 0int,
{
    if distance == 0 {
        Set::empty()
    } else {
        seen_in_row(
            level,
            quadrant,
            depth,
            start,
            end,
            distance,
            min_col(depth, start),
            None,
            max_col(depth, end),
        )
    }
}

/// The cells seen from column `col` of a row on and in the rows behind
/// that part. `before` says whether the tile before `col` blocked sight,
/// `start` is the start slope as it stands at `col`.
///
/// A tile that lets sight pass after one that blocked it moves the start
/// slope to its corner. A tile that blocks sight after one that let it
/// pass ends a scan of the rows behind, which starts with the start slope
/// of the row and ends at the corner of the tile. A row whose last tile
/// lets sight pass is followed by the next row.
pub open spec fn seen_in_row(
    level: LevelView,
    quadrant: Quadrant,
    depth: int,
    start: Slope,
    end: Slope,
    distance: nat,
    col: int,
    before: Option<bool>,
    last: int,
) -> Set<Position>
    decreases distance, 0int, last - col + 1,
{
    if distance == 0 {
        Set::empty()
    } else if col > last {
        if before == Some(false) {
            seen_from(level, quadrant, depth + 1, start, end, (distance - 1) as nat)
        } else {
            Set::empty()
        }
    } else {
        let wall = wall_at(level, quadrant, depth, col);
        let here = shown(level, quadrant, depth, col, start, end);
        let behind = if before == Some(false) && wall {
            seen_from(
                level,
                quadrant,
                depth + 1,
                start,
                slope_of(depth, col),
                (distance - 1) as nat,
            )
        } else {
            Set::empty()
        };
        let onward = if before == Some(true) && !wall {
            slope_of(depth, col)
        } else {
            start
        };
        here.union(behind).union(
            seen_in_row(level, quadrant, depth, onward, end, distance, col + 1, Some(wall), last),
        )
    }
}

/// What a viewer at `origin` sees `distance` rows far: its own cell and
/// what the scans of the four quadrants see.
pub open spec fn fov_spec(level: LevelView, origin: Position, distance: nat) -> Set<Position> {
    let full = Slope { numer: 1i32, denom: 1i32 };
    let back = Slope { numer: (-1) as i32, denom: 1i32 };
    set![origin].union(
        seen_from(level, Quadrant { origin, cardinal: Cardinal::North }, 1, back, full, distance),
    ).union(
        seen_from(level, Quadrant { origin, cardinal: Cardinal::East }, 1, back, full, distance),
    ).union(
        seen_from(level, Quadrant { origin, cardinal: Cardinal::South }, 1, back, full, distance),
    ).union(
        seen_from(level, Quadrant { origin, cardinal: Cardinal::West }, 1, back, full, distance),
    )
}

/// The columns of a row between -1 and 1 stay within its depth.
pub proof fn lemma_col_bounds(depth: int, slope: Slope)
    requires
        1 <= depth,
        steep_ok(slope),
    ensures
        -depth <= min_col(depth, slope) <= depth,
        -depth <= max_col(depth, slope) <= depth,
{
    let n = slope.numer as int;
    let d = slope.denom as int;
    let a = 2 * (depth * n) + d;
    let b = 2 * d;
    let q = a / b;
    vstd::arithmetic::div_mod::lemma_fundamental_div_mod(a, b);
    vstd::arithmetic::div_mod::lemma_mod_bound(a, b);
    assert(-depth * d <= depth * n <= depth * d) by (nonlinear_arith)
        requires
            1 <= depth,
            -d <= n <= d,
    ;
    assert(-depth <= q <= depth) by (nonlinear_arith)
        requires
            a == b * q + a % b,
            0 <= a % b < b,
            b == 2 * d,
            d > 0,
            a == 2 * (depth * n) + d,
            -depth * d <= depth * n <= depth * d,
    ;
    let c = d - 2 * (depth * n);
    let r = c / b;
    vstd::arithmetic::div_mod::lemma_fundamental_div_mod(c, b);
    vstd::arithmetic::div_mod::lemma_mod_bound(c, b);
    assert(-depth <= r <= depth) by (nonlinear_arith)
        requires
            c == b * r + c % b,
            0 <= c % b < b,
            b == 2 * d,
            d > 0,
            c == d - 2 * (depth * n),
            -depth * d <= depth * n <= depth * d,
    ;
}

impl Row {
    /// Whether the row can be scanned: it is at most 32 rows away and its
    /// slopes lie between -1 and 1.
    pub open spec fn wf(self) -> bool {
        &&& 1 <= self.depth <= 32
        &&& steep_ok(self.start_slope)
        &&& steep_ok(self.end_slope)
    }

    pub fn new(depth: i32, start_slope: Slope, end_slope: Slope) -> (row: Row)
        ensures
            row == (Row { depth, start_slope, end_slope }),
    {
        Row { depth, start_slope, end_slope }
    }

    /// The tiles of the row, as (row, column), from the first column to
    /// the last.
    pub fn tiles(&self) -> (tiles: Vec<(i32, i32)>)
        requires
            self.wf(),
        ensures
            tiles@ == row_tiles(
                self.depth as int,
                min_col(self.depth as int, self.start_slope),
                max_col(self.depth as int, self.end_slope),
            ),
            -self.depth <= min_col(self.depth as int, self.start_slope) <= self.depth,
            -self.depth <= max_col(self.depth as int, self.end_slope) <= self.depth,
    {
        let low = times(self.depth, self.start_slope);
        let high = times(self.depth, self.end_slope);
        let first: i32 = round_ties_up(low);
        let last: i32 = round_ties_down(high);
        proof {
            lemma_round_transfer(
                low,
                self.depth * self.start_slope.numer,
                self.start_slope.denom as int,
            );
            lemma_round_transfer(high, self.depth * self.end_slope.numer, self.end_slope.denom as int);
            lemma_col_bounds(self.depth as int, self.start_slope);
            lemma_col_bounds(self.depth as int, self.end_slope);
        }
        let mut tiles: Vec<(i32, i32)> = Vec::new();
        let mut col: i32 = first;
        while col <= last
            invariant
                -32 <= first <= col,
                -32 <= last <= 32,
                col <= last + 1 || col == first,
                tiles@.len() == col - first,
                forall|k: int| 0 <= k < tiles@.len() ==> tiles@[k] == (self.depth, (first + k) as i32),
            decreases last + 1 - col,
        {
            tiles.push((self.depth, col));
            col += 1;
        }
        assert(tiles@ =~= row_tiles(self.depth as int, first as int, last as int));
        tiles
    }

    /// The row behind this one, between the same slopes.
    pub fn next(&self) -> (row: Row)
        requires
            self.depth < i32::MAX,
        ensures
            row == (Row {
                depth: (self.depth + 1) as i32,
                start_slope: self.start_slope,
                end_slope: self.end_slope,
            }),
    {
        Row::new(self.depth + 1, self.start_slope, self.end_slope)
    }
}

/// The slope that touches the near left corner of a tile.
fn slope(tile: (i32, i32)) -> (slope: Slope)
    requires
        1 <= tile.0 <= 32,
        -32 <= tile.1 <= 32,
    ensures
        slope == slope_of(tile.0 as int, tile.1 as int),
{
    let (row, col) = tile;
    Slope { numer: 2 * col - 1, denom: 2 * row }
}

/// Whether the centre of a tile lies between the slopes of its row.
fn is_symmetric(row: Row, tile: (i32, i32)) -> (inside: bool)
    requires
        row.wf(),
        -32 <= tile.1 <= 32,
    ensures
        inside == symmetric(row.depth as int, tile.1 as int, row.start_slope, row.end_slope),
{
    let (_, col) = tile;
    let low = times(row.depth, row.start_slope);
    let high = times(row.depth, row.end_slope);
    proof {
        lemma_between_transfer(
            col as int,
            low,
            row.depth * row.start_slope.numer,
            row.start_slope.denom as int,
            high,
            row.depth * row.end_slope.numer,
            row.end_slope.denom as int,
        );
    }
    between(col, low, high)
}

/// Whether sight stops at a cell: it is off the grid or holds an obstacle
/// that blocks sight.
fn is_wall(position: Option<Position>, level: &Level) -> (wall: bool)
    ensures
        wall == match position {
            Some(p) => p.in_bounds() ==> level@.opaque_at(p),
            None => true,
        },
{
    match position {
        Some(p) => {
            if p.x >= LEVEL_WIDTH || p.y >= LEVEL_HEIGHT {
                true
            } else {
                level.blocks_sight(p)
            }
        },
        None => true,
    }
}

/// Scans the row `row` of a quadrant and the rows behind it, `distance`
/// rows in all, and adds what is seen to `visible`.
pub fn scan(quadrant: Quadrant, row: Row, distance: u16, level: &Level, visible: &mut ShadowMap)
    requires
        quadrant.origin.in_bounds(),
        row.wf(),
    ensures
        final(visible)@ == old(visible)@.union(
            seen_from(
                level@,
                quadrant,
                row.depth as int,
                row.start_slope,
                row.end_slope,
                distance as nat,
            ),
        ),
    decreases distance,
{
    if distance == 0 {
        assert(visible@ =~= old(visible)@.union(Set::empty()));
        return ;
    }
    let tiles = row.tiles();
    let ghost depth = row.depth as int;
    let ghost first = min_col(depth, row.start_slope);
    let ghost last = max_col(depth, row.end_slope);
    let ghost end = row.end_slope;
    let ghost goal = old(visible)@.union(
        seen_from(level@, quadrant, depth, row.start_slope, end, distance as nat),
    );
    let mut start: Slope = row.start_slope;
    let mut before: Option<bool> = None;
    let mut t: usize = 0;
    while t < tiles.len()
        invariant
            distance > 0,
            quadrant.origin.in_bounds(),
            row.wf(),
            depth == row.depth,
            end == row.end_slope,
            steep_ok(start),
            -depth <= first,
            last <= depth,
            t <= tiles@.len(),
            tiles@ == row_tiles(depth, first, last),
            before is Some <==> t > 0,
            before == Some(false) ==> depth <= 31,
            goal == visible@.union(
                seen_in_row(
                    level@,
                    quadrant,
                    depth,
                    start,
                    end,
                    distance as nat,
                    first + t,
                    before,
                    last,
                ),
            ),
        decreases tiles@.len() - t,
    {
        let tile = tiles[t];
        let ghost col = first + t;
        let ghost seen0 = visible@;
        assert(tile == (row.depth, col as i32));
        let position = quadrant.transform(tile);
        let wall = is_wall(position, level);
        assert(wall == wall_at(level@, quadrant, depth, col));
        let current = Row::new(row.depth, start, row.end_slope);
        if wall || is_symmetric(current, tile) {
            match position {
                Some(p) => {
                    visible.insert(p);
                },
                None => {},
            }
        }
        assert(visible@ =~= seen0.union(shown(level@, quadrant, depth, col, start, end)));
        let ghost seen1 = visible@;
        let ghost start0 = start;
        match before {
            Some(prev) => {
                if prev && !wall {
                    start = slope(tile);
                }
                if !prev && wall {
                    let next_row = Row::new(row.depth + 1, start, slope(tile));
                    scan(quadrant, next_row, distance - 1, level, visible);
                }
            },
            None => {},
        }
        proof {
            let behind = if before == Some(false) && wall {
                seen_from(
                    level@,
                    quadrant,
                    depth + 1,
                    start0,
                    slope_of(depth, col),
                    (distance - 1) as nat,
                )
            } else {
                Set::empty()
            };
            assert(visible@ =~= seen1.union(behind));
            let rest = seen_in_row(
                level@,
                quadrant,
                depth,
                start,
                end,
                distance as nat,
                col + 1,
                Some(wall),
                last,
            );
            assert(seen_in_row(
                level@,
                quadrant,
                depth,
                start0,
                end,
                distance as nat,
                col,
                before,
                last,
            ) == shown(level@, quadrant, depth, col, start0, end).union(behind).union(rest));
            assert(goal =~= visible@.union(rest));
        }
        before = Some(wall);
        t += 1;
    }
    if before == Some(false) {
        let next_row = Row::new(row.depth + 1, start, row.end_slope);
        scan(quadrant, next_row, distance - 1, level, visible);
    }
    proof {
        assert(first + tiles@.len() > last);
        assert(visible@ =~= goal);
    }
}

/// What a unit at `origin` sees with the view distance `distance`.
pub fn compute_fov(origin: Position, distance: u16, level: &Level) -> (visible: ShadowMap)
    requires
        origin.in_bounds(),
    ensures
        visible@ == fov_spec(level@, origin, distance as nat),
        visible@.contains(origin),
{
    let mut visible = ShadowMap::new();
    visible.insert(origin);
    let full = Slope { numer: 1, denom: 1 };
    let back = Slope { numer: -1, denom: 1 };
    scan(Quadrant::new(origin, Cardinal::North), Row::new(1, back, full), distance, level, &mut visible);
    scan(Quadrant::new(origin, Cardinal::East), Row::new(1, back, full), distance, level, &mut visible);
    scan(Quadrant::new(origin, Cardinal::South), Row::new(1, back, full), distance, level, &mut visible);
    scan(Quadrant::new(origin, Cardinal::West), Row::new(1, back, full), distance, level, &mut visible);
    assert(visible@ =~= fov_spec(level@, origin, distance as nat));
    visible
}

} // verus!
