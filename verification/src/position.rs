//! Grid coordinates and the geometry between them.

use vstd::prelude::*;

verus! {

/// Number of columns of the level grid.
pub const LEVEL_WIDTH: usize = 16;

/// Number of rows of the level grid.
pub const LEVEL_HEIGHT: usize = 32;

/// The four directions of the grid. `Up` is towards smaller `y`.
#[derive(Debug, Clone, Copy, PartialEq, Eq, Hash, Structural)]
pub enum Direction {
    Left,
    Right,
    Up,
    Down,
}

/// A cell of the grid: column `x`, row `y`.
#[derive(Debug, Clone, Copy, PartialEq, Eq, Hash, Structural)]
pub struct Position {
    pub x: usize,
    pub y: usize,
}

/// Whether `r` is the square root of `n`, rounded down.
pub open spec fn is_floor_sqrt(r: int, n: int) -> bool {
    0 <= r && r * r <= n < (r + 1) * (r + 1)
}

/// At most one number is the rounded-down square root of `n`.
pub proof fn lemma_floor_sqrt_unique(r: int, s: int, n: int)
    requires
        is_floor_sqrt(r, n),
        is_floor_sqrt(s, n),
    ensures
        r == s,
{
    assert(r <= s) by (nonlinear_arith)
        requires
            0 <= r,
            0 <= s,
            r * r <= n,
            n < (s + 1) * (s + 1),
    ;
    assert(s <= r) by (nonlinear_arith)
        requires
            0 <= r,
            0 <= s,
            s * s <= n,
            n < (r + 1) * (r + 1),
    ;
}

/// `num_integer::Roots::sqrt` on `i16`: for a number that is not negative,
/// the principal square root rounded towards zero. The crate panics on a
/// negative number, which `requires` leaves out.
#[verifier::external_body]
fn integer_sqrt(n: i16) -> (r: i16)
    requires
        n >= 0,
    ensures
        is_floor_sqrt(r as int, n as int),
{
    num_integer::Roots::sqrt(&n)
}

/// The four directions in the order in which lines are tried.
pub open spec fn all_directions() -> Seq<Direction> {
    seq![Direction::Left, Direction::Right, Direction::Up, Direction::Down]
}

impl Direction {
    /// The four directions in the order in which lines are tried.
    pub fn iter() -> (directions: [Direction; 4])
        ensures
            directions@ == all_directions(),
    {
        let directions: [Direction; 4] = [
            Direction::Left,
            Direction::Right,
            Direction::Up,
            Direction::Down,
        ];
        assert(directions@ =~= all_directions());
        directions
    }
}

impl Position {
    /// Whether the cell lies on the grid.
    pub open spec fn in_bounds(self) -> bool {
        self.x < LEVEL_WIDTH && self.y < LEVEL_HEIGHT
    }

    /// Whether the two cells share an edge.
    pub open spec fn touches(self, other: Position) -> bool {
        ||| self.y == other.y && (self.x == other.x + 1 || other.x == self.x + 1)
        ||| self.x == other.x && (self.y == other.y + 1 || other.y == self.y + 1)
    }

    /// The neighbours on the grid, as `adjacent` lists them: left, right,
    /// up, down, each only if it exists.
    pub open spec fn spec_adjacent(self) -> Seq<Position> {
        let left = if self.x > 0 {
            seq![Position { x: (self.x - 1) as usize, y: self.y }]
        } else {
            Seq::empty()
        };
        let right = if self.x + 1 < LEVEL_WIDTH {
            seq![Position { x: (self.x + 1) as usize, y: self.y }]
        } else {
            Seq::empty()
        };
        let up = if self.y > 0 {
            seq![Position { x: self.x, y: (self.y - 1) as usize }]
        } else {
            Seq::empty()
        };
        let down = if self.y + 1 < LEVEL_HEIGHT {
            seq![Position { x: self.x, y: (self.y + 1) as usize }]
        } else {
            Seq::empty()
        };
        left + right + up + down
    }

    /// The squared straight-line distance between two cells.
    pub open spec fn squared_distance(self, other: Position) -> int {
        (self.x - other.x) * (self.x - other.x) + (self.y - other.y) * (self.y - other.y)
    }

    /// The straight-line distance between two cells, rounded down.
    pub open spec fn rounded_distance(self, other: Position) -> int {
        choose|d: int| is_floor_sqrt(d, self.squared_distance(other))
    }

    /// The number of steps between two cells when only the four directions
    /// are walked.
    pub open spec fn steps_to(self, other: Position) -> int {
        (if self.x <= other.x {
            other.x - self.x
        } else {
            self.x - other.x
        }) + (if self.y <= other.y {
            other.y - self.y
        } else {
            self.y - other.y
        })
    }

    /// The direction of `other` as seen from `self`: the horizontal one
    /// where the columns differ, else the vertical one.
    pub open spec fn spec_direction_to(self, other: Position) -> Direction {
        if other.x < self.x {
            Direction::Left
        } else if other.x > self.x {
            Direction::Right
        } else if other.y < self.y {
            Direction::Up
        } else {
            Direction::Down
        }
    }

    /// The cell `dist` steps away in `direction`, if it lies on the grid.
    pub open spec fn spec_in_direction(self, direction: Direction, dist: int) -> Option<Position> {
        match direction {
            Direction::Left => if self.x < dist {
                None
            } else {
                Some(Position { x: (self.x - dist) as usize, y: self.y })
            },
            Direction::Right => if self.x + dist >= LEVEL_WIDTH {
                None
            } else {
                Some(Position { x: (self.x + dist) as usize, y: self.y })
            },
            Direction::Up => if self.y < dist {
                None
            } else {
                Some(Position { x: self.x, y: (self.y - dist) as usize })
            },
            Direction::Down => if self.y + dist >= LEVEL_HEIGHT {
                None
            } else {
                Some(Position { x: self.x, y: (self.y + dist) as usize })
            },
        }
    }

    /// The neighbours of the cell that lie on the grid, without wraparound.
    pub fn adjacent(&self) -> (positions: Vec<Position>)
        ensures
            positions@ == self.spec_adjacent(),
    {
        let mut positions: Vec<Position> = Vec::new();
        if self.x > 0 {
            positions.push(Position { x: self.x - 1, y: self.y });
        }
        if self.x < LEVEL_WIDTH - 1 {
            positions.push(Position { x: self.x + 1, y: self.y });
        }
        if self.y > 0 {
            positions.push(Position { x: self.x, y: self.y - 1 });
        }
        if self.y < LEVEL_HEIGHT - 1 {
            positions.push(Position { x: self.x, y: self.y + 1 });
        }
        assert(positions@ =~= self.spec_adjacent());
        positions
    }

    /// The straight-line distance to `other`, rounded down.
    pub fn distance(&self, other: Position) -> (d: u16)
        requires
            self.in_bounds(),
            other.in_bounds(),
        ensures
            is_floor_sqrt(d as int, self.squared_distance(other)),
            d == self.rounded_distance(other),
            d <= 34,
    {
        let dx: i16 = self.x as i16 - other.x as i16;
        let dy: i16 = self.y as i16 - other.y as i16;
        assert(0 <= dx * dx <= 225 && 0 <= dy * dy <= 961) by (nonlinear_arith)
            requires
                -15 <= dx <= 15,
                -31 <= dy <= 31,
        ;
        let root: i16 = integer_sqrt(dx * dx + dy * dy);
        assert(root <= 34) by (nonlinear_arith)
            requires
                0 <= root,
                root * root <= 1186,
        ;
        proof {
            lemma_floor_sqrt_unique(
                root as int,
                self.rounded_distance(other),
                self.squared_distance(other),
            );
        }
        root as u16
    }

    /// The direction in which `other` lies.
    pub fn direction_to(&self, other: Position) -> (direction: Direction)
        requires
            *self != other,
        ensures
            direction == self.spec_direction_to(other),
    {
        if other.x < self.x {
            Direction::Left
        } else if other.x > self.x {
            Direction::Right
        } else if other.y < self.y {
            Direction::Up
        } else {
            Direction::Down
        }
    }

    /// The cell `dist` steps away in `direction`, or `None` past the edge.
    pub fn in_direction(&self, direction: Direction, dist: usize) -> (position: Option<Position>)
        ensures
            position == self.spec_in_direction(direction, dist as int),
    {
        match direction {
            Direction::Left => {
                if self.x < dist {
                    None
                } else {
                    Some(Position { x: self.x - dist, y: self.y })
                }
            },
            Direction::Right => {
                if dist >= LEVEL_WIDTH || self.x >= LEVEL_WIDTH - dist {
                    None
                } else {
                    Some(Position { x: self.x + dist, y: self.y })
                }
            },
            Direction::Up => {
                if self.y < dist {
                    None
                } else {
                    Some(Position { x: self.x, y: self.y - dist })
                }
            },
            Direction::Down => {
                if dist >= LEVEL_HEIGHT || self.y >= LEVEL_HEIGHT - dist {
                    None
                } else {
                    Some(Position { x: self.x, y: self.y + dist })
                }
            },
        }
    }
}

/// On the grid, the listed neighbours of a cell are exactly the cells of
/// the grid that share an edge with it.
pub proof fn lemma_adjacent_touches(p: Position, q: Position)
    requires
        p.in_bounds(),
    ensures
        p.spec_adjacent().contains(q) <==> (q.in_bounds() && p.touches(q)),
{
    let s = p.spec_adjacent();
    if s.contains(q) {
        let k = choose|k: int| 0 <= k < s.len() && s[k] == q;
        assert(q.in_bounds() && p.touches(q));
    }
    if q.in_bounds() && p.touches(q) {
        let left = if p.x > 0 {
            seq![Position { x: (p.x - 1) as usize, y: p.y }]
        } else {
            Seq::empty()
        };
        let right = if p.x + 1 < LEVEL_WIDTH {
            seq![Position { x: (p.x + 1) as usize, y: p.y }]
        } else {
            Seq::empty()
        };
        let up = if p.y > 0 {
            seq![Position { x: p.x, y: (p.y - 1) as usize }]
        } else {
            Seq::empty()
        };
        let down = if p.y + 1 < LEVEL_HEIGHT {
            seq![Position { x: p.x, y: (p.y + 1) as usize }]
        } else {
            Seq::empty()
        };
        if p.y == q.y && p.x == q.x + 1 {
            assert(s[0] == q);
        } else if p.y == q.y && q.x == p.x + 1 {
            assert(s[left.len() as int] == q);
        } else if p.x == q.x && p.y == q.y + 1 {
            assert(s[(left.len() + right.len()) as int] == q);
        } else {
            assert(s[(left.len() + right.len() + up.len()) as int] == q);
        }
    }
}

/// Along a row or a column the rounded distance is the number of steps.
pub proof fn lemma_distance_on_axis(p: Position, q: Position, d: int)
    requires
        p.x == q.x || p.y == q.y,
        is_floor_sqrt(d, p.squared_distance(q)),
    ensures
        d == p.steps_to(q),
{
    let k = p.steps_to(q);
    assert(p.squared_distance(q) == k * k) by (nonlinear_arith)
        requires
            p.x == q.x || p.y == q.y,
            k == p.steps_to(q),
    ;
    assert(is_floor_sqrt(k, k * k)) by (nonlinear_arith)
        requires
            k >= 0,
    ;
    lemma_floor_sqrt_unique(d, k, k * k);
}

} // verus!
