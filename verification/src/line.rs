//! Straight lines along the four directions: the line of fire of an
//! ability, and the cells from which a target can be hit.

use crate::grid::{Grid, Tile};
use crate::position::{
    all_directions, lemma_distance_on_axis, Direction, Position, LEVEL_HEIGHT, LEVEL_WIDTH,
};
use vstd::prelude::*;

verus! {

/// The cell `k` steps from `start` on the straight way to `goal`.
pub open spec fn step_towards(start: Position, goal: Position, k: int) -> Position {
    match start.spec_direction_to(goal) {
        Direction::Left => Position { x: (start.x - k) as usize, y: start.y },
        Direction::Right => Position { x: (start.x + k) as usize, y: start.y },
        Direction::Up => Position { x: start.x, y: (start.y - k) as usize },
        Direction::Down => Position { x: start.x, y: (start.y + k) as usize },
    }
}

/// Whether `goal` lies in the row or the column of `start`, is another
/// cell, and each cell strictly between the two is empty.
pub open spec fn clear_line(grid: Map<Position, Tile>, start: Position, goal: Position) -> bool {
    &&& start != goal
    &&& (start.x == goal.x || start.y == goal.y)
    &&& forall|k: int|
        1 <= k < start.steps_to(goal) ==> grid[#[trigger] step_towards(start, goal, k)] is Empty
}

/// The cells of the straight way from `start` to `goal`, `start` left out
/// and `goal` last.
pub open spec fn line_spec(start: Position, goal: Position) -> Seq<Position> {
    Seq::new(start.steps_to(goal) as nat, |k: int| step_towards(start, goal, k + 1))
}

/// A clear line leads to another cell.
pub proof fn lemma_clear_line_apart(grid: Map<Position, Tile>, start: Position, goal: Position)
    requires
        clear_line(grid, start, goal),
    ensures
        start != goal,
{
}

/// A step in a direction reaches `goal` only along the straight way to it.
proof fn lemma_step_hits_goal(start: Position, goal: Position, direction: Direction, dist: int)
    requires
        start.in_bounds(),
        goal.in_bounds(),
        dist >= 1,
        start.spec_in_direction(direction, dist) == Some(goal),
    ensures
        start != goal,
        start.x == goal.x || start.y == goal.y,
        direction == start.spec_direction_to(goal),
        dist == start.steps_to(goal),
{
}

/// Along the straight way to `goal`, the step of `k` cells is the `k`-th
/// cell of the way.
proof fn lemma_step_on_line(start: Position, goal: Position, k: int)
    requires
        start.in_bounds(),
        goal.in_bounds(),
        start != goal,
        start.x == goal.x || start.y == goal.y,
        1 <= k <= start.steps_to(goal),
    ensures
        start.spec_in_direction(start.spec_direction_to(goal), k) == Some(
            step_towards(start, goal, k),
        ),
        step_towards(start, goal, k).in_bounds(),
        k == start.steps_to(goal) <==> step_towards(start, goal, k) == goal,
{
}

/// Follows one direction from `start` for at most `distance` steps over
/// empty cells. Returns the cells walked if the last of them is `goal`.
fn line_in_direction(
    start: Position,
    goal: Position,
    grid: &Grid,
    direction: Direction,
    distance: usize,
) -> (path: Option<Vec<Position>>)
    requires
        start.in_bounds(),
        goal.in_bounds(),
        start.x == goal.x || start.y == goal.y ==> distance == start.steps_to(goal),
    ensures
        match path {
            Some(path) => clear_line(grid@, start, goal) && path@ == line_spec(start, goal),
            None => direction == start.spec_direction_to(goal) ==> !clear_line(
                grid@,
                start,
                goal,
            ),
        },
{
    let mut path: Vec<Position> = Vec::new();
    let mut dist: usize = 1;
    let ghost aligned = start != goal && (start.x == goal.x || start.y == goal.y) && direction
        == start.spec_direction_to(goal);
    while dist <= distance
        invariant
            start.in_bounds(),
            goal.in_bounds(),
            1 <= dist,
            start.x == goal.x || start.y == goal.y ==> distance == start.steps_to(goal),
            aligned == (start != goal && (start.x == goal.x || start.y == goal.y) && direction
                == start.spec_direction_to(goal)),
            aligned ==> dist <= distance,
            path@.len() == dist - 1,
            aligned ==> forall|k: int|
                0 <= k < dist - 1 ==> path@[k] == step_towards(start, goal, k + 1),
            aligned ==> forall|k: int|
                1 <= k < dist ==> grid@[#[trigger] step_towards(start, goal, k)] is Empty,
        decreases distance + 1 - dist,
    {
        let position = match start.in_direction(direction, dist) {
            Some(position) => position,
            None => {
                proof {
                    if aligned {
                        lemma_step_on_line(start, goal, dist as int);
                    }
                }
                return None;
            },
        };
        proof {
            if aligned {
                lemma_step_on_line(start, goal, dist as int);
            }
        }
        if position == goal {
            proof {
                lemma_step_hits_goal(start, goal, direction, dist as int);
            }
            path.push(position);
            assert(path@ =~= line_spec(start, goal));
            return Some(path);
        }
        if grid.at(position).is_empty() {
            path.push(position);
        } else {
            return None;
        }
        dist += 1;
    }
    None
}

/// The line of fire from `start` to `goal`: the cells from `start` (left
/// out) to `goal` (last) if `goal` can be reached by stepping along one
/// of the four directions over empty cells only, else `None`.
pub fn line_to(start: Position, goal: Position, grid: &Grid) -> (path: Option<Vec<Position>>)
    requires
        start.in_bounds(),
        goal.in_bounds(),
    ensures
        match path {
            Some(path) => clear_line(grid@, start, goal) && path@ == line_spec(start, goal),
            None => !clear_line(grid@, start, goal),
        },
{
    let d: u16 = start.distance(goal);
    let distance: usize = d as usize;
    proof {
        if start.x == goal.x || start.y == goal.y {
            lemma_distance_on_axis(start, goal, d as int);
        }
    }
    let directions = Direction::iter();
    let mut n: usize = 0;
    while n < 4
        invariant
            n <= 4,
            start.in_bounds(),
            goal.in_bounds(),
            directions@ == all_directions(),
            start.x == goal.x || start.y == goal.y ==> distance == start.steps_to(goal),
            forall|m: int|
                0 <= m < n && directions@[m] == start.spec_direction_to(goal) ==> !clear_line(
                    grid@,
                    start,
                    goal,
                ),
        decreases 4 - n,
    {
        match line_in_direction(start, goal, grid, directions[n], distance) {
            Some(path) => {
                return Some(path);
            },
            None => {},
        }
        n += 1;
    }
    proof {
        let towards = start.spec_direction_to(goal);
        assert(directions@[0] == towards || directions@[1] == towards || directions@[2] == towards
            || directions@[3] == towards);
    }
    None
}

/// The cells hit by a ray from `from` in `direction`: the empty cells on
/// the grid up to `reach` steps away, before the first cell that is off the
/// grid or not empty, each with its number of steps.
pub open spec fn ray(grid: Map<Position, Tile>, from: Position, direction: Direction, reach: int) -> Seq<
    (Position, u16),
>
    decreases reach,
{
    if reach <= 0 {
        Seq::empty()
    } else {
        let shorter = ray(grid, from, direction, reach - 1);
        match from.spec_in_direction(direction, reach) {
            Some(p) => if shorter.len() == reach - 1 && grid[p] is Empty {
                shorter.push((p, reach as u16))
            } else {
                shorter
            },
            None => shorter,
        }
    }
}

/// The rays from one cell in the four directions, one after the other.
pub open spec fn rays_from(grid: Map<Position, Tile>, from: Position, range: int) -> Seq<(Position, u16)> {
    ray(grid, from, Direction::Left, range) + ray(grid, from, Direction::Right, range) + ray(
        grid,
        from,
        Direction::Up,
        range,
    ) + ray(grid, from, Direction::Down, range)
}

/// The rays from the first `j` cells of column `i` of a footprint anchored
/// at `position`; cells off the grid cast none.
pub open spec fn column_rays(grid: Map<Position, Tile>, position: Position, range: int, i: int, j: int) -> Seq<
    (Position, u16),
>
    decreases j,
{
    if j <= 0 {
        Seq::empty()
    } else {
        let before = column_rays(grid, position, range, i, j - 1);
        if position.x + i < LEVEL_WIDTH && position.y + (j - 1) < LEVEL_HEIGHT {
            before + rays_from(
                grid,
                Position { x: (position.x + i) as usize, y: (position.y + j - 1) as usize },
                range,
            )
        } else {
            before
        }
    }
}

/// The rays from the first `i` columns of a footprint of the given height.
pub open spec fn footprint_rays(
    grid: Map<Position, Tile>,
    position: Position,
    range: int,
    height: int,
    i: int,
) -> Seq<(Position, u16)>
    decreases i,
{
    if i <= 0 {
        Seq::empty()
    } else {
        footprint_rays(grid, position, range, height, i - 1) + column_rays(
            grid,
            position,
            range,
            i - 1,
            height,
        )
    }
}

/// Appends the ray from `from` in `direction` to `positions`.
fn cast_ray(
    positions: &mut Vec<(Position, u16)>,
    grid: &Grid,
    from: Position,
    direction: Direction,
    range: u16,
)
    requires
        from.in_bounds(),
    ensures
        final(positions)@ == old(positions)@ + ray(grid@, from, direction, range as int),
{
    let mut dist: u16 = 1;
    let mut blocked: bool = false;
    proof {
        assert(ray(grid@, from, direction, 0) =~= Seq::empty());
        assert(positions@ =~= old(positions)@ + ray(grid@, from, direction, 0));
    }
    while dist <= range && !blocked
        invariant
            from.in_bounds(),
            1 <= dist <= range + 1,
            !blocked ==> positions@ == old(positions)@ + ray(grid@, from, direction, dist - 1),
            !blocked ==> ray(grid@, from, direction, dist - 1).len() == dist - 1,
            blocked ==> positions@ == old(positions)@ + ray(grid@, from, direction, range as int),
        decreases range + 1 - dist + if blocked { 0int } else { 1int },
    {
        let ghost shorter = ray(grid@, from, direction, dist - 1);
        let mut hit: bool = false;
        match from.in_direction(direction, dist as usize) {
            Some(position) => {
                if grid.at(position).is_empty() {
                    positions.push((position, dist));
                    hit = true;
                }
            },
            None => {},
        }
        if hit {
            proof {
                assert(positions@ =~= old(positions)@ + ray(grid@, from, direction, dist as int));
            }
            if dist == range {
                blocked = true;
            } else {
                dist += 1;
            }
        } else {
            proof {
                lemma_ray_stuck(grid@, from, direction, dist as int, range as int);
            }
            blocked = true;
        }
    }
}

/// A ray that stops short of `reach` stays as it is for every longer reach.
proof fn lemma_ray_stuck(grid: Map<Position, Tile>, from: Position, direction: Direction, reach: int, more: int)
    requires
        1 <= reach <= more,
        ray(grid, from, direction, reach) == ray(grid, from, direction, reach - 1),
        ray(grid, from, direction, reach - 1).len() <= reach - 1,
    ensures
        ray(grid, from, direction, more) == ray(grid, from, direction, reach - 1),
    decreases more - reach,
{
    if more > reach {
        lemma_ray_stuck(grid, from, direction, reach, more - 1);
    }
}

/// The cells from which an ability of the given range reaches a target at
/// `position`, each with the distance it is used at: from every cell of a
/// footprint of the given dimensions anchored at `position`, the rays in
/// the four directions.
pub fn attack_positions(
    position: Position,
    range: u16,
    grid: &Grid,
    dimensions: (usize, usize),
) -> (positions: Vec<(Position, u16)>)
    requires
        position.in_bounds(),
    ensures
        positions@ == footprint_rays(
            grid@,
            position,
            range as int,
            dimensions.1 as int,
            dimensions.0 as int,
        ),
{
    let (width, height) = dimensions;
    let mut positions: Vec<(Position, u16)> = Vec::new();
    let mut i: usize = 0;
    while i < width
        invariant
            i <= width,
            position.in_bounds(),
            positions@ == footprint_rays(grid@, position, range as int, height as int, i as int),
        decreases width - i,
    {
        let mut j: usize = 0;
        let ghost done = positions@;
        proof {
            assert(positions@ =~= done + column_rays(grid@, position, range as int, i as int, 0));
        }
        while j < height
            invariant
                i < width,
                j <= height,
                position.in_bounds(),
                positions@ == done + column_rays(
                    grid@,
                    position,
                    range as int,
                    i as int,
                    j as int,
                ),
            decreases height - j,
        {
            if i < LEVEL_WIDTH - position.x && j < LEVEL_HEIGHT - position.y {
                let from = Position { x: position.x + i, y: position.y + j };
                let ghost so_far = positions@;
                cast_ray(&mut positions, grid, from, Direction::Left, range);
                cast_ray(&mut positions, grid, from, Direction::Right, range);
                cast_ray(&mut positions, grid, from, Direction::Up, range);
                cast_ray(&mut positions, grid, from, Direction::Down, range);
                proof {
                    assert(positions@ =~= so_far + rays_from(grid@, from, range as int));
                    assert(positions@ =~= done + column_rays(
                        grid@,
                        position,
                        range as int,
                        i as int,
                        j + 1,
                    ));
                }
            }
            j += 1;
        }
        i += 1;
    }
    positions
}

} // verus!
