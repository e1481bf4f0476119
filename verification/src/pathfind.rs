//! Best-first search for a walkable path on the occupancy grid.
//!
//! Steps cost 1 and go to one of the four neighbours. A cell is queued with
//! the priority `cost so far + rounded straight-line distance to the goal`
//! and the queue hands out the least priority first, the earliest queued
//! first among equals. The search ends when the goal leaves the queue.

use crate::grid::{traversable, Grid, Tile};
use crate::position::{is_floor_sqrt, lemma_adjacent_touches, Position, LEVEL_HEIGHT};
use vstd::prelude::*;

verus! {

/// A queued cell.
#[derive(Debug, Clone, Copy, PartialEq, Eq, Structural)]
pub struct Frontier {
    pub priority: u16,
    pub position: Position,
}

/// Whether entry `m` has the least priority of `queue` and is the first
/// entry that has it.
pub open spec fn is_first_min(queue: Seq<Frontier>, m: int) -> bool {
    &&& 0 <= m < queue.len()
    &&& forall|k: int| 0 <= k < queue.len() ==> queue[m].priority <= (#[trigger] queue[k]).priority
    &&& forall|k: int| 0 <= k < m ==> queue[m].priority < (#[trigger] queue[k]).priority
}

/// Takes the entry with the least priority out of the queue; of several
/// such entries, the one queued first. The others keep their order.
pub fn pop_first_min(queue: &mut Vec<Frontier>) -> (entry: Option<Frontier>)
    ensures
        old(queue)@.len() == 0 ==> entry is None && final(queue)@ == old(queue)@,
        old(queue)@.len() > 0 ==> exists|m: int|
            {
                &&& is_first_min(old(queue)@, m)
                &&& entry == Some(#[trigger] old(queue)@[m])
                &&& final(queue)@ == old(queue)@.remove(m)
            },
{
    if queue.len() == 0 {
        return None;
    }
    let mut best: usize = 0;
    let mut k: usize = 1;
    while k < queue.len()
        invariant
            best < k <= queue@.len(),
            queue@ == old(queue)@,
            forall|j: int| 0 <= j < k ==> queue@[best as int].priority <= (#[trigger] queue@[j]).priority,
            forall|j: int| 0 <= j < best ==> queue@[best as int].priority < (#[trigger] queue@[j]).priority,
        decreases queue@.len() - k,
    {
        if queue[k].priority < queue[best].priority {
            best = k;
        }
        k += 1;
    }
    let entry = queue.remove(best);
    assert(is_first_min(old(queue)@, best as int));
    Some(entry)
}

/// Whether `path` leads from `start` to `goal`: each cell of it shares an
/// edge with the one before (the first with `start`), lies on the grid and
/// lets the mover stand on it, and the last one is `goal`. The empty path
/// leads from a cell to itself.
pub open spec fn is_walk(
    grid: Map<Position, Tile>,
    start: Position,
    goal: Position,
    mover: Tile,
    width: int,
    height: int,
    path: Seq<Position>,
) -> bool {
    &&& if path.len() == 0 {
        start == goal
    } else {
        start.touches(path[0]) && path.last() == goal
    }
    &&& forall|k: int|
        0 <= k < path.len() ==> (#[trigger] path[k]).in_bounds() && traversable(grid, 
            path[k],
            mover,
            width,
            height,
        )
    &&& forall|j: int, k: int|
        0 <= j < k < path.len() && k == j + 1 ==> (#[trigger] path[j]).touches(#[trigger] path[k])
}

/// Whether no way from `start` to `goal` is shorter than `length` steps.
pub open spec fn is_least_length(
    grid: Map<Position, Tile>,
    start: Position,
    goal: Position,
    mover: Tile,
    width: int,
    height: int,
    length: int,
) -> bool {
    forall|any: Seq<Position>| #[trigger]
        is_walk(grid, start, goal, mover, width, height, any) ==> length <= any.len()
}

/// Every cell of a way is one step from the cell before it, the first
/// from the start, and on every cell of it the mover can stand: where the
/// mover takes up a cell at least, the cell is empty or its own.
pub proof fn lemma_walk_steps(
    grid: Map<Position, Tile>,
    start: Position,
    goal: Position,
    mover: Tile,
    width: int,
    height: int,
    path: Seq<Position>,
    k: int,
)
    requires
        is_walk(grid, start, goal, mover, width, height, path),
        0 <= k < path.len(),
    ensures
        path[k].in_bounds(),
        (if k == 0 {
            start
        } else {
            path[k - 1]
        }).touches(path[k]),
        traversable(grid, path[k], mover, width, height),
        width >= 1 && height >= 1 ==> grid[path[k]] is Empty || grid[path[k]] == mover,
        path[path.len() - 1] == goal,
{
    if k > 0 {
        assert(path[k - 1].touches(path[k]));
    }
    if width >= 1 && height >= 1 {
        assert(crate::grid::cell_open(grid, path[k], 0, 0, mover));
    }
}

/// The place of a cell in the tables of the search.
pub open spec fn cell_index(p: Position) -> int {
    p.x * LEVEL_HEIGHT + p.y
}

/// The cost of a cell: the steps of the shortest way to it that the search
/// has found so far.
pub open spec fn cost_of(costs: Seq<Option<u16>>, p: Position) -> Option<u16> {
    costs[cell_index(p)]
}

/// The cell from which the search has reached a cell.
pub open spec fn parent_of(parents: Seq<Option<Position>>, p: Position) -> Option<Position> {
    parents[cell_index(p)]
}

/// The state of a search: the cost and the parent of each cell, the queue,
/// and whether the search has ended.
pub struct Search {
    pub costs: Seq<Option<u16>>,
    pub parents: Seq<Option<Position>>,
    pub queue: Seq<Frontier>,
    pub done: bool,
}

/// The search before its first step: the start has cost 0 and is queued.
pub open spec fn search_start(start: Position) -> Search {
    Search {
        costs: Seq::new(512, |k: int| None::<u16>).update(cell_index(start), Some(0u16)),
        parents: Seq::new(512, |k: int| None::<Position>),
        queue: seq![Frontier { priority: 0, position: start }],
        done: false,
    }
}

/// The search after it looked from `position` at the neighbour
/// `adjacent`: where the mover can stand there and the way over `position`
/// is the first or a shorter one, the neighbour has the new cost and
/// parent and is queued at the new cost plus the rounded distance to the
/// goal (plus one for a step that changes both coordinates).
pub open spec fn visited(
    search: Search,
    grid: Map<Position, Tile>,
    mover: Tile,
    width: int,
    height: int,
    position: Position,
    adjacent: Position,
    goal: Position,
) -> Search {
    let base = match cost_of(search.costs, position) {
        Some(c) => c as int,
        None => 0,
    };
    let better = match cost_of(search.costs, adjacent) {
        Some(c) => base + 1 < c,
        None => true,
    };
    let diagonal: int = if position.x != adjacent.x && position.y != adjacent.y {
        1
    } else {
        0
    };
    if traversable(grid, adjacent, mover, width, height) && better {
        Search {
            costs: search.costs.update(cell_index(adjacent), Some((base + 1) as u16)),
            parents: search.parents.update(cell_index(adjacent), Some(position)),
            queue: search.queue.push(
                Frontier {
                    priority: (base + 1 + adjacent.rounded_distance(goal) + diagonal) as u16,
                    position: adjacent,
                },
            ),
            done: search.done,
        }
    } else {
        search
    }
}

/// The search after it looked from `position` at the first `n` of its
/// neighbours.
pub open spec fn expanded(
    search: Search,
    grid: Map<Position, Tile>,
    mover: Tile,
    width: int,
    height: int,
    position: Position,
    goal: Position,
    n: int,
) -> Search
    decreases n,
{
    if n <= 0 {
        search
    } else {
        visited(
            expanded(search, grid, mover, width, height, position, goal, n - 1),
            grid,
            mover,
            width,
            height,
            position,
            position.spec_adjacent()[n - 1],
            goal,
        )
    }
}

/// The place in the queue of the entry that leaves it next.
pub open spec fn first_min(queue: Seq<Frontier>) -> int {
    choose|m: int| is_first_min(queue, m)
}

/// The search after one more step: the entry with the least priority
/// leaves the queue; the search ends where that is the goal, or where the
/// queue was empty; else the neighbours of the cell are looked at.
pub open spec fn stepped(
    search: Search,
    grid: Map<Position, Tile>,
    mover: Tile,
    width: int,
    height: int,
    goal: Position,
) -> Search {
    if search.done {
        search
    } else if search.queue.len() == 0 {
        Search { done: true, ..search }
    } else {
        let m = first_min(search.queue);
        let position = search.queue[m].position;
        let rest = Search { queue: search.queue.remove(m), ..search };
        if position == goal {
            Search { done: true, ..rest }
        } else {
            expanded(
                rest,
                grid,
                mover,
                width,
                height,
                position,
                goal,
                position.spec_adjacent().len() as int,
            )
        }
    }
}

/// The search after `steps` more steps.
pub open spec fn searched(
    search: Search,
    grid: Map<Position, Tile>,
    mover: Tile,
    width: int,
    height: int,
    goal: Position,
    steps: nat,
) -> Search
    decreases steps,
{
    if steps == 0 {
        search
    } else {
        searched(
            stepped(search, grid, mover, width, height, goal),
            grid,
            mover,
            width,
            height,
            goal,
            (steps - 1) as nat,
        )
    }
}

/// The way from `start` to `position` that the parents give, `start` left
/// out, as far as it has `steps` cells at most.
pub open spec fn way_back(
    parents: Seq<Option<Position>>,
    start: Position,
    position: Position,
    steps: nat,
) -> Seq<Position>
    decreases steps,
{
    if position == start || steps == 0 {
        Seq::empty()
    } else {
        match parent_of(parents, position) {
            Some(previous) => way_back(parents, start, previous, (steps - 1) as nat).push(position),
            None => Seq::empty(),
        }
    }
}

/// More steps than any search takes.
pub open spec fn search_limit() -> nat {
    600000
}

/// The way that the search finds from `start` to `goal`, or `None` where
/// it ends without a cost for the goal.
pub open spec fn way_found(
    grid: Map<Position, Tile>,
    start: Position,
    goal: Position,
    mover: Tile,
    width: int,
    height: int,
) -> Option<Seq<Position>> {
    let end = searched(search_start(start), grid, mover, width, height, goal, search_limit());
    if cost_of(end.costs, goal) is None {
        None
    } else {
        Some(way_back(end.parents, start, goal, 512))
    }
}

/// The state of a search that goes on.
pub open spec fn state_of(
    costs: Seq<Option<u16>>,
    parents: Seq<Option<Position>>,
    queue: Seq<Frontier>,
) -> Search {
    Search { costs, parents, queue, done: false }
}

/// A search that has ended stays as it is.
proof fn lemma_searched_done(
    search: Search,
    grid: Map<Position, Tile>,
    mover: Tile,
    width: int,
    height: int,
    goal: Position,
    steps: nat,
)
    requires
        search.done,
    ensures
        searched(search, grid, mover, width, height, goal, steps) == search,
    decreases steps,
{
    if steps > 0 {
        lemma_searched_done(search, grid, mover, width, height, goal, (steps - 1) as nat);
    }
}

/// One step back along the parents puts the cell in front of the way.
proof fn lemma_way_back_step(
    parents: Seq<Option<Position>>,
    start: Position,
    position: Position,
    previous: Position,
    left: nat,
    tail: Seq<Position>,
)
    requires
        position != start,
        left > 0,
        parent_of(parents, position) == Some(previous),
    ensures
        way_back(parents, start, position, left) + tail == way_back(
            parents,
            start,
            previous,
            (left - 1) as nat,
        ) + tail.insert(0, position),
{
    let back = way_back(parents, start, previous, (left - 1) as nat);
    assert(way_back(parents, start, position, left) == back.push(position));
    assert(back.push(position) + tail =~= back + tail.insert(0, position));
}

/// Only one entry of a queue can be the next to leave.
proof fn lemma_first_min(queue: Seq<Frontier>, m: int)
    requires
        is_first_min(queue, m),
    ensures
        first_min(queue) == m,
{
    let other = first_min(queue);
    assert(is_first_min(queue, other));
    if other < m {
        assert(queue[m].priority < queue[other].priority);
    } else if m < other {
        assert(queue[other].priority < queue[m].priority);
    }
}

/// What a cell adds to a tally: 1 for each cell with a cost when counting,
/// else the cost itself, and 512 for a cell without one.
spec fn term(c: Option<u16>, counting: bool) -> int {
    match c {
        Some(v) => if counting {
            1
        } else {
            v as int
        },
        None => if counting {
            0
        } else {
            512
        },
    }
}

spec fn tally(costs: Seq<Option<u16>>, counting: bool) -> int
    decreases costs.len(),
{
    if costs.len() == 0 {
        0
    } else {
        tally(costs.drop_last(), counting) + term(costs.last(), counting)
    }
}

proof fn lemma_tally_update(costs: Seq<Option<u16>>, i: int, c: Option<u16>, counting: bool)
    requires
        0 <= i < costs.len(),
    ensures
        tally(costs.update(i, c), counting) == tally(costs, counting) - term(costs[i], counting)
            + term(c, counting),
    decreases costs.len(),
{
    let updated = costs.update(i, c);
    if i == costs.len() - 1 {
        assert(updated.drop_last() =~= costs.drop_last());
    } else {
        assert(updated.drop_last() =~= costs.drop_last().update(i, c));
        lemma_tally_update(costs.drop_last(), i, c, counting);
    }
}

proof fn lemma_tally_bounds(costs: Seq<Option<u16>>, counting: bool)
    ensures
        0 <= tally(costs, counting),
        counting ==> tally(costs, counting) <= costs.len(),
    decreases costs.len(),
{
    if costs.len() > 0 {
        lemma_tally_bounds(costs.drop_last(), counting);
    }
}

proof fn lemma_tally_blank(costs: Seq<Option<u16>>)
    requires
        forall|k: int| 0 <= k < costs.len() ==> (#[trigger] costs[k]) is None,
    ensures
        tally(costs, false) == 512 * costs.len(),
    decreases costs.len(),
{
    if costs.len() > 0 {
        lemma_tally_blank(costs.drop_last());
    }
}

/// What bounds the work that is left: twice the sum of the costs, a cell
/// without a cost counted as 512, plus the length of the queue.
spec fn work_left(costs: Seq<Option<u16>>, queue: Seq<Frontier>) -> int {
    2 * tally(costs, false) + queue.len()
}

/// Whether the link from `p` back to `q` is one step of a walk and goes
/// down in cost.
spec fn link_ok(
    grid: Map<Position, Tile>,
    mover: Tile,
    width: int,
    height: int,
    costs: Seq<Option<u16>>,
    p: Position,
    q: Position,
) -> bool {
    &&& q.in_bounds()
    &&& q.touches(p)
    &&& traversable(grid, p, mover, width, height)
    &&& cost_of(costs, p) is Some
    &&& cost_of(costs, q) is Some
    &&& cost_of(costs, q).unwrap() < cost_of(costs, p).unwrap()
}

/// The search tree: the start has cost 0 and no parent, each other cell
/// with a cost has a parent of smaller cost one step away, and no cost
/// reaches the number of cells that have one.
spec fn tree_ok(
    grid: Map<Position, Tile>,
    start: Position,
    mover: Tile,
    width: int,
    height: int,
    costs: Seq<Option<u16>>,
    parents: Seq<Option<Position>>,
) -> bool {
    &&& costs.len() == 512
    &&& parents.len() == 512
    &&& start.in_bounds()
    &&& cost_of(costs, start) == Some(0u16)
    &&& parent_of(parents, start) is None
    &&& forall|p: Position|
        p.in_bounds() ==> ((#[trigger] parent_of(parents, p)) matches Some(q) ==> link_ok(
            grid,
            mover,
            width,
            height,
            costs,
            p,
            q,
        ))
    &&& forall|p: Position|
        p.in_bounds() && p != start && (#[trigger] cost_of(costs, p)) is Some ==> parent_of(
            parents,
            p,
        ) is Some
    &&& forall|p: Position|
        p.in_bounds() ==> ((#[trigger] cost_of(costs, p)) matches Some(c) ==> c < tally(
            costs,
            true,
        ))
}

/// Each queued cell has a cost, and an entry for the goal was queued at
/// a priority that is no less than the cost of the goal.
spec fn queue_ok(costs: Seq<Option<u16>>, queue: Seq<Frontier>, goal: Position) -> bool {
    forall|k: int|
        0 <= k < queue.len() ==> {
            &&& (#[trigger] queue[k]).position.in_bounds()
            &&& cost_of(costs, queue[k].position) is Some
            &&& queue[k].position == goal ==> cost_of(costs, goal).unwrap() <= queue[k].priority
        }
}

/// Whether the queue holds an entry for `p` whose priority is at most the
/// cost of `p` plus the steps from `p` to the goal.
spec fn pending(costs: Seq<Option<u16>>, queue: Seq<Frontier>, p: Position, goal: Position) -> bool {
    exists|k: int|
        0 <= k < queue.len() && (#[trigger] queue[k]).position == p && cost_of(costs, p) is Some
            && queue[k].priority <= cost_of(costs, p).unwrap() + p.steps_to(goal)
}

/// Whether each cell one step from `p` on which the mover can stand has a
/// cost, at most one more than the cost of `p`.
spec fn closed(
    grid: Map<Position, Tile>,
    mover: Tile,
    width: int,
    height: int,
    costs: Seq<Option<u16>>,
    p: Position,
) -> bool {
    forall|q: Position|
        q.in_bounds() && #[trigger] p.touches(q) && traversable(grid, q, mover, width, height)
            ==> cost_of(costs, q) is Some && cost_of(costs, p) is Some && cost_of(
            costs,
            q,
        ).unwrap() <= cost_of(costs, p).unwrap() + 1
}

spec fn settled(
    grid: Map<Position, Tile>,
    mover: Tile,
    width: int,
    height: int,
    costs: Seq<Option<u16>>,
    queue: Seq<Frontier>,
    p: Position,
    goal: Position,
) -> bool {
    pending(costs, queue, p, goal) || closed(grid, mover, width, height, costs, p)
}

/// Each cell with a cost, but for `except`, is still queued or has all its
/// neighbours seen.
spec fn closure_ok(
    grid: Map<Position, Tile>,
    mover: Tile,
    width: int,
    height: int,
    costs: Seq<Option<u16>>,
    queue: Seq<Frontier>,
    except: Option<Position>,
    goal: Position,
) -> bool {
    forall|p: Position|
        p.in_bounds() && (#[trigger] cost_of(costs, p)) is Some && Some(p) != except ==> settled(
            grid,
            mover,
            width,
            height,
            costs,
            queue,
            p,
            goal,
        )
}

/// Whether every cell that had a cost still has one, and no larger one.
spec fn costs_kept(before: Seq<Option<u16>>, after: Seq<Option<u16>>) -> bool {
    forall|p: Position|
        p.in_bounds() && (#[trigger] cost_of(before, p)) is Some ==> cost_of(after, p) is Some
            && cost_of(after, p).unwrap() <= cost_of(before, p).unwrap()
}

/// One step changes the number of steps to the goal by one at most.
proof fn lemma_step_changes_steps(p: Position, q: Position, goal: Position)
    requires
        p.touches(q),
    ensures
        p.steps_to(goal) <= q.steps_to(goal) + 1,
{
}

/// The rounded straight-line distance is at most the number of steps.
proof fn lemma_distance_below_steps(p: Position, goal: Position, d: int)
    requires
        is_floor_sqrt(d, p.squared_distance(goal)),
    ensures
        d <= p.steps_to(goal),
{
    let dx = if p.x <= goal.x { goal.x - p.x } else { p.x - goal.x };
    let dy = if p.y <= goal.y { goal.y - p.y } else { p.y - goal.y };
    assert(p.squared_distance(goal) == dx * dx + dy * dy) by (nonlinear_arith)
        requires
            dx == (if p.x <= goal.x { goal.x - p.x } else { p.x - goal.x }),
            dy == (if p.y <= goal.y { goal.y - p.y } else { p.y - goal.y }),
            p.squared_distance(goal) == (p.x - goal.x) * (p.x - goal.x) + (p.y - goal.y) * (p.y
                - goal.y),
    ;
    assert(d <= dx + dy) by (nonlinear_arith)
        requires
            0 <= d,
            0 <= dx,
            0 <= dy,
            d * d <= dx * dx + dy * dy,
    ;
}

/// From cell `k` of a walk, the goal is at most as many steps away as the
/// walk still has cells.
proof fn lemma_walk_remaining(
    grid: Map<Position, Tile>,
    start: Position,
    goal: Position,
    mover: Tile,
    width: int,
    height: int,
    path: Seq<Position>,
    k: int,
)
    requires
        is_walk(grid, start, goal, mover, width, height, path),
        -1 <= k < path.len(),
    ensures
        (if k == -1 {
            start
        } else {
            path[k]
        }).steps_to(goal) <= path.len() - 1 - k,
    decreases path.len() - k,
{
    if k < path.len() - 1 {
        lemma_walk_remaining(grid, start, goal, mover, width, height, path, k + 1);
        let here = if k == -1 {
            start
        } else {
            path[k]
        };
        assert(here.touches(path[k + 1]));
        lemma_step_changes_steps(here, path[k + 1], goal);
    }
}

/// Where every cell with a cost has all its neighbours seen, each cell of
/// a walk from the start has a cost.
proof fn lemma_walk_stays_seen(
    grid: Map<Position, Tile>,
    start: Position,
    goal: Position,
    mover: Tile,
    width: int,
    height: int,
    costs: Seq<Option<u16>>,
    path: Seq<Position>,
    k: int,
)
    requires
        start.in_bounds(),
        cost_of(costs, start) is Some,
        forall|p: Position|
            p.in_bounds() && (#[trigger] cost_of(costs, p)) is Some ==> closed(
                grid,
                mover,
                width,
                height,
                costs,
                p,
            ),
        is_walk(grid, start, goal, mover, width, height, path),
        0 <= k < path.len(),
    ensures
        cost_of(costs, path[k]) is Some,
    decreases k,
{
    let prev = if k == 0 {
        start
    } else {
        path[k - 1]
    };
    if k > 0 {
        lemma_walk_stays_seen(grid, start, goal, mover, width, height, costs, path, k - 1);
        assert(path[k - 1].in_bounds());
    }
    assert(prev.in_bounds() && cost_of(costs, prev) is Some);
    assert(closed(grid, mover, width, height, costs, prev));
    assert(path[k].in_bounds());
    assert(prev.touches(path[k]));
}

/// Along a walk from the start, up to cell `k`: either cell `k` has a
/// cost of at most `k + 1`, the number of steps to it, or an earlier cell
/// of the walk is queued at a priority of at most the length of the walk,
/// or the walk passes the cell `except`.
proof fn lemma_walk_bound(
    grid: Map<Position, Tile>,
    start: Position,
    goal: Position,
    mover: Tile,
    width: int,
    height: int,
    costs: Seq<Option<u16>>,
    queue: Seq<Frontier>,
    except: Option<Position>,
    path: Seq<Position>,
    k: int,
)
    requires
        start.in_bounds(),
        cost_of(costs, start) == Some(0u16),
        closure_ok(grid, mover, width, height, costs, queue, except, goal),
        is_walk(grid, start, goal, mover, width, height, path),
        -1 <= k < path.len(),
        except is Some ==> except == Some(goal) && cost_of(costs, goal) is Some,
    ensures
        ({
            let here = if k == -1 {
                start
            } else {
                path[k]
            };
            ||| cost_of(costs, here) is Some && cost_of(costs, here).unwrap() <= k + 1
            ||| exists|j: int|
                0 <= j < queue.len() && (#[trigger] queue[j]).priority <= path.len()
            ||| except is Some && cost_of(costs, goal).unwrap() <= path.len()
        }),
    decreases k + 1,
{
    if k >= 0 {
        lemma_walk_bound(grid, start, goal, mover, width, height, costs, queue, except, path, k - 1);
        let prev = if k == 0 {
            start
        } else {
            path[k - 1]
        };
        if k > 0 {
            assert(path[k - 1].in_bounds());
        }
        if cost_of(costs, prev) is Some && cost_of(costs, prev).unwrap() <= k {
            if Some(prev) == except {
                assert(cost_of(costs, goal).unwrap() <= path.len());
            } else {
                assert(settled(grid, mover, width, height, costs, queue, prev, goal));
                if pending(costs, queue, prev, goal) {
                    let j = choose|j: int|
                        0 <= j < queue.len() && (#[trigger] queue[j]).position == prev && cost_of(
                            costs,
                            prev,
                        ) is Some && queue[j].priority <= cost_of(costs, prev).unwrap()
                            + prev.steps_to(goal);
                    lemma_walk_remaining(grid, start, goal, mover, width, height, path, k - 1);
                    assert(queue[j].priority <= path.len());
                } else {
                    assert(closed(grid, mover, width, height, costs, prev));
                    assert(path[k].in_bounds());
                    assert(prev.touches(path[k]));
                }
            }
        }
    }
}

/// Writing one cell of the table changes the cost of that cell alone.
proof fn lemma_cost_update(costs: Seq<Option<u16>>, a: Position, c: Option<u16>)
    requires
        costs.len() == 512,
        a.in_bounds(),
    ensures
        forall|p: Position|
            p.in_bounds() ==> #[trigger] cost_of(costs.update(cell_index(a), c), p) == if p == a {
                c
            } else {
                cost_of(costs, p)
            },
{
}

/// Writing one cell of the table changes the parent of that cell alone.
proof fn lemma_parent_update(parents: Seq<Option<Position>>, a: Position, q: Option<Position>)
    requires
        parents.len() == 512,
        a.in_bounds(),
    ensures
        forall|p: Position|
            p.in_bounds() ==> #[trigger] parent_of(parents.update(cell_index(a), q), p) == if p
                == a {
                q
            } else {
                parent_of(parents, p)
            },
{
}

/// Giving `adjacent` a first or a smaller cost over `position` keeps the
/// search tree in order and lowers the sum of the costs.
proof fn lemma_relax_tree(
    grid: Map<Position, Tile>,
    start: Position,
    mover: Tile,
    width: int,
    height: int,
    costs: Seq<Option<u16>>,
    parents: Seq<Option<Position>>,
    position: Position,
    adjacent: Position,
    new_cost: u16,
)
    requires
        tree_ok(grid, start, mover, width, height, costs, parents),
        position.in_bounds(),
        adjacent.in_bounds(),
        position.touches(adjacent),
        traversable(grid, adjacent, mover, width, height),
        cost_of(costs, position) is Some,
        new_cost == cost_of(costs, position).unwrap() + 1,
        cost_of(costs, adjacent) matches Some(c) ==> new_cost < c,
    ensures
        tree_ok(
            grid,
            start,
            mover,
            width,
            height,
            costs.update(cell_index(adjacent), Some(new_cost)),
            parents.update(cell_index(adjacent), Some(position)),
        ),
        costs_kept(costs, costs.update(cell_index(adjacent), Some(new_cost))),
        tally(costs.update(cell_index(adjacent), Some(new_cost)), false) < tally(costs, false),
{
    let costs1 = costs.update(cell_index(adjacent), Some(new_cost));
    let parents1 = parents.update(cell_index(adjacent), Some(position));
    lemma_tally_update(costs, cell_index(adjacent), Some(new_cost), true);
    lemma_tally_update(costs, cell_index(adjacent), Some(new_cost), false);
    lemma_tally_bounds(costs1, true);
    lemma_cost_update(costs, adjacent, Some(new_cost));
    lemma_parent_update(parents, adjacent, Some(position));
    assert(adjacent != start);
    assert(tally(costs1, true) >= tally(costs, true));
    assert(new_cost < tally(costs1, true));
    assert forall|p: Position| p.in_bounds() implies ((#[trigger] parent_of(parents1, p)) matches Some(
        q,
    ) ==> link_ok(grid, mover, width, height, costs1, p, q)) by {
        if p == adjacent {
            assert(cost_of(costs1, position) == cost_of(costs, position));
            assert(link_ok(grid, mover, width, height, costs1, p, position));
        } else {
            if let Some(q) = parent_of(parents, p) {
                assert(link_ok(grid, mover, width, height, costs, p, q));
                assert(cost_of(costs1, p) == cost_of(costs, p));
                if q == adjacent {
                    assert(cost_of(costs1, q) == Some(new_cost));
                } else {
                    assert(cost_of(costs1, q) == cost_of(costs, q));
                }
            }
        }
    }
    assert forall|p: Position|
        p.in_bounds() && p != start && (#[trigger] cost_of(costs1, p)) is Some implies parent_of(
        parents1,
        p,
    ) is Some by {
        if p != adjacent {
            assert(cost_of(costs, p) is Some);
        }
    }
    assert forall|p: Position| p.in_bounds() implies ((#[trigger] cost_of(costs1, p)) matches Some(
        c,
    ) ==> c < tally(costs1, true)) by {
        if p != adjacent {
            assert(cost_of(costs1, p) == cost_of(costs, p));
        }
    }
    assert forall|p: Position| p.in_bounds() && (#[trigger] cost_of(costs, p)) is Some implies cost_of(
        costs1,
        p,
    ) is Some && cost_of(costs1, p).unwrap() <= cost_of(costs, p).unwrap() by {}
}

/// Giving `adjacent` a smaller cost and queueing it keeps the queue in
/// order and every other cell settled.
proof fn lemma_relax_closure(
    grid: Map<Position, Tile>,
    mover: Tile,
    width: int,
    height: int,
    costs: Seq<Option<u16>>,
    queue: Seq<Frontier>,
    position: Position,
    adjacent: Position,
    goal: Position,
    new_cost: u16,
    priority: u16,
)
    requires
        costs.len() == 512,
        adjacent.in_bounds(),
        position.in_bounds(),
        position != adjacent,
        queue_ok(costs, queue, goal),
        closure_ok(grid, mover, width, height, costs, queue, Some(position), goal),
        cost_of(costs, adjacent) matches Some(c) ==> new_cost < c,
        new_cost <= priority <= new_cost + adjacent.steps_to(goal),
    ensures
        queue_ok(
            costs.update(cell_index(adjacent), Some(new_cost)),
            queue.push(Frontier { priority, position: adjacent }),
            goal,
        ),
        closure_ok(
            grid,
            mover,
            width,
            height,
            costs.update(cell_index(adjacent), Some(new_cost)),
            queue.push(Frontier { priority, position: adjacent }),
            Some(position),
            goal,
        ),
{
    let costs1 = costs.update(cell_index(adjacent), Some(new_cost));
    let queue1 = queue.push(Frontier { priority, position: adjacent });
    lemma_cost_update(costs, adjacent, Some(new_cost));
    assert forall|k: int| 0 <= k < queue1.len() implies {
        &&& (#[trigger] queue1[k]).position.in_bounds()
        &&& cost_of(costs1, queue1[k].position) is Some
        &&& queue1[k].position == goal ==> cost_of(costs1, goal).unwrap() <= queue1[k].priority
    } by {
        if k < queue.len() {
            assert(queue1[k] == queue[k]);
        }
    }
    assert forall|p: Position|
        p.in_bounds() && (#[trigger] cost_of(costs1, p)) is Some && Some(p) != Some(
            position,
        ) implies settled(grid, mover, width, height, costs1, queue1, p, goal) by {
        if p == adjacent {
            assert(queue1[queue.len() as int].position == p);
            assert(pending(costs1, queue1, p, goal));
        } else {
            assert(cost_of(costs, p) is Some);
            assert(settled(grid, mover, width, height, costs, queue, p, goal));
            if pending(costs, queue, p, goal) {
                let k = choose|k: int|
                    0 <= k < queue.len() && (#[trigger] queue[k]).position == p && cost_of(
                        costs,
                        p,
                    ) is Some && queue[k].priority <= cost_of(costs, p).unwrap() + p.steps_to(
                        goal,
                    );
                assert(queue1[k] == queue[k]);
                assert(pending(costs1, queue1, p, goal));
            } else {
                assert(closed(grid, mover, width, height, costs, p));
                assert forall|q: Position|
                    q.in_bounds() && #[trigger] p.touches(q) && traversable(grid, 
                        q,
                        mover,
                        width,
                        height,
                    ) implies cost_of(costs1, q) is Some && cost_of(costs1, p) is Some && cost_of(
                    costs1,
                    q,
                ).unwrap() <= cost_of(costs1, p).unwrap() + 1 by {
                    assert(cost_of(costs, q) is Some);
                }
                assert(closed(grid, mover, width, height, costs1, p));
            }
        }
    }
}

fn index_of(p: Position) -> (i: usize)
    requires
        p.in_bounds(),
    ensures
        i == cell_index(p),
        i < 512,
{
    p.x * LEVEL_HEIGHT + p.y
}

/// Looks at one neighbour of the cell that just left the queue: where the
/// mover can stand on it and the way over `position` is the first or a
/// shorter one, it gets the new cost and parent and is queued.
fn visit(
    costs: &mut Vec<Option<u16>>,
    parents: &mut Vec<Option<Position>>,
    queue: &mut Vec<Frontier>,
    position: Position,
    adjacent: Position,
    goal: Position,
    grid: &Grid,
    mover: Tile,
    width: usize,
    height: usize,
    Ghost(start): Ghost<Position>,
)
    requires
        position.in_bounds(),
        adjacent.in_bounds(),
        goal.in_bounds(),
        position.touches(adjacent),
        cost_of(old(costs)@, position) is Some,
        tree_ok(grid@, start, mover, width as int, height as int, old(costs)@, old(parents)@),
        queue_ok(old(costs)@, old(queue)@, goal),
        closure_ok(
            grid@,
            mover,
            width as int,
            height as int,
            old(costs)@,
            old(queue)@,
            Some(position),
            goal,
        ),
    ensures
        tree_ok(grid@, start, mover, width as int, height as int, final(costs)@, final(parents)@),
        queue_ok(final(costs)@, final(queue)@, goal),
        closure_ok(
            grid@,
            mover,
            width as int,
            height as int,
            final(costs)@,
            final(queue)@,
            Some(position),
            goal,
        ),
        costs_kept(old(costs)@, final(costs)@),
        cost_of(final(costs)@, position) == cost_of(old(costs)@, position),
        work_left(final(costs)@, final(queue)@) <= work_left(old(costs)@, old(queue)@),
        traversable(grid@, adjacent, mover, width as int, height as int) ==> cost_of(
            final(costs)@,
            adjacent,
        ) is Some && cost_of(final(costs)@, adjacent).unwrap() <= cost_of(
            final(costs)@,
            position,
        ).unwrap() + 1,
        state_of(final(costs)@, final(parents)@, final(queue)@) == visited(
            state_of(old(costs)@, old(parents)@, old(queue)@),
            grid@,
            mover,
            width as int,
            height as int,
            position,
            adjacent,
            goal,
        ),
{
    if !grid.is_traversable(adjacent, mover, width, height) {
        return ;
    }
    let here: usize = index_of(position);
    let there: usize = index_of(adjacent);
    let base: u16 = match costs[here] {
        Some(c) => c,
        None => 0,
    };
    proof {
        lemma_tally_bounds(costs@, true);
        assert(cost_of(costs@, position) == Some(base));
    }
    let new_cost: u16 = base + 1;
    let better: bool = match costs[there] {
        Some(c) => new_cost < c,
        None => true,
    };
    proof {
        assert(cost_of(costs@, adjacent) == costs@[there as int]);
    }
    if better {
        let diagonal: u16 = if position.x != adjacent.x && position.y != adjacent.y {
            1
        } else {
            0
        };
        let heuristic: u16 = adjacent.distance(goal);
        proof {
            lemma_distance_below_steps(adjacent, goal, heuristic as int);
        }
        let priority: u16 = new_cost + heuristic + diagonal;
        let ghost costs0 = costs@;
        let ghost parents0 = parents@;
        let ghost queue0 = queue@;
        queue.push(Frontier { priority, position: adjacent });
        parents.set(there, Some(position));
        costs.set(there, Some(new_cost));
        proof {
            lemma_relax_tree(
                grid@,
                start,
                mover,
                width as int,
                height as int,
                costs0,
                parents0,
                position,
                adjacent,
                new_cost,
            );
            lemma_relax_closure(
                grid@,
                mover,
                width as int,
                height as int,
                costs0,
                queue0,
                position,
                adjacent,
                goal,
                new_cost,
                priority,
            );
            lemma_cost_update(costs0, adjacent, Some(new_cost));
            assert(costs@ == costs0.update(cell_index(adjacent), Some(new_cost)));
            assert(parents@ == parents0.update(cell_index(adjacent), Some(position)));
            assert(queue@ == queue0.push(Frontier { priority, position: adjacent }));
        }
    }
}

/// Taking entry `m` out of the queue leaves the queue in order and every
/// cell but the one taken out settled.
proof fn lemma_pop(
    grid: Map<Position, Tile>,
    mover: Tile,
    width: int,
    height: int,
    costs: Seq<Option<u16>>,
    queue: Seq<Frontier>,
    goal: Position,
    m: int,
)
    requires
        0 <= m < queue.len(),
        queue_ok(costs, queue, goal),
        closure_ok(grid, mover, width, height, costs, queue, None, goal),
    ensures
        queue[m].position.in_bounds(),
        cost_of(costs, queue[m].position) is Some,
        queue_ok(costs, queue.remove(m), goal),
        closure_ok(
            grid,
            mover,
            width,
            height,
            costs,
            queue.remove(m),
            Some(queue[m].position),
            goal,
        ),
        queue.remove(m).len() == queue.len() - 1,
        forall|j: int|
            0 <= j < queue.remove(m).len() ==> exists|k: int|
                0 <= k < queue.len() && queue[k] == #[trigger] queue.remove(m)[j],
{
    let rest = queue.remove(m);
    let position = queue[m].position;
    assert forall|k: int| 0 <= k < rest.len() implies {
        &&& (#[trigger] rest[k]).position.in_bounds()
        &&& cost_of(costs, rest[k].position) is Some
        &&& rest[k].position == goal ==> cost_of(costs, goal).unwrap() <= rest[k].priority
        &&& exists|i: int| 0 <= i < queue.len() && queue[i] == rest[k]
    } by {
        if k < m {
            assert(rest[k] == queue[k]);
        } else {
            assert(rest[k] == queue[k + 1]);
        }
    }
    assert forall|p: Position|
        p.in_bounds() && (#[trigger] cost_of(costs, p)) is Some && Some(p) != Some(
            position,
        ) implies settled(grid, mover, width, height, costs, rest, p, goal) by {
        assert(settled(grid, mover, width, height, costs, queue, p, goal));
        if pending(costs, queue, p, goal) {
            let k = choose|k: int|
                0 <= k < queue.len() && (#[trigger] queue[k]).position == p && cost_of(
                    costs,
                    p,
                ) is Some && queue[k].priority <= cost_of(costs, p).unwrap() + p.steps_to(goal);
            if k < m {
                assert(rest[k] == queue[k]);
            } else {
                assert(rest[k - 1] == queue[k]);
            }
            assert(pending(costs, rest, p, goal));
        }
    }
}

/// Looks at each neighbour of the cell that just left the queue.
fn expand(
    costs: &mut Vec<Option<u16>>,
    parents: &mut Vec<Option<Position>>,
    queue: &mut Vec<Frontier>,
    position: Position,
    goal: Position,
    grid: &Grid,
    mover: Tile,
    width: usize,
    height: usize,
    Ghost(start): Ghost<Position>,
)
    requires
        position.in_bounds(),
        goal.in_bounds(),
        cost_of(old(costs)@, position) is Some,
        tree_ok(grid@, start, mover, width as int, height as int, old(costs)@, old(parents)@),
        queue_ok(old(costs)@, old(queue)@, goal),
        closure_ok(
            grid@,
            mover,
            width as int,
            height as int,
            old(costs)@,
            old(queue)@,
            Some(position),
            goal,
        ),
    ensures
        tree_ok(grid@, start, mover, width as int, height as int, final(costs)@, final(parents)@),
        queue_ok(final(costs)@, final(queue)@, goal),
        closure_ok(
            grid@,
            mover,
            width as int,
            height as int,
            final(costs)@,
            final(queue)@,
            None,
            goal,
        ),
        costs_kept(old(costs)@, final(costs)@),
        work_left(final(costs)@, final(queue)@) <= work_left(old(costs)@, old(queue)@),
        state_of(final(costs)@, final(parents)@, final(queue)@) == expanded(
            state_of(old(costs)@, old(parents)@, old(queue)@),
            grid@,
            mover,
            width as int,
            height as int,
            position,
            goal,
            position.spec_adjacent().len() as int,
        ),
{
    let ghost w = width as int;
    let ghost h = height as int;
    let adjacents = position.adjacent();
    let mut a: usize = 0;
    while a < adjacents.len()
        invariant
            a <= adjacents@.len(),
            adjacents@ == position.spec_adjacent(),
            position.in_bounds(),
            goal.in_bounds(),
            cost_of(costs@, position) is Some,
            tree_ok(grid@, start, mover, w, h, costs@, parents@),
            queue_ok(costs@, queue@, goal),
            closure_ok(grid@, mover, w, h, costs@, queue@, Some(position), goal),
            costs_kept(old(costs)@, costs@),
            w == width as int,
            h == height as int,
            work_left(costs@, queue@) <= work_left(old(costs)@, old(queue)@),
            state_of(costs@, parents@, queue@) == expanded(
                state_of(old(costs)@, old(parents)@, old(queue)@),
                grid@,
                mover,
                w,
                h,
                position,
                goal,
                a as int,
            ),
            forall|b: int|
                0 <= b < a && traversable(grid@, #[trigger] adjacents@[b], mover, w, h) ==> cost_of(
                    costs@,
                    adjacents@[b],
                ) is Some && cost_of(costs@, adjacents@[b]).unwrap() <= cost_of(
                    costs@,
                    position,
                ).unwrap() + 1,
        decreases adjacents@.len() - a,
    {
        let adjacent = adjacents[a];
        proof {
            assert(position.spec_adjacent().contains(adjacents@[a as int]));
            lemma_adjacent_touches(position, adjacent);
        }
        let ghost costs1 = costs@;
        visit(costs, parents, queue, position, adjacent, goal, grid, mover, width, height, Ghost(start));
        proof {
            assert(costs_kept(costs1, costs@));
            assert forall|b: int|
                0 <= b < a + 1 && traversable(grid@, 
                    #[trigger] adjacents@[b],
                    mover,
                    w,
                    h,
                ) implies cost_of(costs@, adjacents@[b]) is Some && cost_of(
                costs@,
                adjacents@[b],
            ).unwrap() <= cost_of(costs@, position).unwrap() + 1 by {
                if b < a {
                    assert(position.spec_adjacent().contains(adjacents@[b]));
                    lemma_adjacent_touches(position, adjacents@[b]);
                    assert(cost_of(costs1, adjacents@[b]) is Some);
                }
            }
            assert forall|p: Position|
                p.in_bounds() && (#[trigger] cost_of(old(costs)@, p)) is Some implies cost_of(
                costs@,
                p,
            ) is Some && cost_of(costs@, p).unwrap() <= cost_of(old(costs)@, p).unwrap() by {
                assert(cost_of(costs1, p) is Some);
            }
        }
        a += 1;
    }
    proof {
        assert forall|q: Position|
            q.in_bounds() && #[trigger] position.touches(q) && traversable(grid@, 
                q,
                mover,
                w,
                h,
            ) implies cost_of(costs@, q) is Some && cost_of(costs@, position) is Some && cost_of(
            costs@,
            q,
        ).unwrap() <= cost_of(costs@, position).unwrap() + 1 by {
            lemma_adjacent_touches(position, q);
            let b = choose|b: int| 0 <= b < adjacents@.len() && adjacents@[b] == q;
            assert(traversable(grid@, adjacents@[b], mover, w, h));
        }
        assert(closed(grid@, mover, w, h, costs@, position));
        assert(settled(grid@, mover, w, h, costs@, queue@, position, goal));
    }
}

/// When the goal leaves the queue, or the queue is empty, the cost of the
/// goal is at most the length of any walk to it.
proof fn lemma_goal_cost_least(
    grid: Map<Position, Tile>,
    start: Position,
    goal: Position,
    mover: Tile,
    width: int,
    height: int,
    costs: Seq<Option<u16>>,
    queue: Seq<Frontier>,
    popped: Option<Frontier>,
    path: Seq<Position>,
)
    requires
        start.in_bounds(),
        goal.in_bounds(),
        cost_of(costs, start) == Some(0u16),
        cost_of(costs, goal) is Some,
        match popped {
            Some(entry) => {
                &&& entry.position == goal
                &&& cost_of(costs, goal).unwrap() <= entry.priority
                &&& forall|j: int|
                    0 <= j < queue.len() ==> entry.priority <= (#[trigger] queue[j]).priority
                &&& closure_ok(grid, mover, width, height, costs, queue, Some(goal), goal)
            },
            None => queue.len() == 0 && closure_ok(
                grid,
                mover,
                width,
                height,
                costs,
                queue,
                None,
                goal,
            ),
        },
        is_walk(grid, start, goal, mover, width, height, path),
    ensures
        cost_of(costs, goal).unwrap() <= path.len(),
{
    let except = if popped is Some {
        Some(goal)
    } else {
        None
    };
    lemma_walk_bound(
        grid,
        start,
        goal,
        mover,
        width,
        height,
        costs,
        queue,
        except,
        path,
        path.len() - 1,
    );
}

/// Finds a shortest way from `start` to `goal` for a mover of the given
/// dimensions (width, height) that is tagged `start_tile` on the grid.
///
/// Returns the cells to step on, `start` left out and `goal` last, or
/// `None` where no way exists.
pub fn pathfind(
    start: Position,
    goal: Position,
    grid: &Grid,
    start_tile: Tile,
    dimensions: (usize, usize),
) -> (path: Option<Vec<Position>>)
    requires
        start.in_bounds(),
        goal.in_bounds(),
    ensures
        match path {
            Some(path) => {
                &&& is_walk(
                    grid@,
                    start,
                    goal,
                    start_tile,
                    dimensions.0 as int,
                    dimensions.1 as int,
                    path@,
                )
                &&& is_least_length(
                    grid@,
                    start,
                    goal,
                    start_tile,
                    dimensions.0 as int,
                    dimensions.1 as int,
                    path@.len() as int,
                )
                &&& path@.len() == 0 <==> start == goal
            },
            None => forall|any: Seq<Position>|
                !#[trigger] is_walk(
                    grid@,
                    start,
                    goal,
                    start_tile,
                    dimensions.0 as int,
                    dimensions.1 as int,
                    any,
                ),
        },
        way_found(grid@, start, goal, start_tile, dimensions.0 as int, dimensions.1 as int) == match path {
            Some(path) => Some(path@),
            None => None,
        },
{
    let (width, height) = dimensions;
    let ghost w = width as int;
    let ghost h = height as int;
    let mut queue: Vec<Frontier> = Vec::new();
    let mut parents: Vec<Option<Position>> = Vec::new();
    let mut costs: Vec<Option<u16>> = Vec::new();
    let mut n: usize = 0;
    while n < 512
        invariant
            n <= 512,
            costs@.len() == n,
            parents@.len() == n,
            forall|k: int| 0 <= k < n ==> (#[trigger] costs@[k]) is None,
            forall|k: int| 0 <= k < n ==> (#[trigger] parents@[k]) is None,
        decreases 512 - n,
    {
        costs.push(None);
        parents.push(None);
        n += 1;
    }
    queue.push(Frontier { priority: 0, position: start });
    let first: usize = index_of(start);
    let ghost blank = costs@;
    costs.set(first, Some(0));
    proof {
        lemma_tally_update(blank, first as int, Some(0u16), true);
        lemma_tally_bounds(blank, true);
        assert(forall|p: Position|
            p.in_bounds() ==> #[trigger] cost_of(costs@, p) == if p == start {
                Some(0u16)
            } else {
                None
            });
        assert(forall|p: Position| p.in_bounds() ==> (#[trigger] parent_of(parents@, p)) is None);
        assert(queue@[0].position == start);
        assert(pending(costs@, queue@, start, goal));
        assert(closure_ok(grid@, start_tile, w, h, costs@, queue@, None, goal));
        lemma_tally_blank(blank);
        lemma_tally_update(blank, first as int, Some(0u16), false);
        assert(costs@ =~= search_start(start).costs);
        assert(parents@ =~= search_start(start).parents);
        assert(queue@ =~= search_start(start).queue);
    }
    let ghost outset = search_start(start);
    let ghost mut remaining: nat = search_limit();
    let mut done: bool = false;
    let ghost mut found: bool = false;
    while !done
        invariant
            outset == search_start(start),
            searched(outset, grid@, start_tile, w, h, goal, search_limit()) == searched(
                Search { costs: costs@, parents: parents@, queue: queue@, done },
                grid@,
                start_tile,
                w,
                h,
                goal,
                remaining,
            ),
            remaining >= work_left(costs@, queue@) + if done {
                0int
            } else {
                1int
            },
            start.in_bounds(),
            goal.in_bounds(),
            w == width as int,
            h == height as int,
            tree_ok(grid@, start, start_tile, w, h, costs@, parents@),
            queue_ok(costs@, queue@, goal),
            closure_ok(
                grid@,
                start_tile,
                w,
                h,
                costs@,
                queue@,
                if found {
                    Some(goal)
                } else {
                    None
                },
                goal,
            ),
            found ==> done && cost_of(costs@, goal) is Some,
            done && !found ==> queue@.len() == 0,
            done && cost_of(costs@, goal) is Some ==> is_least_length(
                grid@,
                start,
                goal,
                start_tile,
                w,
                h,
                cost_of(costs@, goal).unwrap() as int,
            ),
        decreases
            work_left(costs@, queue@) + if done {
                0int
            } else {
                1int
            },
    {
        proof {
            lemma_tally_bounds(costs@, false);
        }
        let ghost queue0 = queue@;
        let ghost before = work_left(costs@, queue@);
        let ghost state0 = state_of(costs@, parents@, queue@);
        proof {
            assert(searched(state0, grid@, start_tile, w, h, goal, remaining) == searched(
                stepped(state0, grid@, start_tile, w, h, goal),
                grid@,
                start_tile,
                w,
                h,
                goal,
                (remaining - 1) as nat,
            ));
            remaining = (remaining - 1) as nat;
        }
        match pop_first_min(&mut queue) {
            None => {
                done = true;
                assert(work_left(costs@, queue@) == before);
                proof {
                    if cost_of(costs@, goal) is Some {
                        assert forall|any: Seq<Position>| #[trigger]
                            is_walk(grid@, start, goal, start_tile, w, h, any) implies cost_of(
                            costs@,
                            goal,
                        ).unwrap() <= any.len() by {
                            lemma_goal_cost_least(
                                grid@,
                                start,
                                goal,
                                start_tile,
                                w,
                                h,
                                costs@,
                                queue@,
                                None,
                                any,
                            );
                        }
                    }
                }
            },
            Some(entry) => {
                let position = entry.position;
                proof {
                    let m = choose|m: int|
                        {
                            &&& is_first_min(queue0, m)
                            &&& Some(entry) == Some(#[trigger] queue0[m])
                            &&& queue@ == queue0.remove(m)
                        };
                    lemma_pop(grid@, start_tile, w, h, costs@, queue0, goal, m);
                    lemma_first_min(queue0, m);
                    assert forall|j: int| 0 <= j < queue@.len() implies entry.priority <= (
                    #[trigger] queue@[j]).priority by {
                        let k = choose|k: int| 0 <= k < queue0.len() && queue0[k] == queue@[j];
                        assert(queue0[m].priority <= queue0[k].priority);
                    }
                }
                assert(work_left(costs@, queue@) == before - 1);
                if position == goal {
                    done = true;
                    proof {
                        found = true;
                        assert forall|any: Seq<Position>| #[trigger]
                            is_walk(grid@, start, goal, start_tile, w, h, any) implies cost_of(
                            costs@,
                            goal,
                        ).unwrap() <= any.len() by {
                            lemma_goal_cost_least(
                                grid@,
                                start,
                                goal,
                                start_tile,
                                w,
                                h,
                                costs@,
                                queue@,
                                Some(entry),
                                any,
                            );
                        }
                    }
                } else {
                    expand(
                        &mut costs,
                        &mut parents,
                        &mut queue,
                        position,
                        goal,
                        grid,
                        start_tile,
                        width,
                        height,
                        Ghost(start),
                    );
                    assert(work_left(costs@, queue@) <= before - 1);
                }
            },
        }
        proof {
            lemma_tally_bounds(costs@, false);
        }
    }
    proof {
        lemma_searched_done(
            Search { costs: costs@, parents: parents@, queue: queue@, done },
            grid@,
            start_tile,
            w,
            h,
            goal,
            remaining,
        );
        lemma_tally_bounds(costs@, true);
    }
    let goal_index: usize = index_of(goal);
    if costs[goal_index].is_none() {
        proof {
            assert(cost_of(costs@, goal) is None);
            assert forall|p: Position|
                p.in_bounds() && (#[trigger] cost_of(costs@, p)) is Some implies closed(
                grid@,
                start_tile,
                w,
                h,
                costs@,
                p,
            ) by {
                assert(settled(grid@, start_tile, w, h, costs@, queue@, p, goal));
            }
            assert forall|any: Seq<Position>|
                !#[trigger] is_walk(grid@, start, goal, start_tile, w, h, any) by {
                if is_walk(grid@, start, goal, start_tile, w, h, any) {
                    if any.len() > 0 {
                        lemma_walk_stays_seen(
                            grid@,
                            start,
                            goal,
                            start_tile,
                            w,
                            h,
                            costs@,
                            any,
                            any.len() - 1,
                        );
                    }
                }
            }
        }
        return None;
    }
    let mut position = goal;
    let mut path: Vec<Position> = Vec::new();
    while position != start
        invariant
            position.in_bounds(),
            cost_of(costs@, position) is Some,
            tree_ok(grid@, start, start_tile, w, h, costs@, parents@),
            is_walk(grid@, position, goal, start_tile, w, h, path@),
            goal.in_bounds(),
            cost_of(costs@, goal) is Some,
            path@.len() == 0 ==> position == goal,
            path@.len() > 0 ==> cost_of(costs@, position).unwrap() < cost_of(
                costs@,
                goal,
            ).unwrap(),
            path@.len() + cost_of(costs@, position).unwrap() <= cost_of(costs@, goal).unwrap(),
            cost_of(costs@, goal).unwrap() < 512,
            way_back(parents@, start, goal, 512) == way_back(
                parents@,
                start,
                position,
                (512 - path@.len()) as nat,
            ) + path@,
        decreases cost_of(costs@, position).unwrap(),
    {
        let here: usize = index_of(position);
        match parents[here] {
            Some(previous) => {
                proof {
                    assert(parent_of(parents@, position) == Some(previous));
                    assert(link_ok(grid@, start_tile, w, h, costs@, position, previous));
                }
                let ghost tail = path@;
                path.insert(0, position);
                proof {
                    lemma_way_back_step(
                        parents@,
                        start,
                        position,
                        previous,
                        (512 - tail.len()) as nat,
                        tail,
                    );
                    assert forall|k: int| 0 <= k < path@.len() implies (#[trigger] path@[k]).in_bounds()
                        && traversable(grid@, path@[k], start_tile, w, h) by {
                        if k > 0 {
                            assert(path@[k] == tail[k - 1]);
                        }
                    }
                    assert forall|j: int, k: int|
                        0 <= j < k < path@.len() && k == j + 1 implies (#[trigger] path@[j]).touches(
                        #[trigger] path@[k],
                    ) by {
                        assert(path@[k] == tail[k - 1]);
                        if j > 0 {
                            assert(path@[j] == tail[j - 1]);
                        }
                    }
                    if tail.len() > 0 {
                        assert(path@.last() == tail.last());
                    }
                }
                position = previous;
            },
            None => {
                proof {
                    assert(parent_of(parents@, position) is None);
                    assert(false);
                }
                return None;
            },
        }
    }
    Some(path)
}

} // verus!
