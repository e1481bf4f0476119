use tactics::grid::{AllyId, Grid, Tile};
use tactics::pathfind::{pathfind, pop_first_min, Frontier};
use tactics::position::Position;

fn at(x: usize, y: usize) -> Position {
    Position { x, y }
}

fn touches(a: Position, b: Position) -> bool {
    (a.x == b.x && (a.y + 1 == b.y || b.y + 1 == a.y))
        || (a.y == b.y && (a.x + 1 == b.x || b.x + 1 == a.x))
}

fn check_walk(grid: &Grid, start: Position, goal: Position, mover: Tile, path: &[Position]) {
    let mut previous = start;
    for step in path {
        assert!(touches(previous, *step), "{:?} does not touch {:?}", previous, step);
        let tile = grid.at(*step);
        assert!(tile == Tile::Empty || tile == mover, "{:?} is blocked", step);
        previous = *step;
    }
    assert_eq!(previous, goal);
}

#[test]
fn queue_hands_out_least_priority_first_and_earliest_among_equals() {
    let mut queue = vec![
        Frontier { priority: 5, position: at(0, 0) },
        Frontier { priority: 3, position: at(1, 0) },
        Frontier { priority: 3, position: at(2, 0) },
        Frontier { priority: 4, position: at(3, 0) },
    ];
    assert_eq!(pop_first_min(&mut queue), Some(Frontier { priority: 3, position: at(1, 0) }));
    assert_eq!(pop_first_min(&mut queue), Some(Frontier { priority: 3, position: at(2, 0) }));
    assert_eq!(pop_first_min(&mut queue), Some(Frontier { priority: 4, position: at(3, 0) }));
    assert_eq!(pop_first_min(&mut queue), Some(Frontier { priority: 5, position: at(0, 0) }));
    assert_eq!(pop_first_min(&mut queue), None);
    assert!(queue.is_empty());
}

#[test]
fn straight_path_on_an_empty_grid() {
    let grid = Grid::new();
    let path = pathfind(at(0, 0), at(3, 0), &grid, Tile::Ally(AllyId::AshMagnum), (1, 1));
    assert_eq!(path, Some(vec![at(1, 0), at(2, 0), at(3, 0)]));
}

#[test]
fn path_to_the_own_cell_is_empty() {
    let mut grid = Grid::new();
    grid.set(at(4, 4), Tile::Enemy(0));
    assert_eq!(pathfind(at(4, 4), at(4, 4), &grid, Tile::Enemy(0), (1, 1)), Some(vec![]));
}

#[test]
fn path_has_as_many_steps_as_the_cells_are_apart() {
    let grid = Grid::new();
    let start = at(2, 3);
    let goal = at(9, 20);
    let mover = Tile::Enemy(3);
    let path = pathfind(start, goal, &grid, mover, (1, 1)).unwrap();
    assert_eq!(path.len(), 7 + 17);
    check_walk(&grid, start, goal, mover, &path);
}

#[test]
fn blocked_goal_has_no_path() {
    let mut grid = Grid::new();
    grid.set(at(3, 0), Tile::Obstacle(0));
    assert_eq!(pathfind(at(0, 0), at(3, 0), &grid, Tile::Enemy(0), (1, 1)), None);
    grid.set(at(3, 0), Tile::Item(0));
    assert_eq!(pathfind(at(0, 0), at(3, 0), &grid, Tile::Enemy(0), (1, 1)), None);
    grid.set(at(3, 0), Tile::Ally(AllyId::Alukrod));
    assert_eq!(pathfind(at(0, 0), at(3, 0), &grid, Tile::Enemy(0), (1, 1)), None);
}

#[test]
fn path_goes_around_a_wall_through_its_gap() {
    let mut grid = Grid::new();
    for y in 0..32 {
        if y != 10 {
            grid.set(at(5, y), Tile::Obstacle(0));
        }
    }
    let start = at(3, 2);
    let goal = at(7, 2);
    let mover = Tile::Ally(AllyId::AshMagnum);
    let path = pathfind(start, goal, &grid, mover, (1, 1)).unwrap();
    check_walk(&grid, start, goal, mover, &path);
    assert!(path.contains(&at(5, 10)));
    assert_eq!(path.len(), 8 + 4 + 8);
}

#[test]
fn walled_in_goal_has_no_path() {
    let mut grid = Grid::new();
    for (x, y) in [(9, 10), (11, 10), (10, 9), (10, 11)] {
        grid.set(at(x, y), Tile::Obstacle(0));
    }
    assert_eq!(pathfind(at(0, 0), at(10, 10), &grid, Tile::Enemy(0), (1, 1)), None);
    assert_eq!(pathfind(at(10, 10), at(0, 0), &grid, Tile::Enemy(0), (1, 1)), None);
}

#[test]
fn every_step_is_adjacent_and_unblocked() {
    let mut grid = Grid::new();
    for (x, y) in [(1, 0), (1, 1), (1, 2), (3, 1), (3, 2), (3, 3), (3, 4), (2, 4), (1, 4), (5, 0),
        (5, 1), (5, 2), (5, 3)]
    {
        grid.set(at(x, y), Tile::Obstacle(0));
    }
    let start = at(0, 0);
    let mover = Tile::Enemy(1);
    grid.set(start, mover);
    for goal in [at(2, 0), at(2, 3), at(4, 0), at(6, 0), at(15, 31), at(0, 5)] {
        let path = pathfind(start, goal, &grid, mover, (1, 1)).unwrap();
        check_walk(&grid, start, goal, mover, &path);
    }
    let to_pocket = pathfind(start, at(2, 0), &grid, mover, (1, 1)).unwrap();
    assert_eq!(to_pocket.len(), 8);
    let beyond = pathfind(start, at(6, 0), &grid, mover, (1, 1)).unwrap();
    assert_eq!(beyond.len(), 16);
}

#[test]
fn wide_mover_does_not_fit_through_a_narrow_gap() {
    let mut grid = Grid::new();
    for y in 0..32 {
        if y != 10 {
            grid.set(at(5, y), Tile::Obstacle(0));
        }
    }
    let mover = Tile::Enemy(0);
    grid.fill(at(2, 9), 2, 2, mover);
    assert_eq!(pathfind(at(2, 9), at(8, 9), &grid, mover, (2, 2)), None);
    grid.set(at(5, 11), Tile::Empty);
    let path = pathfind(at(2, 9), at(8, 10), &grid, mover, (2, 2)).unwrap();
    assert_eq!(path.len(), 7);
    assert_eq!(path.last(), Some(&at(8, 10)));
    for step in &path {
        assert!(grid.is_traversable(*step, mover, 2, 2));
    }
}

#[test]
fn mover_walks_over_its_own_cells() {
    let mut grid = Grid::new();
    let mover = Tile::Enemy(4);
    grid.fill(at(0, 0), 2, 2, mover);
    let path = pathfind(at(0, 0), at(1, 0), &grid, mover, (2, 2));
    assert_eq!(path, Some(vec![at(1, 0)]));
}

#[test]
fn footprint_must_stay_on_the_grid() {
    let grid = Grid::new();
    assert_eq!(pathfind(at(0, 0), at(15, 0), &grid, Tile::Enemy(0), (2, 1)), None);
    let path = pathfind(at(0, 0), at(14, 0), &grid, Tile::Enemy(0), (2, 1)).unwrap();
    assert_eq!(path.len(), 14);
}

#[test]
fn of_two_shortest_ways_the_one_queued_first_is_taken() {
    let grid = Grid::new();
    let mover = Tile::Enemy(0);
    assert_eq!(pathfind(at(0, 0), at(1, 1), &grid, mover, (1, 1)), Some(vec![at(1, 0), at(1, 1)]));
    assert_eq!(pathfind(at(1, 1), at(0, 0), &grid, mover, (1, 1)), Some(vec![at(0, 1), at(0, 0)]));
    assert_eq!(
        pathfind(at(5, 5), at(6, 4), &grid, mover, (1, 1)),
        Some(vec![at(6, 5), at(6, 4)])
    );
}
