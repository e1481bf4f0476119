use tactics::grid::{footprint, AllyId, Grid, Tile};
use tactics::position::{Direction, Position, LEVEL_HEIGHT, LEVEL_WIDTH};

#[test]
fn grid_is_sixteen_by_thirty_two() {
    assert_eq!(LEVEL_WIDTH, 16);
    assert_eq!(LEVEL_HEIGHT, 32);
}

#[test]
fn adjacent_in_the_middle_lists_left_right_up_down() {
    let p = Position { x: 5, y: 7 };
    assert_eq!(
        p.adjacent(),
        vec![
            Position { x: 4, y: 7 },
            Position { x: 6, y: 7 },
            Position { x: 5, y: 6 },
            Position { x: 5, y: 8 },
        ]
    );
}

#[test]
fn adjacent_does_not_wrap_around() {
    assert_eq!(
        Position { x: 0, y: 0 }.adjacent(),
        vec![Position { x: 1, y: 0 }, Position { x: 0, y: 1 }]
    );
    assert_eq!(
        Position { x: 15, y: 31 }.adjacent(),
        vec![Position { x: 14, y: 31 }, Position { x: 15, y: 30 }]
    );
}

#[test]
fn distance_is_rounded_down() {
    let a = Position { x: 0, y: 0 };
    assert_eq!(a.distance(a), 0);
    assert_eq!(a.distance(Position { x: 3, y: 4 }), 5);
    assert_eq!(a.distance(Position { x: 1, y: 1 }), 1);
    assert_eq!(a.distance(Position { x: 2, y: 2 }), 2);
    assert_eq!(a.distance(Position { x: 0, y: 7 }), 7);
    assert_eq!(a.distance(Position { x: 15, y: 31 }), 34);
    assert_eq!(Position { x: 15, y: 31 }.distance(a), 34);
}

#[test]
fn direction_prefers_the_horizontal() {
    let p = Position { x: 5, y: 5 };
    assert_eq!(p.direction_to(Position { x: 2, y: 9 }), Direction::Left);
    assert_eq!(p.direction_to(Position { x: 7, y: 0 }), Direction::Right);
    assert_eq!(p.direction_to(Position { x: 5, y: 0 }), Direction::Up);
    assert_eq!(p.direction_to(Position { x: 5, y: 9 }), Direction::Down);
}

#[test]
fn directions_are_tried_left_right_up_down() {
    assert_eq!(
        Direction::iter(),
        [Direction::Left, Direction::Right, Direction::Up, Direction::Down]
    );
}

#[test]
fn in_direction_stops_at_the_edges() {
    let p = Position { x: 1, y: 30 };
    assert_eq!(p.in_direction(Direction::Left, 0), Some(p));
    assert_eq!(p.in_direction(Direction::Left, 1), Some(Position { x: 0, y: 30 }));
    assert_eq!(p.in_direction(Direction::Left, 2), None);
    assert_eq!(p.in_direction(Direction::Down, 1), Some(Position { x: 1, y: 31 }));
    assert_eq!(p.in_direction(Direction::Down, 2), None);
    assert_eq!(p.in_direction(Direction::Right, 14), Some(Position { x: 15, y: 30 }));
    assert_eq!(p.in_direction(Direction::Right, 15), None);
    assert_eq!(p.in_direction(Direction::Up, 30), Some(Position { x: 1, y: 0 }));
    assert_eq!(p.in_direction(Direction::Up, 31), None);
    assert_eq!(p.in_direction(Direction::Up, usize::MAX), None);
    assert_eq!(p.in_direction(Direction::Right, usize::MAX), None);
}

#[test]
fn footprint_lists_cells_column_by_column() {
    assert_eq!(
        footprint(Position { x: 3, y: 4 }, 2, 3),
        vec![
            Position { x: 3, y: 4 },
            Position { x: 3, y: 5 },
            Position { x: 3, y: 6 },
            Position { x: 4, y: 4 },
            Position { x: 4, y: 5 },
            Position { x: 4, y: 6 },
        ]
    );
    assert_eq!(footprint(Position { x: 3, y: 4 }, 0, 3), vec![]);
}

#[test]
fn grid_holds_one_tag_per_cell() {
    let mut grid = Grid::new();
    let p = Position { x: 15, y: 31 };
    let q = Position { x: 0, y: 0 };
    assert_eq!(grid.at(p), Tile::Empty);
    grid.set(p, Tile::Enemy(7));
    assert_eq!(grid.at(p), Tile::Enemy(7));
    assert_eq!(grid.at(q), Tile::Empty);
    assert_eq!(grid.at(Position { x: 15, y: 30 }), Tile::Empty);
    assert_eq!(grid.at(Position { x: 14, y: 31 }), Tile::Empty);
    grid.set(p, Tile::Ally(AllyId::Alukrod));
    assert_eq!(grid.at(p), Tile::Ally(AllyId::Alukrod));
}

#[test]
fn fill_writes_the_footprint_and_nothing_else() {
    let mut grid = Grid::new();
    grid.fill(Position { x: 2, y: 2 }, 2, 2, Tile::Obstacle(1));
    let mut tagged = 0;
    for x in 0..LEVEL_WIDTH {
        for y in 0..LEVEL_HEIGHT {
            let inside = (2..4).contains(&x) && (2..4).contains(&y);
            let tile = grid.at(Position { x, y });
            assert_eq!(tile == Tile::Obstacle(1), inside);
            if tile != Tile::Empty {
                tagged += 1;
            }
        }
    }
    assert_eq!(tagged, 4);
}

#[test]
fn traversable_means_empty_or_own_and_on_the_grid() {
    let mut grid = Grid::new();
    grid.set(Position { x: 5, y: 5 }, Tile::Enemy(0));
    grid.set(Position { x: 6, y: 5 }, Tile::Item(0));
    assert!(grid.is_traversable(Position { x: 4, y: 5 }, Tile::Enemy(1), 1, 1));
    assert!(!grid.is_traversable(Position { x: 5, y: 5 }, Tile::Enemy(1), 1, 1));
    assert!(grid.is_traversable(Position { x: 5, y: 5 }, Tile::Enemy(0), 1, 1));
    assert!(!grid.is_traversable(Position { x: 6, y: 5 }, Tile::Enemy(0), 1, 1));
    assert!(grid.is_free_for(Position { x: 6, y: 5 }, Tile::Enemy(0), 1, 1));
    assert!(!grid.is_traversable(Position { x: 4, y: 5 }, Tile::Enemy(1), 2, 1));
    assert!(grid.is_traversable(Position { x: 4, y: 5 }, Tile::Enemy(0), 2, 1));
    assert!(!grid.is_traversable(Position { x: 15, y: 0 }, Tile::Enemy(0), 2, 1));
    assert!(!grid.is_traversable(Position { x: 0, y: 31 }, Tile::Enemy(0), 1, 2));
    assert!(grid.is_traversable(Position { x: 5, y: 5 }, Tile::Enemy(9), 0, 3));
}
