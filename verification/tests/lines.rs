use tactics::grid::{AllyId, Grid, Tile};
use tactics::line::{attack_positions, line_to};
use tactics::position::Position;

fn at(x: usize, y: usize) -> Position {
    Position { x, y }
}

#[test]
fn line_runs_along_a_row() {
    let grid = Grid::new();
    assert_eq!(line_to(at(2, 5), at(5, 5), &grid), Some(vec![at(3, 5), at(4, 5), at(5, 5)]));
    assert_eq!(line_to(at(5, 5), at(2, 5), &grid), Some(vec![at(4, 5), at(3, 5), at(2, 5)]));
}

#[test]
fn line_runs_along_a_column() {
    let grid = Grid::new();
    assert_eq!(line_to(at(2, 5), at(2, 3), &grid), Some(vec![at(2, 4), at(2, 3)]));
    assert_eq!(line_to(at(2, 5), at(2, 6), &grid), Some(vec![at(2, 6)]));
}

#[test]
fn line_may_end_on_an_occupied_cell() {
    let mut grid = Grid::new();
    grid.set(at(5, 5), Tile::Enemy(0));
    grid.set(at(2, 5), Tile::Ally(AllyId::AshMagnum));
    assert_eq!(line_to(at(2, 5), at(5, 5), &grid), Some(vec![at(3, 5), at(4, 5), at(5, 5)]));
}

#[test]
fn line_is_cut_by_anything_in_between() {
    let mut grid = Grid::new();
    grid.set(at(4, 5), Tile::Item(0));
    assert_eq!(line_to(at(2, 5), at(5, 5), &grid), None);
    assert_eq!(line_to(at(2, 5), at(4, 5), &grid), Some(vec![at(3, 5), at(4, 5)]));
    grid.set(at(4, 5), Tile::Obstacle(0));
    assert_eq!(line_to(at(5, 5), at(2, 5), &grid), None);
}

#[test]
fn no_line_goes_diagonally_or_to_the_same_cell() {
    let grid = Grid::new();
    assert_eq!(line_to(at(2, 5), at(3, 6), &grid), None);
    assert_eq!(line_to(at(2, 5), at(9, 6), &grid), None);
    assert_eq!(line_to(at(2, 5), at(2, 5), &grid), None);
}

#[test]
fn attack_positions_are_the_rays_from_the_target() {
    let grid = Grid::new();
    assert_eq!(
        attack_positions(at(5, 5), 2, &grid, (1, 1)),
        vec![
            (at(4, 5), 1),
            (at(3, 5), 2),
            (at(6, 5), 1),
            (at(7, 5), 2),
            (at(5, 4), 1),
            (at(5, 3), 2),
            (at(5, 6), 1),
            (at(5, 7), 2),
        ]
    );
}

#[test]
fn attack_rays_stop_at_the_first_cell_that_is_not_empty_or_off_the_grid() {
    let mut grid = Grid::new();
    grid.set(at(1, 2), Tile::Ally(AllyId::AshMagnum));
    grid.set(at(3, 2), Tile::Obstacle(0));
    grid.set(at(1, 4), Tile::Item(0));
    assert_eq!(
        attack_positions(at(1, 2), 3, &grid, (1, 1)),
        vec![(at(0, 2), 1), (at(2, 2), 1), (at(1, 1), 1), (at(1, 0), 2), (at(1, 3), 1)]
    );
    assert_eq!(attack_positions(at(1, 2), 0, &grid, (1, 1)), vec![]);
}

#[test]
fn attack_positions_of_a_wide_attacker_start_from_each_cell_of_its_footprint() {
    let grid = Grid::new();
    assert_eq!(
        attack_positions(at(5, 5), 1, &grid, (2, 1)),
        vec![
            (at(4, 5), 1),
            (at(6, 5), 1),
            (at(5, 4), 1),
            (at(5, 6), 1),
            (at(5, 5), 1),
            (at(7, 5), 1),
            (at(6, 4), 1),
            (at(6, 6), 1),
        ]
    );
    assert_eq!(
        attack_positions(at(15, 0), 1, &grid, (2, 1)),
        vec![(at(14, 0), 1), (at(15, 1), 1)]
    );
}
