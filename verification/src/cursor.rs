//! The cursor of the player on the grid.

use crate::grid::AllyId;
use crate::position::{Direction, Position, LEVEL_HEIGHT, LEVEL_WIDTH};
use vstd::prelude::*;

verus! {

/// Where the cursor stands, which ally is selected, and whether the
/// player is choosing a target rather than a destination.
#[derive(Debug, Clone, Copy, PartialEq, Eq, Structural)]
pub struct Cursor {
    pub position: Position,
    pub selected: Option<AllyId>,
    pub acting: bool,
    pub can_interact: bool,
}

impl Cursor {
    /// A cursor on a cell with nothing selected, ready for input.
    pub fn new(position: Position) -> (cursor: Cursor)
        ensures
            cursor == (Cursor { position, selected: None, acting: false, can_interact: true }),
    {
        Cursor { position, selected: None, acting: false, can_interact: true }
    }

    /// Moves the cursor one cell in a direction, unless it stands at that
    /// edge of the grid. Returns whether it moved.
    pub fn move_in_direction(&mut self, direction: Direction) -> (moved: bool)
        requires
            old(self).position.in_bounds(),
        ensures
            moved == old(self).position.spec_in_direction(direction, 1).is_some(),
            *final(self) == (Cursor {
                position: match old(self).position.spec_in_direction(direction, 1) {
                    Some(next) => next,
                    None => old(self).position,
                },
                ..*old(self)
            }),
            final(self).position.in_bounds(),
    {
        match direction {
            Direction::Left => {
                if self.position.x > 0 {
                    self.position.x -= 1;
                    return true;
                }
            },
            Direction::Right => {
                if self.position.x < LEVEL_WIDTH - 1 {
                    self.position.x += 1;
                    return true;
                }
            },
            Direction::Up => {
                if self.position.y > 0 {
                    self.position.y -= 1;
                    return true;
                }
            },
            Direction::Down => {
                if self.position.y < LEVEL_HEIGHT - 1 {
                    self.position.y += 1;
                    return true;
                }
            },
        }
        false
    }
}

} // verus!
