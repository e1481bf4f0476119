//! Tactical-combat core of a grid-based, turn-based strategy game.
//!
//! The crate decides where units may move, what they can see, whether an
//! attack is valid, how damage and timed effects resolve, and how enemy
//! units choose their actions. Every function carries a machine-checked
//! contract.
//!
//! - `position`, `grid`: cells, directions, the occupancy grid and the
//!   footprints of units.
//! - `pathfind`: shortest walkable paths.
//! - `line`: lines of fire and the cells to attack from.
//! - `ratio`, `fov`, `sight`: the field of view, its exact slopes, and what
//!   holds of it.
//! - `ability`, `traits`, `unit`: the catalogs and the unit records with
//!   damage, healing, effects and the accounting of uses.
//! - `layout`, `level`: a level and the agreement between its grid and its
//!   entities.
//! - `resolver`: moves and abilities of the allies.
//! - `planner`: the decisions of the enemies.
//! - `scheduler`, `round`: turn order, phases, and the step of a round.
//! - `cursor`: the cursor of the player.

pub mod ability;
pub mod cursor;
pub mod fov;
pub mod grid;
pub mod layout;
pub mod level;
pub mod line;
pub mod pathfind;
pub mod planner;
pub mod position;
pub mod ratio;
pub mod resolver;
pub mod round;
pub mod scheduler;
pub mod sight;
pub mod traits;
pub mod unit;
