//! Turn setup for a grid-based ship-placement game: a fleet catalog, placement
//! geometry, a board that validates and commits placements atomically, its
//! text rendering, the reading of player input, and the setup sequence that
//! places a whole fleet.

pub mod board;
pub mod fleet;
pub mod geometry;
pub mod input;
pub mod render;
pub mod setup;

pub use board::{Board, BoardCell, BoardView, PlacementError};
pub use fleet::{Ship, ShipType};
pub use geometry::{Coordinate, Orientation, ShipPlacement};
pub use input::{parse_coordinate, parse_orientation};
pub use setup::{standard_fleet, FleetSetup};
