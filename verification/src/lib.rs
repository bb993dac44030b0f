//! Geometry and occupancy logic for a grid-based naval-combat game:
//! ship shapes as sets of offset vectors, boards as placed ships over a
//! playable cell set, and a heat map aggregating candidate layouts.

pub mod board;
pub mod geometry;
pub mod heatmap;
pub mod ship;

pub use board::{Board, BoardBuilder, BoardErrors, Completion};
pub use geometry::{BoundsError, Pos2, Vec2};
pub use heatmap::{HeatMap, HeatMapErrors};
pub use ship::{Rotations, Ship, ShipError};
