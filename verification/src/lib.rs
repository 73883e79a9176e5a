//! Tactical battle-grid engine: the grid model with line-of-sight,
//! area-of-effect and pathfinding queries over it.
//!
//! Every query is a pure function of an explicitly passed [`grid::GridMap`]
//! and its parameters, and every function carries a machine-checked contract.

pub mod aoe;
pub mod errors;
pub mod grid;
pub mod los;
pub mod moves;
pub mod path;
pub mod scan;
pub mod types;

pub use errors::DndError;
pub use types::{EntityId, GridPosition};
