//! The commonly used types, re-exported under one roof.

pub use crate::cell_group::CellGroup;
pub use crate::cell_group::CellGroupType;
pub use crate::cell_group::CellGroups;
pub use crate::cell_group::CollectIndexes;
pub use crate::cell_group::NoMatchingGroup;
pub use crate::coordinate::Coordinate;
pub use crate::default_solver::DefaultSolver;
pub use crate::default_solver::DefaultSolverConfig;
pub use crate::default_solver::Unsolvable;
pub use crate::game::Game;
pub use crate::game_cell::GameCell;
pub use crate::game_cell::IndexedGameCell;
pub use crate::game_state::GameState;
pub use crate::game_state::InvalidGameState;
pub use crate::index::Index;
pub use crate::index::IndexBitSet;
pub use crate::value::Value;
pub use crate::value::ValueBitSet;
pub use crate::value::ValueOption;
