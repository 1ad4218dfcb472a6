//! The deduction rules the solver applies between search forks.

pub mod hidden_singles;
pub mod hidden_twins;
pub mod naked_singles;
pub mod naked_twins;
pub mod xwing;

use vstd::prelude::*;

verus! {

/// The outcome of a strategy.
#[derive(Debug, Copy, Clone, Eq, PartialEq, Structural)]
pub enum StrategyResult {
    /// The strategy applied some moves or erased some candidates.
    AppliedChange,
    /// No change was applied by this strategy.
    NoChange,
}

} // verus!
