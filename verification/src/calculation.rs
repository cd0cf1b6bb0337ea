//! The solver: card compositions, the enumeration of deals and its results.

pub mod counter;
pub mod deal;
pub mod exhausted;
pub mod functional;
pub mod pairs;
pub mod partition;
pub mod solution;
pub mod solver;
pub mod sums;

pub use counter::{CompositionError, Counter};
pub use functional::SolveError;
pub use solution::{Solution, SolutionBonus, SolutionMain, SolutionPair};
pub use solver::Solver;
