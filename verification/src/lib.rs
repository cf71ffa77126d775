//! Loopy belief propagation on factor graphs.

pub mod algebra;
pub mod belief_state;
pub mod factor;
pub mod factor_graph;
pub mod layout;
pub mod message;
pub mod schedule;
pub mod semiring;
pub mod variable;

pub use belief_state::{BeliefError, BeliefState};
pub use factor::{DenseFactor, Factor, FactorId, FactorKind, ScalarFactor, UnaryFactor};
pub use factor_graph::{FactorGraph, GraphError};
pub use schedule::{RunOptions, RunResult, Schedule, Synchronous};
pub use semiring::{LogMaxProduct, LogSumProduct, Semiring};
pub use variable::{DiscreteDomain, Domain, Variable, VariableId};
