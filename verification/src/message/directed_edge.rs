use vstd::prelude::*;

use crate::factor::FactorId;
use crate::variable::VariableId;

verus! {

/// One endpoint of a directed factor-graph edge.
#[derive(Clone, Copy, Debug, PartialEq, Eq, Structural, Hash)]
pub enum Endpoint {
    Variable(VariableId),
    Factor(FactorId),
}

/// A directed edge in a factor graph.
///
/// Each graph edge has two possible message directions.
#[derive(Clone, Copy, Debug, PartialEq, Eq, Structural, Hash)]
pub struct DirectedEdge {
    pub from: Endpoint,
    pub to: Endpoint,
}

impl DirectedEdge {
    /// The edge carrying messages from `variable` to `factor`.
    pub open spec fn spec_variable_to_factor(variable: VariableId, factor: FactorId) -> DirectedEdge {
        DirectedEdge { from: Endpoint::Variable(variable), to: Endpoint::Factor(factor) }
    }

    /// The edge carrying messages from `factor` to `variable`.
    pub open spec fn spec_factor_to_variable(factor: FactorId, variable: VariableId) -> DirectedEdge {
        DirectedEdge { from: Endpoint::Factor(factor), to: Endpoint::Variable(variable) }
    }

    /// Creates the edge carrying messages from `variable` to `factor`.
    #[verifier::when_used_as_spec(spec_variable_to_factor)]
    pub fn variable_to_factor(variable: VariableId, factor: FactorId) -> (e: Self)
        ensures
            e == Self::spec_variable_to_factor(variable, factor),
    {
        Self { from: Endpoint::Variable(variable), to: Endpoint::Factor(factor) }
    }

    /// Creates the edge carrying messages from `factor` to `variable`.
    #[verifier::when_used_as_spec(spec_factor_to_variable)]
    pub fn factor_to_variable(factor: FactorId, variable: VariableId) -> (e: Self)
        ensures
            e == Self::spec_factor_to_variable(factor, variable),
    {
        Self { from: Endpoint::Factor(factor), to: Endpoint::Variable(variable) }
    }
}

} // verus!
