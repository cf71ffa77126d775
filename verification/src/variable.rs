//! Variables and domains used by factor graphs.
//!
//! A [`Variable`] represents a quantity whose possible values are described
//! by a domain. Variables are assigned graph-local [`VariableId`] values when
//! they are added to a factor graph.
//!
//! The current implementation supports finite discrete domains through
//! [`DiscreteDomain`].

use vstd::prelude::*;

mod discrete_domain;

pub use discrete_domain::DiscreteDomain;

verus! {

/// A graph-local identifier for a variable.
///
/// A `VariableId` has meaning only in the context of the factor graph that
/// created it. The underlying index is an implementation detail.
#[derive(Clone, Copy, PartialEq, Eq, Structural, PartialOrd, Ord, Hash, Debug)]
pub struct VariableId(usize);

impl View for VariableId {
    type V = nat;

    /// The graph-local index represented by this identifier.
    closed spec fn view(&self) -> nat {
        self.0 as nat
    }
}

/// Identifiers with the same index are the same identifier.
pub broadcast proof fn lemma_variable_id_view_injective(a: VariableId, b: VariableId)
    ensures
        #![trigger a@, b@]
        (a@ == b@) == (a == b),
{
}

impl VariableId {
    /// Creates a variable identifier from a graph-local index.
    pub fn new(index: usize) -> (id: Self)
        ensures
            id@ == index,
    {
        Self(index)
    }

    /// Returns the graph-local index represented by this identifier.
    pub fn index(self) -> (i: usize)
        ensures
            i == self@,
    {
        self.0
    }

    /// Whether two identifiers are the same.
    pub fn same(self, other: Self) -> (b: bool)
        ensures
            b == (self == other),
            b == (self@ == other@),
    {
        self.0 == other.0
    }

    /// Whether this identifier orders before `other`.
    pub fn precedes(self, other: Self) -> (b: bool)
        ensures
            b == (self@ < other@),
    {
        self.0 < other.0
    }
}

/// The domain of values that a variable may take.
#[derive(Clone, Debug)]
pub enum Domain {
    /// A finite set of discrete values.
    Discrete(DiscreteDomain),
}

/// A variable that can be placed in a factor graph.
///
/// A variable has a name and a domain describing the values it may take.
/// Its graph-local identity is assigned when it is added to a factor graph.
#[derive(Clone, Debug)]
pub struct Variable {
    name: String,
    domain: Domain,
}

impl Variable {
    /// The variable's name.
    pub closed spec fn name_view(&self) -> Seq<char> {
        self.name@
    }

    /// The variable's domain.
    pub closed spec fn domain_view(&self) -> Domain {
        self.domain
    }

    /// Creates a variable with the given name and domain.
    ///
    /// Variable names are not required to be unique during construction.
    /// Uniqueness is enforced when the variable is added to a factor graph.
    pub fn new(name: &str, domain: Domain) -> (v: Self)
        ensures
            v.name_view() == name@,
            v.domain_view() == domain,
    {
        Self { name: name.to_owned(), domain }
    }

    /// Creates a variable with a finite discrete domain.
    pub fn discrete(name: &str, values: &[&str]) -> (v: Self)
        ensures
            v.name_view() == name@,
            v.domain_view() matches Domain::Discrete(d) && d@ == values@.map_values(|s: &str| s@),
    {
        Self::new(name, Domain::Discrete(DiscreteDomain::new(values)))
    }

    /// Returns the variable's name.
    pub fn name(&self) -> (s: &str)
        ensures
            s@ == self.name_view(),
    {
        self.name.as_str()
    }

    /// Returns the variable's domain.
    pub fn domain(&self) -> (d: &Domain)
        ensures
            *d == self.domain_view(),
    {
        &self.domain
    }
}

} // verus!
