//! Factor representations and operations.
//!
//! A [`Factor`] represents a function over a set of variables identified by
//! [`VariableId`]. Concrete factor types provide different representations for
//! that function: [`DenseFactor`] stores a discrete factor as a dense row-major
//! table, [`UnaryFactor`] represents a discrete factor over a single variable
//! and [`ScalarFactor`] a constant.
//!
//! Factor algebra (combination, reduction, normalization and distance) is
//! provided by [`FactorKind`], parameterized by the value algebra of the
//! inference regime (see [`crate::algebra`]).

use vstd::prelude::*;

pub mod dense_factor;

pub use dense_factor::DenseFactor;
pub mod unary_factor;
pub use unary_factor::UnaryFactor;
pub mod scalar_factor;
pub use scalar_factor::ScalarFactor;
pub mod factor_kind;
pub use factor_kind::FactorKind;

pub use crate::semiring::{LogMaxProduct, LogSumProduct, Semiring};
use crate::variable::VariableId;

verus! {

/// Identifies a factor within a factor graph.
///
/// A `FactorId` is a stable index assigned when a factor is added to the graph.
#[derive(Clone, Copy, Debug, PartialEq, Eq, Structural, Hash)]
pub struct FactorId(usize);

impl View for FactorId {
    type V = nat;

    /// The index underlying this identifier.
    closed spec fn view(&self) -> nat {
        self.0 as nat
    }
}

/// Identifiers with the same index are the same identifier.
pub broadcast proof fn lemma_factor_id_view_injective(a: FactorId, b: FactorId)
    ensures
        #![trigger a@, b@]
        (a@ == b@) == (a == b),
{
}

impl FactorId {
    /// The identifier with index `index`.
    pub closed spec fn from_index(index: nat) -> FactorId {
        FactorId(index as usize)
    }

    /// An index that fits in a `usize` identifies the factor it names.
    pub broadcast proof fn lemma_from_index(index: nat)
        requires
            index <= usize::MAX,
        ensures
            (#[trigger] FactorId::from_index(index))@ == index,
    {
    }

    /// Creates a factor identifier from its index.
    pub fn new(index: usize) -> (id: Self)
        ensures
            id@ == index,
    {
        Self(index)
    }

    /// Return the index underlying this identifier.
    pub fn index(self) -> (i: usize)
        ensures
            i == self@,
    {
        self.0
    }

    /// Whether two identifiers are the same.
    pub fn same(self, other: Self) -> (b: bool)
        ensures
            b == (self == other),
            b == (self@ == other@),
    {
        self.0 == other.0
    }
}

/// Copies a slice of values into a new vector.
pub(crate) fn copied<T: Copy>(s: &[T]) -> (v: Vec<T>)
    ensures
        v@ == s@,
{
    let mut v: Vec<T> = Vec::new();
    let mut i: usize = 0;
    while i < s.len()
        invariant
            i <= s.len(),
            v@ == s@.take(i as int),
        decreases s.len() - i,
    {
        v.push(s[i]);
        proof {
            assert(v@ =~= s@.take(i + 1));
        }
        i += 1;
    }
    assert(s@.take(s.len() as int) =~= s@);
    v
}

/// No variable occurs twice in `s`.
pub open spec fn distinct_vars(s: Seq<VariableId>) -> bool {
    forall|i: int, j: int| 0 <= i < s.len() && 0 <= j < s.len() && i != j ==> s[i]@ != s[j]@
}

/// The variables of `s` are in strictly increasing order.
pub open spec fn sorted_vars(s: Seq<VariableId>) -> bool {
    forall|i: int, j: int| 0 <= i < j < s.len() ==> s[i]@ < s[j]@
}

/// A factor over a set of variables.
///
/// A factor represents a function whose arguments are the variables in its
/// scope. The order of variables returned by [`Self::scope`] defines the
/// dimension ordering used by the factor representation.
pub trait Factor {
    /// The variables in the factor's scope.
    spec fn scope_view(&self) -> Seq<VariableId>;

    /// Variables in the factor's scope.
    fn scope(&self) -> (s: &[VariableId])
        ensures
            s@ == self.scope_view(),
    ;

    /// The number of variables in the factor.
    fn ndim(&self) -> (n: usize)
        ensures
            n == self.scope_view().len(),
    {
        self.scope().len()
    }
}

/// A factor over finite discrete variables.
///
/// The cardinality at position `i` corresponds to the variable at position `i`
/// in [`Factor::scope`].
pub trait DiscreteFactor: Factor {
    /// Cardinalities of all variables in scope.
    spec fn card_view(&self) -> Seq<usize>;

    /// Cardinalities of all variables in scope.
    fn card(&self) -> (c: &[usize])
        ensures
            c@ == self.card_view(),
    ;
}

} // verus!
