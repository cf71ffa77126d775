//! Dense discrete factor representation.
//!
//! A [`DenseFactor`] represents a factor over finite discrete variables as a
//! table of values stored in row-major order.
//!
//! Each variable in the factor's scope corresponds to one axis of the table.
//! The variable at `scope[i]` is represented by axis `i`, whose length is the
//! cardinality of that variable.

use vstd::prelude::*;

pub mod align;
pub mod combine;
pub mod reduce;

use crate::algebra::{apply1, lemma_apply1, total1, total2};
use crate::factor::unary_factor::{scale, scaled};
use crate::factor::{copied, distinct_vars, DiscreteFactor, Factor};
use crate::layout::{padded, shape_size};
use crate::variable::VariableId;

verus! {

/// A dense factor over finite discrete variables.
///
/// Each variable in [`Factor::scope`] corresponds to the table axis at the
/// same position, and the table holds one value for each joint assignment,
/// the last axis varying fastest.
///
/// For example, a factor with scope `[x, y]` and cardinalities `[2, 3]`
/// represents a binary variable `x` and a three-state variable `y`.
#[derive(Debug)]
pub struct DenseFactor<V> {
    scope: Vec<VariableId>,
    card: Vec<usize>,
    data: Vec<V>,
}

impl<V: Copy> Clone for DenseFactor<V> {
    fn clone(&self) -> (r: Self)
        ensures
            r.scope_view() == self.scope_view(),
            r.card_view() == self.card_view(),
            r.data_view() == self.data_view(),
    {
        DenseFactor { scope: copied(&self.scope), card: copied(&self.card), data: copied(&self.data) }
    }
}

impl<V> DenseFactor<V> {
    /// The values of the table in row-major order.
    pub closed spec fn data_view(&self) -> Seq<V> {
        self.data@
    }

    /// The table has one axis per variable and one value per assignment, the
    /// lengths of its nonempty axes have a product that fits in a `usize`, and
    /// no variable occurs twice in its scope.
    pub open spec fn wf(&self) -> bool {
        &&& self.scope_view().len() == self.card_view().len()
        &&& self.data_view().len() == shape_size(self.card_view())
        &&& shape_size(padded(self.card_view())) <= usize::MAX
        &&& distinct_vars(self.scope_view())
    }

    /// Creates a dense factor from a table of values in row-major order.
    ///
    /// The scope is a set of variables: no variable may occur twice in it.
    /// Combination aligns the two scopes by pairing each variable with exactly
    /// one axis, and a repeated variable would give the combined factor a
    /// scope that repeats it too.
    pub fn new(scope: Vec<VariableId>, card: Vec<usize>, data: Vec<V>) -> (f: Self)
        requires
            scope.len() == card.len(),
            data.len() == shape_size(card@),
            shape_size(padded(card@)) <= usize::MAX,
            distinct_vars(scope@),
        ensures
            f.wf(),
            f.scope_view() == scope@,
            f.card_view() == card@,
            f.data_view() == data@,
    {
        Self { scope, card, data }
    }

    /// Constructs a dense factor from linear-space values, converting each
    /// value with `to_log`.
    pub fn from_linear<F: Fn(&V) -> V>(scope: Vec<VariableId>, card: Vec<usize>, linear: Vec<V>, to_log: &F) -> (f: Self)
        requires
            scope.len() == card.len(),
            linear.len() == shape_size(card@),
            shape_size(padded(card@)) <= usize::MAX,
            distinct_vars(scope@),
            total1(*to_log),
        ensures
            f.wf(),
            f.scope_view() == scope@,
            f.card_view() == card@,
            f.data_view().len() == linear.len(),
            forall|k: int| 0 <= k < linear.len() ==> #[trigger] f.data_view()[k] == apply1(*to_log, linear@[k]),
    {
        let mut data: Vec<V> = Vec::new();
        let mut k: usize = 0;
        while k < linear.len()
            invariant
                k <= linear.len(),
                data.len() == k,
                total1(*to_log),
                forall|j: int| 0 <= j < k ==> #[trigger] data@[j] == apply1(*to_log, linear@[j]),
            decreases linear.len() - k,
        {
            let x = to_log(&linear[k]);
            proof {
                lemma_apply1(*to_log, linear@[k as int], x);
            }
            data.push(x);
            k += 1;
        }
        Self { scope, card, data }
    }

    /// Returns the factor values in row-major order.
    pub fn data(&self) -> (d: &[V])
        ensures
            d@ == self.data_view(),
    {
        self.data.as_slice()
    }

    /// Consumes the factor and returns its scope, cardinalities and values.
    pub fn into_parts(self) -> (parts: (Vec<VariableId>, Vec<usize>, Vec<V>))
        ensures
            parts.0@ == self.scope_view(),
            parts.1@ == self.card_view(),
            parts.2@ == self.data_view(),
    {
        (self.scope, self.card, self.data)
    }

    /// Consumes the factor and returns its values in row-major order.
    pub fn into_data(self) -> (d: Vec<V>)
        ensures
            d@ == self.data_view(),
    {
        self.data
    }

    /// Consumes the factor and returns its scope.
    pub fn into_scope(self) -> (s: Vec<VariableId>)
        ensures
            s@ == self.scope_view(),
    {
        self.scope
    }
}

impl<V: Copy> DenseFactor<V> {
    /// Combines each value of the factor with `y`, keeping the scope.
    pub fn combine_value<M: Fn(&V, &V) -> V>(&self, y: &V, product: &M) -> (r: DenseFactor<V>)
        requires
            self.wf(),
            total2(*product),
        ensures
            r.wf(),
            r.scope_view() == self.scope_view(),
            r.card_view() == self.card_view(),
            r.data_view() == scaled(self.data_view(), *y, *product),
    {
        let data = scale(&self.data, y, product);
        DenseFactor { scope: self.scope.clone(), card: self.card.clone(), data }
    }
}

impl<V> Factor for DenseFactor<V> {
    closed spec fn scope_view(&self) -> Seq<VariableId> {
        self.scope@
    }

    fn scope(&self) -> (s: &[VariableId]) {
        self.scope.as_slice()
    }
}

impl<V> DiscreteFactor for DenseFactor<V> {
    closed spec fn card_view(&self) -> Seq<usize> {
        self.card@
    }

    fn card(&self) -> (c: &[usize]) {
        self.card.as_slice()
    }
}

} // verus!
