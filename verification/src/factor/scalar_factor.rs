//! Scalar factor representation.
//!
//! A [`ScalarFactor`] represents a constant factor with an empty scope and a
//! single value.

use vstd::prelude::*;

use super::{DiscreteFactor, Factor};
use crate::algebra::{apply1, apply2, lemma_apply1, lemma_apply2, total1, total2};
use crate::variable::VariableId;

verus! {

/// A constant factor with an empty scope.
///
/// A scalar factor contains no variables and stores a single value.
#[derive(Debug)]
pub struct ScalarFactor<V> {
    value: V,
    none: [VariableId; 0],
    card: [usize; 0],
}

impl<V: Copy> Clone for ScalarFactor<V> {
    fn clone(&self) -> (r: Self)
        ensures
            r.value_view() == self.value_view(),
            r.scope_view() == self.scope_view(),
    {
        ScalarFactor { value: self.value, none: [], card: [] }
    }
}

impl<V> ScalarFactor<V> {
    /// The value of the factor.
    pub closed spec fn value_view(&self) -> V {
        self.value
    }

    /// Creates a scalar factor from a value.
    pub fn new(value: V) -> (f: Self)
        ensures
            f.value_view() == value,
    {
        Self { value, none: [], card: [] }
    }

    /// Creates a scalar factor from a linear-space value, converting it with
    /// `to_log`.
    pub fn from_linear<F: Fn(&V) -> V>(linear: V, to_log: &F) -> (f: Self)
        requires
            total1(*to_log),
        ensures
            f.value_view() == apply1(*to_log, linear),
    {
        let value = to_log(&linear);
        proof {
            lemma_apply1(*to_log, linear, value);
        }
        ScalarFactor::new(value)
    }

    /// Returns the factor value.
    pub fn value(&self) -> (v: &V)
        ensures
            *v == self.value_view(),
    {
        &self.value
    }

    /// Consumes the factor and returns its value.
    pub fn into_value(self) -> (v: V)
        ensures
            v == self.value_view(),
    {
        self.value
    }

    /// The scope and cardinalities of a scalar factor are empty.
    pub proof fn lemma_empty(&self)
        ensures
            self.scope_view() == Seq::<VariableId>::empty(),
            self.card_view() == Seq::<usize>::empty(),
    {
        assert(self.none@ =~= Seq::<VariableId>::empty());
        assert(self.card@ =~= Seq::<usize>::empty());
    }
}

impl<V: Copy> ScalarFactor<V> {
    /// Combines this factor's value with `y`, as `y ⊗ value`.
    pub fn combine_value<M: Fn(&V, &V) -> V>(&self, y: &V, product: &M) -> (r: V)
        requires
            total2(*product),
        ensures
            r == apply2(*product, *y, self.value_view()),
    {
        let r = product(y, &self.value);
        proof {
            lemma_apply2(*product, *y, self.value, r);
        }
        r
    }
}

impl<V> Factor for ScalarFactor<V> {
    closed spec fn scope_view(&self) -> Seq<VariableId> {
        self.none@
    }

    fn scope(&self) -> (s: &[VariableId]) {
        self.none.as_slice()
    }
}

impl<V> DiscreteFactor for ScalarFactor<V> {
    closed spec fn card_view(&self) -> Seq<usize> {
        self.card@
    }

    fn card(&self) -> (c: &[usize]) {
        self.card.as_slice()
    }
}

} // verus!
