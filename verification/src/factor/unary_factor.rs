//! Unary discrete factor representation.
//!
//! A [`UnaryFactor`] represents a factor over a single finite discrete
//! variable using a vector of values, one for each state of the variable. The
//! vector length defines the variable's cardinality.

use vstd::prelude::*;

use super::dense_factor::DenseFactor;
use super::{copied, DiscreteFactor, Factor};
use crate::algebra::{apply1, apply2, lemma_apply1, lemma_apply2, total1, total2};
use crate::layout::{lemma_size_single, padded, shape_size};
use crate::variable::VariableId;

verus! {

/// A unary factor over a single finite discrete variable.
///
/// The factor holds one value for each state of the variable.
#[derive(Debug)]
pub struct UnaryFactor<V> {
    var: [VariableId; 1],
    data: Vec<V>,
    card: [usize; 1],
}

/// The values `x ⊗ y` for the values `x` of `data`, with `y` fixed.
pub open spec fn scaled<V, M: Fn(&V, &V) -> V>(data: Seq<V>, y: V, product: M) -> Seq<V> {
    Seq::new(data.len(), |i: int| apply2(product, data[i], y))
}

/// The pointwise products of two sequences of values of the same length.
pub open spec fn pointwise<V, M: Fn(&V, &V) -> V>(lhs: Seq<V>, rhs: Seq<V>, product: M) -> Seq<V> {
    Seq::new(lhs.len(), |i: int| apply2(product, lhs[i], rhs[i]))
}

/// Computes `x ⊗ y` for each value `x` of `data`.
pub fn scale<V: Copy, M: Fn(&V, &V) -> V>(data: &Vec<V>, y: &V, product: &M) -> (r: Vec<V>)
    requires
        total2(*product),
    ensures
        r@ == scaled(data@, *y, *product),
{
    let mut r: Vec<V> = Vec::new();
    let mut i: usize = 0;
    while i < data.len()
        invariant
            i <= data.len(),
            r.len() == i,
            total2(*product),
            forall|j: int| 0 <= j < i ==> #[trigger] r@[j] == apply2(*product, data@[j], *y),
        decreases data.len() - i,
    {
        let x = product(&data[i], y);
        proof {
            lemma_apply2(*product, data@[i as int], *y, x);
        }
        r.push(x);
        i += 1;
    }
    assert(r@ =~= scaled(data@, *y, *product));
    r
}

impl<V: Copy> Clone for UnaryFactor<V> {
    fn clone(&self) -> (r: Self)
        ensures
            r.var_view() == self.var_view(),
            r.data_view() == self.data_view(),
            r.scope_view() == self.scope_view(),
            self.wf() ==> r.wf(),
    {
        UnaryFactor { var: self.var, data: copied(&self.data), card: self.card }
    }
}

impl<V> UnaryFactor<V> {
    /// The variable of the factor.
    pub closed spec fn var_view(&self) -> VariableId {
        self.var[0]
    }

    /// The values of the factor, one per state of the variable.
    pub closed spec fn data_view(&self) -> Seq<V> {
        self.data@
    }

    /// The factor has at least one value, and its cardinality is its number
    /// of values.
    pub closed spec fn wf(&self) -> bool {
        &&& self.data@.len() > 0
        &&& self.card[0] == self.data@.len()
    }

    /// The facts that well-formedness gives about the views.
    pub proof fn lemma_wf(&self)
        requires
            self.wf(),
        ensures
            self.data_view().len() > 0,
            self.data_view().len() <= usize::MAX,
            self.card_view() == seq![self.data_view().len() as usize],
            self.scope_view() == seq![self.var_view()],
    {
        assert(self.card@ =~= seq![self.data_view().len() as usize]);
        assert(self.var@ =~= seq![self.var_view()]);
    }

    /// Creates a unary factor for a variable with the given values.
    pub fn new(var: VariableId, data: Vec<V>) -> (f: Self)
        requires
            data.len() > 0,
        ensures
            f.wf(),
            f.var_view() == var,
            f.data_view() == data@,
    {
        let card = [data.len()];
        Self { var: [var], data, card }
    }

    /// Constructs a unary factor from linear-space values, converting each
    /// value with `to_log`.
    pub fn from_linear<F: Fn(&V) -> V>(var: VariableId, linear: Vec<V>, to_log: &F) -> (f: Self)
        requires
            linear.len() > 0,
            total1(*to_log),
        ensures
            f.wf(),
            f.var_view() == var,
            f.data_view().len() == linear.len(),
            forall|i: int| 0 <= i < linear.len() ==> #[trigger] f.data_view()[i] == apply1(*to_log, linear@[i]),
    {
        let mut data: Vec<V> = Vec::new();
        let mut i: usize = 0;
        while i < linear.len()
            invariant
                i <= linear.len(),
                data.len() == i,
                total1(*to_log),
                forall|j: int| 0 <= j < i ==> #[trigger] data@[j] == apply1(*to_log, linear@[j]),
            decreases linear.len() - i,
        {
            let x = to_log(&linear[i]);
            proof {
                lemma_apply1(*to_log, linear@[i as int], x);
            }
            data.push(x);
            i += 1;
        }
        let card = [data.len()];
        Self { var: [var], data, card }
    }

    /// Returns the factor values.
    pub fn data(&self) -> (d: &[V])
        ensures
            d@ == self.data_view(),
    {
        self.data.as_slice()
    }

    /// Returns the variable identifier.
    pub fn var(&self) -> (v: VariableId)
        ensures
            v == self.var_view(),
    {
        self.var[0]
    }

    /// Consumes the factor and returns its values.
    pub fn into_data(self) -> (d: Vec<V>)
        ensures
            d@ == self.data_view(),
    {
        self.data
    }
}

impl<V: Copy> UnaryFactor<V> {
    /// The factor as a dense factor with one axis.
    pub fn to_dense(&self) -> (d: DenseFactor<V>)
        requires
            self.wf(),
        ensures
            d.wf(),
            d.scope_view() == seq![self.var_view()],
            d.card_view() == seq![self.data_view().len() as usize],
            d.data_view() == self.data_view(),
    {
        let mut data: Vec<V> = Vec::new();
        let mut i: usize = 0;
        while i < self.data.len()
            invariant
                i <= self.data.len(),
                data@ == self.data@.take(i as int),
            decreases self.data.len() - i,
        {
            data.push(self.data[i]);
            proof {
                assert(data@ =~= self.data@.take(i + 1));
            }
            i += 1;
        }
        let mut scope: Vec<VariableId> = Vec::new();
        scope.push(self.var[0]);
        let mut card: Vec<usize> = Vec::new();
        card.push(self.data.len());
        proof {
            assert(self.data@.take(self.data.len() as int) =~= self.data@);
            assert(card@ =~= seq![self.data_view().len() as usize]);
            lemma_size_single(self.data@.len() as usize);
            lemma_size_single(if self.data@.len() == 0 { 1usize } else { self.data@.len() as usize });
            assert(scope@ =~= seq![self.var_view()]);
            assert(card@.drop_last() =~= seq![]);
            assert(shape_size(card@) == self.data@.len());
            assert(padded(card@)[0] == self.data@.len());
            assert(padded(card@).drop_last() =~= seq![]);
        }
        DenseFactor::new(scope, card, data)
    }

    /// Combines the values of two unary factors over the same variable.
    pub fn combine_pointwise<M: Fn(&V, &V) -> V>(&self, other: &UnaryFactor<V>, product: &M) -> (r: UnaryFactor<V>)
        requires
            self.wf(),
            other.wf(),
            self.data_view().len() == other.data_view().len(),
            total2(*product),
        ensures
            r.wf(),
            r.var_view() == self.var_view(),
            r.data_view() == pointwise(self.data_view(), other.data_view(), *product),
    {
        let mut data: Vec<V> = Vec::new();
        let mut i: usize = 0;
        while i < self.data.len()
            invariant
                i <= self.data.len(),
                self.data.len() == other.data.len(),
                data.len() == i,
                total2(*product),
                forall|j: int| 0 <= j < i ==> #[trigger] data@[j] == apply2(*product, self.data@[j], other.data@[j]),
            decreases self.data.len() - i,
        {
            let x = product(&self.data[i], &other.data[i]);
            proof {
                lemma_apply2(*product, self.data@[i as int], other.data@[i as int], x);
            }
            data.push(x);
            i += 1;
        }
        assert(data@ =~= pointwise(self.data_view(), other.data_view(), *product));
        UnaryFactor::new(self.var[0], data)
    }

    /// Combines each value of the factor with `y`.
    pub fn combine_value<M: Fn(&V, &V) -> V>(&self, y: &V, product: &M) -> (r: UnaryFactor<V>)
        requires
            self.wf(),
            total2(*product),
        ensures
            r.wf(),
            r.var_view() == self.var_view(),
            r.data_view() == scaled(self.data_view(), *y, *product),
    {
        let data = scale(&self.data, y, product);
        UnaryFactor::new(self.var[0], data)
    }
}

impl<V> Factor for UnaryFactor<V> {
    closed spec fn scope_view(&self) -> Seq<VariableId> {
        self.var@
    }

    fn scope(&self) -> (s: &[VariableId]) {
        self.var.as_slice()
    }
}

impl<V> DiscreteFactor for UnaryFactor<V> {
    closed spec fn card_view(&self) -> Seq<usize> {
        self.card@
    }

    fn card(&self) -> (c: &[usize]) {
        self.card.as_slice()
    }
}

/// Converts a dense factor with a single axis into a unary factor.
pub fn dense_into_unary<V>(d: DenseFactor<V>) -> (u: UnaryFactor<V>)
    requires
        d.wf(),
        d.scope_view().len() == 1,
        d.card_view()[0] > 0,
    ensures
        u.wf(),
        u.var_view() == d.scope_view()[0],
        u.data_view() == d.data_view(),
{
    proof {
        assert(d.card_view() =~= seq![d.card_view()[0]]);
        lemma_size_single(d.card_view()[0]);
    }
    let (scope, _card, data) = d.into_parts();
    let var = scope[0];
    UnaryFactor::new(var, data)
}

} // verus!
