//! The factor representations supported by the library, and their algebra.

use vstd::prelude::*;

use super::dense_factor::align::{cards_agree, combined_card, lemma_position_of, lemma_same_vars_len, lemma_sorted_union_exists, position_of, sorted_union};
use super::dense_factor::combine::{combination, lemma_combination_commutes};
use super::dense_factor::align::lists_axes;
use super::dense_factor::reduce::{axes_by, lemma_lists_axes_unique, reduction};
use super::unary_factor::{dense_into_unary, pointwise, scaled};
use super::{copied, distinct_vars, DenseFactor, DiscreteFactor, Factor, ScalarFactor, UnaryFactor};
use crate::algebra::{apply2, apply_block, apply_blocks, lemma_apply_block, lemma_apply_blocks, semiring_ok, residual_ok, ResidualOps, SemiringOps};
use crate::layout::{distinct_axes, lemma_size_project_le, lemma_size_single, padded, project, shape_size};
use crate::variable::VariableId;

verus! {

broadcast use crate::variable::lemma_variable_id_view_injective;

/// A concrete factor representation supported by the library.
///
/// `FactorKind` allows factors with different representations to be stored
/// and manipulated through a single type. The variant identifies the
/// representation of the contained factor:
///
/// - [`FactorKind::Dense`] - a dense multidimensional discrete factor;
/// - [`FactorKind::Scalar`] - a scalar factor with no variables;
/// - [`FactorKind::Unary`] - a factor over a single discrete variable.
#[derive(Debug)]
pub enum FactorKind<V> {
    Dense(DenseFactor<V>),
    Scalar(ScalarFactor<V>),
    Unary(UnaryFactor<V>),
}

/// The mathematical content of a [`FactorKind`]: its representation and the
/// table that it holds.
pub enum FactorModel<V> {
    Dense { scope: Seq<VariableId>, card: Seq<usize>, data: Seq<V> },
    Scalar { value: V },
    Unary { var: VariableId, data: Seq<V> },
}

impl<V> View for FactorKind<V> {
    type V = FactorModel<V>;

    open spec fn view(&self) -> FactorModel<V> {
        match self {
            FactorKind::Dense(d) => FactorModel::Dense {
                scope: d.scope_view(),
                card: d.card_view(),
                data: d.data_view(),
            },
            FactorKind::Scalar(s) => FactorModel::Scalar { value: s.value_view() },
            FactorKind::Unary(u) => FactorModel::Unary { var: u.var_view(), data: u.data_view() },
        }
    }
}

/// The variables of a factor, in the order of its table's axes.
pub open spec fn model_scope<V>(m: FactorModel<V>) -> Seq<VariableId> {
    match m {
        FactorModel::Dense { scope, .. } => scope,
        FactorModel::Scalar { .. } => Seq::empty(),
        FactorModel::Unary { var, .. } => seq![var],
    }
}

/// The cardinalities of a factor's variables.
pub open spec fn model_card<V>(m: FactorModel<V>) -> Seq<usize> {
    match m {
        FactorModel::Dense { card, .. } => card,
        FactorModel::Scalar { .. } => Seq::empty(),
        FactorModel::Unary { data, .. } => seq![data.len() as usize],
    }
}

/// The values of a factor's table, in row-major order.
pub open spec fn model_data<V>(m: FactorModel<V>) -> Seq<V> {
    match m {
        FactorModel::Dense { data, .. } => data,
        FactorModel::Scalar { value } => seq![value],
        FactorModel::Unary { data, .. } => data,
    }
}

/// A dense model of a table.
pub open spec fn dense_model<V>(t: (Seq<VariableId>, Seq<usize>, Seq<V>)) -> FactorModel<V> {
    FactorModel::Dense { scope: t.0, card: t.1, data: t.2 }
}

/// A unary factor viewed as a table with one axis.
pub open spec fn unary_table<V>(var: VariableId, data: Seq<V>) -> (Seq<VariableId>, Seq<usize>, Seq<V>) {
    (seq![var], seq![data.len() as usize], data)
}

/// The combination of two factors under the product `product`.
///
/// Dense and unary factors combine into a dense factor over the sorted union
/// of their scopes, except two unary factors over the same variable, which
/// combine pointwise. A scalar factor combines with every value of the other
/// factor, keeping its representation and scope order.
pub open spec fn combine_model<V, M: Fn(&V, &V) -> V>(a: FactorModel<V>, b: FactorModel<V>, product: M) -> FactorModel<V> {
    match (a, b) {
        (FactorModel::Dense { scope, card, data }, FactorModel::Dense { scope: s2, card: c2, data: d2 }) =>
            dense_model(combination(scope, card, data, s2, c2, d2, product)),
        (FactorModel::Dense { scope, card, data }, FactorModel::Unary { var, data: d2 }) => {
            let t = unary_table(var, d2);
            dense_model(combination(scope, card, data, t.0, t.1, t.2, product))
        },
        (FactorModel::Dense { scope, card, data }, FactorModel::Scalar { value }) =>
            FactorModel::Dense { scope, card, data: scaled(data, value, product) },
        (FactorModel::Unary { var, data }, FactorModel::Dense { scope, card, data: d2 }) => {
            let t = unary_table(var, data);
            dense_model(combination(scope, card, d2, t.0, t.1, t.2, product))
        },
        (FactorModel::Unary { var, data }, FactorModel::Unary { var: v2, data: d2 }) => {
            if var == v2 {
                FactorModel::Unary { var, data: pointwise(data, d2, product) }
            } else if var@ < v2@ {
                let t1 = unary_table(var, data);
                let t2 = unary_table(v2, d2);
                dense_model(combination(t1.0, t1.1, t1.2, t2.0, t2.1, t2.2, product))
            } else {
                let t1 = unary_table(v2, d2);
                let t2 = unary_table(var, data);
                dense_model(combination(t1.0, t1.1, t1.2, t2.0, t2.1, t2.2, product))
            }
        },
        (FactorModel::Unary { var, data }, FactorModel::Scalar { value }) =>
            FactorModel::Unary { var, data: scaled(data, value, product) },
        (FactorModel::Scalar { value }, FactorModel::Scalar { value: v2 }) =>
            FactorModel::Scalar { value: apply2(product, value, v2) },
        (FactorModel::Scalar { value }, FactorModel::Unary { var, data }) =>
            FactorModel::Unary { var, data: scaled(data, value, product) },
        (FactorModel::Scalar { value }, FactorModel::Dense { scope, card, data }) =>
            FactorModel::Dense { scope, card, data: scaled(data, value, product) },
    }
}

/// The tables whose combination builds a dense result: the left and right
/// operands of the table combination, or `None` where no such combination
/// takes place.
pub open spec fn combined_operands<V>(a: FactorModel<V>, b: FactorModel<V>) -> Option<(FactorModel<V>, FactorModel<V>)> {
    match (a, b) {
        (FactorModel::Scalar { .. }, _) => None,
        (_, FactorModel::Scalar { .. }) => None,
        (FactorModel::Unary { var, .. }, FactorModel::Unary { var: v2, .. }) => {
            if var == v2 {
                None
            } else if var@ < v2@ {
                Some((a, b))
            } else {
                Some((b, a))
            }
        },
        (FactorModel::Unary { .. }, FactorModel::Dense { .. }) => Some((b, a)),
        _ => Some((a, b)),
    }
}

/// Combining the two factors does not fail: shared variables have the same
/// cardinality in both, and a combined table has a size that fits in a `usize`.
pub open spec fn combine_ok<V>(a: FactorModel<V>, b: FactorModel<V>) -> bool {
    &&& cards_agree(model_scope(a), model_card(a), model_scope(b), model_card(b))
    &&& combined_operands(a, b) matches Some((l, r)) ==> shape_size(
        padded(combined_card(model_scope(l), model_card(l), model_scope(r), model_card(r))),
    ) <= usize::MAX
}

/// The factor that remains when the variables `vars` are eliminated from
/// `m`, summarizing eliminated blocks with `sum`.
///
/// A reduced dense factor is represented by the number of variables that
/// remain: none gives a scalar factor, one a unary factor, more a dense one.
pub open spec fn reduce_model<V, S: Fn(&Vec<V>) -> V>(m: FactorModel<V>, vars: Seq<VariableId>, sum: S) -> FactorModel<V> {
    match m {
        FactorModel::Dense { scope, card, data } => {
            let t = reduction(scope, card, data, vars, sum);
            if t.0.len() == 0 {
                FactorModel::Scalar { value: t.2[0] }
            } else if t.0.len() == 1 {
                FactorModel::Unary { var: t.0[0], data: t.2 }
            } else {
                dense_model(t)
            }
        },
        FactorModel::Scalar { .. } => m,
        FactorModel::Unary { var, data } => {
            if vars.contains(var) {
                FactorModel::Scalar { value: apply_block(sum, data) }
            } else {
                m
            }
        },
    }
}

/// Reducing `m` does not fail: where a single variable of a dense factor
/// remains, it has at least one state.
pub open spec fn reduce_ok<V>(m: FactorModel<V>, vars: Seq<VariableId>) -> bool {
    match m {
        FactorModel::Dense { scope, card, .. } => forall|a: int|
            0 <= a < scope.len() && !vars.contains(#[trigger] scope[a]) && (forall|b: int|
                0 <= b < scope.len() && b != a ==> vars.contains(scope[b])) ==> card[a] > 0,
        _ => true,
    }
}

/// Each value of `data` divided by the semiring sum of `data`.
pub open spec fn normalized<V, D: Fn(&V, &V) -> V, S: Fn(&Vec<V>) -> V>(data: Seq<V>, sum: S, quotient: D) -> Seq<V> {
    let z = apply_block(sum, data);
    Seq::new(data.len(), |k: int| apply2(quotient, data[k], z))
}

/// The normalization of `m`: its values divided by their semiring sum; a
/// scalar factor normalizes to the unit value.
pub open spec fn normalize_model<V, M, S: Fn(&Vec<V>) -> V, D: Fn(&V, &V) -> V>(
    m: FactorModel<V>,
    ops: SemiringOps<V, M, S, D>,
) -> FactorModel<V> {
    match m {
        FactorModel::Dense { scope, card, data } => FactorModel::Dense {
            scope,
            card,
            data: normalized(data, ops.sum, ops.quotient),
        },
        FactorModel::Scalar { .. } => FactorModel::Scalar { value: ops.unit },
        FactorModel::Unary { var, data } => FactorModel::Unary { var, data: normalized(data, ops.sum, ops.quotient) },
    }
}

/// Two factors can be compared: they have the same representation, scope and
/// cardinalities.
pub open spec fn comparable<V>(a: FactorModel<V>, b: FactorModel<V>) -> bool {
    match (a, b) {
        (FactorModel::Dense { scope, card, .. }, FactorModel::Dense { scope: s2, card: c2, .. }) => scope == s2 && card
            == c2,
        (FactorModel::Scalar { .. }, FactorModel::Scalar { .. }) => true,
        (FactorModel::Unary { var, data }, FactorModel::Unary { var: v2, data: d2 }) => var == v2 && data.len()
            == d2.len(),
        _ => false,
    }
}

/// `m` is a dense factor whose scope lists the variables of `s`, giving each
/// the cardinality that `c` gives it, with a table no larger than one with
/// cardinalities `c`.
pub open spec fn keeps_shape<V>(m: FactorModel<V>, s: Seq<VariableId>, c: Seq<usize>) -> bool {
    match m {
        FactorModel::Dense { scope, card, .. } => {
            &&& scope.len() == card.len()
            &&& scope.len() == s.len()
            &&& distinct_vars(scope)
            &&& forall|x: VariableId| #[trigger] scope.contains(x) <==> s.contains(x)
            &&& forall|a: int| 0 <= a < scope.len() ==> #[trigger] card[a] == c[position_of(s, scope[a])]
            &&& shape_size(padded(card)) <= shape_size(padded(c))
        },
        _ => false,
    }
}

/// A well-formed dense factor keeps its own shape.
pub proof fn lemma_keeps_own_shape<V>(scope: Seq<VariableId>, card: Seq<usize>, data: Seq<V>)
    requires
        scope.len() == card.len(),
        distinct_vars(scope),
    ensures
        keeps_shape(FactorModel::Dense { scope, card, data }, scope, card),
{
    assert forall|a: int| 0 <= a < scope.len() implies #[trigger] card[a] == card[position_of(scope, scope[a])] by {
        lemma_position_of(scope, a);
    }
}

/// Combining a dense factor with a unary factor over one of its variables,
/// with that variable's cardinality, does not fail and keeps the dense
/// factor's shape.
pub proof fn lemma_combine_in_scope<V, M: Fn(&V, &V) -> V>(
    m: FactorModel<V>,
    s: Seq<VariableId>,
    c: Seq<usize>,
    x: VariableId,
    d: Seq<V>,
    product: M,
)
    requires
        keeps_shape(m, s, c),
        distinct_vars(s),
        s.len() == c.len(),
        s.len() <= usize::MAX,
        shape_size(padded(c)) <= usize::MAX,
        s.contains(x),
        d.len() == c[position_of(s, x)],
    ensures
        combine_ok(m, FactorModel::Unary { var: x, data: d }),
        keeps_shape(combine_model(m, FactorModel::Unary { var: x, data: d }, product), s, c),
{
    let u = model_scope(m);
    let cu = model_card(m);
    let t = seq![x];
    let ct = seq![d.len() as usize];
    let w = sorted_union(u, t);
    lemma_sorted_union_exists(u, t);
    let card = combined_card(u, cu, t, ct);
    let px = position_of(s, x);
    assert(0 <= px < s.len() && s[px] == x);
    assert(u.contains(x));
    let ux = position_of(u, x);
    assert(0 <= ux < u.len() && u[ux] == x);
    assert(cu[ux] == c[px]);
    assert(t[0] == x);
    assert(t.contains(x));
    lemma_position_of(t, 0);
    assert(position_of(t, x) == 0);
    assert(distinct_vars(w)) by {
        assert forall|i: int, j: int| 0 <= i < w.len() && 0 <= j < w.len() && i != j implies w[i]@ != w[j]@ by {
            if i < j {
                assert(w[i]@ < w[j]@);
            } else {
                assert(w[j]@ < w[i]@);
            }
        }
    }
    let mm = Seq::new(w.len(), |o: int| position_of(u, w[o]) as usize);
    assert forall|y: VariableId| #[trigger] w.contains(y) <==> s.contains(y) by {
        if s.contains(y) {
            assert(u.contains(y));
        }
    }
    lemma_same_vars_len(w, s);
    assert forall|o: int| 0 <= o < w.len() implies (#[trigger] mm[o]) < u.len() && u[mm[o] as int] == w[o] by {
        assert(w.contains(w[o]));
        assert(u.contains(w[o]) || t.contains(w[o]));
        if t.contains(w[o]) {
            assert(w[o] == x);
        }
    }
    assert(distinct_axes(mm, u.len() as int)) by {
        assert forall|o1: int, o2: int| 0 <= o1 < mm.len() && 0 <= o2 < mm.len() && o1 != o2 implies mm[o1] != mm[o2] by {
            assert(u[mm[o1] as int] == w[o1]);
            assert(u[mm[o2] as int] == w[o2]);
        }
    }
    assert forall|o: int| 0 <= o < w.len() implies #[trigger] card[o] == cu[mm[o] as int] by {
        if t.contains(w[o]) {
            assert(w[o] == x);
        }
    }
    assert(card =~= project(cu, mm));
    lemma_size_project_le(cu, mm);
    assert(cards_agree(u, cu, t, ct)) by {
        assert forall|a: int, b: int| 0 <= a < u.len() && 0 <= b < t.len() && #[trigger] u[a] == #[trigger] t[b] implies cu[a]
            == ct[b] by {
            assert(u[a] == x);
            assert(cu[a] == c[position_of(s, u[a])]);
        }
    }
    let r = combine_model(m, FactorModel::Unary { var: x, data: d }, product);
    assert(model_scope(r) == w);
    assert(model_card(r) == card);
    assert forall|y: VariableId| #[trigger] w.contains(y) <==> s.contains(y) by {
        if s.contains(y) {
            assert(u.contains(y));
        }
    }
    assert forall|o: int| 0 <= o < w.len() implies #[trigger] card[o] == c[position_of(s, w[o])] by {
        assert(u[mm[o] as int] == w[o]);
        assert(cu[mm[o] as int] == c[position_of(s, u[mm[o] as int])]);
    }
}

/// Combining is commutative when the product is: for factors that can be
/// combined, and a product that gives the same value for `(a, b)` as for
/// `(b, a)`, combining `a` with `b` gives the same factor (representation,
/// scope order, cardinalities and values) as combining `b` with `a`.
pub proof fn lemma_combine_commutes<V, M: Fn(&V, &V) -> V>(a: FactorKind<V>, b: FactorKind<V>, product: M)
    requires
        a.wf(),
        b.wf(),
        combine_ok(a@, b@),
        forall|x: V, y: V| #[trigger] apply2(product, x, y) == apply2(product, y, x),
    ensures
        combine_model(a@, b@, product) == combine_model(b@, a@, product),
{
    match (a@, b@) {
        (FactorModel::Dense { scope, card, data }, FactorModel::Dense { scope: s2, card: c2, data: d2 }) => {
            lemma_combination_commutes(scope, card, data, s2, c2, d2, product);
        },
        (FactorModel::Unary { var, data }, FactorModel::Unary { var: v2, data: d2 }) => {
            if var == v2 {
                if let (FactorKind::Unary(u1), FactorKind::Unary(u2)) = (a, b) {
                    u1.lemma_wf();
                    u2.lemma_wf();
                }
                assert(seq![var][0] == seq![v2][0]);
                assert(data.len() == d2.len());
                assert(pointwise(data, d2, product) =~= pointwise(d2, data, product));
            }
        },
        (FactorModel::Scalar { value }, FactorModel::Scalar { value: v2 }) => {
            assert(apply2(product, value, v2) == apply2(product, v2, value));
        },
        _ => {},
    }
}

/// The combination of two factors is over the union of their scopes.
pub proof fn lemma_combine_scope<V, M: Fn(&V, &V) -> V>(a: FactorModel<V>, b: FactorModel<V>, product: M)
    ensures
        forall|x: VariableId| #[trigger] model_scope(combine_model(a, b, product)).contains(x) <==> (model_scope(
            a,
        ).contains(x) || model_scope(b).contains(x)),
{
    lemma_sorted_union_exists(model_scope(a), model_scope(b));
    lemma_sorted_union_exists(model_scope(b), model_scope(a));
    let r = combine_model(a, b, product);
    assert forall|x: VariableId| #[trigger] model_scope(r).contains(x) <==> (model_scope(a).contains(x) || model_scope(
        b,
    ).contains(x)) by {
        match (a, b) {
            (FactorModel::Unary { var, .. }, FactorModel::Unary { var: v2, .. }) => {
                if var == v2 {
                    assert(model_scope(r) == seq![var]);
                    assert(model_scope(a) == seq![var]);
                    assert(model_scope(b) == seq![var]);
                }
            },
            _ => {},
        }
    }
}

/// Eliminating variables that are not in a factor's scope leaves its
/// variables, cardinalities and values unchanged.
pub proof fn lemma_reduce_absent<V, Sm: Fn(&Vec<V>) -> V>(f: FactorKind<V>, vars: Seq<VariableId>, sum: Sm)
    requires
        f.wf(),
        forall|a: int| 0 <= a < model_scope(f@).len() ==> !vars.contains(#[trigger] model_scope(f@)[a]),
    ensures
        model_scope(reduce_model(f@, vars, sum)) == model_scope(f@),
        model_card(reduce_model(f@, vars, sum)) == model_card(f@),
        model_data(reduce_model(f@, vars, sum)) == model_data(f@),
{
    match f {
        FactorKind::Dense(d) => {
            let scope = d.scope_view();
            let card = d.card_view();
            let data = d.data_view();
            let empty = Seq::<usize>::empty();
            assert forall|a: int| 0 <= a < scope.len() implies !vars.contains(#[trigger] scope[a]) by {
                assert(model_scope(f@)[a] == scope[a]);
            }
            assert(lists_axes(empty, scope, vars, true));
            let marg = axes_by(scope, vars, true);
            lemma_lists_axes_unique(marg, empty, scope, vars, true);
            assert(marg.len() == 0);
            if scope.len() == 0 {
                assert(card =~= Seq::<usize>::empty());
                assert(data =~= seq![data[0]]);
            } else if scope.len() == 1 {
                assert(card =~= seq![card[0]]);
                lemma_size_single(card[0]);
                assert(scope =~= seq![scope[0]]);
            }
        },
        FactorKind::Scalar(_) => {},
        FactorKind::Unary(u) => {
            u.lemma_wf();
            assert(model_scope(f@)[0] == u.var_view());
        },
    }
}

impl<V> From<DenseFactor<V>> for FactorKind<V> {
    fn from(factor: DenseFactor<V>) -> (r: Self) {
        FactorKind::Dense(factor)
    }
}

impl<V> vstd::std_specs::convert::FromSpecImpl<DenseFactor<V>> for FactorKind<V> {
    open spec fn obeys_from_spec() -> bool {
        true
    }

    open spec fn from_spec(factor: DenseFactor<V>) -> Self {
        FactorKind::Dense(factor)
    }
}

impl<V> From<ScalarFactor<V>> for FactorKind<V> {
    fn from(factor: ScalarFactor<V>) -> (r: Self) {
        FactorKind::Scalar(factor)
    }
}

impl<V> vstd::std_specs::convert::FromSpecImpl<ScalarFactor<V>> for FactorKind<V> {
    open spec fn obeys_from_spec() -> bool {
        true
    }

    open spec fn from_spec(factor: ScalarFactor<V>) -> Self {
        FactorKind::Scalar(factor)
    }
}

impl<V> From<UnaryFactor<V>> for FactorKind<V> {
    fn from(factor: UnaryFactor<V>) -> (r: Self) {
        FactorKind::Unary(factor)
    }
}

impl<V> vstd::std_specs::convert::FromSpecImpl<UnaryFactor<V>> for FactorKind<V> {
    open spec fn obeys_from_spec() -> bool {
        true
    }

    open spec fn from_spec(factor: UnaryFactor<V>) -> Self {
        FactorKind::Unary(factor)
    }
}

impl<V: Copy> Clone for FactorKind<V> {
    fn clone(&self) -> (r: Self)
        ensures
            r@ == self@,
            r.scope_view() == self.scope_view(),
            self.wf() ==> r.wf(),
    {
        match self {
            FactorKind::Dense(d) => FactorKind::Dense(d.clone()),
            FactorKind::Scalar(s) => FactorKind::Scalar(s.clone()),
            FactorKind::Unary(u) => FactorKind::Unary(u.clone()),
        }
    }
}

impl<V> FactorKind<V> {
    /// The contained factor is well formed.
    pub open spec fn wf(&self) -> bool {
        match self {
            FactorKind::Dense(d) => d.wf(),
            FactorKind::Scalar(_) => true,
            FactorKind::Unary(u) => u.wf(),
        }
    }

    /// The scope of a factor is the scope of its model.
    pub proof fn lemma_scope(&self)
        requires
            self.wf(),
        ensures
            self.scope_view() == model_scope(self@),
            self.scope_view().len() == 1 ==> self.scope_view()[0] == model_scope(self@)[0],
            distinct_vars(self.scope_view()),
            self.card_view() == model_card(self@),
            model_card(self@).len() == model_scope(self@).len(),
    {
        match self {
            FactorKind::Dense(d) => {},
            FactorKind::Scalar(s) => {
                s.lemma_empty();
            },
            FactorKind::Unary(u) => {
                u.lemma_wf();
            },
        }
    }
}

impl<V: Copy> FactorKind<V> {
    /// Combines this factor with another factor.
    ///
    /// The resulting factor has scope equal to the union of the two input
    /// scopes; see [`combine_model`] for its representation and values.
    pub fn combine<M: Fn(&V, &V) -> V, S: Fn(&Vec<V>) -> V, D: Fn(&V, &V) -> V>(
        self,
        other: FactorKind<V>,
        ops: &SemiringOps<V, M, S, D>,
    ) -> (r: FactorKind<V>)
        requires
            self.wf(),
            other.wf(),
            semiring_ok(*ops),
            combine_ok(self@, other@),
        ensures
            r.wf(),
            r@ == combine_model(self@, other@, ops.product),
    {
        let product = &ops.product;
        match (self, other) {
            (FactorKind::Dense(d), FactorKind::Dense(o)) => FactorKind::Dense(d.combine_dense(&o, product)),
            (FactorKind::Dense(d), FactorKind::Unary(u)) => {
                proof {
                    u.lemma_wf();
                }
                let ud = u.to_dense();
                FactorKind::Dense(d.combine_dense(&ud, product))
            },
            (FactorKind::Dense(d), FactorKind::Scalar(s)) => FactorKind::Dense(d.combine_value(s.value(), product)),
            (FactorKind::Unary(u), FactorKind::Dense(d)) => {
                proof {
                    u.lemma_wf();
                    assert forall|a: int, b: int| 0 <= a < d.scope_view().len() && 0 <= b < 1
                        && #[trigger] d.scope_view()[a] == #[trigger] seq![u.var_view()][b] implies d.card_view()[a]
                        == seq![u.data_view().len() as usize][b] by {
                        assert(u.scope_view()[b] == d.scope_view()[a]);
                    }
                }
                let ud = u.to_dense();
                FactorKind::Dense(d.combine_dense(&ud, product))
            },
            (FactorKind::Unary(u), FactorKind::Unary(o)) => {
                proof {
                    u.lemma_wf();
                    o.lemma_wf();
                }
                if u.var().same(o.var()) {
                    proof {
                        let s1 = seq![u.var_view()];
                        let s2 = seq![o.var_view()];
                        assert(s1[0] == s2[0]);
                        assert(seq![u.data_view().len() as usize][0] == seq![o.data_view().len() as usize][0]);
                    }
                    FactorKind::Unary(u.combine_pointwise(&o, product))
                } else if u.var().precedes(o.var()) {
                    let ud = u.to_dense();
                    let od = o.to_dense();
                    FactorKind::Dense(ud.combine_dense(&od, product))
                } else {
                    let ud = u.to_dense();
                    let od = o.to_dense();
                    FactorKind::Dense(od.combine_dense(&ud, product))
                }
            },
            (FactorKind::Unary(u), FactorKind::Scalar(s)) => FactorKind::Unary(u.combine_value(s.value(), product)),
            (FactorKind::Scalar(s), FactorKind::Scalar(o)) => FactorKind::Scalar(
                ScalarFactor::new(o.combine_value(s.value(), product)),
            ),
            (FactorKind::Scalar(s), FactorKind::Unary(u)) => FactorKind::Unary(u.combine_value(s.value(), product)),
            (FactorKind::Scalar(s), FactorKind::Dense(d)) => FactorKind::Dense(d.combine_value(s.value(), product)),
        }
    }

    /// Eliminates the specified variables from the factor.
    ///
    /// Variables not present in the factor's scope have no effect; see
    /// [`reduce_model`] for the result.
    pub fn reduce<M: Fn(&V, &V) -> V, S: Fn(&Vec<V>) -> V, D: Fn(&V, &V) -> V>(
        self,
        vars: &[VariableId],
        ops: &SemiringOps<V, M, S, D>,
    ) -> (r: FactorKind<V>)
        requires
            self.wf(),
            semiring_ok(*ops),
            reduce_ok(self@, vars@),
        ensures
            r.wf(),
            r@ == reduce_model(self@, vars@, ops.sum),
            forall|x: VariableId| #[trigger] model_scope(r@).contains(x) <==> (model_scope(self@).contains(x)
                && !vars@.contains(x)),
            forall|a: int| 0 <= a < model_scope(r@).len() ==> #[trigger] model_card(r@)[a] == model_card(
                self@,
            )[position_of(model_scope(self@), model_scope(r@)[a])],
    {
        match self {
            FactorKind::Dense(d) => {
                let ghost scope = d.scope_view();
                let ghost card = d.card_view();
                let reduced = d.reduce_kernel(vars, &ops.sum);
                let n = reduced.ndim();
                if n == 0 {
                    proof {
                        assert(reduced.card_view() =~= Seq::<usize>::empty());
                        assert(model_scope(FactorModel::<V>::Scalar { value: reduced.data_view()[0] }) =~= reduced.scope_view());
                    }
                    let data = reduced.into_data();
                    let value = data[0];
                    FactorKind::Scalar(ScalarFactor::new(value))
                } else if n == 1 {
                    proof {
                        let x = reduced.scope_view()[0];
                        assert(reduced.scope_view().contains(x));
                        let a = position_of(scope, x);
                        assert(scope.contains(x));
                        assert(0 <= a < scope.len() && scope[a] == x);
                        assert forall|b: int| 0 <= b < scope.len() && b != a implies vars@.contains(scope[b]) by {
                            if !vars@.contains(scope[b]) {
                                assert(reduced.scope_view().contains(scope[b]));
                                assert(reduced.scope_view()[0] == scope[b]);
                            }
                        }
                        assert(reduced.card_view()[0] == card[a]);
                        lemma_size_single(reduced.card_view()[0]);
                        assert(reduced.card_view() =~= seq![reduced.card_view()[0]]);
                        assert(reduced.scope_view() =~= seq![x]);
                    }
                    FactorKind::Unary(dense_into_unary(reduced))
                } else {
                    FactorKind::Dense(reduced)
                }
            },
            FactorKind::Scalar(s) => {
                proof {
                    s.lemma_empty();
                }
                FactorKind::Scalar(s)
            },
            FactorKind::Unary(u) => {
                let mut i: usize = 0;
                let var = u.var();
                let mut found = false;
                while i < vars.len()
                    invariant
                        i <= vars.len(),
                        found == (exists|j: int| 0 <= j < i && vars@[j] == var),
                    decreases vars.len() - i,
                {
                    if vars[i].same(var) {
                        found = true;
                    }
                    i += 1;
                }
                proof {
                    u.lemma_wf();
                    assert(model_scope(FactorKind::Unary(u)@) =~= seq![var]);
                    lemma_position_of(seq![var], 0);
                    assert(seq![var][0] == var);
                }
                if found {
                    let data = u.into_data();
                    let value = (ops.sum)(&data);
                    proof {
                        lemma_apply_block(ops.sum, data, value);
                        assert forall|x: VariableId| !(#[trigger] seq![var].contains(x) && !vars@.contains(x)) by {
                            if seq![var].contains(x) {
                                assert(x == var);
                            }
                        }
                    }
                    FactorKind::Scalar(ScalarFactor::new(value))
                } else {
                    FactorKind::Unary(u)
                }
            },
        }
    }

    /// Normalizes the factor: divides each of its values by their semiring
    /// sum. A scalar factor normalizes to the unit value.
    pub fn normalize<M: Fn(&V, &V) -> V, S: Fn(&Vec<V>) -> V, D: Fn(&V, &V) -> V>(
        self,
        ops: &SemiringOps<V, M, S, D>,
    ) -> (r: FactorKind<V>)
        requires
            self.wf(),
            semiring_ok(*ops),
        ensures
            r.wf(),
            r@ == normalize_model(self@, *ops),
    {
        match self {
            FactorKind::Dense(d) => {
                let (scope, card, data) = d.into_parts();
                let values = normalize_values(&data, ops);
                FactorKind::Dense(DenseFactor::new(scope, card, values))
            },
            FactorKind::Scalar(_) => FactorKind::Scalar(ScalarFactor::new(ops.unit)),
            FactorKind::Unary(u) => {
                let var = u.var();
                proof {
                    u.lemma_wf();
                }
                let data = u.into_data();
                let values = normalize_values(&data, ops);
                FactorKind::Unary(UnaryFactor::new(var, values))
            },
        }
    }

    /// Returns the distance between corresponding values of two factors of
    /// the same representation, scope and cardinalities.
    pub fn distance<Dt, Dist: Fn(&Vec<V>, &Vec<V>) -> Dt, Mx: Fn(&Dt, &Dt) -> Dt, W: Fn(&Dt, &Dt) -> bool>(
        &self,
        other: &FactorKind<V>,
        ops: &ResidualOps<Dt, Dist, Mx, W>,
    ) -> (d: Dt)
        requires
            self.wf(),
            other.wf(),
            comparable(self@, other@),
            residual_ok::<V, Dt, Dist, Mx, W>(*ops),
        ensures
            d == apply_blocks(ops.dist, model_data(self@), model_data(other@)),
    {
        match (self, other) {
            (FactorKind::Dense(a), FactorKind::Dense(b)) => {
                let x = copied(a.data());
                let y = copied(b.data());
                let d = (ops.dist)(&x, &y);
                proof {
                    lemma_apply_blocks(ops.dist, x, y, d);
                }
                d
            },
            (FactorKind::Unary(a), FactorKind::Unary(b)) => {
                let x = copied(a.data());
                let y = copied(b.data());
                let d = (ops.dist)(&x, &y);
                proof {
                    lemma_apply_blocks(ops.dist, x, y, d);
                }
                d
            },
            (FactorKind::Scalar(a), FactorKind::Scalar(b)) => {
                let mut x: Vec<V> = Vec::new();
                x.push(*a.value());
                let mut y: Vec<V> = Vec::new();
                y.push(*b.value());
                proof {
                    assert(x@ =~= seq![a.value_view()]);
                    assert(y@ =~= seq![b.value_view()]);
                }
                let d = (ops.dist)(&x, &y);
                proof {
                    lemma_apply_blocks(ops.dist, x, y, d);
                }
                d
            },
            _ => {
                proof {
                    assert(false);
                }
                unreached()
            },
        }
    }
}

/// Divides each value by the semiring sum of all values.
fn normalize_values<V: Copy, M: Fn(&V, &V) -> V, S: Fn(&Vec<V>) -> V, D: Fn(&V, &V) -> V>(
    data: &Vec<V>,
    ops: &SemiringOps<V, M, S, D>,
) -> (r: Vec<V>)
    requires
        semiring_ok(*ops),
    ensures
        r@ == normalized(data@, ops.sum, ops.quotient),
{
    let z = (ops.sum)(data);
    proof {
        lemma_apply_block(ops.sum, *data, z);
    }
    let mut r: Vec<V> = Vec::new();
    let mut i: usize = 0;
    while i < data.len()
        invariant
            i <= data.len(),
            r.len() == i,
            semiring_ok(*ops),
            z == apply_block(ops.sum, data@),
            forall|j: int| 0 <= j < i ==> #[trigger] r@[j] == apply2(ops.quotient, data@[j], z),
        decreases data.len() - i,
    {
        let x = (ops.quotient)(&data[i], &z);
        proof {
            crate::algebra::lemma_apply2(ops.quotient, data@[i as int], z, x);
        }
        r.push(x);
        i += 1;
    }
    assert(r@ =~= normalized(data@, ops.sum, ops.quotient));
    r
}

impl<V> DiscreteFactor for FactorKind<V> {
    open spec fn card_view(&self) -> Seq<usize> {
        match self {
            FactorKind::Dense(d) => d.card_view(),
            FactorKind::Scalar(s) => s.card_view(),
            FactorKind::Unary(u) => u.card_view(),
        }
    }

    fn card(&self) -> (c: &[usize]) {
        match self {
            FactorKind::Dense(d) => d.card(),
            FactorKind::Scalar(s) => s.card(),
            FactorKind::Unary(u) => u.card(),
        }
    }
}

impl<V> Factor for FactorKind<V> {
    open spec fn scope_view(&self) -> Seq<VariableId> {
        match self {
            FactorKind::Dense(d) => d.scope_view(),
            FactorKind::Scalar(s) => s.scope_view(),
            FactorKind::Unary(u) => u.scope_view(),
        }
    }

    fn scope(&self) -> (s: &[VariableId]) {
        match self {
            FactorKind::Dense(d) => d.scope(),
            FactorKind::Scalar(s) => s.scope(),
            FactorKind::Unary(u) => u.scope(),
        }
    }
}

} // verus!
