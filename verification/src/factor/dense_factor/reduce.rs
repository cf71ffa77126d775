//! Dense factor reduction kernels.
//!
//! Reduction eliminates variables from a factor. The retained axes are placed
//! before the eliminated ones, so that each assignment of the retained
//! variables corresponds to one block of values, which the semiring sum
//! summarizes into one value of the result.

use vstd::prelude::*;

use super::align::{
    covers, is_sorted_axes, lemma_position_of, lemma_sorted_unique, lists, lists_axes, position_of, sorted_axes,
};
use super::DenseFactor;
use crate::algebra::{apply_block, lemma_apply_block, total_block};
use crate::factor::{distinct_vars, sorted_vars, DiscreteFactor, Factor};
use crate::layout::{
    distinct_axes, flat_index, flat_of_projection, in_bounds, lemma_flat_bound, lemma_flat_unflatten,
    lemma_size_padded, lemma_size_project_le,
    padded, project, shape_size, shape_size_exec, unflatten, unflatten_exec,
};
use crate::variable::VariableId;

verus! {

broadcast use crate::variable::lemma_variable_id_view_injective;

/// The axes of `scope` whose variable occurs in `vars` (when `eliminated`) or
/// does not occur in it (otherwise), in increasing order of their variables.
pub open spec fn axes_by(scope: Seq<VariableId>, vars: Seq<VariableId>, eliminated: bool) -> Seq<usize> {
    choose|k: Seq<usize>| lists_axes(k, scope, vars, eliminated)
}

/// The variables of `scope` at the axes `axes`.
pub open spec fn scope_at(scope: Seq<VariableId>, axes: Seq<usize>) -> Seq<VariableId> {
    Seq::new(axes.len(), |t: int| scope[axes[t] as int])
}

/// For each axis, its position in the permutation `order`.
pub open spec fn inverse_axes(order: Seq<usize>) -> Seq<usize> {
    Seq::new(order.len(), |a: int| (choose|t: int| 0 <= t < order.len() && order[t] == a) as usize)
}

/// `order` lists every axis of a table with `n` axes exactly once.
pub open spec fn is_permutation(order: Seq<usize>, n: int) -> bool {
    &&& order.len() == n
    &&& distinct_axes(order, n)
    &&& forall|a: int| 0 <= a < n ==> #[trigger] lists(order, a)
}

/// The block of values that one assignment `kidx` of the retained axes
/// gathers: the values of the table for `kidx` extended by each assignment of
/// the eliminated axes, in row-major order. The axes are ordered by `order`,
/// retained axes first.
pub open spec fn block_values<V>(
    data: Seq<V>,
    card: Seq<usize>,
    order: Seq<usize>,
    kidx: Seq<usize>,
    elim_shape: Seq<usize>,
) -> Seq<V> {
    Seq::new(
        shape_size(elim_shape),
        |e: int| data[flat_index(project(kidx + unflatten(e as nat, elim_shape), inverse_axes(order)), card) as int],
    )
}

/// The values of the reduced table: the semiring sum of each block.
pub open spec fn reduced_values<V, S: Fn(&Vec<V>) -> V>(
    data: Seq<V>,
    card: Seq<usize>,
    order: Seq<usize>,
    kept_shape: Seq<usize>,
    elim_shape: Seq<usize>,
    sum: S,
) -> Seq<V> {
    Seq::new(
        shape_size(kept_shape),
        |j: int| apply_block(sum, block_values(data, card, order, unflatten(j as nat, kept_shape), elim_shape)),
    )
}

/// Each value of a reduced table is the semiring sum of the values of the
/// table over the assignments that extend one assignment of the retained axes.
///
/// The axes of the table are ordered by the permutation `order`, the
/// `kept_shape.len()` retained axes first. For an assignment `idx` of the
/// retained axes, the value at its row-major position in the reduced table is
/// `sum` applied to the returned block, which has one value per assignment of
/// the eliminated axes: for every assignment `x` of the whole table whose
/// retained axes take the states of `idx`, the block holds the table's value
/// for `x` at the row-major position of the states that `x` gives the
/// eliminated axes.
pub proof fn lemma_reduced_at<V, S: Fn(&Vec<V>) -> V>(
    data: Seq<V>,
    card: Seq<usize>,
    order: Seq<usize>,
    kept_shape: Seq<usize>,
    elim_shape: Seq<usize>,
    sum: S,
    idx: Seq<usize>,
) -> (block: Seq<V>)
    requires
        card.len() <= usize::MAX,
        is_permutation(order, card.len() as int),
        project(card, order) == kept_shape + elim_shape,
        in_bounds(idx, kept_shape),
    ensures
        flat_index(idx, kept_shape) < reduced_values(data, card, order, kept_shape, elim_shape, sum).len(),
        reduced_values(data, card, order, kept_shape, elim_shape, sum)[flat_index(idx, kept_shape) as int]
            == apply_block(sum, block),
        block.len() == shape_size(elim_shape),
        forall|x: Seq<usize>|
            in_bounds(x, card) && project(x, order.take(kept_shape.len() as int)) == idx ==> flat_index(
                project(x, order.skip(kept_shape.len() as int)),
                elim_shape,
            ) < block.len() && block[flat_index(project(x, order.skip(kept_shape.len() as int)), elim_shape) as int]
                == data[flat_index(x, card) as int],
{
    let nk = kept_shape.len() as int;
    let n = order.len() as int;
    lemma_flat_bound(idx, kept_shape);
    lemma_flat_unflatten(idx, kept_shape);
    let block = block_values(data, card, order, idx, elim_shape);
    assert(project(card, order).len() == n);
    assert((kept_shape + elim_shape).len() == n);
    assert forall|x: Seq<usize>|
        in_bounds(x, card) && project(x, order.take(nk)) == idx implies flat_index(
            project(x, order.skip(nk)),
            elim_shape,
        ) < block.len() && block[flat_index(project(x, order.skip(nk)), elim_shape) as int]
            == data[flat_index(x, card) as int] by {
        let ex = project(x, order.skip(nk));
        assert forall|s: int| 0 <= s < ex.len() implies #[trigger] ex[s] < elim_shape[s] by {
            assert(order.skip(nk)[s] == order[nk + s]);
            assert(project(card, order)[nk + s] == card[order[nk + s] as int]);
            assert((kept_shape + elim_shape)[nk + s] == elim_shape[s]);
        }
        assert(in_bounds(ex, elim_shape));
        lemma_flat_bound(ex, elim_shape);
        lemma_flat_unflatten(ex, elim_shape);
        let e = flat_index(ex, elim_shape);
        let inv = inverse_axes(order);
        let full = project(idx + ex, inv);
        assert forall|a: int| 0 <= a < x.len() implies #[trigger] full[a] == x[a] by {
            assert(lists(order, a));
            let t = choose|t: int| 0 <= t < order.len() && order[t] == a;
            assert(inv[a] == t as usize);
            if t < nk {
                assert(idx[t] == project(x, order.take(nk))[t]);
                assert(order.take(nk)[t] == order[t]);
            } else {
                assert(ex[t - nk] == x[order.skip(nk)[t - nk] as int]);
                assert(order.skip(nk)[t - nk] == order[t]);
            }
        }
        assert(full =~= x);
    }
    block
}

/// The table that remains when the variables `vars` are eliminated from the
/// factor with scope `scope`, cardinalities `card` and values `data`: its
/// scope, cardinalities and values. Where no variable of `vars` is in the
/// scope, the table is unchanged.
pub open spec fn reduction<V, S: Fn(&Vec<V>) -> V>(
    scope: Seq<VariableId>,
    card: Seq<usize>,
    data: Seq<V>,
    vars: Seq<VariableId>,
    sum: S,
) -> (Seq<VariableId>, Seq<usize>, Seq<V>) {
    let keep = axes_by(scope, vars, false);
    let marg = axes_by(scope, vars, true);
    if marg.len() == 0 {
        (scope, card, data)
    } else {
        (
            scope_at(scope, keep),
            project(card, keep),
            reduced_values(data, card, keep + marg, project(card, keep), project(card, marg), sum),
        )
    }
}

/// Lists of axes with the same description are equal.
pub proof fn lemma_lists_axes_unique(
    k1: Seq<usize>,
    k2: Seq<usize>,
    scope: Seq<VariableId>,
    other: Seq<VariableId>,
    shared: bool,
)
    requires
        distinct_vars(scope),
        lists_axes(k1, scope, other, shared),
        lists_axes(k2, scope, other, shared),
    ensures
        k1 == k2,
{
    let v1 = scope_at(scope, k1);
    let v2 = scope_at(scope, k2);
    assert(sorted_vars(v1));
    assert(sorted_vars(v2));
    assert forall|v: VariableId| v1.contains(v) <==> v2.contains(v) by {
        if v1.contains(v) {
            let t = choose|t: int| 0 <= t < v1.len() && v1[t] == v;
            assert(lists(k2, k1[t] as int));
            let t2 = choose|t2: int| 0 <= t2 < k2.len() && #[trigger] k2[t2] == k1[t];
            assert(v2[t2] == v);
        }
        if v2.contains(v) {
            let t = choose|t: int| 0 <= t < v2.len() && v2[t] == v;
            assert(lists(k1, k2[t] as int));
            let t1 = choose|t1: int| 0 <= t1 < k1.len() && #[trigger] k1[t1] == k2[t];
            assert(v1[t1] == v);
        }
    }
    lemma_sorted_unique(v1, v2);
    assert(v1 == v2);
    assert(v1.len() == k1.len());
    assert(v2.len() == k2.len());
    assert(k1.len() == k2.len());
    assert forall|t: int| 0 <= t < k1.len() implies k1[t] == k2[t] by {
        assert(v1[t] == v2[t]);
        assert(k1[t] < scope.len() && k2[t] < scope.len());
        assert(scope[k1[t] as int] == scope[k2[t] as int]);
    }
    assert(k1 =~= k2);
}

/// A list of axes in increasing order of distinct variables lists distinct axes.
pub proof fn lemma_lists_distinct(k: Seq<usize>, scope: Seq<VariableId>, other: Seq<VariableId>, shared: bool)
    requires
        lists_axes(k, scope, other, shared),
    ensures
        distinct_axes(k, scope.len() as int),
{
    assert forall|t1: int, t2: int| 0 <= t1 < k.len() && 0 <= t2 < k.len() && t1 != t2 implies k[t1] != k[t2] by {
        if t1 < t2 {
            assert(scope[k[t1] as int]@ < scope[k[t2] as int]@);
        } else {
            assert(scope[k[t2] as int]@ < scope[k[t1] as int]@);
        }
    }
}

/// Information needed to reduce a factor over a set of variables.
///
/// The reduction axes are rearranged to the end of the factor so that
/// assignments for the retained variables form contiguous logical blocks.
pub struct Reduction {
    /// Axis permutation: kept axes first, reduced axes second.
    pub order: Vec<usize>,
    /// Scope of the resulting factor.
    pub new_scope: Vec<VariableId>,
    /// Shape of the retained dimensions.
    pub kept_shape: Vec<usize>,
    /// Shape of the eliminated dimensions.
    pub elim_shape: Vec<usize>,
    /// Number of output elements.
    pub kept_size: usize,
    /// Number of input elements contributing to each output element.
    pub elim_size: usize,
}

impl Reduction {
    /// The plan for eliminating `vars` from a factor with scope `scope` and
    /// cardinalities `card`.
    pub open spec fn plans(&self, scope: Seq<VariableId>, card: Seq<usize>, vars: Seq<VariableId>) -> bool {
        let nk = self.new_scope.len() as int;
        let keep = self.order@.take(nk);
        let marg = self.order@.skip(nk);
        &&& 0 <= nk <= self.order.len()
        &&& self.order.len() == scope.len()
        &&& keep == axes_by(scope, vars, false)
        &&& marg == axes_by(scope, vars, true)
        &&& lists_axes(keep, scope, vars, false)
        &&& lists_axes(marg, scope, vars, true)
        &&& marg.len() > 0
        &&& is_permutation(self.order@, scope.len() as int)
        &&& self.new_scope@ == scope_at(scope, keep)
        &&& self.kept_shape@ == project(card, keep)
        &&& self.elim_shape@ == project(card, marg)
        &&& self.kept_size == shape_size(self.kept_shape@)
        &&& self.elim_size == shape_size(self.elim_shape@)
    }
}

/// Whether `v` occurs in `vars`.
fn contains_var(vars: &[VariableId], v: VariableId) -> (b: bool)
    ensures
        b == vars@.contains(v),
{
    let mut i: usize = 0;
    while i < vars.len()
        invariant
            i <= vars.len(),
            forall|j: int| 0 <= j < i ==> vars@[j] != v,
        decreases vars.len() - i,
    {
        if vars[i].same(v) {
            assert(vars@[i as int] == v);
            return true;
        }
        i += 1;
    }
    false
}

/// Builds the reduction plan for the specified variables.
///
/// Returns `None` when none of the requested variables appear in the factor
/// scope.
pub fn build_reduction(scope: &[VariableId], card: &[usize], vars: &[VariableId]) -> (r: Option<Reduction>)
    requires
        distinct_vars(scope@),
        scope.len() == card.len(),
        shape_size(padded(card@)) <= usize::MAX,
    ensures
        r is None <==> axes_by(scope@, vars@, true).len() == 0,
        r is None <==> (forall|a: int| 0 <= a < scope.len() ==> !vars@.contains(#[trigger] scope@[a])),
        r matches Some(plan) ==> plan.plans(scope@, card@, vars@),
{
    let sorted = sorted_axes(scope);
    let n = sorted.len();
    let mut idx_keep: Vec<usize> = Vec::new();
    let mut idx_marg: Vec<usize> = Vec::new();
    let mut new_scope: Vec<VariableId> = Vec::new();
    let mut t: usize = 0;
    while t < n
        invariant
            t <= n,
            n == sorted.len(),
            is_sorted_axes(sorted@, scope@),
            distinct_vars(scope@),
            idx_keep.len() + idx_marg.len() == t,
            new_scope@ == scope_at(scope@, idx_keep@),
            forall|w: int| 0 <= w < idx_keep.len() ==> (#[trigger] idx_keep@[w]) < scope.len()
                && !vars@.contains(scope@[idx_keep@[w] as int])
                && (t < n ==> scope@[idx_keep@[w] as int]@ < sorted@[t as int].0@),
            forall|w1: int, w2: int| 0 <= w1 < w2 < idx_keep.len() ==>
                scope@[(#[trigger] idx_keep@[w1]) as int]@ < scope@[(#[trigger] idx_keep@[w2]) as int]@,
            forall|w: int| 0 <= w < idx_marg.len() ==> (#[trigger] idx_marg@[w]) < scope.len()
                && vars@.contains(scope@[idx_marg@[w] as int])
                && (t < n ==> scope@[idx_marg@[w] as int]@ < sorted@[t as int].0@),
            forall|w1: int, w2: int| 0 <= w1 < w2 < idx_marg.len() ==>
                scope@[(#[trigger] idx_marg@[w1]) as int]@ < scope@[(#[trigger] idx_marg@[w2]) as int]@,
            forall|u: int| 0 <= u < t ==> (vars@.contains((#[trigger] sorted@[u]).0) ==> lists(idx_marg@, sorted@[u].1 as int))
                && (!vars@.contains(sorted@[u].0) ==> lists(idx_keep@, sorted@[u].1 as int)),
        decreases n - t,
    {
        let (v, axis) = sorted[t];
        let ghost old_keep = idx_keep@;
        let ghost old_marg = idx_marg@;
        proof {
            assert(sorted@[t as int] == (v, axis));
            assert(scope@[axis as int] == v);
        }
        let eliminate = contains_var(vars, v);
        if eliminate {
            idx_marg.push(axis);
            proof {
                assert(lists(idx_marg@, axis as int)) by {
                    assert(idx_marg@[old_marg.len() as int] == axis);
                }
            }
        } else {
            idx_keep.push(axis);
            new_scope.push(v);
            proof {
                assert(lists(idx_keep@, axis as int)) by {
                    assert(idx_keep@[old_keep.len() as int] == axis);
                }
                assert(new_scope@ =~= scope_at(scope@, idx_keep@));
            }
        }
        proof {
            if t + 1 < n {
                assert(sorted@[t as int].0@ < sorted@[t + 1].0@);
            }
            assert forall|u: int| 0 <= u < t + 1 implies (vars@.contains((#[trigger] sorted@[u]).0)
                ==> lists(idx_marg@, sorted@[u].1 as int)) && (!vars@.contains(sorted@[u].0)
                ==> lists(idx_keep@, sorted@[u].1 as int)) by {
                if u < t {
                    if vars@.contains(sorted@[u].0) {
                        assert(lists(old_marg, sorted@[u].1 as int));
                        let w = choose|w: int| 0 <= w < old_marg.len() && #[trigger] old_marg[w] == sorted@[u].1;
                        assert(idx_marg@[w] == sorted@[u].1);
                    } else {
                        assert(lists(old_keep, sorted@[u].1 as int));
                        let w = choose|w: int| 0 <= w < old_keep.len() && #[trigger] old_keep[w] == sorted@[u].1;
                        assert(idx_keep@[w] == sorted@[u].1);
                    }
                }
            }
            assert forall|w: int| 0 <= w < idx_keep.len() implies (#[trigger] idx_keep@[w]) < scope.len()
                && !vars@.contains(scope@[idx_keep@[w] as int])
                && (t + 1 < n ==> scope@[idx_keep@[w] as int]@ < sorted@[t + 1].0@) by {
                if w < old_keep.len() {
                    assert(idx_keep@[w] == old_keep[w]);
                }
            }
            assert forall|w: int| 0 <= w < idx_marg.len() implies (#[trigger] idx_marg@[w]) < scope.len()
                && vars@.contains(scope@[idx_marg@[w] as int])
                && (t + 1 < n ==> scope@[idx_marg@[w] as int]@ < sorted@[t + 1].0@) by {
                if w < old_marg.len() {
                    assert(idx_marg@[w] == old_marg[w]);
                }
            }
        }
        t += 1;
    }
    proof {
        assert forall|a: int| 0 <= a < scope.len() && vars@.contains(scope@[a]) == true implies #[trigger] lists(idx_marg@, a) by {
            assert(covers(sorted@, a));
            let u = choose|u: int| 0 <= u < sorted.len() && (#[trigger] sorted@[u]).1 == a;
        }
        assert forall|a: int| 0 <= a < scope.len() && vars@.contains(scope@[a]) == false implies #[trigger] lists(idx_keep@, a) by {
            assert(covers(sorted@, a));
            let u = choose|u: int| 0 <= u < sorted.len() && (#[trigger] sorted@[u]).1 == a;
        }
        assert(lists_axes(idx_keep@, scope@, vars@, false));
        assert(lists_axes(idx_marg@, scope@, vars@, true));
        lemma_lists_axes_unique(idx_keep@, axes_by(scope@, vars@, false), scope@, vars@, false);
        lemma_lists_axes_unique(idx_marg@, axes_by(scope@, vars@, true), scope@, vars@, true);
        lemma_lists_distinct(idx_keep@, scope@, vars@, false);
        lemma_lists_distinct(idx_marg@, scope@, vars@, true);
    }
    if idx_marg.len() == 0 {
        proof {
            assert forall|a: int| 0 <= a < scope.len() implies !vars@.contains(#[trigger] scope@[a]) by {
                if vars@.contains(scope@[a]) {
                    assert(lists(idx_marg@, a));
                }
            }
        }
        return None;
    }
    proof {
        let a = idx_marg@[0] as int;
        assert(vars@.contains(scope@[a]));
    }
    // Permutation: kept axes first, eliminated axes second.
    let mut order: Vec<usize> = Vec::new();
    let mut kept_shape: Vec<usize> = Vec::new();
    let mut w: usize = 0;
    while w < idx_keep.len()
        invariant
            w <= idx_keep.len(),
            order@ == idx_keep@.take(w as int),
            kept_shape@ == project(card@, idx_keep@.take(w as int)),
            forall|x: int| 0 <= x < idx_keep.len() ==> #[trigger] idx_keep@[x] < card.len(),
            scope.len() == card.len(),
        decreases idx_keep.len() - w,
    {
        order.push(idx_keep[w]);
        kept_shape.push(card[idx_keep[w]]);
        proof {
            assert(order@ =~= idx_keep@.take(w + 1));
            assert(kept_shape@ =~= project(card@, idx_keep@.take(w + 1)));
        }
        w += 1;
    }
    let mut elim_shape: Vec<usize> = Vec::new();
    let mut w: usize = 0;
    while w < idx_marg.len()
        invariant
            w <= idx_marg.len(),
            order@ == idx_keep@ + idx_marg@.take(w as int),
            elim_shape@ == project(card@, idx_marg@.take(w as int)),
            forall|x: int| 0 <= x < idx_marg.len() ==> #[trigger] idx_marg@[x] < card.len(),
            scope.len() == card.len(),
        decreases idx_marg.len() - w,
    {
        order.push(idx_marg[w]);
        elim_shape.push(card[idx_marg[w]]);
        proof {
            assert(order@ =~= idx_keep@ + idx_marg@.take(w + 1));
            assert(elim_shape@ =~= project(card@, idx_marg@.take(w + 1)));
        }
        w += 1;
    }
    proof {
        assert(idx_keep@.take(idx_keep.len() as int) =~= idx_keep@);
        assert(idx_marg@.take(idx_marg.len() as int) =~= idx_marg@);
        assert(order@.take(new_scope.len() as int) =~= idx_keep@);
        assert(order@.skip(new_scope.len() as int) =~= idx_marg@);
        lemma_size_project_le(card@, idx_keep@);
        lemma_size_project_le(card@, idx_marg@);
        assert(is_permutation(order@, scope.len() as int)) by {
            assert forall|t1: int, t2: int| 0 <= t1 < order.len() && 0 <= t2 < order.len() && t1 != t2
                implies order@[t1] != order@[t2] by {
                let nk = idx_keep.len() as int;
                if t1 < nk && t2 >= nk {
                    assert(!vars@.contains(scope@[order@[t1] as int]));
                    assert(vars@.contains(scope@[idx_marg@[t2 - nk] as int]));
                } else if t2 < nk && t1 >= nk {
                    assert(!vars@.contains(scope@[order@[t2] as int]));
                    assert(vars@.contains(scope@[idx_marg@[t1 - nk] as int]));
                } else if t1 >= nk && t2 >= nk {
                    assert(idx_marg@[t1 - nk] != idx_marg@[t2 - nk]);
                }
            }
            assert forall|a: int| 0 <= a < scope.len() implies #[trigger] lists(order@, a) by {
                if vars@.contains(scope@[a]) {
                    assert(lists(idx_marg@, a));
                    let w = choose|w: int| 0 <= w < idx_marg.len() && #[trigger] idx_marg@[w] == a;
                    assert(order@[idx_keep.len() + w] == a);
                } else {
                    assert(lists(idx_keep@, a));
                    let w = choose|w: int| 0 <= w < idx_keep.len() && #[trigger] idx_keep@[w] == a;
                    assert(order@[w] == a);
                }
            }
        }
    }
    let kept_size = shape_size_exec(&kept_shape);
    let elim_size = shape_size_exec(&elim_shape);
    Some(Reduction { order, new_scope, kept_shape, elim_shape, kept_size, elim_size })
}

/// Computes the values of a reduced table: one semiring sum per assignment of
/// the retained axes.
pub fn reduce_table<V: Copy, S: Fn(&Vec<V>) -> V>(
    data: &Vec<V>,
    card: &Vec<usize>,
    order: &Vec<usize>,
    kept_shape: &Vec<usize>,
    elim_shape: &Vec<usize>,
    sum: &S,
) -> (out: Vec<V>)
    requires
        data.len() == shape_size(card@),
        is_permutation(order@, card.len() as int),
        project(card@, order@) == kept_shape@ + elim_shape@,
        shape_size(kept_shape@) <= usize::MAX,
        shape_size(elim_shape@) <= usize::MAX,
        total_block(*sum),
    ensures
        out@ == reduced_values(data@, card@, order@, kept_shape@, elim_shape@, *sum),
{
    let n = order.len();
    // The position of each axis in `order`.
    let mut inv: Vec<usize> = Vec::new();
    let mut a: usize = 0;
    while a < n
        invariant
            a <= n,
            inv.len() == a,
        decreases n - a,
    {
        inv.push(0);
        a += 1;
    }
    let mut t: usize = 0;
    while t < n
        invariant
            t <= n,
            n == order.len(),
            inv.len() == n,
            is_permutation(order@, n as int),
            forall|u: int| 0 <= u < t ==> inv@[#[trigger] order@[u] as int] == u,
        decreases n - t,
    {
        inv.set(order[t], t);
        t += 1;
    }
    proof {
        assert forall|x: int| 0 <= x < n implies #[trigger] inv@[x] == inverse_axes(order@)[x] && inv@[x] < n
            && order@[inv@[x] as int] == x by {
            assert(lists(order@, x));
            let u = choose|u: int| 0 <= u < order.len() && #[trigger] order@[u] == x;
            assert(inv@[x] == u);
            let c = choose|c: int| 0 <= c < order.len() && order@[c] == x;
            assert(c == u);
        }
        assert(inv@ =~= inverse_axes(order@));
    }
    let kept_size = shape_size_exec(kept_shape);
    let elim_size = shape_size_exec(elim_shape);
    let mut out: Vec<V> = Vec::new();
    let mut j: usize = 0;
    while j < kept_size
        invariant
            j <= kept_size,
            kept_size == shape_size(kept_shape@),
            elim_size == shape_size(elim_shape@),
            out.len() == j,
            n == order.len(),
            n == card.len(),
            inv@ == inverse_axes(order@),
            forall|x: int| 0 <= x < n ==> (#[trigger] inv@[x]) < n && order@[inv@[x] as int] == x,
            data.len() == shape_size(card@),
            project(card@, order@) == kept_shape@ + elim_shape@,
            total_block(*sum),
            forall|i: int| 0 <= i < j ==> #[trigger] out@[i] == reduced_values(data@, card@, order@, kept_shape@,
                elim_shape@, *sum)[i],
        decreases kept_size - j,
    {
        let kidx = unflatten_exec(j, kept_shape);
        let mut block: Vec<V> = Vec::new();
        let mut e: usize = 0;
        while e < elim_size
            invariant
                e <= elim_size,
                elim_size == shape_size(elim_shape@),
                block.len() == e,
                n == order.len(),
                n == card.len(),
                in_bounds(kidx@, kept_shape@),
                kidx@ == unflatten(j as nat, kept_shape@),
                inv@ == inverse_axes(order@),
                forall|x: int| 0 <= x < n ==> (#[trigger] inv@[x]) < n && order@[inv@[x] as int] == x,
                data.len() == shape_size(card@),
                project(card@, order@) == kept_shape@ + elim_shape@,
                forall|i: int| 0 <= i < e ==> #[trigger] block@[i] == block_values(data@, card@, order@, kidx@,
                    elim_shape@)[i],
            decreases elim_size - e,
        {
            let eidx = unflatten_exec(e, elim_shape);
            let mut p: Vec<usize> = Vec::new();
            let mut x: usize = 0;
            while x < kidx.len()
                invariant
                    x <= kidx.len(),
                    p@ == kidx@.take(x as int),
                decreases kidx.len() - x,
            {
                p.push(kidx[x]);
                x += 1;
            }
            let mut x: usize = 0;
            while x < eidx.len()
                invariant
                    x <= eidx.len(),
                    p@ == kidx@ + eidx@.take(x as int),
                decreases eidx.len() - x,
            {
                p.push(eidx[x]);
                proof {
                    assert(p@ =~= kidx@ + eidx@.take(x + 1));
                }
                x += 1;
            }
            proof {
                assert(kidx@.take(kidx.len() as int) =~= kidx@);
                assert(eidx@.take(eidx.len() as int) =~= eidx@);
                let q = project(p@, inv@);
                assert(in_bounds(p@, kept_shape@ + elim_shape@));
                assert forall|y: int| 0 <= y < n implies #[trigger] q[y] < card@[y] by {
                    let z = inv@[y] as int;
                    assert(q[y] == p@[z]);
                    assert(project(card@, order@)[z] == card@[order@[z] as int]);
                }
                assert(in_bounds(q, card@));
            }
            let f = flat_of_projection(&p, &inv, card);
            block.push(data[f]);
            e += 1;
        }
        proof {
            assert(block@ =~= block_values(data@, card@, order@, kidx@, elim_shape@));
        }
        let value = sum(&block);
        proof {
            lemma_apply_block(*sum, block, value);
        }
        out.push(value);
        j += 1;
    }
    assert(out@ =~= reduced_values(data@, card@, order@, kept_shape@, elim_shape@, *sum));
    out
}

impl<V: Copy> DenseFactor<V> {
    /// Eliminates the variables `vars` from the factor, summarizing the values
    /// of each block with `sum`.
    ///
    /// Retained axes are moved before eliminated axes so that each assignment
    /// of the retained variables corresponds to one logical reduction block.
    /// Where no variable of `vars` is in the scope, the factor is returned
    /// unchanged.
    pub fn reduce_kernel<S: Fn(&Vec<V>) -> V>(self, vars: &[VariableId], sum: &S) -> (r: DenseFactor<V>)
        requires
            self.wf(),
            total_block(*sum),
        ensures
            r.wf(),
            (r.scope_view(), r.card_view(), r.data_view()) == reduction(self.scope_view(), self.card_view(),
                self.data_view(), vars@, *sum),
            forall|x: VariableId| #[trigger] r.scope_view().contains(x) <==> (self.scope_view().contains(x)
                && !vars@.contains(x)),
            forall|a: int| 0 <= a < r.scope_view().len() ==> #[trigger] r.card_view()[a] == self.card_view()[position_of(
                self.scope_view(),
                r.scope_view()[a],
            )],
    {
        let plan = match build_reduction(self.scope.as_slice(), self.card.as_slice(), vars) {
            Some(plan) => plan,
            None => {
                proof {
                    assert forall|a: int| 0 <= a < self.scope@.len() implies #[trigger] self.card@[a]
                        == self.card@[position_of(self.scope@, self.scope@[a])] by {
                        lemma_position_of(self.scope@, a);
                    }
                    assert forall|x: VariableId| #[trigger] self.scope@.contains(x) implies !vars@.contains(x) by {
                        let a = choose|a: int| 0 <= a < self.scope@.len() && self.scope@[a] == x;
                        assert(!vars@.contains(self.scope@[a]));
                    }
                }
                return self;
            },
        };
        let ghost nk = plan.new_scope.len() as int;
        proof {
            let keep = plan.order@.take(nk);
            assert forall|x: VariableId| #[trigger] plan.new_scope@.contains(x) <==> (self.scope@.contains(x)
                && !vars@.contains(x)) by {
                if plan.new_scope@.contains(x) {
                    let t = choose|t: int| 0 <= t < plan.new_scope@.len() && plan.new_scope@[t] == x;
                    assert(keep[t] < self.scope@.len());
                    assert(self.scope@[keep[t] as int] == x);
                }
                if self.scope@.contains(x) && !vars@.contains(x) {
                    let a = choose|a: int| 0 <= a < self.scope@.len() && self.scope@[a] == x;
                    assert(lists(keep, a));
                    let t = choose|t: int| 0 <= t < keep.len() && #[trigger] keep[t] == a;
                    assert(plan.new_scope@[t] == x);
                }
            }
            assert forall|t: int| 0 <= t < plan.new_scope@.len() implies #[trigger] plan.kept_shape@[t]
                == self.card@[position_of(self.scope@, plan.new_scope@[t])] by {
                assert(keep[t] < self.scope@.len());
                lemma_position_of(self.scope@, keep[t] as int);
            }
        }
        proof {
            assert(project(self.card@, plan.order@) =~= plan.kept_shape@ + plan.elim_shape@) by {
                assert(plan.order@ =~= plan.order@.take(nk) + plan.order@.skip(nk));
            }
            lemma_size_project_le(self.card@, plan.order@.take(nk));
            lemma_size_project_le(self.card@, plan.order@.skip(nk));
            lemma_size_padded(plan.kept_shape@);
            lemma_size_padded(plan.elim_shape@);
            assert(plan.order@ =~= plan.order@.take(nk) + plan.order@.skip(nk));
            assert(distinct_vars(plan.new_scope@)) by {
                assert forall|i: int, j: int| 0 <= i < plan.new_scope.len() && 0 <= j < plan.new_scope.len()
                    && i != j implies plan.new_scope@[i]@ != plan.new_scope@[j]@ by {
                    let keep = plan.order@.take(nk);
                    if i < j {
                        assert(self.scope@[keep[i] as int]@ < self.scope@[keep[j] as int]@);
                    } else {
                        assert(self.scope@[keep[j] as int]@ < self.scope@[keep[i] as int]@);
                    }
                }
            }
        }
        let data = reduce_table(&self.data, &self.card, &plan.order, &plan.kept_shape, &plan.elim_shape, sum);
        DenseFactor { scope: plan.new_scope, card: plan.kept_shape, data }
    }
}

} // verus!
