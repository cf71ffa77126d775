//! Dense factor combination kernels.
//!
//! Factor scopes are aligned by variable identifier. The combined factor is
//! over the sorted union of both scopes, and its value for each joint
//! assignment is the product of the values that the two factors hold for the
//! restrictions of that assignment to their own scopes.

use vstd::prelude::*;

use super::align::{
    build_alignment, cards_agree, combined_card, lemma_position_of, lemma_sorted_union_exists,
    lemma_sorted_unique, lemma_union_alignment, position_of, positions_of, sorted_union,
};
use super::DenseFactor;
use crate::algebra::{apply2, lemma_apply2, total2};
use crate::factor::{DiscreteFactor, Factor};
use crate::layout::{
    flat_index, flat_of_projection, gather, in_bounds, lemma_flat_bound, lemma_flat_unflatten, lemma_size_padded, padded,
    project, shape_size, shape_size_exec, unflatten, unflatten_exec,
};
use crate::variable::VariableId;

verus! {

/// The values of the combination: for each position `k` of a table with
/// cardinalities `card`, the product of the values that the two tables hold
/// for the restrictions (through `m1` and `m2`) of the assignment at `k`.
pub open spec fn combined_values<V, M: Fn(&V, &V) -> V>(
    d1: Seq<V>,
    c1: Seq<usize>,
    m1: Seq<usize>,
    d2: Seq<V>,
    c2: Seq<usize>,
    m2: Seq<usize>,
    card: Seq<usize>,
    product: M,
) -> Seq<V> {
    Seq::new(
        shape_size(card),
        |k: int| apply2(product, gather(d1, c1, unflatten(k as nat, card), m1), gather(d2, c2, unflatten(k as nat, card), m2)),
    )
}

/// The table of the combination of the factor with scope `s1`, cardinalities
/// `c1` and values `d1` with the factor with scope `s2`, cardinalities `c2`
/// and values `d2`: its scope, cardinalities and values.
pub open spec fn combination<V, M: Fn(&V, &V) -> V>(
    s1: Seq<VariableId>,
    c1: Seq<usize>,
    d1: Seq<V>,
    s2: Seq<VariableId>,
    c2: Seq<usize>,
    d2: Seq<V>,
    product: M,
) -> (Seq<VariableId>, Seq<usize>, Seq<V>) {
    let u = sorted_union(s1, s2);
    let card = combined_card(s1, c1, s2, c2);
    (u, card, combined_values(d1, c1, positions_of(u, s1), d2, c2, positions_of(u, s2), card, product))
}

/// The combination holds, for each assignment of its variables, the product
/// of the values that the two factors hold for the restrictions of that
/// assignment to their own scopes: for an assignment `idx` of the variables
/// of the combined scope `u` (axis `o` giving the state of variable `u[o]`),
/// the value at the row-major position of `idx` is the product of the values
/// that the two tables hold where each of their variables takes the state
/// that `idx` gives it (its axis in `u` being given by `positions_of`).
pub proof fn lemma_combination_at<V, M: Fn(&V, &V) -> V>(
    s1: Seq<VariableId>,
    c1: Seq<usize>,
    d1: Seq<V>,
    s2: Seq<VariableId>,
    c2: Seq<usize>,
    d2: Seq<V>,
    product: M,
    idx: Seq<usize>,
)
    requires
        in_bounds(idx, combined_card(s1, c1, s2, c2)),
    ensures
        ({
            let t = combination(s1, c1, d1, s2, c2, d2, product);
            let u = sorted_union(s1, s2);
            &&& flat_index(idx, t.1) < t.2.len()
            &&& t.2[flat_index(idx, t.1) as int] == apply2(
                product,
                gather(d1, c1, idx, positions_of(u, s1)),
                gather(d2, c2, idx, positions_of(u, s2)),
            )
        }),
{
    let card = combined_card(s1, c1, s2, c2);
    lemma_flat_bound(idx, card);
    lemma_flat_unflatten(idx, card);
}

/// Combination does not depend on the order of its operands when the product
/// does not: for factors that agree on the cardinality of every variable they
/// share, and a product that gives the same value for `(a, b)` as for `(b, a)`,
/// combining the first factor with the second gives the same scope,
/// cardinalities and values as combining the second with the first.
pub proof fn lemma_combination_commutes<V, M: Fn(&V, &V) -> V>(
    s1: Seq<VariableId>,
    c1: Seq<usize>,
    d1: Seq<V>,
    s2: Seq<VariableId>,
    c2: Seq<usize>,
    d2: Seq<V>,
    product: M,
)
    requires
        cards_agree(s1, c1, s2, c2),
        forall|a: V, b: V| #[trigger] apply2(product, a, b) == apply2(product, b, a),
    ensures
        combination(s1, c1, d1, s2, c2, d2, product) == combination(s2, c2, d2, s1, c1, d1, product),
{
    let u = sorted_union(s1, s2);
    lemma_sorted_union_exists(s1, s2);
    lemma_sorted_union_exists(s2, s1);
    assert forall|v: VariableId| u.contains(v) <==> sorted_union(s2, s1).contains(v) by {
        assert(u.contains(v) <==> (s1.contains(v) || s2.contains(v)));
        assert(sorted_union(s2, s1).contains(v) <==> (s2.contains(v) || s1.contains(v)));
    }
    lemma_sorted_unique(u, sorted_union(s2, s1));
    let card = combined_card(s1, c1, s2, c2);
    let card_swapped = combined_card(s2, c2, s1, c1);
    assert forall|o: int| 0 <= o < u.len() implies #[trigger] card[o] == card_swapped[o] by {
        let v = u[o];
        assert(u.contains(v));
        if s1.contains(v) && s2.contains(v) {
            let a = position_of(s1, v);
            let b = position_of(s2, v);
            assert(0 <= a < s1.len() && s1[a] == v);
            assert(0 <= b < s2.len() && s2[b] == v);
        }
    }
    assert(card =~= card_swapped);
    let m1 = positions_of(u, s1);
    let m2 = positions_of(u, s2);
    let vals = combined_values(d1, c1, m1, d2, c2, m2, card, product);
    let vals_swapped = combined_values(d2, c2, m2, d1, c1, m1, card, product);
    assert forall|k: int| 0 <= k < vals.len() implies #[trigger] vals[k] == vals_swapped[k] by {
        let idx = unflatten(k as nat, card);
        let g1 = gather(d1, c1, idx, m1);
        let g2 = gather(d2, c2, idx, m2);
        assert(apply2(product, g1, g2) == apply2(product, g2, g1));
    }
    assert(vals =~= vals_swapped);
}

/// Each axis of a table is mapped to an axis of the output with the same
/// cardinality.
pub open spec fn compatible(card: Seq<usize>, to_out: Seq<usize>, out_card: Seq<usize>) -> bool {
    &&& to_out.len() == card.len()
    &&& forall|a: int| 0 <= a < to_out.len() ==> (#[trigger] to_out[a]) < out_card.len()
        && out_card[to_out[a] as int] == card[a]
}

/// Computes the values of the combination of two tables whose axes are mapped
/// into the axes of the output table.
pub fn combine_tables<V: Copy, M: Fn(&V, &V) -> V>(
    lhs_data: &Vec<V>,
    lhs_card: &Vec<usize>,
    lhs_to_out: &Vec<usize>,
    rhs_data: &Vec<V>,
    rhs_card: &Vec<usize>,
    rhs_to_out: &Vec<usize>,
    out_card: &Vec<usize>,
    product: &M,
) -> (out: Vec<V>)
    requires
        lhs_data.len() == shape_size(lhs_card@),
        rhs_data.len() == shape_size(rhs_card@),
        compatible(lhs_card@, lhs_to_out@, out_card@),
        compatible(rhs_card@, rhs_to_out@, out_card@),
        shape_size(out_card@) <= usize::MAX,
        total2(*product),
    ensures
        out@ == combined_values(lhs_data@, lhs_card@, lhs_to_out@, rhs_data@, rhs_card@, rhs_to_out@, out_card@, *product),
{
    let total = shape_size_exec(out_card);
    let mut out: Vec<V> = Vec::new();
    let mut k: usize = 0;
    while k < total
        invariant
            k <= total,
            total == shape_size(out_card@),
            out.len() == k,
            lhs_data.len() == shape_size(lhs_card@),
            rhs_data.len() == shape_size(rhs_card@),
            compatible(lhs_card@, lhs_to_out@, out_card@),
            compatible(rhs_card@, rhs_to_out@, out_card@),
            total2(*product),
            forall|j: int| 0 <= j < k ==> #[trigger] out@[j] == combined_values(lhs_data@, lhs_card@,
                lhs_to_out@, rhs_data@, rhs_card@, rhs_to_out@, out_card@, *product)[j],
        decreases total - k,
    {
        let idx = unflatten_exec(k, out_card);
        proof {
            assert(in_bounds(project(idx@, lhs_to_out@), lhs_card@)) by {
                assert forall|a: int| 0 <= a < lhs_card.len() implies #[trigger] project(idx@, lhs_to_out@)[a]
                    < lhs_card@[a] by {
                    assert(idx@[lhs_to_out@[a] as int] < out_card@[lhs_to_out@[a] as int]);
                }
            }
            assert(in_bounds(project(idx@, rhs_to_out@), rhs_card@)) by {
                assert forall|b: int| 0 <= b < rhs_card.len() implies #[trigger] project(idx@, rhs_to_out@)[b]
                    < rhs_card@[b] by {
                    assert(idx@[rhs_to_out@[b] as int] < out_card@[rhs_to_out@[b] as int]);
                }
            }
        }
        let li = flat_of_projection(&idx, lhs_to_out, lhs_card);
        let ri = flat_of_projection(&idx, rhs_to_out, rhs_card);
        let value = product(&lhs_data[li], &rhs_data[ri]);
        proof {
            lemma_apply2(*product, lhs_data@[li as int], rhs_data@[ri as int], value);
        }
        out.push(value);
        k += 1;
    }
    assert(out@ =~= combined_values(lhs_data@, lhs_card@, lhs_to_out@, rhs_data@, rhs_card@, rhs_to_out@, out_card@, *product));
    out
}

impl<V: Copy> DenseFactor<V> {
    /// Combines two dense factors.
    ///
    /// The resulting scope is the sorted union of both scopes. The value for
    /// each assignment is the product (under `product`) of this factor's value and
    /// `other`'s value for the restrictions of the assignment to their scopes.
    pub fn combine_dense<M: Fn(&V, &V) -> V>(&self, other: &DenseFactor<V>, product: &M) -> (r: DenseFactor<V>)
        requires
            self.wf(),
            other.wf(),
            cards_agree(self.scope_view(), self.card_view(), other.scope_view(), other.card_view()),
            shape_size(padded(combined_card(self.scope_view(), self.card_view(), other.scope_view(), other.card_view())))
                <= usize::MAX,
            total2(*product),
        ensures
            r.wf(),
            (r.scope_view(), r.card_view(), r.data_view()) == combination(self.scope_view(), self.card_view(),
                self.data_view(), other.scope_view(), other.card_view(), other.data_view(), *product),
    {
        let alignment = build_alignment(self.scope.as_slice(), other.scope.as_slice());
        let ghost s1 = self.scope@;
        let ghost s2 = other.scope@;
        let ghost c1 = self.card@;
        let ghost c2 = other.card@;
        let ghost u = alignment.union_vars@;
        proof {
            lemma_union_alignment(u, alignment.lhs_to_out@, alignment.rhs_to_out@, s1, s2);
            assert forall|a1: int, a2: int| 0 <= a1 < alignment.lhs_to_out.len() && 0 <= a2
                < alignment.lhs_to_out.len() && a1 != a2 implies alignment.lhs_to_out@[a1]
                != alignment.lhs_to_out@[a2] by {
                assert(u[alignment.lhs_to_out@[a1] as int] == s1[a1]);
                assert(u[alignment.lhs_to_out@[a2] as int] == s1[a2]);
            }
            assert forall|b1: int, b2: int| 0 <= b1 < alignment.rhs_to_out.len() && 0 <= b2
                < alignment.rhs_to_out.len() && b1 != b2 implies alignment.rhs_to_out@[b1]
                != alignment.rhs_to_out@[b2] by {
                assert(u[alignment.rhs_to_out@[b1] as int] == s2[b1]);
                assert(u[alignment.rhs_to_out@[b2] as int] == s2[b2]);
            }
        }
        let out_card = alignment.output_card(self.card.as_slice(), other.card.as_slice());
        proof {
            let cc = combined_card(s1, c1, s2, c2);
            assert forall|o: int| 0 <= o < u.len() implies #[trigger] out_card@[o] == cc[o] by {
                if s2.contains(u[o]) {
                    let b = choose|b: int| 0 <= b < s2.len() && s2[b] == u[o];
                    lemma_position_of(u, o);
                    assert(alignment.rhs_to_out@[b] == positions_of(u, s2)[b]);
                    lemma_position_of(s2, b);
                    assert(alignment.rhs_to_out@[b] == o);
                } else {
                    assert(s1.contains(u[o]));
                    let a = choose|a: int| 0 <= a < s1.len() && s1[a] == u[o];
                    lemma_position_of(u, o);
                    assert(alignment.lhs_to_out@[a] == positions_of(u, s1)[a]);
                    assert(alignment.lhs_to_out@[a] == o);
                    lemma_position_of(s1, a);
                    assert forall|b: int| 0 <= b < s2.len() implies alignment.rhs_to_out@[b]
                        != alignment.lhs_to_out@[a] by {
                        if alignment.rhs_to_out@[b] == alignment.lhs_to_out@[a] {
                            assert(s2[b] == u[o]);
                        }
                    }
                }
            }
            assert(out_card@ =~= cc);
            lemma_size_padded(cc);
            assert(compatible(c1, alignment.lhs_to_out@, out_card@)) by {
                assert forall|a: int| 0 <= a < alignment.lhs_to_out.len() implies (#[trigger] alignment.lhs_to_out@[a])
                    < out_card@.len() && out_card@[alignment.lhs_to_out@[a] as int] == c1[a] by {
                    let o = alignment.lhs_to_out@[a] as int;
                    if exists|b: int| 0 <= b < s2.len() && alignment.rhs_to_out@[b] == o {
                        let b = choose|b: int| 0 <= b < s2.len() && alignment.rhs_to_out@[b] == o;
                        assert(s2[b] == u[o]);
                        assert(s1[a] == s2[b]);
                    }
                }
            }
        }
        let data = combine_tables(
            &self.data,
            &self.card,
            &alignment.lhs_to_out,
            &other.data,
            &other.card,
            &alignment.rhs_to_out,
            &out_card,
            product,
        );
        DenseFactor { scope: alignment.union_vars, card: out_card, data }
    }
}

} // verus!
