//! Storage for the messages of a belief-propagation state.

use vstd::prelude::*;

use super::{DirectedEdge, Endpoint, Message, MessageId};
use crate::factor::{Factor, FactorId, FactorKind};
use crate::factor::distinct_vars;
use crate::factor_graph::{adjacent_factors, FactorGraph};
use crate::variable::VariableId;

verus! {

broadcast use crate::variable::lemma_variable_id_view_injective, crate::factor::lemma_factor_id_view_injective,
    super::lemma_message_id_view_injective, FactorId::lemma_from_index;

/// The indices of the edges of `edges` that satisfy `p`, in increasing order.
pub open spec fn indices_where(edges: Seq<DirectedEdge>, p: spec_fn(DirectedEdge) -> bool) -> Seq<nat>
    decreases edges.len(),
{
    if edges.len() == 0 {
        Seq::empty()
    } else {
        let rest = indices_where(edges.drop_last(), p);
        if p(edges.last()) {
            rest.push((edges.len() - 1) as nat)
        } else {
            rest
        }
    }
}

/// Edges whose source is the variable with index `v`.
pub open spec fn leaves_variable(v: nat) -> spec_fn(DirectedEdge) -> bool {
    |e: DirectedEdge| e.from matches Endpoint::Variable(x) && x@ == v
}

/// Edges whose destination is the variable with index `v`.
pub open spec fn enters_variable(v: nat) -> spec_fn(DirectedEdge) -> bool {
    |e: DirectedEdge| e.to matches Endpoint::Variable(x) && x@ == v
}

/// Edges whose source is the factor with index `f`.
pub open spec fn leaves_factor(f: nat) -> spec_fn(DirectedEdge) -> bool {
    |e: DirectedEdge| e.from matches Endpoint::Factor(x) && x@ == f
}

/// Edges whose destination is the factor with index `f`.
pub open spec fn enters_factor(f: nat) -> spec_fn(DirectedEdge) -> bool {
    |e: DirectedEdge| e.to matches Endpoint::Factor(x) && x@ == f
}

/// The indices of a sequence of message identifiers.
pub open spec fn message_indices(ids: Seq<MessageId>) -> Seq<nat> {
    ids.map_values(|m: MessageId| m@)
}

/// The variable index of an endpoint, if it is a variable.
pub open spec fn endpoint_variable(e: Endpoint) -> Option<nat> {
    match e {
        Endpoint::Variable(v) => Some(v@),
        Endpoint::Factor(_) => None,
    }
}

/// The factor index of an endpoint, if it is a factor.
pub open spec fn endpoint_factor(e: Endpoint) -> Option<nat> {
    match e {
        Endpoint::Variable(_) => None,
        Endpoint::Factor(f) => Some(f@),
    }
}

/// The edge connects a variable and a factor, with indices below the given
/// bounds.
pub open spec fn edge_within(e: DirectedEdge, nv: nat, nf: nat) -> bool {
    ||| e.from matches Endpoint::Variable(v) && e.to matches Endpoint::Factor(f) && v@ < nv && f@ < nf
    ||| e.from matches Endpoint::Factor(f) && e.to matches Endpoint::Variable(v) && v@ < nv && f@ < nf
}

/// The two directed edges of each variable of `scope` and the factor `f`, in
/// the order of the scope, the variable-to-factor edge first.
pub open spec fn factor_edges(f: FactorId, scope: Seq<VariableId>) -> Seq<DirectedEdge> {
    Seq::new(
        2 * scope.len(),
        |i: int|
            if i % 2 == 0 {
                DirectedEdge::spec_variable_to_factor(scope[i / 2], f)
            } else {
                DirectedEdge::spec_factor_to_variable(f, scope[i / 2])
            },
    )
}

/// The directed edges of a graph with the factors `factors`, factor by factor.
pub open spec fn graph_edges<V>(factors: Seq<FactorKind<V>>) -> Seq<DirectedEdge>
    decreases factors.len(),
{
    if factors.len() == 0 {
        Seq::empty()
    } else {
        graph_edges(factors.drop_last()) + factor_edges(
            FactorId::from_index((factors.len() - 1) as nat),
            factors.last().scope_view(),
        )
    }
}

/// The number of variables that the adjacency indices cover after adding the
/// variables of `scope` to a store that covers `n`.
pub open spec fn slots_after(n: nat, scope: Seq<VariableId>) -> nat
    decreases scope.len(),
{
    if scope.len() == 0 {
        n
    } else {
        let m = slots_after(n, scope.drop_last());
        if m <= scope.last()@ {
            scope.last()@ + 1
        } else {
            m
        }
    }
}

/// Variables already covered do not change the number of covered variables.
pub proof fn lemma_slots_after_covered(n: nat, scope: Seq<VariableId>)
    requires
        forall|a: int| 0 <= a < scope.len() ==> (#[trigger] scope[a])@ < n,
    ensures
        slots_after(n, scope) == n,
    decreases scope.len(),
{
    if scope.len() > 0 {
        let d = scope.drop_last();
        assert forall|a: int| 0 <= a < d.len() implies (#[trigger] d[a])@ < n by {
            assert(d[a] == scope[a]);
        }
        lemma_slots_after_covered(n, d);
        assert(scope.last() == scope[scope.len() - 1]);
    }
}

/// The edges of the first `k` factors are a prefix of the edges of all of
/// them, and each factor appends its own edges.
pub proof fn lemma_graph_edges_prefix<V>(factors: Seq<FactorKind<V>>, k: int)
    requires
        0 <= k < factors.len(),
    ensures
        graph_edges(factors.take(k + 1)) == graph_edges(factors.take(k)) + factor_edges(
            FactorId::from_index(k as nat),
            factors[k].scope_view(),
        ),
        graph_edges(factors.take(k + 1)).len() <= graph_edges(factors).len(),
    decreases factors.len() - k,
{
    assert(factors.take(k + 1).drop_last() =~= factors.take(k));
    assert(factors.take(k + 1).last() == factors[k]);
    if k + 1 == factors.len() {
        assert(factors.take(k + 1) =~= factors);
    } else {
        lemma_graph_edges_prefix(factors, k + 1);
    }
}

/// The variable that the edge connects.
pub open spec fn edge_variable(e: DirectedEdge) -> VariableId {
    match e.from {
        Endpoint::Variable(v) => v,
        Endpoint::Factor(_) => e.to->Variable_0,
    }
}

/// The factor that the edge connects.
pub open spec fn edge_factor(e: DirectedEdge) -> FactorId {
    match e.from {
        Endpoint::Factor(f) => f,
        Endpoint::Variable(_) => e.to->Factor_0,
    }
}

/// The edge joins a factor among `factors` and a variable of its scope.
pub open spec fn edge_of<V>(e: DirectedEdge, factors: Seq<FactorKind<V>>) -> bool {
    &&& (e.from is Variable && e.to is Factor) || (e.from is Factor && e.to is Variable)
    &&& edge_factor(e)@ < factors.len()
    &&& factors[edge_factor(e)@ as int].scope_view().contains(edge_variable(e))
}

/// Every edge of a graph joins one of its factors and a variable of that
/// factor's scope.
pub proof fn lemma_graph_edges<V>(factors: Seq<FactorKind<V>>)
    requires
        factors.len() <= usize::MAX,
    ensures
        forall|i: int| 0 <= i < graph_edges(factors).len() ==> edge_of(#[trigger] graph_edges(factors)[i], factors),
    decreases factors.len(),
{
    if factors.len() > 0 {
        let d = factors.drop_last();
        lemma_graph_edges(d);
        let g = graph_edges(d);
        let n = (factors.len() - 1) as nat;
        let sc = factors.last().scope_view();
        let fe = factor_edges(FactorId::from_index(n), sc);
        assert forall|i: int| 0 <= i < graph_edges(factors).len() implies edge_of(
            #[trigger] graph_edges(factors)[i],
            factors,
        ) by {
            if i < g.len() {
                assert(graph_edges(factors)[i] == g[i]);
                assert(edge_of(g[i], d));
                assert(d[edge_factor(g[i])@ as int] == factors[edge_factor(g[i])@ as int]);
            } else {
                let j = i - g.len();
                assert(graph_edges(factors)[i] == fe[j]);
                assert(j / 2 < sc.len()) by (nonlinear_arith)
                    requires
                        0 <= j < 2 * sc.len(),
                ;
                assert(sc.contains(sc[j / 2]));
                assert(factors[n as int] == factors.last());
            }
        }
    }
}

/// The number of edges of the factors before the one with index `g`.
pub open spec fn edge_base<V>(factors: Seq<FactorKind<V>>, g: nat) -> nat {
    graph_edges(factors.take(g as int)).len()
}

/// The edges of the first `k` factors are a prefix of the edges of all of
/// them, and every later edge belongs to a later factor.
pub proof fn lemma_graph_edges_split<V>(factors: Seq<FactorKind<V>>, k: int)
    requires
        0 <= k <= factors.len(),
        factors.len() <= usize::MAX,
    ensures
        graph_edges(factors.take(k)).len() <= graph_edges(factors).len(),
        forall|i: int| 0 <= i < graph_edges(factors.take(k)).len() ==> #[trigger] graph_edges(factors)[i]
            == graph_edges(factors.take(k))[i],
        forall|i: int| graph_edges(factors.take(k)).len() <= i < graph_edges(factors).len() ==> edge_factor(
            #[trigger] graph_edges(factors)[i],
        )@ >= k,
    decreases factors.len(),
{
    if k == factors.len() {
        assert(factors.take(k) =~= factors);
    } else {
        let d = factors.drop_last();
        assert(d.take(k) =~= factors.take(k));
        lemma_graph_edges_split(d, k);
        let n = (factors.len() - 1) as nat;
        let sc = factors.last().scope_view();
        let fe = factor_edges(FactorId::from_index(n), sc);
        let g = graph_edges(d);
        assert forall|i: int| graph_edges(factors.take(k)).len() <= i < graph_edges(factors).len() implies edge_factor(
            #[trigger] graph_edges(factors)[i],
        )@ >= k by {
            if i < g.len() {
                assert(graph_edges(factors)[i] == g[i]);
            } else {
                assert(graph_edges(factors)[i] == fe[i - g.len()]);
            }
        }
        assert forall|i: int| 0 <= i < graph_edges(factors.take(k)).len() implies #[trigger] graph_edges(factors)[i]
            == graph_edges(factors.take(k))[i] by {
            assert(graph_edges(factors)[i] == g[i]);
        }
    }
}

/// Strictly increasing sequences with the same elements are equal.
pub proof fn lemma_increasing_unique(a: Seq<nat>, b: Seq<nat>)
    requires
        forall|i: int, j: int| 0 <= i < j < a.len() ==> a[i] < a[j],
        forall|i: int, j: int| 0 <= i < j < b.len() ==> b[i] < b[j],
        forall|x: nat| a.contains(x) <==> b.contains(x),
    ensures
        a == b,
    decreases a.len() + b.len(),
{
    if a.len() == 0 {
        if b.len() > 0 {
            assert(b.contains(b[0]));
        }
        assert(a =~= b);
    } else if b.len() == 0 {
        assert(a.contains(a[0]));
    } else {
        let la = a.last();
        let lb = b.last();
        assert(a.contains(la));
        assert(b.contains(lb));
        let ob = choose|o: int| 0 <= o < b.len() && b[o] == la;
        let oa = choose|o: int| 0 <= o < a.len() && a[o] == lb;
        if ob < b.len() - 1 {
            assert(b[ob] < lb);
        }
        if oa < a.len() - 1 {
            assert(a[oa] < la);
        }
        assert(la == lb);
        let da = a.drop_last();
        let db = b.drop_last();
        assert forall|x: nat| da.contains(x) <==> db.contains(x) by {
            if da.contains(x) {
                let p = choose|p: int| 0 <= p < da.len() && da[p] == x;
                assert(a[p] < la);
                assert(a.contains(x));
                let q = choose|q: int| 0 <= q < b.len() && b[q] == x;
                assert(q != b.len() - 1);
                assert(db[q] == x);
            }
            if db.contains(x) {
                let p = choose|p: int| 0 <= p < db.len() && db[p] == x;
                assert(b[p] < lb);
                assert(b.contains(x));
                let q = choose|q: int| 0 <= q < a.len() && a[q] == x;
                assert(q != a.len() - 1);
                assert(da[q] == x);
            }
        }
        lemma_increasing_unique(da, db);
        assert(a =~= da.push(la));
        assert(b =~= db.push(lb));
    }
}

/// The edges entering (leaving) the factor with index `f` are the
/// variable-to-factor (factor-to-variable) edges of its own block, in the
/// order of its scope.
pub proof fn lemma_factor_lists<V>(factors: Seq<FactorKind<V>>, f: nat)
    requires
        factors.len() <= usize::MAX,
        f < factors.len(),
    ensures
        edge_base(factors, f + 1) == edge_base(factors, f) + 2 * factors[f as int].scope_view().len(),
        edge_base(factors, f + 1) <= graph_edges(factors).len(),
        forall|o: int| 0 <= o < 2 * factors[f as int].scope_view().len() ==> #[trigger] graph_edges(factors)[edge_base(
            factors,
            f,
        ) + o] == factor_edges(FactorId::from_index(f), factors[f as int].scope_view())[o],
        forall|i: int| 0 <= i < edge_base(factors, f) ==> edge_factor(#[trigger] graph_edges(factors)[i])@ < f,
        forall|i: int| edge_base(factors, f + 1) <= i < graph_edges(factors).len() ==> edge_factor(
            #[trigger] graph_edges(factors)[i],
        )@ > f,
        indices_where(graph_edges(factors), enters_factor(f)) == Seq::new(
            factors[f as int].scope_view().len(),
            |i: int| (edge_base(factors, f) + 2 * i) as nat,
        ),
        indices_where(graph_edges(factors), leaves_factor(f)) == Seq::new(
            factors[f as int].scope_view().len(),
            |i: int| (edge_base(factors, f) + 2 * i + 1) as nat,
        ),
{
    let ge = graph_edges(factors);
    let base = edge_base(factors, f);
    let sc = factors[f as int].scope_view();
    let n = sc.len();
    let fe = factor_edges(FactorId::from_index(f), sc);
    lemma_graph_edges_prefix(factors, f as int);
    lemma_graph_edges_split(factors, f as int);
    lemma_graph_edges_split(factors, f as int + 1);
    lemma_graph_edges(factors.take(f as int));
    lemma_graph_edges(factors);
    let pre = graph_edges(factors.take(f as int));
    let upto = graph_edges(factors.take(f as int + 1));
    assert(upto == pre + fe);
    assert forall|i: int| 0 <= i < pre.len() implies edge_factor(#[trigger] ge[i])@ < f by {
        assert(ge[i] == pre[i]);
        assert(edge_of(pre[i], factors.take(f as int)));
    }
    assert forall|o: int| 0 <= o < 2 * n implies #[trigger] ge[base + o] == fe[o] by {
        assert(ge[base + o] == upto[base + o]);
    }
    let ein = indices_where(ge, enters_factor(f));
    let eout = indices_where(ge, leaves_factor(f));
    let lin = Seq::new(n, |i: int| (base + 2 * i) as nat);
    let lout = Seq::new(n, |i: int| (base + 2 * i + 1) as nat);
    lemma_indices_where(ge, enters_factor(f));
    lemma_indices_where(ge, leaves_factor(f));
    assert forall|x: nat| lin.contains(x) <==> ein.contains(x) by {
        if lin.contains(x) {
            let i = choose|i: int| 0 <= i < n && lin[i] == x;
            assert(ge[base + 2 * i] == fe[2 * i]);
            assert((2 * i) / 2 == i && (2 * i) % 2 == 0) by (nonlinear_arith);
            assert(enters_factor(f)(ge[x as int]));
        }
        if ein.contains(x) {
            let k = choose|k: int| 0 <= k < ein.len() && ein[k] == x;
            assert(enters_factor(f)(ge[x as int]));
            assert(edge_of(ge[x as int], factors));
            assert(edge_factor(ge[x as int])@ == f);
            let o = x - base;
            assert(0 <= o < 2 * n);
            assert(ge[base + o] == fe[o]);
            if o % 2 == 1 {
                assert(fe[o].to is Variable);
            }
            let i = o / 2;
            assert(o == 2 * i) by (nonlinear_arith)
                requires
                    o % 2 == 0,
                    i == o / 2,
            ;
            assert(lin[i] == x);
        }
    }
    assert forall|x: nat| lout.contains(x) <==> eout.contains(x) by {
        if lout.contains(x) {
            let i = choose|i: int| 0 <= i < n && lout[i] == x;
            assert(ge[base + 2 * i + 1] == fe[2 * i + 1]);
            assert((2 * i + 1) / 2 == i && (2 * i + 1) % 2 == 1) by (nonlinear_arith);
            assert(leaves_factor(f)(ge[x as int]));
        }
        if eout.contains(x) {
            let k = choose|k: int| 0 <= k < eout.len() && eout[k] == x;
            assert(leaves_factor(f)(ge[x as int]));
            assert(edge_of(ge[x as int], factors));
            assert(edge_factor(ge[x as int])@ == f);
            let o = x - base;
            assert(0 <= o < 2 * n);
            assert(ge[base + o] == fe[o]);
            if o % 2 == 0 {
                assert(fe[o].from is Variable);
            }
            let i = o / 2;
            assert(o == 2 * i + 1) by (nonlinear_arith)
                requires
                    o % 2 == 1,
                    i == o / 2,
            ;
            assert(lout[i] == x);
        }
    }
    lemma_increasing_unique(lin, ein);
    lemma_increasing_unique(lout, eout);
}

/// The factors adjacent to a variable are valid, listed in increasing order,
/// and are exactly those whose scope contains the variable.
pub proof fn lemma_adjacent_factors<V>(factors: Seq<FactorKind<V>>, v: nat)
    ensures
        forall|t: int| 0 <= t < adjacent_factors(factors, v).len() ==> (#[trigger] adjacent_factors(factors, v)[t])
            < factors.len(),
        forall|t1: int, t2: int| 0 <= t1 < t2 < adjacent_factors(factors, v).len() ==> (#[trigger] adjacent_factors(
            factors,
            v,
        )[t1]) < (#[trigger] adjacent_factors(factors, v)[t2]),
        forall|g: nat| #[trigger] adjacent_factors(factors, v).contains(g) <==> (g < factors.len() && exists|a: int|
            0 <= a < factors[g as int].scope_view().len() && (#[trigger] factors[g as int].scope_view()[a])@ == v),
    decreases factors.len(),
{
    if factors.len() > 0 {
        let d = factors.drop_last();
        lemma_adjacent_factors(d, v);
        let r = adjacent_factors(d, v);
        let adj = adjacent_factors(factors, v);
        let n = (factors.len() - 1) as nat;
        assert(factors.last() == factors[n as int]);
        assert forall|g: nat| #[trigger] adj.contains(g) <==> (g < factors.len() && exists|a: int|
            0 <= a < factors[g as int].scope_view().len() && (#[trigger] factors[g as int].scope_view()[a])@ == v) by {
            if g < n {
                assert(d[g as int] == factors[g as int]);
            }
            if adj.contains(g) {
                let t = choose|t: int| 0 <= t < adj.len() && adj[t] == g;
                if t < r.len() {
                    assert(r.contains(g));
                }
            }
            if g < factors.len() && exists|a: int|
                0 <= a < factors[g as int].scope_view().len() && (#[trigger] factors[g as int].scope_view()[a])@ == v {
                if g < n {
                    assert(r.contains(g));
                    let t = choose|t: int| 0 <= t < r.len() && r[t] == g;
                    assert(adj[t] == g);
                } else {
                    assert(adj[r.len() as int] == g);
                }
            }
        }
    }
}

/// The variable at `var_position(scope, v)` of `scope` has index `v`.
pub open spec fn var_position(scope: Seq<VariableId>, v: nat) -> int {
    choose|a: int| 0 <= a < scope.len() && scope[a]@ == v
}

/// The number of edges of the first factors grows with their number.
pub proof fn lemma_edge_base_monotone<V>(factors: Seq<FactorKind<V>>, g1: nat, g2: nat)
    requires
        g1 <= g2 <= factors.len(),
        factors.len() <= usize::MAX,
    ensures
        edge_base(factors, g1) <= edge_base(factors, g2),
{
    let t = factors.take(g2 as int);
    lemma_graph_edges_split(t, g1 as int);
    assert(t.take(g1 as int) =~= factors.take(g1 as int));
}

/// The edges leaving (entering) the variable with index `v` are its edges to
/// (from) the factors adjacent to it, in the order of those factors.
pub proof fn lemma_variable_lists<V>(factors: Seq<FactorKind<V>>, v: nat)
    requires
        factors.len() <= usize::MAX,
        forall|f: int| 0 <= f < factors.len() ==> distinct_vars(#[trigger] factors[f].scope_view()),
    ensures
        indices_where(graph_edges(factors), leaves_variable(v)) == adjacent_factors(factors, v).map_values(
            |g: nat| (edge_base(factors, g) + 2 * var_position(factors[g as int].scope_view(), v)) as nat,
        ),
        indices_where(graph_edges(factors), enters_variable(v)) == adjacent_factors(factors, v).map_values(
            |g: nat| (edge_base(factors, g) + 2 * var_position(factors[g as int].scope_view(), v) + 1) as nat,
        ),
{
    let ge = graph_edges(factors);
    let adj = adjacent_factors(factors, v);
    let lout = adj.map_values(
        |g: nat| (edge_base(factors, g) + 2 * var_position(factors[g as int].scope_view(), v)) as nat,
    );
    let lin = adj.map_values(
        |g: nat| (edge_base(factors, g) + 2 * var_position(factors[g as int].scope_view(), v) + 1) as nat,
    );
    let eout = indices_where(ge, leaves_variable(v));
    let ein = indices_where(ge, enters_variable(v));
    lemma_adjacent_factors(factors, v);
    lemma_indices_where(ge, leaves_variable(v));
    lemma_indices_where(ge, enters_variable(v));
    lemma_graph_edges(factors);
    assert forall|t: int| #![trigger adj[t]] 0 <= t < adj.len() implies {
        let g = adj[t];
        let sc = factors[g as int].scope_view();
        let p = var_position(sc, v);
        &&& 0 <= p < sc.len()
        &&& sc[p]@ == v
        &&& ge[(edge_base(factors, g) + 2 * p) as int] == DirectedEdge::spec_variable_to_factor(sc[p], FactorId::from_index(g))
        &&& ge[(edge_base(factors, g) + 2 * p + 1) as int] == DirectedEdge::spec_factor_to_variable(FactorId::from_index(g), sc[p])
        &&& edge_base(factors, g) + 2 * p + 1 < edge_base(factors, g + 1)
    } by {
        let g = adj[t];
        assert(adj.contains(g));
        let sc = factors[g as int].scope_view();
        let p = var_position(sc, v);
        lemma_factor_lists(factors, g);
        let fe = factor_edges(FactorId::from_index(g), sc);
        assert(ge[edge_base(factors, g) + 2 * p] == fe[2 * p]);
        assert(ge[edge_base(factors, g) + (2 * p + 1)] == fe[2 * p + 1]);
        assert((2 * p) / 2 == p && (2 * p) % 2 == 0 && (2 * p + 1) / 2 == p && (2 * p + 1) % 2 == 1) by (nonlinear_arith);
    }
    assert forall|t1: int, t2: int| 0 <= t1 < t2 < adj.len() implies lout[t1] < lout[t2] && lin[t1] < lin[t2] by {
        let g1 = adj[t1];
        let g2 = adj[t2];
        assert(g1 < g2);
        lemma_edge_base_monotone(factors, g1 + 1, g2);
    }
    assert forall|x: nat| lout.contains(x) <==> eout.contains(x) by {
        if lout.contains(x) {
            let t = choose|t: int| 0 <= t < lout.len() && lout[t] == x;
            lemma_factor_lists(factors, adj[t]);
            assert(leaves_variable(v)(ge[x as int]));
        }
        if eout.contains(x) {
            let k = choose|k: int| 0 <= k < eout.len() && eout[k] == x;
            let e = ge[x as int];
            assert(leaves_variable(v)(e));
            assert(edge_of(e, factors));
            let g = edge_factor(e)@;
            lemma_factor_lists(factors, g);
            let sc = factors[g as int].scope_view();
            let fe = factor_edges(FactorId::from_index(g), sc);
            let o = x - edge_base(factors, g);
            assert(0 <= o < 2 * sc.len());
            assert(ge[edge_base(factors, g) + o] == fe[o]);
            if o % 2 == 1 {
                assert(fe[o].from is Factor);
            }
            let a = o / 2;
            assert(o == 2 * a && 0 <= a < sc.len()) by (nonlinear_arith)
                requires
                    o % 2 == 0,
                    a == o / 2,
                    0 <= o < 2 * sc.len(),
            ;
            assert(sc[a]@ == v);
            assert(adj.contains(g));
            let t = choose|t: int| 0 <= t < adj.len() && adj[t] == g;
            let p = var_position(sc, v);
            assert(0 <= p < sc.len() && sc[p]@ == v);
            assert(p == a);
            assert(lout[t] == x);
        }
    }
    assert forall|x: nat| lin.contains(x) <==> ein.contains(x) by {
        if lin.contains(x) {
            let t = choose|t: int| 0 <= t < lin.len() && lin[t] == x;
            lemma_factor_lists(factors, adj[t]);
            assert(enters_variable(v)(ge[x as int]));
        }
        if ein.contains(x) {
            let k = choose|k: int| 0 <= k < ein.len() && ein[k] == x;
            let e = ge[x as int];
            assert(enters_variable(v)(e));
            assert(edge_of(e, factors));
            let g = edge_factor(e)@;
            lemma_factor_lists(factors, g);
            let sc = factors[g as int].scope_view();
            let fe = factor_edges(FactorId::from_index(g), sc);
            let o = x - edge_base(factors, g);
            assert(0 <= o < 2 * sc.len());
            assert(ge[edge_base(factors, g) + o] == fe[o]);
            if o % 2 == 0 {
                assert(fe[o].to is Factor);
            }
            let a = o / 2;
            assert(o == 2 * a + 1 && 0 <= a < sc.len()) by (nonlinear_arith)
                requires
                    o % 2 == 1,
                    a == o / 2,
                    0 <= o < 2 * sc.len(),
            ;
            assert(sc[a]@ == v);
            assert(adj.contains(g));
            let t = choose|t: int| 0 <= t < adj.len() && adj[t] == g;
            let p = var_position(sc, v);
            assert(0 <= p < sc.len() && sc[p]@ == v);
            assert(p == a);
            assert(lin[t] == x);
        }
    }
    lemma_increasing_unique(lout, eout);
    lemma_increasing_unique(lin, ein);
}

/// What `indices_where` lists: valid indices, in increasing order, of exactly
/// the edges that satisfy the predicate.
pub proof fn lemma_indices_where(edges: Seq<DirectedEdge>, p: spec_fn(DirectedEdge) -> bool)
    ensures
        forall|k: int| 0 <= k < indices_where(edges, p).len() ==> (#[trigger] indices_where(edges, p)[k]) < edges.len()
            && p(edges[indices_where(edges, p)[k] as int]),
        forall|k1: int, k2: int| 0 <= k1 < k2 < indices_where(edges, p).len() ==> (#[trigger] indices_where(edges, p)[k1])
            < (#[trigger] indices_where(edges, p)[k2]),
        forall|i: int| 0 <= i < edges.len() && p(#[trigger] edges[i]) ==> indices_where(edges, p).contains(i as nat),
    decreases edges.len(),
{
    if edges.len() > 0 {
        let d = edges.drop_last();
        lemma_indices_where(d, p);
        let r = indices_where(d, p);
        assert forall|i: int| 0 <= i < edges.len() && p(#[trigger] edges[i]) implies indices_where(edges, p).contains(
            i as nat) by {
            if i < edges.len() - 1 {
                assert(d[i] == edges[i]);
                assert(r.contains(i as nat));
                let k = choose|k: int| 0 <= k < r.len() && r[k] == i as nat;
                assert(indices_where(edges, p)[k] == i as nat);
            } else {
                assert(indices_where(edges, p).last() == i as nat);
            }
        }
        assert forall|k: int| 0 <= k < indices_where(edges, p).len() implies (#[trigger] indices_where(edges, p)[k])
            < edges.len() && p(edges[indices_where(edges, p)[k] as int]) by {
            if k < r.len() {
                assert(indices_where(edges, p)[k] == r[k]);
                assert(d[r[k] as int] == edges[r[k] as int]);
            }
        }
    }
}

/// Appending an edge appends its index to exactly the lists it satisfies.
pub proof fn lemma_indices_where_push(edges: Seq<DirectedEdge>, e: DirectedEdge, p: spec_fn(DirectedEdge) -> bool)
    ensures
        indices_where(edges.push(e), p) == if p(e) {
            indices_where(edges, p).push(edges.len() as nat)
        } else {
            indices_where(edges, p)
        },
{
    assert(edges.push(e).drop_last() =~= edges);
}

/// No edge with an endpoint beyond the bounds satisfies a predicate on that
/// endpoint.
pub proof fn lemma_indices_where_empty(edges: Seq<DirectedEdge>, p: spec_fn(DirectedEdge) -> bool)
    requires
        forall|i: int| 0 <= i < edges.len() ==> !p(#[trigger] edges[i]),
    ensures
        indices_where(edges, p) == Seq::<nat>::empty(),
    decreases edges.len(),
{
    if edges.len() > 0 {
        let d = edges.drop_last();
        assert forall|i: int| 0 <= i < d.len() implies !p(#[trigger] d[i]) by {
            assert(d[i] == edges[i]);
        }
        lemma_indices_where_empty(d, p);
        assert(!p(edges[edges.len() - 1]));
    }
}

/// Storage for messages associated with the directed edges of a factor graph.
///
/// Each [`DirectedEdge`] in the store has a corresponding message slot,
/// identified by a [`MessageId`]. Message slots are stored contiguously and
/// can be accessed directly by their identifiers.
///
/// For each factor graph edge, the store contains one directed edge in each
/// direction:
/// - from a variable to a factor;
/// - from a factor to a variable.
///
/// In addition to storing edges and their associated messages, the store
/// maintains adjacency indices for variables and factors. These indices
/// provide direct access to messages entering and leaving each graph node.
///
/// The adjacency indices preserve the ordering of the corresponding graph
/// node adjacency lists. For a factor, the message at position `i` in
/// `factor_in` or `factor_out` corresponds to the variable at position `i`
/// in the factor's scope. For a variable, the message at position `i` in
/// `variable_in` or `variable_out` corresponds to the factor at position `i`
/// in the variable's factor adjacency list.
#[derive(Debug)]
pub struct MessageStore<V> {
    messages: Vec<Option<Message<V>>>,
    edges: Vec<DirectedEdge>,
    variable_out: Vec<Vec<MessageId>>,
    variable_in: Vec<Vec<MessageId>>,
    factor_out: Vec<Vec<MessageId>>,
    factor_in: Vec<Vec<MessageId>>,
}

impl<V> MessageStore<V> {
    /// The directed edges of the store, by message index.
    pub closed spec fn edges_view(&self) -> Seq<DirectedEdge> {
        self.edges@
    }

    /// The message slots of the store, by message index.
    pub closed spec fn messages_view(&self) -> Seq<Option<Message<V>>> {
        self.messages@
    }

    /// The number of variables that the adjacency indices cover.
    pub closed spec fn variable_slots(&self) -> nat {
        self.variable_out.len() as nat
    }

    /// The number of factors that the adjacency indices cover.
    pub closed spec fn factor_slots(&self) -> nat {
        self.factor_out.len() as nat
    }

    /// The messages leaving the variable with index `v`.
    pub closed spec fn variable_out_view(&self, v: nat) -> Seq<MessageId> {
        if v < self.variable_out.len() {
            self.variable_out@[v as int]@
        } else {
            Seq::empty()
        }
    }

    /// The messages entering the variable with index `v`.
    pub closed spec fn variable_in_view(&self, v: nat) -> Seq<MessageId> {
        if v < self.variable_in.len() {
            self.variable_in@[v as int]@
        } else {
            Seq::empty()
        }
    }

    /// The messages leaving the factor with index `f`.
    pub closed spec fn factor_out_view(&self, f: nat) -> Seq<MessageId> {
        if f < self.factor_out.len() {
            self.factor_out@[f as int]@
        } else {
            Seq::empty()
        }
    }

    /// The messages entering the factor with index `f`.
    pub closed spec fn factor_in_view(&self, f: nat) -> Seq<MessageId> {
        if f < self.factor_in.len() {
            self.factor_in@[f as int]@
        } else {
            Seq::empty()
        }
    }

    /// Every edge has a message slot, connects a variable and a factor that
    /// the adjacency indices cover, and each adjacency list holds exactly the
    /// messages of its node and direction, in increasing order.
    pub open spec fn wf(&self) -> bool {
        &&& self.messages_view().len() == self.edges_view().len()
        &&& forall|i: int| 0 <= i < self.edges_view().len() ==> edge_within(
            #[trigger] self.edges_view()[i],
            self.variable_slots(),
            self.factor_slots(),
        )
        &&& forall|i: int| 0 <= i < self.messages_view().len() ==> (#[trigger] self.messages_view()[i] matches Some(
            m,
        ) ==> m.wf())
        &&& forall|v: nat| #[trigger] message_indices(self.variable_out_view(v)) == indices_where(
            self.edges_view(),
            leaves_variable(v),
        )
        &&& forall|v: nat| #[trigger] message_indices(self.variable_in_view(v)) == indices_where(
            self.edges_view(),
            enters_variable(v),
        )
        &&& forall|f: nat| #[trigger] message_indices(self.factor_out_view(f)) == indices_where(
            self.edges_view(),
            leaves_factor(f),
        )
        &&& forall|f: nat| #[trigger] message_indices(self.factor_in_view(f)) == indices_where(
            self.edges_view(),
            enters_factor(f),
        )
        &&& self.edges_view().len() < usize::MAX
        &&& self.shape_ok()
    }

    /// The adjacency lengths agree.
    pub closed spec fn shape_ok(&self) -> bool {
        &&& self.variable_out.len() == self.variable_in.len()
        &&& self.factor_out.len() == self.factor_in.len()
    }

    /// Creates an empty message store.
    ///
    /// The returned store contains no messages or directed edges.
    pub fn new() -> (s: Self)
        ensures
            s.wf(),
            s.edges_view() == Seq::<DirectedEdge>::empty(),
            s.variable_slots() == 0,
            s.factor_slots() == 0,
    {
        let s = Self {
            messages: Vec::new(),
            edges: Vec::new(),
            variable_out: Vec::new(),
            variable_in: Vec::new(),
            factor_out: Vec::new(),
            factor_in: Vec::new(),
        };
        proof {
            assert forall|v: nat| #[trigger] message_indices(s.variable_out_view(v)) == indices_where(
                s.edges_view(),
                leaves_variable(v),
            ) by {
                assert(message_indices(s.variable_out_view(v)) =~= Seq::<nat>::empty());
            }
            assert forall|v: nat| #[trigger] message_indices(s.variable_in_view(v)) == indices_where(
                s.edges_view(),
                enters_variable(v),
            ) by {
                assert(message_indices(s.variable_in_view(v)) =~= Seq::<nat>::empty());
            }
            assert forall|f: nat| #[trigger] message_indices(s.factor_out_view(f)) == indices_where(
                s.edges_view(),
                leaves_factor(f),
            ) by {
                assert(message_indices(s.factor_out_view(f)) =~= Seq::<nat>::empty());
            }
            assert forall|f: nat| #[trigger] message_indices(s.factor_in_view(f)) == indices_where(
                s.edges_view(),
                enters_factor(f),
            ) by {
                assert(message_indices(s.factor_in_view(f)) =~= Seq::<nat>::empty());
            }
        }
        s
    }

    /// Returns the number of message slots in the store.
    pub fn len(&self) -> (n: usize)
        requires
            self.wf(),
        ensures
            n == self.edges_view().len(),
    {
        self.messages.len()
    }

    /// Returns `true` if the store contains no message slots.
    pub fn is_empty(&self) -> (b: bool)
        requires
            self.wf(),
        ensures
            b == (self.edges_view().len() == 0),
    {
        self.messages.len() == 0
    }

    /// Creates the message store of `graph`: one message slot, initially
    /// empty, for each direction of each edge of the graph, factor by factor
    /// and in the order of each factor's scope.
    pub fn from_graph(graph: &FactorGraph<V>) -> (s: Self)
        requires
            graph.wf(),
            graph_edges(graph.factors_view()).len() + 1 < usize::MAX,
        ensures
            s.wf(),
            s.edges_view() == graph_edges(graph.factors_view()),
            s.messages_view() == Seq::new(s.edges_view().len(), |i: int| None::<Message<V>>),
            s.variable_slots() == graph.variables_view().len(),
            s.factor_slots() == graph.factors_view().len(),
    {
        proof {
            graph.lemma_wf();
        }
        let mut store = Self::new();
        let num_variables = graph.num_variables();
        let mut v: usize = 0;
        while v < num_variables
            invariant
                v <= num_variables,
                num_variables == graph.variables_view().len(),
                store.wf(),
                store.edges_view() == Seq::<DirectedEdge>::empty(),
                store.messages_view() == Seq::<Option<Message<V>>>::empty(),
                store.variable_slots() == v,
                store.factor_slots() == 0,
            decreases num_variables - v,
        {
            store.add_variable(VariableId::new(v));
            v += 1;
        }
        let nodes = graph.factors();
        let ghost factors = graph.factors_view();
        let mut f: usize = 0;
        while f < nodes.len()
            invariant
                f <= nodes.len(),
                nodes@.len() == factors.len(),
                factors == graph.factors_view(),
                forall|i: int| 0 <= i < nodes@.len() ==> (#[trigger] nodes@[i]).factor_view() == factors[i],
                forall|g: int, a: int| 0 <= g < factors.len() && 0 <= a < factors[g].scope_view().len()
                    ==> (#[trigger] factors[g].scope_view()[a])@ < graph.variables_view().len(),
                graph_edges(factors).len() + 1 < usize::MAX,
                graph.variables_view().len() <= usize::MAX,
                store.wf(),
                store.edges_view() == graph_edges(factors.take(f as int)),
                store.messages_view() == Seq::new(store.edges_view().len(), |i: int| None::<Message<V>>),
                store.variable_slots() == graph.variables_view().len(),
                store.factor_slots() == f,
            decreases nodes.len() - f,
        {
            let ghost before = store;
            proof {
                lemma_graph_edges_prefix(factors, f as int);
                lemma_slots_after_covered(store.variable_slots(), factors[f as int].scope_view());
            }
            let scope = nodes[f].scope();
            store.add_factor(FactorId::new(f), scope);
            proof {
                assert(store.messages_view() =~= Seq::new(store.edges_view().len(), |i: int| None::<Message<V>>));
            }
            f += 1;
        }
        proof {
            assert(factors.take(nodes.len() as int) =~= factors);
        }
        store
    }

    /// Adds adjacency storage for a newly added variable.
    ///
    /// No message slots are created: a variable has no edges until a factor
    /// over it is added.
    pub fn add_variable(&mut self, variable: VariableId)
        requires
            old(self).wf(),
            variable@ < usize::MAX,
        ensures
            final(self).wf(),
            final(self).edges_view() == old(self).edges_view(),
            final(self).messages_view() == old(self).messages_view(),
            final(self).variable_slots() == if old(self).variable_slots() <= variable@ {
                variable@ + 1
            } else {
                old(self).variable_slots()
            },
            final(self).factor_slots() == old(self).factor_slots(),
            forall|v: nat| #[trigger] final(self).variable_out_view(v) == old(self).variable_out_view(v),
            forall|v: nat| #[trigger] final(self).variable_in_view(v) == old(self).variable_in_view(v),
            forall|f: nat| #[trigger] final(self).factor_out_view(f) == old(self).factor_out_view(f),
            forall|f: nat| #[trigger] final(self).factor_in_view(f) == old(self).factor_in_view(f),
    {
        self.ensure_variable(variable.index());
        proof {
            self.lemma_same_indices(*old(self));
        }
    }

    /// Adds message slots for a newly added factor.
    ///
    /// One message is created in each direction for every variable in `scope`.
    /// The order of the messages matches the order of variables in `scope`.
    pub fn add_factor(&mut self, factor: FactorId, scope: &[VariableId])
        requires
            old(self).wf(),
            factor@ < usize::MAX,
            forall|a: int| 0 <= a < scope@.len() ==> (#[trigger] scope@[a])@ < usize::MAX,
            old(self).edges_view().len() + 2 * scope@.len() + 1 < usize::MAX,
        ensures
            final(self).wf(),
            final(self).edges_view() == old(self).edges_view() + factor_edges(factor, scope@),
            final(self).messages_view() == old(self).messages_view() + Seq::new(
                2 * scope@.len(),
                |i: int| None::<Message<V>>,
            ),
            final(self).factor_slots() == if old(self).factor_slots() <= factor@ {
                factor@ + 1
            } else {
                old(self).factor_slots()
            },
            final(self).variable_slots() == slots_after(old(self).variable_slots(), scope@),
    {
        self.ensure_factor(factor.index());
        proof {
            self.lemma_same_indices(*old(self));
        }
        let ghost start = *self;
        let mut i: usize = 0;
        while i < scope.len()
            invariant
                i <= scope.len(),
                self.wf(),
                start.wf(),
                start.edges_view() == old(self).edges_view(),
                start.messages_view() == old(self).messages_view(),
                start.variable_slots() == old(self).variable_slots(),
                start.edges_view().len() + 2 * scope@.len() + 1 < usize::MAX,
                forall|a: int| 0 <= a < scope@.len() ==> (#[trigger] scope@[a])@ < usize::MAX,
                self.edges_view() == start.edges_view() + factor_edges(factor, scope@.take(i as int)),
                self.messages_view() == start.messages_view() + Seq::new(2 * i as nat, |j: int| None::<Message<V>>),
                self.factor_slots() == if old(self).factor_slots() <= factor@ {
                    factor@ + 1
                } else {
                    old(self).factor_slots()
                },
                self.variable_slots() == slots_after(start.variable_slots(), scope@.take(i as int)),
            decreases scope.len() - i,
        {
            let variable = scope[i];
            let ghost prev_edges = self.edges_view();
            let ghost prev_messages = self.messages_view();
            self.add(DirectedEdge::variable_to_factor(variable, factor));
            self.add(DirectedEdge::factor_to_variable(factor, variable));
            proof {
                let s1 = scope@.take(i as int);
                let s2 = scope@.take(i + 1);
                assert(s2.drop_last() =~= s1);
                assert(s2.last() == variable);
                let e1 = factor_edges(factor, s1);
                let e2 = factor_edges(factor, s2);
                assert forall|j: int| 0 <= j < e2.len() implies #[trigger] e2[j] == e1.push(
                    DirectedEdge::spec_variable_to_factor(variable, factor),
                ).push(DirectedEdge::spec_factor_to_variable(factor, variable))[j] by {
                    if j < 2 * i {
                        assert(j / 2 < i) by (nonlinear_arith)
                            requires
                                0 <= j < 2 * i,
                        ;
                        assert(s2[j / 2] == s1[j / 2]);
                    } else if j == 2 * i {
                        assert(j / 2 == i && j % 2 == 0) by (nonlinear_arith)
                            requires
                                j == 2 * i,
                        ;
                    } else {
                        assert(j / 2 == i && j % 2 == 1) by (nonlinear_arith)
                            requires
                                j == 2 * i + 1,
                        ;
                    }
                }
                assert(e2 =~= e1.push(DirectedEdge::spec_variable_to_factor(variable, factor)).push(
                    DirectedEdge::spec_factor_to_variable(factor, variable),
                ));
                assert(self.edges_view() =~= start.edges_view() + e2);
                assert(self.messages_view() =~= start.messages_view() + Seq::new(
                    2 * (i + 1) as nat,
                    |j: int| None::<Message<V>>,
                ));
            }
            i += 1;
        }
        proof {
            assert(scope@.take(scope.len() as int) =~= scope@);
        }
    }

    /// Two stores with the same edges and adjacency lists agree on the
    /// adjacency part of well-formedness.
    proof fn lemma_same_indices(&self, other: Self)
        requires
            other.wf(),
            self.shape_ok(),
            self.edges_view() == other.edges_view(),
            self.messages_view() == other.messages_view(),
            self.variable_slots() >= other.variable_slots(),
            self.factor_slots() >= other.factor_slots(),
            forall|v: nat| #[trigger] self.variable_out_view(v) == other.variable_out_view(v),
            forall|v: nat| #[trigger] self.variable_in_view(v) == other.variable_in_view(v),
            forall|f: nat| #[trigger] self.factor_out_view(f) == other.factor_out_view(f),
            forall|f: nat| #[trigger] self.factor_in_view(f) == other.factor_in_view(f),
        ensures
            self.wf(),
    {
        assert forall|v: nat| #[trigger] message_indices(self.variable_out_view(v)) == indices_where(
            self.edges_view(),
            leaves_variable(v),
        ) by {
            assert(self.variable_out_view(v) == other.variable_out_view(v));
        }
        assert forall|v: nat| #[trigger] message_indices(self.variable_in_view(v)) == indices_where(
            self.edges_view(),
            enters_variable(v),
        ) by {
            assert(self.variable_in_view(v) == other.variable_in_view(v));
        }
        assert forall|f: nat| #[trigger] message_indices(self.factor_out_view(f)) == indices_where(
            self.edges_view(),
            leaves_factor(f),
        ) by {
            assert(self.factor_out_view(f) == other.factor_out_view(f));
        }
        assert forall|f: nat| #[trigger] message_indices(self.factor_in_view(f)) == indices_where(
            self.edges_view(),
            enters_factor(f),
        ) by {
            assert(self.factor_in_view(f) == other.factor_in_view(f));
        }
        assert forall|i: int| 0 <= i < self.edges_view().len() implies edge_within(
            #[trigger] self.edges_view()[i],
            self.variable_slots(),
            self.factor_slots(),
        ) by {
            assert(edge_within(other.edges_view()[i], other.variable_slots(), other.factor_slots()));
        }
    }

    /// Ensures adjacency storage exists for the variable with index `index`.
    fn ensure_variable(&mut self, index: usize)
        requires
            old(self).shape_ok(),
            index < usize::MAX,
        ensures
            final(self).shape_ok(),
            final(self).edges_view() == old(self).edges_view(),
            final(self).messages_view() == old(self).messages_view(),
            final(self).variable_slots() == if old(self).variable_slots() < index + 1 {
                (index + 1) as nat
            } else {
                old(self).variable_slots()
            },
            final(self).factor_slots() == old(self).factor_slots(),
            forall|v: nat| #[trigger] final(self).variable_out_view(v) == old(self).variable_out_view(v),
            forall|v: nat| #[trigger] final(self).variable_in_view(v) == old(self).variable_in_view(v),
            forall|f: nat| #[trigger] final(self).factor_out_view(f) == old(self).factor_out_view(f),
            forall|f: nat| #[trigger] final(self).factor_in_view(f) == old(self).factor_in_view(f),
    {
        let required_len = index + 1;
        if self.variable_out.len() < required_len {
            let ghost old_out = self.variable_out@;
            let ghost old_in = self.variable_in@;
            while self.variable_out.len() < required_len
                invariant
                    self.variable_out.len() == self.variable_in.len(),
                    self.variable_out.len() <= required_len,
                    old_out.len() <= self.variable_out.len(),
                    self.factor_out == old(self).factor_out,
                    self.factor_in == old(self).factor_in,
                    self.edges == old(self).edges,
                    self.messages == old(self).messages,
                    forall|v: int| 0 <= v < old_out.len() ==> #[trigger] self.variable_out@[v] == old_out[v],
                    forall|v: int| 0 <= v < old_in.len() ==> #[trigger] self.variable_in@[v] == old_in[v],
                    forall|v: int| old_out.len() <= v < self.variable_out.len() ==> (#[trigger] self.variable_out@[v])@.len() == 0,
                    forall|v: int| old_in.len() <= v < self.variable_in.len() ==> (#[trigger] self.variable_in@[v])@.len() == 0,
                    old_out == old(self).variable_out@,
                    old_in == old(self).variable_in@,
                    old(self).shape_ok(),
                decreases required_len - self.variable_out.len(),
            {
                self.variable_out.push(Vec::new());
                self.variable_in.push(Vec::new());
            }
            proof {
                assert forall|v: nat| #[trigger] self.variable_out_view(v) == old(self).variable_out_view(v) by {
                    if v < old_out.len() {
                        assert(self.variable_out@[v as int] == old_out[v as int]);
                    } else if v < self.variable_out.len() {
                        assert(self.variable_out_view(v) =~= Seq::<MessageId>::empty());
                    }
                }
                assert forall|v: nat| #[trigger] self.variable_in_view(v) == old(self).variable_in_view(v) by {
                    if v < old_in.len() {
                        assert(self.variable_in@[v as int] == old_in[v as int]);
                    } else if v < self.variable_in.len() {
                        assert(self.variable_in_view(v) =~= Seq::<MessageId>::empty());
                    }
                }
            }
        }
    }

    /// Ensures adjacency storage exists for the factor with index `index`.
    fn ensure_factor(&mut self, index: usize)
        requires
            old(self).shape_ok(),
            index < usize::MAX,
        ensures
            final(self).shape_ok(),
            final(self).edges_view() == old(self).edges_view(),
            final(self).messages_view() == old(self).messages_view(),
            final(self).factor_slots() == if old(self).factor_slots() < index + 1 {
                (index + 1) as nat
            } else {
                old(self).factor_slots()
            },
            final(self).variable_slots() == old(self).variable_slots(),
            forall|v: nat| #[trigger] final(self).variable_out_view(v) == old(self).variable_out_view(v),
            forall|v: nat| #[trigger] final(self).variable_in_view(v) == old(self).variable_in_view(v),
            forall|f: nat| #[trigger] final(self).factor_out_view(f) == old(self).factor_out_view(f),
            forall|f: nat| #[trigger] final(self).factor_in_view(f) == old(self).factor_in_view(f),
    {
        let required_len = index + 1;
        if self.factor_out.len() < required_len {
            let ghost old_out = self.factor_out@;
            let ghost old_in = self.factor_in@;
            while self.factor_out.len() < required_len
                invariant
                    self.factor_out.len() == self.factor_in.len(),
                    self.factor_out.len() <= required_len,
                    old_out.len() <= self.factor_out.len(),
                    self.variable_out == old(self).variable_out,
                    self.variable_in == old(self).variable_in,
                    self.edges == old(self).edges,
                    self.messages == old(self).messages,
                    forall|f: int| 0 <= f < old_out.len() ==> #[trigger] self.factor_out@[f] == old_out[f],
                    forall|f: int| 0 <= f < old_in.len() ==> #[trigger] self.factor_in@[f] == old_in[f],
                    forall|f: int| old_out.len() <= f < self.factor_out.len() ==> (#[trigger] self.factor_out@[f])@.len() == 0,
                    forall|f: int| old_in.len() <= f < self.factor_in.len() ==> (#[trigger] self.factor_in@[f])@.len() == 0,
                    old_out == old(self).factor_out@,
                    old_in == old(self).factor_in@,
                    old(self).shape_ok(),
                decreases required_len - self.factor_out.len(),
            {
                self.factor_out.push(Vec::new());
                self.factor_in.push(Vec::new());
            }
            proof {
                assert forall|f: nat| #[trigger] self.factor_out_view(f) == old(self).factor_out_view(f) by {
                    if f < old_out.len() {
                        assert(self.factor_out@[f as int] == old_out[f as int]);
                    } else if f < self.factor_out.len() {
                        assert(self.factor_out_view(f) =~= Seq::<MessageId>::empty());
                    }
                }
                assert forall|f: nat| #[trigger] self.factor_in_view(f) == old(self).factor_in_view(f) by {
                    if f < old_in.len() {
                        assert(self.factor_in@[f as int] == old_in[f as int]);
                    } else if f < self.factor_in.len() {
                        assert(self.factor_in_view(f) =~= Seq::<MessageId>::empty());
                    }
                }
            }
        }
    }

    /// Adds a directed edge to the store.
    ///
    /// A message slot initialized to `None` is created for the edge, ensuring
    /// that every edge in the store has an associated message slot. The
    /// appropriate incoming and outgoing adjacency indices are also updated.
    ///
    /// Returns the [`MessageId`] assigned to the new edge's message slot.
    pub fn add(&mut self, edge: DirectedEdge) -> (id: MessageId)
        requires
            old(self).wf(),
            old(self).edges_view().len() + 1 < usize::MAX,
            edge_within(edge, usize::MAX as nat, usize::MAX as nat),
        ensures
            final(self).wf(),
            id@ == old(self).edges_view().len(),
            final(self).edges_view() == old(self).edges_view().push(edge),
            final(self).messages_view() == old(self).messages_view().push(None),
            endpoint_variable(edge.from) matches Some(v) ==> final(self).variable_slots() == if old(self).variable_slots() < v + 1 {
                v + 1
            } else {
                old(self).variable_slots()
            },
            endpoint_variable(edge.to) matches Some(v) ==> final(self).variable_slots() == if old(self).variable_slots() < v + 1 {
                v + 1
            } else {
                old(self).variable_slots()
            },
            endpoint_factor(edge.from) matches Some(f) ==> final(self).factor_slots() == if old(self).factor_slots() < f + 1 {
                f + 1
            } else {
                old(self).factor_slots()
            },
            endpoint_factor(edge.to) matches Some(f) ==> final(self).factor_slots() == if old(self).factor_slots() < f + 1 {
                f + 1
            } else {
                old(self).factor_slots()
            },
    {
        let id = MessageId::new(self.messages.len());
        let ghost old_edges = self.edges@;
        self.edges.push(edge);
        self.messages.push(None);
        match (edge.from, edge.to) {
            (Endpoint::Variable(variable), Endpoint::Factor(factor)) => {
                self.ensure_variable(variable.index());
                self.ensure_factor(factor.index());
                let ghost mid = *self;
                self.variable_out[variable.index()].push(id);
                self.factor_in[factor.index()].push(id);
                proof {
                    assert forall|v: nat| #[trigger] self.variable_out_view(v) == if v == variable@ {
                        old(self).variable_out_view(v).push(id)
                    } else {
                        old(self).variable_out_view(v)
                    } by {
                        assert(mid.variable_out_view(v) == old(self).variable_out_view(v));
                    }
                    assert forall|f: nat| #[trigger] self.factor_in_view(f) == if f == factor@ {
                        old(self).factor_in_view(f).push(id)
                    } else {
                        old(self).factor_in_view(f)
                    } by {
                        assert(mid.factor_in_view(f) == old(self).factor_in_view(f));
                    }
                    assert forall|v: nat| #[trigger] self.variable_in_view(v) == old(self).variable_in_view(v) by {
                        assert(mid.variable_in_view(v) == old(self).variable_in_view(v));
                    }
                    assert forall|f: nat| #[trigger] self.factor_out_view(f) == old(self).factor_out_view(f) by {
                        assert(mid.factor_out_view(f) == old(self).factor_out_view(f));
                    }
                }
            },
            (Endpoint::Factor(factor), Endpoint::Variable(variable)) => {
                self.ensure_variable(variable.index());
                self.ensure_factor(factor.index());
                let ghost mid = *self;
                self.factor_out[factor.index()].push(id);
                self.variable_in[variable.index()].push(id);
                proof {
                    assert forall|v: nat| #[trigger] self.variable_in_view(v) == if v == variable@ {
                        old(self).variable_in_view(v).push(id)
                    } else {
                        old(self).variable_in_view(v)
                    } by {
                        assert(mid.variable_in_view(v) == old(self).variable_in_view(v));
                    }
                    assert forall|f: nat| #[trigger] self.factor_out_view(f) == if f == factor@ {
                        old(self).factor_out_view(f).push(id)
                    } else {
                        old(self).factor_out_view(f)
                    } by {
                        assert(mid.factor_out_view(f) == old(self).factor_out_view(f));
                    }
                    assert forall|v: nat| #[trigger] self.variable_out_view(v) == old(self).variable_out_view(v) by {
                        assert(mid.variable_out_view(v) == old(self).variable_out_view(v));
                    }
                    assert forall|f: nat| #[trigger] self.factor_in_view(f) == old(self).factor_in_view(f) by {
                        assert(mid.factor_in_view(f) == old(self).factor_in_view(f));
                    }
                }
            },
            _ => {
                proof {
                    assert(false);
                }
            },
        }
        proof {
            assert forall|v: nat| #[trigger] message_indices(self.variable_out_view(v)) == indices_where(
                self.edges_view(),
                leaves_variable(v),
            ) by {
                lemma_indices_where_push(old_edges, edge, leaves_variable(v));
                assert(message_indices(old(self).variable_out_view(v).push(id)) =~= message_indices(
                    old(self).variable_out_view(v)).push(id@));
            }
            assert forall|v: nat| #[trigger] message_indices(self.variable_in_view(v)) == indices_where(
                self.edges_view(),
                enters_variable(v),
            ) by {
                lemma_indices_where_push(old_edges, edge, enters_variable(v));
                assert(message_indices(old(self).variable_in_view(v).push(id)) =~= message_indices(
                    old(self).variable_in_view(v)).push(id@));
            }
            assert forall|f: nat| #[trigger] message_indices(self.factor_out_view(f)) == indices_where(
                self.edges_view(),
                leaves_factor(f),
            ) by {
                lemma_indices_where_push(old_edges, edge, leaves_factor(f));
                assert(message_indices(old(self).factor_out_view(f).push(id)) =~= message_indices(
                    old(self).factor_out_view(f)).push(id@));
            }
            assert forall|f: nat| #[trigger] message_indices(self.factor_in_view(f)) == indices_where(
                self.edges_view(),
                enters_factor(f),
            ) by {
                lemma_indices_where_push(old_edges, edge, enters_factor(f));
                assert(message_indices(old(self).factor_in_view(f).push(id)) =~= message_indices(
                    old(self).factor_in_view(f)).push(id@));
            }
            assert forall|i: int| 0 <= i < self.edges_view().len() implies edge_within(
                #[trigger] self.edges_view()[i],
                self.variable_slots(),
                self.factor_slots(),
            ) by {
                if i < old_edges.len() {
                    assert(self.edges_view()[i] == old_edges[i]);
                    assert(edge_within(old_edges[i], old(self).variable_slots(), old(self).factor_slots()));
                }
            }
        }
        id
    }

    /// Returns the directed edge associated with `id`.
    pub fn edge(&self, id: MessageId) -> (e: DirectedEdge)
        requires
            id@ < self.edges_view().len(),
        ensures
            e == self.edges_view()[id@ as int],
    {
        self.edges[id.index()]
    }

    /// Returns the message associated with `id`, if one has been computed.
    pub fn get(&self, id: MessageId) -> (m: Option<&Message<V>>)
        requires
            self.wf(),
            id@ < self.edges_view().len(),
        ensures
            m == match self.messages_view()[id@ as int] {
                Some(x) => Some(&x),
                None => None::<&Message<V>>,
            },
    {
        match &self.messages[id.index()] {
            Some(m) => Some(m),
            None => None,
        }
    }

    /// Stores `message` in the slot associated with `id`.
    ///
    /// Any previously computed message for the edge is replaced.
    pub fn set(&mut self, id: MessageId, message: Message<V>)
        requires
            old(self).wf(),
            id@ < old(self).edges_view().len(),
            message.wf(),
        ensures
            final(self).wf(),
            final(self).edges_view() == old(self).edges_view(),
            final(self).messages_view() == old(self).messages_view().update(id@ as int, Some(message)),
            final(self).variable_slots() == old(self).variable_slots(),
            final(self).factor_slots() == old(self).factor_slots(),
            forall|v: nat| #[trigger] final(self).variable_out_view(v) == old(self).variable_out_view(v),
            forall|v: nat| #[trigger] final(self).variable_in_view(v) == old(self).variable_in_view(v),
            forall|f: nat| #[trigger] final(self).factor_out_view(f) == old(self).factor_out_view(f),
            forall|f: nat| #[trigger] final(self).factor_in_view(f) == old(self).factor_in_view(f),
    {
        self.messages.set(id.index(), Some(message));
        proof {
            assert forall|v: nat| #[trigger] message_indices(self.variable_out_view(v)) == indices_where(
                self.edges_view(),
                leaves_variable(v),
            ) by {
                assert(self.variable_out_view(v) == old(self).variable_out_view(v));
            }
            assert forall|v: nat| #[trigger] message_indices(self.variable_in_view(v)) == indices_where(
                self.edges_view(),
                enters_variable(v),
            ) by {
                assert(self.variable_in_view(v) == old(self).variable_in_view(v));
            }
            assert forall|f: nat| #[trigger] message_indices(self.factor_out_view(f)) == indices_where(
                self.edges_view(),
                leaves_factor(f),
            ) by {
                assert(self.factor_out_view(f) == old(self).factor_out_view(f));
            }
            assert forall|f: nat| #[trigger] message_indices(self.factor_in_view(f)) == indices_where(
                self.edges_view(),
                enters_factor(f),
            ) by {
                assert(self.factor_in_view(f) == old(self).factor_in_view(f));
            }
        }
    }

    /// Returns the messages directed from `variable` to neighboring factors.
    pub fn variable_out(&self, variable: VariableId) -> (ids: &[MessageId])
        ensures
            ids@ == self.variable_out_view(variable@),
    {
        if variable.index() < self.variable_out.len() {
            self.variable_out[variable.index()].as_slice()
        } else {
            &[]
        }
    }

    /// Returns the messages directed to `variable` from neighboring factors.
    pub fn variable_in(&self, variable: VariableId) -> (ids: &[MessageId])
        ensures
            ids@ == self.variable_in_view(variable@),
    {
        if variable.index() < self.variable_in.len() {
            self.variable_in[variable.index()].as_slice()
        } else {
            &[]
        }
    }

    /// Returns the messages directed from `factor` to neighboring variables.
    pub fn factor_out(&self, factor: FactorId) -> (ids: &[MessageId])
        ensures
            ids@ == self.factor_out_view(factor@),
    {
        if factor.index() < self.factor_out.len() {
            self.factor_out[factor.index()].as_slice()
        } else {
            &[]
        }
    }

    /// Returns the messages directed to `factor` from neighboring variables.
    pub fn factor_in(&self, factor: FactorId) -> (ids: &[MessageId])
        ensures
            ids@ == self.factor_in_view(factor@),
    {
        if factor.index() < self.factor_in.len() {
            self.factor_in[factor.index()].as_slice()
        } else {
            &[]
        }
    }
}

} // verus!
