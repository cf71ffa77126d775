//! Alignment of factor scopes by variable.

use vstd::prelude::*;

use crate::factor::{distinct_vars, sorted_vars};
use crate::variable::VariableId;

verus! {

broadcast use crate::variable::lemma_variable_id_view_injective;

/// Some pair of `s` has axis `a`.
pub open spec fn covers(s: Seq<(VariableId, usize)>, a: int) -> bool {
    exists|t: int| 0 <= t < s.len() && (#[trigger] s[t]).1 == a
}

/// Some entry of `axes` is `a`.
pub open spec fn lists(axes: Seq<usize>, a: int) -> bool {
    exists|t: int| 0 <= t < axes.len() && #[trigger] axes[t] == a
}

/// `s` pairs each variable of `scope` with its axis, ordered by variable.
pub open spec fn is_sorted_axes(s: Seq<(VariableId, usize)>, scope: Seq<VariableId>) -> bool {
    &&& s.len() == scope.len()
    &&& forall|t: int| 0 <= t < s.len() ==> (#[trigger] s[t]).1 < scope.len() && scope[s[t].1 as int] == s[t].0
    &&& forall|t1: int, t2: int| 0 <= t1 < t2 < s.len() ==> (#[trigger] s[t1]).0@ < (#[trigger] s[t2]).0@
    &&& forall|a: int| 0 <= a < scope.len() ==> #[trigger] covers(s, a)
}

/// Pairs each variable of `scope` with its axis and orders the pairs by variable.
pub fn sorted_axes(scope: &[VariableId]) -> (s: Vec<(VariableId, usize)>)
    requires
        distinct_vars(scope@),
    ensures
        is_sorted_axes(s@, scope@),
{
    let mut s: Vec<(VariableId, usize)> = Vec::new();
    let mut a: usize = 0;
    while a < scope.len()
        invariant
            a <= scope.len(),
            distinct_vars(scope@),
            s.len() == a,
            forall|t: int| 0 <= t < s.len() ==> (#[trigger] s@[t]).1 < a && scope@[s@[t].1 as int] == s@[t].0,
            forall|t1: int, t2: int| 0 <= t1 < t2 < s.len() ==> (#[trigger] s@[t1]).0@ < (#[trigger] s@[t2]).0@,
            forall|b: int| 0 <= b < a ==> #[trigger] covers(s@, b),
        decreases scope.len() - a,
    {
        let v = scope[a];
        let mut pos: usize = 0;
        while pos < s.len() && !v.precedes(s[pos].0)
            invariant
                pos <= s.len(),
                forall|t: int| 0 <= t < pos ==> (#[trigger] s@[t]).0@ <= v@,
            decreases s.len() - pos,
        {
            pos += 1;
        }
        let ghost old_s = s@;
        proof {
            assert forall|t: int| 0 <= t < pos implies (#[trigger] old_s[t]).0@ < v@ by {
                assert(old_s[t].0 == scope@[old_s[t].1 as int]);
                assert(old_s[t].1 != a);
            }
        }
        s.insert(pos, (v, a));
        proof {
            assert(s@ == old_s.insert(pos as int, (v, a)));
            assert forall|t1: int, t2: int| 0 <= t1 < t2 < s.len() implies (#[trigger] s@[t1]).0@ < (
            #[trigger] s@[t2]).0@ by {
                if t2 < pos {
                } else if t2 == pos {
                } else if t1 < pos {
                    assert(s@[t2] == old_s[t2 - 1]);
                    if pos < old_s.len() {
                        assert(old_s[pos as int].0@ > v@);
                        if t2 - 1 > pos {
                            assert(old_s[pos as int].0@ < old_s[t2 - 1].0@);
                        }
                    }
                } else if t1 == pos {
                    assert(s@[t2] == old_s[t2 - 1]);
                    assert(old_s[pos as int].0@ > v@);
                    if t2 - 1 > pos {
                        assert(old_s[pos as int].0@ < old_s[t2 - 1].0@);
                    }
                } else {
                    assert(s@[t1] == old_s[t1 - 1]);
                    assert(s@[t2] == old_s[t2 - 1]);
                }
            }
            assert forall|b: int| 0 <= b < a + 1 implies #[trigger] covers(s@, b) by {
                if b == a {
                    assert(s@[pos as int].1 == b);
                } else {
                    assert(covers(old_s, b));
                    let t = choose|t: int| 0 <= t < old_s.len() && (#[trigger] old_s[t]).1 == b;
                    if t < pos {
                        assert(s@[t].1 == b);
                    } else {
                        assert(s@[t + 1].1 == b);
                    }
                }
            }
        }
        a += 1;
    }
    s
}

/// Information needed to align two factor scopes.
///
/// The output scope is always the sorted union of the two input scopes.
///
/// The `*_to_out` mappings map an input axis to its corresponding output axis.
pub struct Alignment {
    /// Sorted union of the input scopes.
    pub union_vars: Vec<VariableId>,
    /// Axes appearing only in the left-hand factor.
    pub lhs_only: Vec<usize>,
    /// Axes appearing only in the right-hand factor.
    pub rhs_only: Vec<usize>,
    /// Axes corresponding to variables shared by both factors.
    pub lhs_common: Vec<usize>,
    pub rhs_common: Vec<usize>,
    /// Maps left-hand factor axes to output axes.
    pub lhs_to_out: Vec<usize>,
    /// Maps right-hand factor axes to output axes.
    pub rhs_to_out: Vec<usize>,
}

/// `m` maps each axis of `scope` to the axis of `out` holding the same variable.
pub open spec fn maps_into(m: Seq<usize>, scope: Seq<VariableId>, out: Seq<VariableId>) -> bool {
    &&& m.len() == scope.len()
    &&& forall|a: int| 0 <= a < m.len() ==> (#[trigger] m[a]) < out.len() && out[m[a] as int] == scope[a]
}

/// `axes` lists, in increasing order of their variables, exactly the axes of
/// `scope` whose variable satisfies `shared` with respect to `other`.
pub open spec fn lists_axes(axes: Seq<usize>, scope: Seq<VariableId>, other: Seq<VariableId>, shared: bool) -> bool {
    &&& forall|t: int| 0 <= t < axes.len() ==> (#[trigger] axes[t]) < scope.len()
        && other.contains(scope[axes[t] as int]) == shared
    &&& forall|t1: int, t2: int| 0 <= t1 < t2 < axes.len() ==>
        scope[(#[trigger] axes[t1]) as int]@ < scope[(#[trigger] axes[t2]) as int]@
    &&& forall|a: int| 0 <= a < scope.len() && other.contains(scope[a]) == shared ==> #[trigger] lists(axes, a)
}

/// `u` is the sorted union of the variables of `lhs` and `rhs`, and the maps
/// send each input axis to the output axis of its variable.
pub open spec fn is_union_alignment(
    u: Seq<VariableId>,
    lhs_to_out: Seq<usize>,
    rhs_to_out: Seq<usize>,
    lhs: Seq<VariableId>,
    rhs: Seq<VariableId>,
) -> bool {
    &&& sorted_vars(u)
    &&& maps_into(lhs_to_out, lhs, u)
    &&& maps_into(rhs_to_out, rhs, u)
    &&& forall|o: int| 0 <= o < u.len() ==> lhs.contains(#[trigger] u[o]) || rhs.contains(u[o])
}

/// The position of `v` in `u`.
pub open spec fn position_of(u: Seq<VariableId>, v: VariableId) -> int {
    choose|o: int| 0 <= o < u.len() && u[o] == v
}

/// The positions in `u` of the variables of `s`, in the order of `s`.
pub open spec fn positions_of(u: Seq<VariableId>, s: Seq<VariableId>) -> Seq<usize> {
    Seq::new(s.len(), |a: int| position_of(u, s[a]) as usize)
}

/// `u` lists, in increasing order, the variables that occur in `a` or `b`.
pub open spec fn is_sorted_union(u: Seq<VariableId>, a: Seq<VariableId>, b: Seq<VariableId>) -> bool {
    &&& sorted_vars(u)
    &&& forall|v: VariableId| #[trigger] u.contains(v) <==> (a.contains(v) || b.contains(v))
}

/// The variables that occur in `a` or `b`, in increasing order.
pub open spec fn sorted_union(a: Seq<VariableId>, b: Seq<VariableId>) -> Seq<VariableId> {
    choose|u: Seq<VariableId>| is_sorted_union(u, a, b)
}

/// The cardinalities of the combination of a factor with scope `s1` and
/// cardinalities `c1` and one with scope `s2` and cardinalities `c2`: each
/// variable of the sorted union keeps its cardinality, the right-hand one
/// where both factors have the variable.
pub open spec fn combined_card(s1: Seq<VariableId>, c1: Seq<usize>, s2: Seq<VariableId>, c2: Seq<usize>) -> Seq<usize> {
    let u = sorted_union(s1, s2);
    Seq::new(
        u.len(),
        |o: int|
            if s2.contains(u[o]) {
                c2[position_of(s2, u[o])]
            } else {
                c1[position_of(s1, u[o])]
            },
    )
}

/// Factors agree on the cardinality of every variable that they share.
pub open spec fn cards_agree(s1: Seq<VariableId>, c1: Seq<usize>, s2: Seq<VariableId>, c2: Seq<usize>) -> bool {
    forall|a: int, b: int| 0 <= a < s1.len() && 0 <= b < s2.len() && #[trigger] s1[a] == #[trigger] s2[b]
        ==> c1[a] == c2[b]
}

/// In a sequence without repeated variables, an occurring variable has exactly
/// one position.
pub proof fn lemma_position_of(u: Seq<VariableId>, o: int)
    requires
        distinct_vars(u),
        0 <= o < u.len(),
    ensures
        position_of(u, u[o]) == o,
{
    let p = position_of(u, u[o]);
    assert(0 <= p < u.len() && u[p] == u[o]);
}

/// A map from the axes of `s` into `u` is the map of positions.
pub proof fn lemma_positions_of(m: Seq<usize>, s: Seq<VariableId>, u: Seq<VariableId>)
    requires
        distinct_vars(u),
        maps_into(m, s, u),
    ensures
        positions_of(u, s) == m,
{
    assert forall|a: int| 0 <= a < s.len() implies #[trigger] positions_of(u, s)[a] == m[a] by {
        lemma_position_of(u, m[a] as int);
    }
    assert(positions_of(u, s) =~= m);
}

/// Sorted sequences of variables with the same variables are equal.
pub proof fn lemma_sorted_unique(u1: Seq<VariableId>, u2: Seq<VariableId>)
    requires
        sorted_vars(u1),
        sorted_vars(u2),
        forall|v: VariableId| u1.contains(v) <==> u2.contains(v),
    ensures
        u1 == u2,
    decreases u1.len() + u2.len(),
{
    if u1.len() == 0 {
        if u2.len() > 0 {
            assert(u2.contains(u2[0]));
        }
        assert(u1 =~= u2);
    } else if u2.len() == 0 {
        assert(u1.contains(u1[0]));
    } else {
        let l1 = u1.last();
        let l2 = u2.last();
        assert(u1.contains(l1));
        assert(u2.contains(l2));
        let o2 = choose|o: int| 0 <= o < u2.len() && u2[o] == l1;
        let o1 = choose|o: int| 0 <= o < u1.len() && u1[o] == l2;
        if o2 < u2.len() - 1 {
            assert(u2[o2]@ < l2@);
        }
        if o1 < u1.len() - 1 {
            assert(u1[o1]@ < l1@);
        }
        assert(l1@ == l2@);
        assert(l1 == l2);
        let d1 = u1.drop_last();
        let d2 = u2.drop_last();
        assert forall|v: VariableId| d1.contains(v) <==> d2.contains(v) by {
            if d1.contains(v) {
                let p = choose|p: int| 0 <= p < d1.len() && d1[p] == v;
                assert(u1[p]@ < l1@);
                assert(u1.contains(v));
                let q = choose|q: int| 0 <= q < u2.len() && u2[q] == v;
                assert(q != u2.len() - 1);
                assert(d2[q] == v);
            }
            if d2.contains(v) {
                let p = choose|p: int| 0 <= p < d2.len() && d2[p] == v;
                assert(u2[p]@ < l2@);
                assert(u2.contains(v));
                let q = choose|q: int| 0 <= q < u1.len() && u1[q] == v;
                assert(q != u1.len() - 1);
                assert(d1[q] == v);
            }
        }
        lemma_sorted_unique(d1, d2);
        assert(u1 =~= d1.push(l1));
        assert(u2 =~= d2.push(l2));
    }
}

/// Filtering a sorted sequence of variables keeps it sorted.
pub proof fn lemma_filter_sorted(t: Seq<VariableId>, p: spec_fn(VariableId) -> bool)
    requires
        sorted_vars(t),
    ensures
        sorted_vars(t.filter(p)),
    decreases t.len(),
{
    reveal(Seq::filter);
    if t.len() > 0 {
        let d = t.drop_last();
        assert(sorted_vars(d)) by {
            assert forall|i: int, j: int| 0 <= i < j < d.len() implies d[i]@ < d[j]@ by {
                assert(d[i] == t[i] && d[j] == t[j]);
            }
        }
        lemma_filter_sorted(d, p);
        let fd = d.filter(p);
        if p(t.last()) {
            assert forall|i: int| 0 <= i < fd.len() implies (#[trigger] fd[i])@ < t.last()@ by {
                assert(fd.contains(fd[i]));
                d.lemma_filter_contains_rev(p, fd[i]);
                let j = choose|j: int| 0 <= j < d.len() && d[j] == fd[i];
                assert(t[j] == d[j]);
            }
            let r = fd.push(t.last());
            assert forall|i: int, j: int| 0 <= i < j < r.len() implies r[i]@ < r[j]@ by {
                if j < fd.len() {
                    assert(r[i] == fd[i] && r[j] == fd[j]);
                } else {
                    assert(r[i] == fd[i]);
                }
            }
        }
    }
}

/// Some sequence lists the variables of `s` in increasing order.
pub proof fn lemma_sorted_exists(s: Seq<VariableId>)
    ensures
        exists|t: Seq<VariableId>| sorted_vars(t) && forall|v: VariableId| #[trigger] t.contains(v) <==> s.contains(v),
    decreases s.len(),
{
    if s.len() == 0 {
        let t = Seq::<VariableId>::empty();
        assert(sorted_vars(t) && forall|v: VariableId| #[trigger] t.contains(v) <==> s.contains(v));
    } else {
        let d = s.drop_last();
        let x = s.last();
        lemma_sorted_exists(d);
        let t = choose|t: Seq<VariableId>| sorted_vars(t) && forall|v: VariableId| #[trigger] t.contains(v) <==> d.contains(v);
        assert forall|v: VariableId| #[trigger] s.contains(v) <==> (d.contains(v) || v == x) by {
            if s.contains(v) {
                let k = choose|k: int| 0 <= k < s.len() && s[k] == v;
                if k < d.len() {
                    assert(d[k] == v);
                }
            }
            if d.contains(v) {
                let k = choose|k: int| 0 <= k < d.len() && d[k] == v;
                assert(s[k] == v);
            }
            if v == x {
                assert(s[s.len() - 1] == x);
            }
        }
        if t.contains(x) {
            assert(sorted_vars(t) && forall|v: VariableId| #[trigger] t.contains(v) <==> s.contains(v));
        } else {
            let below = |y: VariableId| y@ < x@;
            let above = |y: VariableId| y@ > x@;
            let lo = t.filter(below);
            let hi = t.filter(above);
            let w = lo.push(x) + hi;
            lemma_filter_sorted(t, below);
            lemma_filter_sorted(t, above);
            assert forall|i: int| 0 <= i < lo.len() implies (#[trigger] lo[i])@ < x@ by {
                t.lemma_filter_pred(below, i);
            }
            assert forall|i: int| 0 <= i < hi.len() implies (#[trigger] hi[i])@ > x@ by {
                t.lemma_filter_pred(above, i);
            }
            let n = lo.len() as int;
            assert forall|i: int, j: int| 0 <= i < j < w.len() implies w[i]@ < w[j]@ by {
                if j < n {
                    assert(w[i] == lo[i] && w[j] == lo[j]);
                } else if j == n {
                    assert(w[i] == lo[i] && w[j] == x);
                } else if i < n {
                    assert(w[i] == lo[i] && w[j] == hi[j - n - 1]);
                } else if i == n {
                    assert(w[i] == x && w[j] == hi[j - n - 1]);
                } else {
                    assert(w[i] == hi[i - n - 1] && w[j] == hi[j - n - 1]);
                }
            }
            assert forall|v: VariableId| #[trigger] w.contains(v) <==> s.contains(v) by {
                if w.contains(v) {
                    let k = choose|k: int| 0 <= k < w.len() && w[k] == v;
                    if k < n {
                        assert(lo.contains(lo[k]));
                        t.lemma_filter_contains_rev(below, lo[k]);
                        assert(w[k] == lo[k]);
                    } else if k > n {
                        assert(hi.contains(hi[k - n - 1]));
                        t.lemma_filter_contains_rev(above, hi[k - n - 1]);
                        assert(w[k] == hi[k - n - 1]);
                    }
                }
                if s.contains(v) {
                    if v == x {
                        assert(w[n] == x);
                    } else {
                        assert(t.contains(v));
                        let k = choose|k: int| 0 <= k < t.len() && t[k] == v;
                        if v@ < x@ {
                            t.lemma_filter_contains(below, k);
                            let q = choose|q: int| 0 <= q < lo.len() && lo[q] == v;
                            assert(w[q] == v);
                        } else {
                            t.lemma_filter_contains(above, k);
                            let q = choose|q: int| 0 <= q < hi.len() && hi[q] == v;
                            assert(w[n + 1 + q] == v);
                        }
                    }
                }
            }
            assert(sorted_vars(w) && forall|v: VariableId| #[trigger] w.contains(v) <==> s.contains(v));
        }
    }
}

/// The sorted union of two scopes exists: it lists, in increasing order,
/// the variables that occur in either.
pub proof fn lemma_sorted_union_exists(a: Seq<VariableId>, b: Seq<VariableId>)
    ensures
        is_sorted_union(sorted_union(a, b), a, b),
{
    let s = a + b;
    lemma_sorted_exists(s);
    let t = choose|t: Seq<VariableId>| sorted_vars(t) && forall|v: VariableId| #[trigger] t.contains(v) <==> s.contains(v);
    assert forall|v: VariableId| #[trigger] t.contains(v) <==> (a.contains(v) || b.contains(v)) by {
        if s.contains(v) {
            let k = choose|k: int| 0 <= k < s.len() && s[k] == v;
            if k < a.len() {
                assert(a[k] == v);
            } else {
                assert(b[k - a.len()] == v);
            }
        }
        if a.contains(v) {
            let k = choose|k: int| 0 <= k < a.len() && a[k] == v;
            assert(s[k] == v);
        }
        if b.contains(v) {
            let k = choose|k: int| 0 <= k < b.len() && b[k] == v;
            assert(s[a.len() + k] == v);
        }
    }
    assert(is_sorted_union(t, a, b));
}

/// Sequences of distinct variables that hold the same variables have the same
/// length.
pub proof fn lemma_same_vars_len(a: Seq<VariableId>, b: Seq<VariableId>)
    requires
        distinct_vars(a),
        distinct_vars(b),
        forall|x: VariableId| #[trigger] a.contains(x) <==> b.contains(x),
    ensures
        a.len() == b.len(),
{
    assert(a.no_duplicates());
    assert(b.no_duplicates());
    a.unique_seq_to_set();
    b.unique_seq_to_set();
    assert(a.to_set() =~= b.to_set());
}

/// The union built by an alignment is the sorted union, and its maps are the
/// maps of positions.
pub proof fn lemma_union_alignment(
    u: Seq<VariableId>,
    lhs_to_out: Seq<usize>,
    rhs_to_out: Seq<usize>,
    lhs: Seq<VariableId>,
    rhs: Seq<VariableId>,
)
    requires
        is_union_alignment(u, lhs_to_out, rhs_to_out, lhs, rhs),
    ensures
        is_sorted_union(u, lhs, rhs),
        u == sorted_union(lhs, rhs),
        distinct_vars(u),
        positions_of(u, lhs) == lhs_to_out,
        positions_of(u, rhs) == rhs_to_out,
{
    assert forall|v: VariableId| #[trigger] u.contains(v) <==> (lhs.contains(v) || rhs.contains(v)) by {
        if u.contains(v) {
            let o = choose|o: int| 0 <= o < u.len() && u[o] == v;
            assert(lhs.contains(u[o]) || rhs.contains(u[o]));
        }
        if lhs.contains(v) {
            let a = choose|a: int| 0 <= a < lhs.len() && lhs[a] == v;
            assert(u[lhs_to_out[a] as int] == v);
        }
        if rhs.contains(v) {
            let b = choose|b: int| 0 <= b < rhs.len() && rhs[b] == v;
            assert(u[rhs_to_out[b] as int] == v);
        }
    }
    assert(is_sorted_union(u, lhs, rhs));
    let w = sorted_union(lhs, rhs);
    assert(is_sorted_union(w, lhs, rhs));
    lemma_sorted_unique(u, w);
    assert(distinct_vars(u)) by {
        assert forall|i: int, j: int| 0 <= i < u.len() && 0 <= j < u.len() && i != j implies u[i]@ != u[j]@ by {
            if i < j {
                assert(u[i]@ < u[j]@);
            } else {
                assert(u[j]@ < u[i]@);
            }
        }
    }
    lemma_positions_of(lhs_to_out, lhs, u);
    lemma_positions_of(rhs_to_out, rhs, u);
}

/// The state of the merge walk over the sorted axes `ls` of `lhs` and `rs` of
/// `rhs` after the first `i` left-hand and `j` right-hand pairs.
pub open spec fn merge_state(
    lhs: Seq<VariableId>,
    rhs: Seq<VariableId>,
    ls: Seq<(VariableId, usize)>,
    rs: Seq<(VariableId, usize)>,
    i: int,
    j: int,
    union_vars: Seq<VariableId>,
    lhs_to_out: Seq<usize>,
    rhs_to_out: Seq<usize>,
    lhs_common: Seq<usize>,
    rhs_common: Seq<usize>,
    lhs_only: Seq<usize>,
    rhs_only: Seq<usize>,
) -> bool {
    &&& is_sorted_axes(ls, lhs)
    &&& is_sorted_axes(rs, rhs)
    &&& distinct_vars(lhs)
    &&& distinct_vars(rhs)
    &&& 0 <= i <= ls.len()
    &&& 0 <= j <= rs.len()
    &&& sorted_vars(union_vars)
    &&& forall|o: int| 0 <= o < union_vars.len() ==>
        (i < ls.len() ==> (#[trigger] union_vars[o])@ < ls[i].0@)
        && (j < rs.len() ==> union_vars[o]@ < rs[j].0@)
    &&& forall|o: int| 0 <= o < union_vars.len() ==> lhs.contains(#[trigger] union_vars[o]) || rhs.contains(union_vars[o])
    &&& lhs_to_out.len() == lhs.len()
    &&& rhs_to_out.len() == rhs.len()
    &&& forall|t: int| 0 <= t < i ==> lhs_to_out[(#[trigger] ls[t]).1 as int] < union_vars.len()
        && union_vars[lhs_to_out[ls[t].1 as int] as int] == ls[t].0
    &&& forall|t: int| 0 <= t < j ==> rhs_to_out[(#[trigger] rs[t]).1 as int] < union_vars.len()
        && union_vars[rhs_to_out[rs[t].1 as int] as int] == rs[t].0
    &&& lhs_common.len() == rhs_common.len()
    &&& forall|t: int| 0 <= t < lhs_common.len() ==> (#[trigger] lhs_common[t]) < lhs.len()
        && rhs_common[t] < rhs.len() && lhs[lhs_common[t] as int] == rhs[rhs_common[t] as int]
        && (i < ls.len() ==> lhs[lhs_common[t] as int]@ < ls[i].0@)
    &&& forall|t1: int, t2: int| 0 <= t1 < t2 < lhs_common.len() ==>
        lhs[(#[trigger] lhs_common[t1]) as int]@ < lhs[(#[trigger] lhs_common[t2]) as int]@
    &&& forall|t: int| 0 <= t < lhs_only.len() ==> (#[trigger] lhs_only[t]) < lhs.len()
        && !rhs.contains(lhs[lhs_only[t] as int])
        && (i < ls.len() ==> lhs[lhs_only[t] as int]@ < ls[i].0@)
    &&& forall|t1: int, t2: int| 0 <= t1 < t2 < lhs_only.len() ==>
        lhs[(#[trigger] lhs_only[t1]) as int]@ < lhs[(#[trigger] lhs_only[t2]) as int]@
    &&& forall|t: int| 0 <= t < rhs_only.len() ==> (#[trigger] rhs_only[t]) < rhs.len()
        && !lhs.contains(rhs[rhs_only[t] as int])
        && (j < rs.len() ==> rhs[rhs_only[t] as int]@ < rs[j].0@)
    &&& forall|t1: int, t2: int| 0 <= t1 < t2 < rhs_only.len() ==>
        rhs[(#[trigger] rhs_only[t1]) as int]@ < rhs[(#[trigger] rhs_only[t2]) as int]@
    &&& forall|t: int| 0 <= t < i ==> (rhs.contains((#[trigger] ls[t]).0) ==> lists(lhs_common, ls[t].1 as int))
        && (!rhs.contains(ls[t].0) ==> lists(lhs_only, ls[t].1 as int))
    &&& forall|t: int| 0 <= t < j ==> !lhs.contains((#[trigger] rs[t]).0) ==> lists(rhs_only, rs[t].1 as int)
}

/// A variable that the merge walk has not reached on one side cannot occur
/// among the pairs of the other side that it has passed.
proof fn lemma_unmatched(
    scope: Seq<VariableId>,
    s: Seq<(VariableId, usize)>,
    j: int,
    union_vars: Seq<VariableId>,
    to_out: Seq<usize>,
    v: VariableId,
)
    requires
        is_sorted_axes(s, scope),
        0 <= j <= s.len(),
        forall|t: int| 0 <= t < j ==> to_out[(#[trigger] s[t]).1 as int] < union_vars.len()
            && union_vars[to_out[s[t].1 as int] as int] == s[t].0,
        forall|o: int| 0 <= o < union_vars.len() ==> (#[trigger] union_vars[o])@ < v@,
        j < s.len() ==> v@ < s[j].0@,
    ensures
        !scope.contains(v),
{
    if scope.contains(v) {
        let k = choose|k: int| 0 <= k < scope.len() && scope[k] == v;
        assert(covers(s, k));
        let t = choose|t: int| 0 <= t < s.len() && (#[trigger] s[t]).1 == k;
        if t < j {
            let o = to_out[s[t].1 as int] as int;
            assert(union_vars[o]@ < v@);
        } else if t > j {
            assert(s[j].0@ < s[t].0@);
        }
    }
}

/// Builds the alignment between two factor scopes.
///
/// The scopes are sorted by variable and walked together, building the sorted
/// union and recording whether each variable is shared or belongs to only one
/// input.
pub fn build_alignment(lhs_scope: &[VariableId], rhs_scope: &[VariableId]) -> (al: Alignment)
    requires
        distinct_vars(lhs_scope@),
        distinct_vars(rhs_scope@),
    ensures
        al.aligns(lhs_scope@, rhs_scope@),
{
    let ls = sorted_axes(lhs_scope);
    let rs = sorted_axes(rhs_scope);
    let lhs_len = ls.len();
    let rhs_len = rs.len();

    let mut union_vars: Vec<VariableId> = Vec::new();
    let mut lhs_only: Vec<usize> = Vec::new();
    let mut rhs_only: Vec<usize> = Vec::new();
    let mut lhs_common: Vec<usize> = Vec::new();
    let mut rhs_common: Vec<usize> = Vec::new();

    let mut lhs_to_out: Vec<usize> = Vec::new();
    let mut k: usize = 0;
    while k < lhs_len
        invariant
            k <= lhs_len,
            lhs_to_out.len() == k,
        decreases lhs_len - k,
    {
        lhs_to_out.push(usize::MAX);
        k += 1;
    }
    let mut rhs_to_out: Vec<usize> = Vec::new();
    let mut k: usize = 0;
    while k < rhs_len
        invariant
            k <= rhs_len,
            rhs_to_out.len() == k,
        decreases rhs_len - k,
    {
        rhs_to_out.push(usize::MAX);
        k += 1;
    }

    let mut i: usize = 0;
    let mut j: usize = 0;

    // Walk the sorted scopes together.
    while i < lhs_len && j < rhs_len
        invariant
            lhs_len == ls.len(),
            rhs_len == rs.len(),
            merge_state(lhs_scope@, rhs_scope@, ls@, rs@, i as int, j as int, union_vars@,
                lhs_to_out@, rhs_to_out@, lhs_common@, rhs_common@, lhs_only@, rhs_only@),
        decreases lhs_len + rhs_len - i - j,
    {
        let (lhs_var, lhs_axis) = ls[i];
        let (rhs_var, rhs_axis) = rs[j];
        let out_axis = union_vars.len();
        let ghost old_union = union_vars@;
        let ghost old_lhs_to_out = lhs_to_out@;
        let ghost old_rhs_to_out = rhs_to_out@;
        let ghost old_lc = lhs_common@;
        let ghost old_rc = rhs_common@;
        let ghost old_lo = lhs_only@;
        let ghost old_ro = rhs_only@;
        proof {
            assert(ls@[i as int] == (lhs_var, lhs_axis));
            assert(rs@[j as int] == (rhs_var, rhs_axis));
        }
        if lhs_var.same(rhs_var) {
            // Common variable
            lhs_common.push(lhs_axis);
            rhs_common.push(rhs_axis);
            union_vars.push(lhs_var);
            lhs_to_out.set(lhs_axis, out_axis);
            rhs_to_out.set(rhs_axis, out_axis);
            proof {
                assert(rhs_scope@[rhs_axis as int] == lhs_var);
                assert(rhs_scope@.contains(lhs_var));
                assert(lists(lhs_common@, lhs_axis as int)) by {
                    assert(lhs_common@[old_lc.len() as int] == lhs_axis);
                }
                assert forall|t: int| 0 <= t < i + 1 implies lhs_to_out@[(#[trigger] ls@[t]).1 as int]
                    < union_vars.len() && union_vars@[lhs_to_out@[ls@[t].1 as int] as int] == ls@[t].0 by {
                    if t < i {
                        assert(ls@[t].0@ < ls@[i as int].0@);
                        assert(ls@[t].1 != lhs_axis);
                    }
                }
                assert forall|t: int| 0 <= t < j + 1 implies rhs_to_out@[(#[trigger] rs@[t]).1 as int]
                    < union_vars.len() && union_vars@[rhs_to_out@[rs@[t].1 as int] as int] == rs@[t].0 by {
                    if t < j {
                        assert(rs@[t].0@ < rs@[j as int].0@);
                        assert(rs@[t].1 != rhs_axis);
                    }
                }
                assert forall|t: int| 0 <= t < i + 1 implies (rhs_scope@.contains((#[trigger] ls@[t]).0)
                    ==> lists(lhs_common@, ls@[t].1 as int)) && (!rhs_scope@.contains(ls@[t].0)
                    ==> lists(lhs_only@, ls@[t].1 as int)) by {
                    if t < i {
                        if rhs_scope@.contains(ls@[t].0) {
                            assert(lists(old_lc, ls@[t].1 as int));
                            let w = choose|w: int| 0 <= w < old_lc.len() && #[trigger] old_lc[w] == ls@[t].1;
                            assert(lhs_common@[w] == ls@[t].1);
                        } else {
                            assert(lists(old_lo, ls@[t].1 as int));
                        }
                    }
                }
                assert forall|t: int| 0 <= t < j + 1 implies !lhs_scope@.contains((#[trigger] rs@[t]).0)
                    ==> lists(rhs_only@, rs@[t].1 as int) by {
                    if t == j {
                        assert(lhs_scope@[lhs_axis as int] == rhs_var);
                    } else if !lhs_scope@.contains(rs@[t].0) {
                        assert(lists(old_ro, rs@[t].1 as int));
                    }
                }
                assert forall|t: int| 0 <= t < lhs_common.len() implies (#[trigger] lhs_common@[t]) < lhs_scope.len()
                    && rhs_common@[t] < rhs_scope.len()
                    && lhs_scope@[lhs_common@[t] as int] == rhs_scope@[rhs_common@[t] as int]
                    && (i + 1 < ls.len() ==> lhs_scope@[lhs_common@[t] as int]@ < ls@[i + 1].0@) by {
                    if i + 1 < ls.len() {
                        assert(ls@[i as int].0@ < ls@[i + 1].0@);
                    }
                    if t < old_lc.len() {
                        assert(lhs_common@[t] == old_lc[t]);
                    }
                }
                assert forall|t: int| 0 <= t < lhs_only.len() implies (#[trigger] lhs_only@[t]) < lhs_scope.len()
                    && !rhs_scope@.contains(lhs_scope@[lhs_only@[t] as int])
                    && (i + 1 < ls.len() ==> lhs_scope@[lhs_only@[t] as int]@ < ls@[i + 1].0@) by {
                    if i + 1 < ls.len() {
                        assert(ls@[i as int].0@ < ls@[i + 1].0@);
                    }
                }
                assert forall|t: int| 0 <= t < rhs_only.len() implies (#[trigger] rhs_only@[t]) < rhs_scope.len()
                    && !lhs_scope@.contains(rhs_scope@[rhs_only@[t] as int])
                    && (j + 1 < rs.len() ==> rhs_scope@[rhs_only@[t] as int]@ < rs@[j + 1].0@) by {
                    if j + 1 < rs.len() {
                        assert(rs@[j as int].0@ < rs@[j + 1].0@);
                    }
                }
                assert forall|o: int| 0 <= o < union_vars.len() implies
                    (i + 1 < ls.len() ==> (#[trigger] union_vars@[o])@ < ls@[i + 1].0@)
                    && (j + 1 < rs.len() ==> union_vars@[o]@ < rs@[j + 1].0@) by {
                    if i + 1 < ls.len() {
                        assert(ls@[i as int].0@ < ls@[i + 1].0@);
                    }
                    if j + 1 < rs.len() {
                        assert(rs@[j as int].0@ < rs@[j + 1].0@);
                    }
                }
                assert(lhs_scope@[lhs_axis as int] == lhs_var);
                assert forall|o: int| 0 <= o < union_vars.len() implies lhs_scope@.contains(#[trigger] union_vars@[o])
                    || rhs_scope@.contains(union_vars@[o]) by {
                    if o < old_union.len() {
                        assert(union_vars@[o] == old_union[o]);
                    }
                }
            }
            i += 1;
            j += 1;
        } else if lhs_var.precedes(rhs_var) {
            // Lhs-only variable
            proof {
                lemma_unmatched(rhs_scope@, rs@, j as int, union_vars@, rhs_to_out@, lhs_var);
            }
            lhs_only.push(lhs_axis);
            union_vars.push(lhs_var);
            lhs_to_out.set(lhs_axis, out_axis);
            proof {
                assert(lists(lhs_only@, lhs_axis as int)) by {
                    assert(lhs_only@[old_lo.len() as int] == lhs_axis);
                }
                assert forall|t: int| 0 <= t < i + 1 implies lhs_to_out@[(#[trigger] ls@[t]).1 as int]
                    < union_vars.len() && union_vars@[lhs_to_out@[ls@[t].1 as int] as int] == ls@[t].0 by {
                    if t < i {
                        assert(ls@[t].0@ < ls@[i as int].0@);
                        assert(ls@[t].1 != lhs_axis);
                    }
                }
                assert forall|t: int| 0 <= t < j implies rhs_to_out@[(#[trigger] rs@[t]).1 as int]
                    < union_vars.len() && union_vars@[rhs_to_out@[rs@[t].1 as int] as int] == rs@[t].0 by {
                }
                assert forall|t: int| 0 <= t < i + 1 implies (rhs_scope@.contains((#[trigger] ls@[t]).0)
                    ==> lists(lhs_common@, ls@[t].1 as int)) && (!rhs_scope@.contains(ls@[t].0)
                    ==> lists(lhs_only@, ls@[t].1 as int)) by {
                    if t < i {
                        if !rhs_scope@.contains(ls@[t].0) {
                            assert(lists(old_lo, ls@[t].1 as int));
                            let w = choose|w: int| 0 <= w < old_lo.len() && #[trigger] old_lo[w] == ls@[t].1;
                            assert(lhs_only@[w] == ls@[t].1);
                        }
                    }
                }
                assert forall|t: int| 0 <= t < lhs_common.len() implies (#[trigger] lhs_common@[t]) < lhs_scope.len()
                    && rhs_common@[t] < rhs_scope.len()
                    && lhs_scope@[lhs_common@[t] as int] == rhs_scope@[rhs_common@[t] as int]
                    && (i + 1 < ls.len() ==> lhs_scope@[lhs_common@[t] as int]@ < ls@[i + 1].0@) by {
                    if i + 1 < ls.len() {
                        assert(ls@[i as int].0@ < ls@[i + 1].0@);
                    }
                }
                assert forall|t: int| 0 <= t < lhs_only.len() implies (#[trigger] lhs_only@[t]) < lhs_scope.len()
                    && !rhs_scope@.contains(lhs_scope@[lhs_only@[t] as int])
                    && (i + 1 < ls.len() ==> lhs_scope@[lhs_only@[t] as int]@ < ls@[i + 1].0@) by {
                    if i + 1 < ls.len() {
                        assert(ls@[i as int].0@ < ls@[i + 1].0@);
                    }
                    if t < old_lo.len() {
                        assert(lhs_only@[t] == old_lo[t]);
                    }
                }
                assert forall|o: int| 0 <= o < union_vars.len() implies
                    (i + 1 < ls.len() ==> (#[trigger] union_vars@[o])@ < ls@[i + 1].0@)
                    && (j < rs.len() ==> union_vars@[o]@ < rs@[j as int].0@) by {
                    if i + 1 < ls.len() {
                        assert(ls@[i as int].0@ < ls@[i + 1].0@);
                    }
                }
                assert(lhs_scope@[lhs_axis as int] == lhs_var);
                assert forall|o: int| 0 <= o < union_vars.len() implies lhs_scope@.contains(#[trigger] union_vars@[o])
                    || rhs_scope@.contains(union_vars@[o]) by {
                    if o < old_union.len() {
                        assert(union_vars@[o] == old_union[o]);
                    }
                }
            }
            i += 1;
        } else {
            // Rhs-only variable
            proof {
                assert(rhs_var@ < lhs_var@);
                lemma_unmatched(lhs_scope@, ls@, i as int, union_vars@, lhs_to_out@, rhs_var);
            }
            rhs_only.push(rhs_axis);
            union_vars.push(rhs_var);
            rhs_to_out.set(rhs_axis, out_axis);
            proof {
                assert(lists(rhs_only@, rhs_axis as int)) by {
                    assert(rhs_only@[old_ro.len() as int] == rhs_axis);
                }
                assert forall|t: int| 0 <= t < i implies lhs_to_out@[(#[trigger] ls@[t]).1 as int]
                    < union_vars.len() && union_vars@[lhs_to_out@[ls@[t].1 as int] as int] == ls@[t].0 by {
                }
                assert forall|t: int| 0 <= t < j + 1 implies rhs_to_out@[(#[trigger] rs@[t]).1 as int]
                    < union_vars.len() && union_vars@[rhs_to_out@[rs@[t].1 as int] as int] == rs@[t].0 by {
                    if t < j {
                        assert(rs@[t].0@ < rs@[j as int].0@);
                        assert(rs@[t].1 != rhs_axis);
                    }
                }
                assert forall|t: int| 0 <= t < j + 1 implies !lhs_scope@.contains((#[trigger] rs@[t]).0)
                    ==> lists(rhs_only@, rs@[t].1 as int) by {
                    if t < j && !lhs_scope@.contains(rs@[t].0) {
                        assert(lists(old_ro, rs@[t].1 as int));
                        let w = choose|w: int| 0 <= w < old_ro.len() && #[trigger] old_ro[w] == rs@[t].1;
                        assert(rhs_only@[w] == rs@[t].1);
                    }
                }
                assert forall|t: int| 0 <= t < rhs_only.len() implies (#[trigger] rhs_only@[t]) < rhs_scope.len()
                    && !lhs_scope@.contains(rhs_scope@[rhs_only@[t] as int])
                    && (j + 1 < rs.len() ==> rhs_scope@[rhs_only@[t] as int]@ < rs@[j + 1].0@) by {
                    if j + 1 < rs.len() {
                        assert(rs@[j as int].0@ < rs@[j + 1].0@);
                    }
                    if t < old_ro.len() {
                        assert(rhs_only@[t] == old_ro[t]);
                    }
                }
                assert forall|o: int| 0 <= o < union_vars.len() implies
                    (i < ls.len() ==> (#[trigger] union_vars@[o])@ < ls@[i as int].0@)
                    && (j + 1 < rs.len() ==> union_vars@[o]@ < rs@[j + 1].0@) by {
                    if j + 1 < rs.len() {
                        assert(rs@[j as int].0@ < rs@[j + 1].0@);
                    }
                }
                assert(rhs_scope@[rhs_axis as int] == rhs_var);
                assert forall|o: int| 0 <= o < union_vars.len() implies lhs_scope@.contains(#[trigger] union_vars@[o])
                    || rhs_scope@.contains(union_vars@[o]) by {
                    if o < old_union.len() {
                        assert(union_vars@[o] == old_union[o]);
                    }
                }
            }
            j += 1;
        }
    }

    // Remaining lhs-only
    while i < lhs_len
        invariant
            lhs_len == ls.len(),
            rhs_len == rs.len(),
            i < lhs_len ==> j == rhs_len,
            merge_state(lhs_scope@, rhs_scope@, ls@, rs@, i as int, j as int, union_vars@,
                lhs_to_out@, rhs_to_out@, lhs_common@, rhs_common@, lhs_only@, rhs_only@),
        decreases lhs_len - i,
    {
        let (var, axis) = ls[i];
        let out_axis = union_vars.len();
        let ghost old_union = union_vars@;
        let ghost old_lo = lhs_only@;
        proof {
            assert(ls@[i as int] == (var, axis));
            lemma_unmatched(rhs_scope@, rs@, j as int, union_vars@, rhs_to_out@, var);
        }
        lhs_only.push(axis);
        union_vars.push(var);
        lhs_to_out.set(axis, out_axis);
        proof {
            assert(lists(lhs_only@, axis as int)) by {
                assert(lhs_only@[old_lo.len() as int] == axis);
            }
            assert forall|t: int| 0 <= t < i + 1 implies lhs_to_out@[(#[trigger] ls@[t]).1 as int]
                < union_vars.len() && union_vars@[lhs_to_out@[ls@[t].1 as int] as int] == ls@[t].0 by {
                if t < i {
                    assert(ls@[t].0@ < ls@[i as int].0@);
                    assert(ls@[t].1 != axis);
                }
            }
            assert forall|t: int| 0 <= t < j implies rhs_to_out@[(#[trigger] rs@[t]).1 as int]
                < union_vars.len() && union_vars@[rhs_to_out@[rs@[t].1 as int] as int] == rs@[t].0 by {
            }
            assert forall|t: int| 0 <= t < i + 1 implies (rhs_scope@.contains((#[trigger] ls@[t]).0)
                ==> lists(lhs_common@, ls@[t].1 as int)) && (!rhs_scope@.contains(ls@[t].0)
                ==> lists(lhs_only@, ls@[t].1 as int)) by {
                if t < i {
                    if !rhs_scope@.contains(ls@[t].0) {
                        assert(lists(old_lo, ls@[t].1 as int));
                        let w = choose|w: int| 0 <= w < old_lo.len() && #[trigger] old_lo[w] == ls@[t].1;
                        assert(lhs_only@[w] == ls@[t].1);
                    }
                }
            }
            assert forall|t: int| 0 <= t < lhs_common.len() implies (#[trigger] lhs_common@[t]) < lhs_scope.len()
                && rhs_common@[t] < rhs_scope.len()
                && lhs_scope@[lhs_common@[t] as int] == rhs_scope@[rhs_common@[t] as int]
                && (i + 1 < ls.len() ==> lhs_scope@[lhs_common@[t] as int]@ < ls@[i + 1].0@) by {
                if i + 1 < ls.len() {
                    assert(ls@[i as int].0@ < ls@[i + 1].0@);
                }
            }
            assert forall|t: int| 0 <= t < lhs_only.len() implies (#[trigger] lhs_only@[t]) < lhs_scope.len()
                && !rhs_scope@.contains(lhs_scope@[lhs_only@[t] as int])
                && (i + 1 < ls.len() ==> lhs_scope@[lhs_only@[t] as int]@ < ls@[i + 1].0@) by {
                if i + 1 < ls.len() {
                    assert(ls@[i as int].0@ < ls@[i + 1].0@);
                }
                if t < old_lo.len() {
                    assert(lhs_only@[t] == old_lo[t]);
                }
            }
            assert forall|o: int| 0 <= o < union_vars.len() implies
                (i + 1 < ls.len() ==> (#[trigger] union_vars@[o])@ < ls@[i + 1].0@) by {
                if i + 1 < ls.len() {
                    assert(ls@[i as int].0@ < ls@[i + 1].0@);
                }
            }
            assert(lhs_scope@[axis as int] == var);
            assert forall|o: int| 0 <= o < union_vars.len() implies lhs_scope@.contains(#[trigger] union_vars@[o])
                || rhs_scope@.contains(union_vars@[o]) by {
                if o < old_union.len() {
                    assert(union_vars@[o] == old_union[o]);
                }
            }
        }
        i += 1;
    }

    // Remaining rhs-only
    while j < rhs_len
        invariant
            lhs_len == ls.len(),
            rhs_len == rs.len(),
            i == lhs_len,
            merge_state(lhs_scope@, rhs_scope@, ls@, rs@, i as int, j as int, union_vars@,
                lhs_to_out@, rhs_to_out@, lhs_common@, rhs_common@, lhs_only@, rhs_only@),
        decreases rhs_len - j,
    {
        let (var, axis) = rs[j];
        let out_axis = union_vars.len();
        let ghost old_union = union_vars@;
        let ghost old_ro = rhs_only@;
        proof {
            assert(rs@[j as int] == (var, axis));
            lemma_unmatched(lhs_scope@, ls@, i as int, union_vars@, lhs_to_out@, var);
        }
        rhs_only.push(axis);
        union_vars.push(var);
        rhs_to_out.set(axis, out_axis);
        proof {
            assert(lists(rhs_only@, axis as int)) by {
                assert(rhs_only@[old_ro.len() as int] == axis);
            }
            assert forall|t: int| 0 <= t < i implies lhs_to_out@[(#[trigger] ls@[t]).1 as int]
                < union_vars.len() && union_vars@[lhs_to_out@[ls@[t].1 as int] as int] == ls@[t].0 by {
            }
            assert forall|t: int| 0 <= t < j + 1 implies rhs_to_out@[(#[trigger] rs@[t]).1 as int]
                < union_vars.len() && union_vars@[rhs_to_out@[rs@[t].1 as int] as int] == rs@[t].0 by {
                if t < j {
                    assert(rs@[t].0@ < rs@[j as int].0@);
                    assert(rs@[t].1 != axis);
                }
            }
            assert forall|t: int| 0 <= t < j + 1 implies !lhs_scope@.contains((#[trigger] rs@[t]).0)
                ==> lists(rhs_only@, rs@[t].1 as int) by {
                if t < j && !lhs_scope@.contains(rs@[t].0) {
                    assert(lists(old_ro, rs@[t].1 as int));
                    let w = choose|w: int| 0 <= w < old_ro.len() && #[trigger] old_ro[w] == rs@[t].1;
                    assert(rhs_only@[w] == rs@[t].1);
                }
            }
            assert forall|t: int| 0 <= t < rhs_only.len() implies (#[trigger] rhs_only@[t]) < rhs_scope.len()
                && !lhs_scope@.contains(rhs_scope@[rhs_only@[t] as int])
                && (j + 1 < rs.len() ==> rhs_scope@[rhs_only@[t] as int]@ < rs@[j + 1].0@) by {
                if j + 1 < rs.len() {
                    assert(rs@[j as int].0@ < rs@[j + 1].0@);
                }
                if t < old_ro.len() {
                    assert(rhs_only@[t] == old_ro[t]);
                }
            }
            assert forall|o: int| 0 <= o < union_vars.len() implies
                (j + 1 < rs.len() ==> (#[trigger] union_vars@[o])@ < rs@[j + 1].0@) by {
                if j + 1 < rs.len() {
                    assert(rs@[j as int].0@ < rs@[j + 1].0@);
                }
            }
            assert(rhs_scope@[axis as int] == var);
            assert forall|o: int| 0 <= o < union_vars.len() implies lhs_scope@.contains(#[trigger] union_vars@[o])
                || rhs_scope@.contains(union_vars@[o]) by {
                if o < old_union.len() {
                    assert(union_vars@[o] == old_union[o]);
                }
            }
        }
        j += 1;
    }

    proof {
        let L = lhs_scope@;
        let R = rhs_scope@;
        assert forall|a: int| 0 <= a < L.len() implies (#[trigger] lhs_to_out@[a]) < union_vars.len()
            && union_vars@[lhs_to_out@[a] as int] == L[a] by {
            assert(covers(ls@, a));
            let t = choose|t: int| 0 <= t < ls.len() && (#[trigger] ls@[t]).1 == a;
        }
        assert forall|b: int| 0 <= b < R.len() implies (#[trigger] rhs_to_out@[b]) < union_vars.len()
            && union_vars@[rhs_to_out@[b] as int] == R[b] by {
            assert(covers(rs@, b));
            let t = choose|t: int| 0 <= t < rs.len() && (#[trigger] rs@[t]).1 == b;
        }
        assert forall|a: int| 0 <= a < L.len() && R.contains(L[a]) == true implies #[trigger] lists(lhs_common@, a) by {
            assert(covers(ls@, a));
            let t = choose|t: int| 0 <= t < ls.len() && (#[trigger] ls@[t]).1 == a;
        }
        assert forall|a: int| 0 <= a < L.len() && R.contains(L[a]) == false implies #[trigger] lists(lhs_only@, a) by {
            assert(covers(ls@, a));
            let t = choose|t: int| 0 <= t < ls.len() && (#[trigger] ls@[t]).1 == a;
        }
        assert forall|b: int| 0 <= b < R.len() && L.contains(R[b]) == false implies #[trigger] lists(rhs_only@, b) by {
            assert(covers(rs@, b));
            let t = choose|t: int| 0 <= t < rs.len() && (#[trigger] rs@[t]).1 == b;
        }
        assert forall|t: int| 0 <= t < lhs_common.len() implies (#[trigger] lhs_common@[t]) < L.len()
            && R.contains(L[lhs_common@[t] as int]) == true by {
            assert(lhs_common@[t] < L.len());
            assert(R[rhs_common@[t] as int] == L[lhs_common@[t] as int]);
        }
        assert forall|t: int| 0 <= t < rhs_common.len() implies (#[trigger] rhs_common@[t]) < R.len()
            && R[rhs_common@[t] as int] == L[lhs_common@[t] as int] by {
            assert(lhs_common@[t] < L.len());
        }
        assert(is_union_alignment(union_vars@, lhs_to_out@, rhs_to_out@, L, R));
        assert(lists_axes(lhs_common@, L, R, true));
        assert(lists_axes(lhs_only@, L, R, false));
        assert(lists_axes(rhs_only@, R, L, false));
    }
    Alignment { union_vars, lhs_only, rhs_only, lhs_common, rhs_common, lhs_to_out, rhs_to_out }
}

impl Alignment {
    /// The alignment of the scopes `lhs` and `rhs`.
    pub open spec fn aligns(&self, lhs: Seq<VariableId>, rhs: Seq<VariableId>) -> bool {
        &&& is_union_alignment(self.union_vars@, self.lhs_to_out@, self.rhs_to_out@, lhs, rhs)
        &&& self.lhs_common.len() == self.rhs_common.len()
        &&& lists_axes(self.lhs_common@, lhs, rhs, true)
        &&& forall|t: int| 0 <= t < self.rhs_common.len() ==> (#[trigger] self.rhs_common@[t]) < rhs.len()
            && rhs[self.rhs_common@[t] as int] == lhs[self.lhs_common@[t] as int]
        &&& lists_axes(self.lhs_only@, lhs, rhs, false)
        &&& lists_axes(self.rhs_only@, rhs, lhs, false)
    }

    /// Constructs the output cardinalities from the input cardinalities.
    ///
    /// Each output axis takes the cardinality of the input axis mapped to it;
    /// where both inputs map to an axis, the right-hand cardinality is kept.
    pub fn output_card(&self, lhs_card: &[usize], rhs_card: &[usize]) -> (card: Vec<usize>)
        requires
            self.lhs_to_out.len() == lhs_card.len(),
            self.rhs_to_out.len() == rhs_card.len(),
            forall|a: int| 0 <= a < self.lhs_to_out.len() ==> #[trigger] self.lhs_to_out@[a] < self.union_vars.len(),
            forall|b: int| 0 <= b < self.rhs_to_out.len() ==> #[trigger] self.rhs_to_out@[b] < self.union_vars.len(),
            forall|b1: int, b2: int| 0 <= b1 < self.rhs_to_out.len() && 0 <= b2 < self.rhs_to_out.len() && b1 != b2
                ==> self.rhs_to_out@[b1] != self.rhs_to_out@[b2],
            forall|a1: int, a2: int| 0 <= a1 < self.lhs_to_out.len() && 0 <= a2 < self.lhs_to_out.len() && a1 != a2
                ==> self.lhs_to_out@[a1] != self.lhs_to_out@[a2],
        ensures
            card.len() == self.union_vars.len(),
            forall|b: int| 0 <= b < rhs_card.len() ==> card@[#[trigger] self.rhs_to_out@[b] as int] == rhs_card@[b],
            forall|a: int| 0 <= a < lhs_card.len() && (forall|b: int| 0 <= b < rhs_card.len() ==> self.rhs_to_out@[b] != self.lhs_to_out@[a])
                ==> card@[#[trigger] self.lhs_to_out@[a] as int] == lhs_card@[a],
            forall|o: int| 0 <= o < card.len()
                && (forall|a: int| 0 <= a < lhs_card.len() ==> self.lhs_to_out@[a] != o)
                && (forall|b: int| 0 <= b < rhs_card.len() ==> self.rhs_to_out@[b] != o)
                ==> #[trigger] card@[o] == 0,
    {
        let n = self.union_vars.len();
        let mut card: Vec<usize> = Vec::new();
        let mut i: usize = 0;
        while i < n
            invariant
                i <= n,
                card.len() == i,
                forall|o: int| 0 <= o < i ==> card@[o] == 0,
            decreases n - i,
        {
            card.push(0);
            i += 1;
        }
        let mut a: usize = 0;
        while a < self.lhs_to_out.len()
            invariant
                a <= self.lhs_to_out.len(),
                self.lhs_to_out.len() == lhs_card.len(),
                card.len() == n,
                n == self.union_vars.len(),
                forall|x: int| 0 <= x < self.lhs_to_out.len() ==> #[trigger] self.lhs_to_out@[x] < n,
                forall|a1: int, a2: int| 0 <= a1 < self.lhs_to_out.len() && 0 <= a2 < self.lhs_to_out.len() && a1 != a2
                    ==> self.lhs_to_out@[a1] != self.lhs_to_out@[a2],
                forall|x: int| 0 <= x < a ==> card@[#[trigger] self.lhs_to_out@[x] as int] == lhs_card@[x],
                forall|o: int| 0 <= o < n && (forall|x: int| 0 <= x < a ==> self.lhs_to_out@[x] != o) ==> #[trigger] card@[o] == 0,
            decreases self.lhs_to_out.len() - a,
        {
            let o = self.lhs_to_out[a];
            card.set(o, lhs_card[a]);
            a += 1;
        }
        let mut b: usize = 0;
        while b < self.rhs_to_out.len()
            invariant
                b <= self.rhs_to_out.len(),
                self.rhs_to_out.len() == rhs_card.len(),
                self.lhs_to_out.len() == lhs_card.len(),
                card.len() == n,
                n == self.union_vars.len(),
                forall|x: int| 0 <= x < self.rhs_to_out.len() ==> #[trigger] self.rhs_to_out@[x] < n,
                forall|x: int| 0 <= x < self.lhs_to_out.len() ==> #[trigger] self.lhs_to_out@[x] < n,
                forall|b1: int, b2: int| 0 <= b1 < self.rhs_to_out.len() && 0 <= b2 < self.rhs_to_out.len() && b1 != b2
                    ==> self.rhs_to_out@[b1] != self.rhs_to_out@[b2],
                forall|x: int| 0 <= x < b ==> card@[#[trigger] self.rhs_to_out@[x] as int] == rhs_card@[x],
                forall|x: int| 0 <= x < lhs_card.len() && (forall|y: int| 0 <= y < b ==> self.rhs_to_out@[y] != self.lhs_to_out@[x])
                    ==> card@[#[trigger] self.lhs_to_out@[x] as int] == lhs_card@[x],
                forall|o: int| 0 <= o < n
                    && (forall|x: int| 0 <= x < lhs_card.len() ==> self.lhs_to_out@[x] != o)
                    && (forall|y: int| 0 <= y < b ==> self.rhs_to_out@[y] != o)
                    ==> #[trigger] card@[o] == 0,
            decreases self.rhs_to_out.len() - b,
        {
            let o = self.rhs_to_out[b];
            card.set(o, rhs_card[b]);
            b += 1;
        }
        card
    }
}

} // verus!
