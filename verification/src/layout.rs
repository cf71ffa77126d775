//! Row-major layout of discrete factor tables.
//!
//! A table over variables with cardinalities `card` stores one value for each
//! joint assignment. Assignments are multi-indices, and the value of the
//! assignment `idx` is stored at position `flat_index(idx, card)`, with the
//! last axis varying fastest.

use vstd::prelude::*;
use vstd::arithmetic::div_mod::{
    lemma_fundamental_div_mod, lemma_fundamental_div_mod_converse, lemma_multiply_divide_lt, lemma_mod_pos_bound,
};
use vstd::arithmetic::mul::{lemma_mul_inequality, lemma_mul_is_commutative};

verus! {

/// Number of joint assignments of variables with cardinalities `card`.
pub open spec fn shape_size(card: Seq<usize>) -> nat
    decreases card.len(),
{
    if card.len() == 0 {
        1
    } else {
        shape_size(card.drop_last()) * (card.last() as nat)
    }
}

/// Whether `idx` is an assignment of variables with cardinalities `card`.
pub open spec fn in_bounds(idx: Seq<usize>, card: Seq<usize>) -> bool {
    &&& idx.len() == card.len()
    &&& forall|a: int| 0 <= a < idx.len() ==> #[trigger] idx[a] < card[a]
}

/// Row-major position of the assignment `idx`.
pub open spec fn flat_index(idx: Seq<usize>, card: Seq<usize>) -> nat
    decreases card.len(),
{
    if card.len() == 0 {
        0
    } else {
        flat_index(idx.drop_last(), card.drop_last()) * (card.last() as nat) + (idx.last() as nat)
    }
}

/// The assignment stored at row-major position `k`.
pub open spec fn unflatten(k: nat, card: Seq<usize>) -> Seq<usize>
    decreases card.len(),
{
    if card.len() == 0 {
        seq![]
    } else {
        unflatten(k / (card.last() as nat), card.drop_last()).push(
            (k % (card.last() as nat)) as usize,
        )
    }
}

/// Restriction of the assignment `idx` to the axes listed in `map`: axis `a`
/// of the result takes the value of axis `map[a]` of `idx`.
pub open spec fn project(idx: Seq<usize>, map: Seq<usize>) -> Seq<usize> {
    Seq::new(map.len(), |a: int| idx[map[a] as int])
}

/// The value that a row-major table `data` with cardinalities `card` holds for
/// the restriction through `map` of the assignment `idx`.
pub open spec fn gather<V>(data: Seq<V>, card: Seq<usize>, idx: Seq<usize>, map: Seq<usize>) -> V {
    data[flat_index(project(idx, map), card) as int]
}

/// Every cardinality is at least one.
pub open spec fn all_positive(card: Seq<usize>) -> bool {
    forall|a: int| 0 <= a < card.len() ==> #[trigger] card[a] > 0
}

/// `unflatten` and `flat_index` are inverse on the positions of a table.
pub proof fn lemma_unflatten(k: nat, card: Seq<usize>)
    requires
        k < shape_size(card),
    ensures
        in_bounds(unflatten(k, card), card),
        flat_index(unflatten(k, card), card) == k,
    decreases card.len(),
{
    if card.len() == 0 {
    } else {
        let c = card.last() as nat;
        let d = card.drop_last();
        if c == 0 {
            assert(shape_size(card) == 0);
        }
        assert(c > 0);
        lemma_mul_is_commutative(shape_size(d) as int, c as int);
        lemma_multiply_divide_lt(k as int, c as int, shape_size(d) as int);
        lemma_unflatten(k / c, d);
        lemma_fundamental_div_mod(k as int, c as int);
        lemma_mod_pos_bound(k as int, c as int);
        let u = unflatten(k, card);
        assert(u.drop_last() =~= unflatten(k / c, d));
        assert(u.last() == (k % c) as usize);
        lemma_mul_is_commutative(c as int, (k / c) as int);
        assert forall|a: int| 0 <= a < u.len() implies #[trigger] u[a] < card[a] by {
            if a < u.len() - 1 {
                assert(u[a] == unflatten(k / c, d)[a]);
            }
        }
    }
}

/// An assignment is the one stored at its own row-major position.
pub proof fn lemma_flat_unflatten(idx: Seq<usize>, card: Seq<usize>)
    requires
        in_bounds(idx, card),
    ensures
        unflatten(flat_index(idx, card), card) == idx,
    decreases card.len(),
{
    if card.len() > 0 {
        let d = card.drop_last();
        let c = card.last() as int;
        let p = idx.drop_last();
        assert(in_bounds(p, d)) by {
            assert forall|a: int| 0 <= a < p.len() implies #[trigger] p[a] < d[a] by {
                assert(idx[a] < card[a]);
            }
        }
        lemma_flat_unflatten(p, d);
        assert(idx[idx.len() - 1] < card[card.len() - 1]);
        let k = flat_index(idx, card) as int;
        lemma_fundamental_div_mod_converse(k, c, flat_index(p, d) as int, idx.last() as int);
        assert(idx =~= p.push(idx.last()));
    }
}

/// The position of an assignment lies inside the table.
pub proof fn lemma_flat_bound(idx: Seq<usize>, card: Seq<usize>)
    requires
        in_bounds(idx, card),
    ensures
        flat_index(idx, card) < shape_size(card),
    decreases card.len(),
{
    if card.len() > 0 {
        let d = card.drop_last();
        let c = card.last() as int;
        let p = idx.drop_last();
        assert(in_bounds(p, d)) by {
            assert forall|a: int| 0 <= a < p.len() implies #[trigger] p[a] < d[a] by {
                assert(idx[a] < card[a]);
            }
        }
        lemma_flat_bound(p, d);
        let f = flat_index(p, d) as int;
        let s = shape_size(d) as int;
        assert(idx[idx.len() - 1] < card[card.len() - 1]);
        lemma_mul_inequality(f + 1, s, c);
        assert((f + 1) * c == f * c + c) by (nonlinear_arith);
    }
}

/// With positive cardinalities, a prefix has no more assignments than the whole.
pub proof fn lemma_size_take_le(card: Seq<usize>, a: int)
    requires
        all_positive(card),
        0 <= a <= card.len(),
    ensures
        shape_size(card.take(a)) <= shape_size(card),
        shape_size(card) > 0,
    decreases card.len(),
{
    if card.len() == 0 {
        assert(card.take(a) =~= card);
    } else if a == card.len() {
        assert(card.take(a) =~= card);
        lemma_size_take_le(card.drop_last(), 0);
        let s = shape_size(card.drop_last());
        let c = card.last() as nat;
        assert(c > 0);
        assert(s * c > 0) by (nonlinear_arith)
            requires
                s > 0,
                c > 0,
        ;
    } else {
        let d = card.drop_last();
        assert(all_positive(d));
        lemma_size_take_le(d, a);
        assert(d.take(a) =~= card.take(a));
        let s = shape_size(d);
        let c = card.last() as nat;
        assert(c > 0);
        assert(s <= s * c && s * c > 0) by (nonlinear_arith)
            requires
                s > 0,
                c > 0,
        ;
    }
}

/// A zero cardinality leaves a table without assignments.
pub proof fn lemma_size_zero(card: Seq<usize>, a: int)
    requires
        0 <= a < card.len(),
        card[a] == 0,
    ensures
        shape_size(card) == 0,
    decreases card.len(),
{
    if a == card.len() - 1 {
    } else {
        assert(card.drop_last()[a] == card[a]);
        lemma_size_zero(card.drop_last(), a);
        assert(shape_size(card) == shape_size(card.drop_last()) * (card.last() as nat));
    }
}

/// One step of the row-major position computed axis by axis.
pub proof fn lemma_flat_take_step(idx: Seq<usize>, card: Seq<usize>, a: int)
    requires
        idx.len() == card.len(),
        0 <= a < card.len(),
    ensures
        flat_index(idx.take(a + 1), card.take(a + 1)) == flat_index(idx.take(a), card.take(a))
            * (card[a] as nat) + (idx[a] as nat),
{
    assert(idx.take(a + 1).drop_last() =~= idx.take(a));
    assert(card.take(a + 1).drop_last() =~= card.take(a));
}

/// `card` with each zero cardinality replaced by one.
pub open spec fn padded(card: Seq<usize>) -> Seq<usize> {
    Seq::new(card.len(), |a: int| if card[a] == 0 { 1usize } else { card[a] })
}

/// `m` lists distinct axes of a table with `n` axes.
pub open spec fn distinct_axes(m: Seq<usize>, n: int) -> bool {
    &&& forall|t: int| 0 <= t < m.len() ==> #[trigger] m[t] < n
    &&& forall|t1: int, t2: int| 0 <= t1 < m.len() && 0 <= t2 < m.len() && t1 != t2 ==> m[t1] != m[t2]
}

/// Removing an axis divides the number of assignments by its cardinality.
pub proof fn lemma_size_remove(x: Seq<usize>, p: int)
    requires
        0 <= p < x.len(),
    ensures
        shape_size(x) == shape_size(x.remove(p)) * (x[p] as nat),
    decreases x.len(),
{
    if p == x.len() - 1 {
        assert(x.remove(p) =~= x.drop_last());
    } else {
        let d = x.drop_last();
        lemma_size_remove(d, p);
        assert(x.remove(p).drop_last() =~= d.remove(p));
        assert(x.remove(p).last() == x.last());
        let a = shape_size(d.remove(p));
        let b = x[p] as nat;
        let c = x.last() as nat;
        assert((a * b) * c == (a * c) * b) by (nonlinear_arith);
    }
}

/// Padding never decreases the number of assignments, which is at least one.
pub proof fn lemma_size_padded(x: Seq<usize>)
    ensures
        shape_size(x) <= shape_size(padded(x)),
        shape_size(padded(x)) >= 1,
    decreases x.len(),
{
    if x.len() > 0 {
        let d = x.drop_last();
        lemma_size_padded(d);
        assert(padded(x).drop_last() =~= padded(d));
        let a = shape_size(d);
        let b = shape_size(padded(d));
        let c = x.last() as nat;
        let e = padded(x).last() as nat;
        assert(c <= e && e >= 1);
        assert(a * c <= b * e && b * e >= 1) by (nonlinear_arith)
            requires
                a <= b,
                b >= 1,
                c <= e,
                e >= 1,
        ;
    }
}

/// The assignments of some distinct axes of a table are at most the
/// (padded) assignments of the whole table.
pub proof fn lemma_size_project_le(x: Seq<usize>, m: Seq<usize>)
    requires
        distinct_axes(m, x.len() as int),
    ensures
        shape_size(padded(project(x, m))) <= shape_size(padded(x)),
        shape_size(project(x, m)) <= shape_size(padded(x)),
    decreases m.len(),
{
    lemma_size_padded(project(x, m));
    if m.len() == 0 {
        assert(padded(project(x, m)) =~= seq![]);
        lemma_size_padded(x);
    } else {
        let p = m.last() as int;
        let m0 = m.drop_last();
        let x1 = x.remove(p);
        let m1 = Seq::new(m0.len(), |t: int| if m0[t] < p { m0[t] } else { (m0[t] - 1) as usize });
        assert forall|t: int| 0 <= t < m0.len() implies m0[t] != p by {
            assert(m[t] != m[m.len() - 1]);
        }
        assert(distinct_axes(m1, x1.len() as int)) by {
            assert forall|t1: int, t2: int| 0 <= t1 < m1.len() && 0 <= t2 < m1.len() && t1 != t2
                implies m1[t1] != m1[t2] by {
                assert(m[t1] != m[t2]);
            }
        }
        lemma_size_project_le(x1, m1);
        assert(project(x1, m1) =~= project(x, m0));
        assert(padded(x1) =~= padded(x).remove(p));
        lemma_size_remove(padded(x), p);
        assert(padded(project(x, m)).drop_last() =~= padded(project(x, m0)));
        assert(padded(project(x, m)).last() == padded(x)[p]);
        let a = shape_size(padded(project(x, m0)));
        let b = shape_size(padded(x1));
        let c = padded(x)[p] as nat;
        assert(a * c <= b * c) by (nonlinear_arith)
            requires
                a <= b,
        ;
    }
}

/// A table with one axis has as many assignments as its cardinality.
pub proof fn lemma_size_single(c: usize)
    ensures
        shape_size(seq![c]) == c,
        padded(seq![c]) == seq![if c == 0 { 1usize } else { c }],
{
    let s = seq![c];
    assert(s.len() == 1);
    assert(s.last() == c);
    assert(s.drop_last() =~= Seq::<usize>::empty());
    assert(shape_size(s.drop_last()) == 1);
    assert(shape_size(s) == shape_size(s.drop_last()) * (s.last() as nat));
    assert(padded(seq![c]) =~= seq![if c == 0 { 1usize } else { c }]);
}

/// Computes the number of assignments of variables with cardinalities `card`.
pub fn shape_size_exec(card: &Vec<usize>) -> (n: usize)
    requires
        shape_size(card@) <= usize::MAX,
    ensures
        n == shape_size(card@),
{
    let mut z: usize = 0;
    while z < card.len()
        invariant
            z <= card.len(),
            forall|a: int| 0 <= a < z ==> #[trigger] card@[a] > 0,
        decreases card.len() - z,
    {
        if card[z] == 0 {
            proof {
                lemma_size_zero(card@, z as int);
            }
            return 0;
        }
        z += 1;
    }
    assert(all_positive(card@));
    let mut acc: usize = 1;
    let mut a: usize = 0;
    while a < card.len()
        invariant
            a <= card.len(),
            all_positive(card@),
            shape_size(card@) <= usize::MAX,
            acc == shape_size(card@.take(a as int)),
        decreases card.len() - a,
    {
        proof {
            lemma_size_take_le(card@, a + 1);
            assert(card@.take(a + 1).drop_last() =~= card@.take(a as int));
        }
        acc = acc * card[a];
        a += 1;
    }
    assert(card@.take(card.len() as int) =~= card@);
    acc
}

/// Computes the assignment stored at row-major position `k`.
pub fn unflatten_exec(k: usize, card: &Vec<usize>) -> (idx: Vec<usize>)
    requires
        k < shape_size(card@),
    ensures
        idx@ == unflatten(k as nat, card@),
        in_bounds(idx@, card@),
        flat_index(idx@, card@) == k,
{
    proof {
        lemma_unflatten(k as nat, card@);
    }
    let n = card.len();
    let mut idx: Vec<usize> = Vec::new();
    let mut i: usize = 0;
    while i < n
        invariant
            i <= n,
            n == card.len(),
            idx.len() == i,
            forall|j: int| 0 <= j < i ==> idx@[j] == 0,
        decreases n - i,
    {
        idx.push(0);
        i += 1;
    }
    let mut r: usize = k;
    let mut a: usize = n;
    assert(unflatten(k as nat, card@).take(n as int) =~= unflatten(k as nat, card@));
    assert(card@.take(n as int) =~= card@);
    while a > 0
        invariant
            a <= n,
            n == card.len(),
            idx.len() == n,
            unflatten(k as nat, card@).take(a as int) == unflatten(r as nat, card@.take(a as int)),
            forall|j: int| a <= j < n ==> idx@[j] == #[trigger] unflatten(k as nat, card@)[j],
            unflatten(k as nat, card@).len() == n,
            k < shape_size(card@),
        decreases a,
    {
        let c = card[a - 1];
        proof {
            let t = card@.take(a as int);
            assert(t.drop_last() =~= card@.take(a - 1));
            assert(t.last() == c);
            let u = unflatten(r as nat, t);
            assert(unflatten(k as nat, card@).take(a - 1) =~= u.drop_last());
            assert(unflatten(k as nat, card@)[a - 1] == u.last());
            if c == 0 {
                // k is a position of the table, so no cardinality is zero
                lemma_size_zero(card@, a - 1);
            }
        }
        idx.set(a - 1, r % c);
        r = r / c;
        a -= 1;
    }
    assert(idx@ =~= unflatten(k as nat, card@));
    idx
}

/// Computes the row-major position, in a table with cardinalities `card`, of
/// the restriction through `map` of the assignment `idx`.
pub fn flat_of_projection(idx: &Vec<usize>, map: &Vec<usize>, card: &Vec<usize>) -> (f: usize)
    requires
        map.len() == card.len(),
        forall|a: int| 0 <= a < map.len() ==> #[trigger] map@[a] < idx.len(),
        in_bounds(project(idx@, map@), card@),
        shape_size(card@) <= usize::MAX,
    ensures
        f == flat_index(project(idx@, map@), card@),
        f < shape_size(card@),
{
    let ghost p = project(idx@, map@);
    proof {
        lemma_flat_bound(p, card@);
        assert(all_positive(card@)) by {
            assert forall|a: int| 0 <= a < card.len() implies #[trigger] card@[a] > 0 by {
                assert(p[a] < card@[a]);
            }
        }
    }
    let mut acc: usize = 0;
    let mut a: usize = 0;
    while a < map.len()
        invariant
            a <= map.len(),
            map.len() == card.len(),
            p == project(idx@, map@),
            forall|b: int| 0 <= b < map.len() ==> #[trigger] map@[b] < idx.len(),
            in_bounds(p, card@),
            all_positive(card@),
            shape_size(card@) <= usize::MAX,
            acc == flat_index(p.take(a as int), card@.take(a as int)),
        decreases map.len() - a,
    {
        proof {
            lemma_flat_take_step(p, card@, a as int);
            assert(in_bounds(p.take(a + 1), card@.take(a + 1)));
            lemma_flat_bound(p.take(a + 1), card@.take(a + 1));
            lemma_size_take_le(card@, a + 1);
            assert(p[a as int] == idx@[map@[a as int] as int]);
        }
        acc = acc * card[a] + idx[map[a]];
        a += 1;
    }
    assert(p.take(map.len() as int) =~= p);
    assert(card@.take(map.len() as int) =~= card@);
    acc
}

} // verus!
