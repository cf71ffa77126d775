//! The value algebra of an inference regime.
//!
//! Factors store values of a type `V` chosen by the caller (log-potentials,
//! for the regimes that this library is built for). The operations on those
//! values are supplied as closures:
//!
//! - [`SemiringOps::product`] combines two values (the semiring product);
//! - [`SemiringOps::sum`] summarizes a block of values (the semiring sum,
//!   used to eliminate variables and to compute normalizers);
//! - [`SemiringOps::quotient`] divides a value by a normalizer;
//! - [`SemiringOps::unit`] is the value of a normalized constant factor.
//!
//! [`ResidualOps`] measures the change between successive messages.
//!
//! Each closure is required to be total and deterministic, so that the
//! library's contracts can state results as functions of their inputs: the
//! spec functions [`mul_of`], [`sum_of`] and friends name the value that a
//! closure returns.

use vstd::prelude::*;

verus! {

/// The value algebra of a semiring over values of type `V`.
pub struct SemiringOps<V, Mul, Sum, Div> {
    /// Combines two values.
    pub product: Mul,
    /// Summarizes a block of values.
    pub sum: Sum,
    /// Divides a value by a normalizer.
    pub quotient: Div,
    /// The value of a normalized constant factor.
    pub unit: V,
}

/// Measures of change between values, used for convergence control.
pub struct ResidualOps<D, Dist, Max, Within> {
    /// Distance between two blocks of values of the same shape.
    pub dist: Dist,
    /// The larger of two distances.
    pub max: Max,
    /// Whether a distance is within a tolerance.
    pub within: Within,
    /// The smallest distance.
    pub zero: D,
    /// The distance reported when there is nothing to compare with.
    pub unbounded: D,
}

/// The value that the unary closure `f` returns for `a`.
pub open spec fn apply1<A, R, F: Fn(&A) -> R>(f: F, a: A) -> R {
    choose|r: R| f.ensures((&a,), r)
}

/// `f` accepts every argument and returns one value for each.
pub open spec fn total1<A, R, F: Fn(&A) -> R>(f: F) -> bool {
    &&& forall|a: A| #[trigger] f.requires((&a,))
    &&& forall|a: A, r1: R, r2: R| #![trigger f.ensures((&a,), r1), f.ensures((&a,), r2)]
        f.ensures((&a,), r1) && f.ensures((&a,), r2) ==> r1 == r2
}

/// A result of a total unary closure is the value that it names.
pub proof fn lemma_apply1<A, R, F: Fn(&A) -> R>(f: F, a: A, r: R)
    requires
        total1(f),
        f.ensures((&a,), r),
    ensures
        r == apply1(f, a),
{
    let c = apply1(f, a);
    assert(f.ensures((&a,), c));
}

/// The value that the binary closure `f` returns for `a` and `b`.
pub open spec fn apply2<A, R, F: Fn(&A, &A) -> R>(f: F, a: A, b: A) -> R {
    choose|r: R| f.ensures((&a, &b), r)
}

/// `f` accepts every pair of arguments and returns one value for each.
pub open spec fn total2<A, R, F: Fn(&A, &A) -> R>(f: F) -> bool {
    &&& forall|a: A, b: A| #[trigger] f.requires((&a, &b))
    &&& forall|a: A, b: A, r1: R, r2: R|
        #![trigger f.ensures((&a, &b), r1), f.ensures((&a, &b), r2)]
        f.ensures((&a, &b), r1) && f.ensures((&a, &b), r2) ==> r1 == r2
}

/// The value that the block closure `f` returns for a block with values `block`.
pub open spec fn apply_block<A, R, F: Fn(&Vec<A>) -> R>(f: F, block: Seq<A>) -> R {
    (choose|p: (Vec<A>, R)| p.0@ == block && #[trigger] f.ensures((&p.0,), p.1)).1
}

/// `f` accepts every block and returns one value for the values of each.
pub open spec fn total_block<A, R, F: Fn(&Vec<A>) -> R>(f: F) -> bool {
    &&& forall|b: Vec<A>| #[trigger] f.requires((&b,))
    &&& forall|b1: Vec<A>, b2: Vec<A>, r1: R, r2: R|
        #![trigger f.ensures((&b1,), r1), f.ensures((&b2,), r2)]
        b1@ == b2@ && f.ensures((&b1,), r1) && f.ensures((&b2,), r2) ==> r1 == r2
}

/// The value that the closure `f` over two blocks returns for `a` and `b`.
pub open spec fn apply_blocks<A, R, F: Fn(&Vec<A>, &Vec<A>) -> R>(f: F, a: Seq<A>, b: Seq<A>) -> R {
    (choose|p: (Vec<A>, Vec<A>, R)| p.0@ == a && p.1@ == b && #[trigger] f.ensures((&p.0, &p.1), p.2)).2
}

/// `f` accepts every pair of blocks and returns one value for the values of each.
pub open spec fn total_blocks<A, R, F: Fn(&Vec<A>, &Vec<A>) -> R>(f: F) -> bool {
    &&& forall|x: Vec<A>, y: Vec<A>| #[trigger] f.requires((&x, &y))
    &&& forall|x1: Vec<A>, y1: Vec<A>, x2: Vec<A>, y2: Vec<A>, r1: R, r2: R|
        #![trigger f.ensures((&x1, &y1), r1), f.ensures((&x2, &y2), r2)]
        x1@ == x2@ && y1@ == y2@ && f.ensures((&x1, &y1), r1) && f.ensures((&x2, &y2), r2)
            ==> r1 == r2
}

/// The product of two values.
pub open spec fn product_of<V, Mul: Fn(&V, &V) -> V, Sum, Div>(
    ops: SemiringOps<V, Mul, Sum, Div>,
    a: V,
    b: V,
) -> V {
    apply2(ops.product, a, b)
}

/// The quotient of a value by a normalizer.
pub open spec fn quotient_of<V, Mul, Sum, Div: Fn(&V, &V) -> V>(
    ops: SemiringOps<V, Mul, Sum, Div>,
    a: V,
    b: V,
) -> V {
    apply2(ops.quotient, a, b)
}

/// The semiring sum of a block of values.
pub open spec fn sum_of<V, Mul, Sum: Fn(&Vec<V>) -> V, Div>(
    ops: SemiringOps<V, Mul, Sum, Div>,
    block: Seq<V>,
) -> V {
    apply_block(ops.sum, block)
}

/// Every operation of the semiring is total and deterministic.
pub open spec fn semiring_ok<V, Mul: Fn(&V, &V) -> V, Sum: Fn(&Vec<V>) -> V, Div: Fn(&V, &V) -> V>(
    ops: SemiringOps<V, Mul, Sum, Div>,
) -> bool {
    &&& total2(ops.product)
    &&& total_block(ops.sum)
    &&& total2(ops.quotient)
}

/// Every operation of the residual measure is total and deterministic.
pub open spec fn residual_ok<V, D, Dist: Fn(&Vec<V>, &Vec<V>) -> D, Max: Fn(&D, &D) -> D, Within: Fn(&D, &D) -> bool>(
    ops: ResidualOps<D, Dist, Max, Within>,
) -> bool {
    &&& total_blocks(ops.dist)
    &&& total2(ops.max)
    &&& total2(ops.within)
}

/// A result of a total binary closure is the value that it names.
pub proof fn lemma_apply2<A, R, F: Fn(&A, &A) -> R>(f: F, a: A, b: A, r: R)
    requires
        total2(f),
        f.ensures((&a, &b), r),
    ensures
        r == apply2(f, a, b),
{
    let c = apply2(f, a, b);
    assert(f.ensures((&a, &b), c));
}

/// A result of a total block closure is the value that it names.
pub proof fn lemma_apply_block<A, R, F: Fn(&Vec<A>) -> R>(f: F, b: Vec<A>, r: R)
    requires
        total_block(f),
        f.ensures((&b,), r),
    ensures
        r == apply_block(f, b@),
{
    let w = (b, r);
    assert(w.0@ == b@ && f.ensures((&w.0,), w.1));
    let p = choose|p: (Vec<A>, R)| p.0@ == b@ && #[trigger] f.ensures((&p.0,), p.1);
    assert(f.ensures((&p.0,), p.1));
}

/// A result of a total closure over two blocks is the value that it names.
pub proof fn lemma_apply_blocks<A, R, F: Fn(&Vec<A>, &Vec<A>) -> R>(f: F, x: Vec<A>, y: Vec<A>, r: R)
    requires
        total_blocks(f),
        f.ensures((&x, &y), r),
    ensures
        r == apply_blocks(f, x@, y@),
{
    let w = (x, y, r);
    assert(w.0@ == x@ && w.1@ == y@ && f.ensures((&w.0, &w.1), w.2));
    let p = choose|p: (Vec<A>, Vec<A>, R)| p.0@ == x@ && p.1@ == y@ && #[trigger] f.ensures((&p.0, &p.1), p.2);
    assert(f.ensures((&p.0, &p.1), p.2));
}

} // verus!
