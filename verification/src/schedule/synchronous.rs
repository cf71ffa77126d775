//! Synchronous message-passing schedule.
//!
//! All messages in an iteration are computed from the message state at the
//! start of the iteration. Updates are committed only after every message has
//! been computed, preserving synchronous update semantics.

use vstd::prelude::*;

use super::updates::{compute_message, compute_model};
use super::{RunOptions, RunResult, Schedule};
use crate::algebra::{apply2, apply_blocks, lemma_apply2, residual_ok, semiring_ok, ResidualOps, SemiringOps};
use crate::belief_state::{factors_agree, factors_positive, fits_edge, lemma_fit_agree, message_models, BeliefState};
use crate::factor::dense_factor::align::position_of;
use crate::factor::factor_kind::{model_card, model_data, model_scope, normalize_model, FactorModel};
use crate::factor::{Factor, FactorId};
use crate::message::store::{edge_factor, edge_of, edge_variable, enters_factor, indices_where, leaves_factor, lemma_graph_edges, lemma_indices_where, message_indices};
use crate::message::{DirectedEdge, Message, MessageId};
use crate::semiring::Semiring;

verus! {

broadcast use crate::variable::lemma_variable_id_view_injective, crate::factor::lemma_factor_id_view_injective,
    crate::message::lemma_message_id_view_injective;

/// The order in which an iteration visits the messages: factor by factor, the
/// messages entering the factor, then those leaving it.
pub open spec fn visit_order(edges: Seq<DirectedEdge>, nf: nat) -> Seq<nat>
    decreases nf,
{
    if nf == 0 {
        Seq::empty()
    } else {
        visit_order(edges, (nf - 1) as nat) + indices_where(edges, enters_factor((nf - 1) as nat)) + indices_where(
            edges,
            leaves_factor((nf - 1) as nat),
        )
    }
}

/// The messages after one synchronous iteration: every message that can be
/// computed from the messages `ms` replaces the one on its edge, normalized;
/// the others stay.
pub open spec fn synchronous_messages<V, M: Fn(&V, &V) -> V, Sm: Fn(&Vec<V>) -> V, D: Fn(&V, &V) -> V>(
    factors: Seq<FactorModel<V>>,
    edges: Seq<DirectedEdge>,
    ms: Seq<Option<FactorModel<V>>>,
    ops: SemiringOps<V, M, Sm, D>,
) -> Seq<Option<FactorModel<V>>> {
    Seq::new(
        ms.len(),
        |i: int|
            match compute_model(factors, edges, ms, i, ops) {
                Some(m) => Some(normalize_model(m, ops)),
                None => ms[i],
            },
    )
}

/// The residual of the messages visited in `order`: the largest, under
/// `res.max` and starting from `res.zero`, of the distances between each
/// computed message, normalized, and the message it replaces, or
/// `res.unbounded` where it replaces none.
pub open spec fn residual_of<
    V,
    M: Fn(&V, &V) -> V,
    Sm: Fn(&Vec<V>) -> V,
    D: Fn(&V, &V) -> V,
    Dt,
    Dist: Fn(&Vec<V>, &Vec<V>) -> Dt,
    Mx: Fn(&Dt, &Dt) -> Dt,
    W,
>(
    factors: Seq<FactorModel<V>>,
    edges: Seq<DirectedEdge>,
    ms: Seq<Option<FactorModel<V>>>,
    order: Seq<nat>,
    ops: SemiringOps<V, M, Sm, D>,
    res: ResidualOps<Dt, Dist, Mx, W>,
) -> Dt
    decreases order.len(),
{
    if order.len() == 0 {
        res.zero
    } else {
        let acc = residual_of(factors, edges, ms, order.drop_last(), ops, res);
        let i = order.last() as int;
        match compute_model(factors, edges, ms, i, ops) {
            None => acc,
            Some(m) => apply2(
                res.max,
                acc,
                match ms[i] {
                    Some(p) => apply_blocks(res.dist, model_data(normalize_model(m, ops)), model_data(p)),
                    None => res.unbounded,
                },
            ),
        }
    }
}

/// The outcome of running at most `remaining` more iterations from the
/// messages `ms`, after `done` iterations whose last residual was `last`: the
/// number of iterations, whether the last residual was within `tolerance`,
/// that residual, and the messages.
pub open spec fn run_model<
    V,
    M: Fn(&V, &V) -> V,
    Sm: Fn(&Vec<V>) -> V,
    D: Fn(&V, &V) -> V,
    Dt,
    Dist: Fn(&Vec<V>, &Vec<V>) -> Dt,
    Mx: Fn(&Dt, &Dt) -> Dt,
    W: Fn(&Dt, &Dt) -> bool,
>(
    factors: Seq<FactorModel<V>>,
    edges: Seq<DirectedEdge>,
    ms: Seq<Option<FactorModel<V>>>,
    remaining: nat,
    done: nat,
    last: Dt,
    tolerance: Dt,
    ops: SemiringOps<V, M, Sm, D>,
    res: ResidualOps<Dt, Dist, Mx, W>,
) -> (nat, bool, Dt, Seq<Option<FactorModel<V>>>)
    decreases remaining,
{
    if remaining == 0 {
        (done, false, last, ms)
    } else {
        let r = residual_of(factors, edges, ms, visit_order(edges, factors.len()), ops, res);
        let next = synchronous_messages(factors, edges, ms, ops);
        if apply2(res.within, r, tolerance) {
            (done + 1, true, r, next)
        } else {
            run_model(factors, edges, next, (remaining - 1) as nat, done + 1, r, tolerance, ops, res)
        }
    }
}

/// A run executes at most `remaining` more iterations, at least one where it
/// converges, and all of them where it does not; where it converges, its last
/// residual is within the tolerance.
pub proof fn lemma_run_model_bounds<
    V,
    M: Fn(&V, &V) -> V,
    Sm: Fn(&Vec<V>) -> V,
    D: Fn(&V, &V) -> V,
    Dt,
    Dist: Fn(&Vec<V>, &Vec<V>) -> Dt,
    Mx: Fn(&Dt, &Dt) -> Dt,
    W: Fn(&Dt, &Dt) -> bool,
>(
    factors: Seq<FactorModel<V>>,
    edges: Seq<DirectedEdge>,
    ms: Seq<Option<FactorModel<V>>>,
    remaining: nat,
    done: nat,
    last: Dt,
    tolerance: Dt,
    ops: SemiringOps<V, M, Sm, D>,
    res: ResidualOps<Dt, Dist, Mx, W>,
)
    ensures
        ({
            let r = run_model(factors, edges, ms, remaining, done, last, tolerance, ops, res);
            &&& done <= r.0 <= done + remaining
            &&& r.1 ==> r.0 >= done + 1 && apply2(res.within, r.2, tolerance)
            &&& !r.1 ==> r.0 == done + remaining
            &&& !r.1 && remaining > 0 ==> !apply2(res.within, r.2, tolerance)
            &&& remaining == 0 ==> r == (done, false, last, ms)
        }),
    decreases remaining,
{
    if remaining > 0 {
        let r = residual_of(factors, edges, ms, visit_order(edges, factors.len()), ops, res);
        let next = synchronous_messages(factors, edges, ms, ops);
        lemma_run_model_bounds(factors, edges, next, (remaining - 1) as nat, done + 1, r, tolerance, ops, res);
    }
}

/// The visit order lists valid edges, and every edge of a factor below `nf`.
pub proof fn lemma_visit_order(edges: Seq<DirectedEdge>, nf: nat)
    ensures
        forall|k: int| 0 <= k < visit_order(edges, nf).len() ==> (#[trigger] visit_order(edges, nf)[k]) < edges.len(),
        forall|j: int|
            0 <= j < edges.len() && edge_factor(#[trigger] edges[j])@ < nf && (edges[j].from is Factor
                || edges[j].to is Factor) ==> visit_order(edges, nf).contains(j as nat),
    decreases nf,
{
    if nf > 0 {
        let f = (nf - 1) as nat;
        lemma_visit_order(edges, f);
        lemma_indices_where(edges, enters_factor(f));
        lemma_indices_where(edges, leaves_factor(f));
        let a = visit_order(edges, f);
        let b = indices_where(edges, enters_factor(f));
        let c = indices_where(edges, leaves_factor(f));
        assert(visit_order(edges, nf) == a + b + c);
        assert forall|k: int| 0 <= k < visit_order(edges, nf).len() implies (#[trigger] visit_order(edges, nf)[k])
            < edges.len() by {
            if k < a.len() {
                assert(visit_order(edges, nf)[k] == a[k]);
            } else if k < a.len() + b.len() {
                assert(visit_order(edges, nf)[k] == b[k - a.len()]);
            } else {
                assert(visit_order(edges, nf)[k] == c[k - a.len() - b.len()]);
            }
        }
        assert forall|j: int|
            0 <= j < edges.len() && edge_factor(#[trigger] edges[j])@ < nf && (edges[j].from is Factor
                || edges[j].to is Factor) implies visit_order(edges, nf).contains(j as nat) by {
            let v = visit_order(edges, nf);
            if edge_factor(edges[j])@ < f {
                let k = choose|k: int| 0 <= k < a.len() && a[k] == j as nat;
                assert(v[k] == a[k]);
            } else if edges[j].from is Factor {
                assert(leaves_factor(f)(edges[j]));
                assert(c.contains(j as nat));
                let k = choose|k: int| 0 <= k < c.len() && c[k] == j as nat;
                assert(v[a.len() + b.len() + k] == c[k]);
            } else {
                assert(enters_factor(f)(edges[j]));
                assert(b.contains(j as nat));
                let k = choose|k: int| 0 <= k < b.len() && b[k] == j as nat;
                assert(v[a.len() + k] == b[k]);
            }
        }
    }
}

/// Appends the identifiers of `src` to `dst`.
fn append_ids(dst: &mut Vec<MessageId>, src: &[MessageId])
    ensures
        final(dst)@ == old(dst)@ + src@,
{
    let mut i: usize = 0;
    while i < src.len()
        invariant
            i <= src.len(),
            dst@ == old(dst)@ + src@.take(i as int),
        decreases src.len() - i,
    {
        dst.push(src[i]);
        proof {
            assert(old(dst)@ + src@.take(i + 1) =~= (old(dst)@ + src@.take(i as int)).push(src@[i as int]));
        }
        i += 1;
    }
    proof {
        assert(src@.take(src.len() as int) =~= src@);
    }
}

/// A synchronous belief-propagation schedule.
///
/// Message updates are staged for an entire iteration before being committed,
/// so no update is visible to another message computed in the same iteration.
#[derive(Clone, Copy, Debug, Default)]
pub struct Synchronous;

impl Synchronous {
    /// Creates a synchronous schedule.
    pub fn new() -> (s: Self) {
        Synchronous
    }
}

impl<S: Semiring> Schedule<S> for Synchronous {
    /// Runs message passing until convergence or the iteration limit is
    /// reached.
    ///
    /// Convergence is reached when the maximum message residual produced by an
    /// iteration is within `options.tolerance`, as `res.within` decides. The
    /// result reports the number of iterations executed, whether the run
    /// converged, and the residual of the last iteration (`res.unbounded`
    /// where no iteration ran).
    fn run<
        V: Copy,
        M: Fn(&V, &V) -> V,
        Sm: Fn(&Vec<V>) -> V,
        D: Fn(&V, &V) -> V,
        Dt: Copy,
        Dist: Fn(&Vec<V>, &Vec<V>) -> Dt,
        Mx: Fn(&Dt, &Dt) -> Dt,
        W: Fn(&Dt, &Dt) -> bool,
    >(
        &mut self,
        state: &mut BeliefState<S, V>,
        options: RunOptions<Dt>,
        ops: &SemiringOps<V, M, Sm, D>,
        res: &ResidualOps<Dt, Dist, Mx, W>,
    ) -> (r: RunResult<Dt>)
        ensures
            (r.iterations as nat, r.converged, r.residual, final(state).message_models()) == run_model(
                old(state).factor_models(),
                old(state).edges(),
                old(state).message_models(),
                options.max_iterations as nat,
                0,
                res.unbounded,
                options.tolerance,
                *ops,
                *res,
            ),
    {
        proof {
            lemma_run_model_bounds(
                old(state).factor_models(),
                old(state).edges(),
                old(state).message_models(),
                options.max_iterations as nat,
                0,
                res.unbounded,
                options.tolerance,
                *ops,
                *res,
            );
        }
        let ghost fs = state.factor_models();
        let ghost edges = state.edges();
        let ghost target = run_model(
            fs,
            edges,
            state.message_models(),
            options.max_iterations as nat,
            0,
            res.unbounded,
            options.tolerance,
            *ops,
            *res,
        );
        let mut residual = res.unbounded;
        let mut iteration: usize = 0;
        while iteration < options.max_iterations
            invariant
                state.wf(),
                fs == state.factor_models(),
                edges == state.edges(),
                fs == old(state).factor_models(),
                edges == old(state).edges(),
                target == run_model(
                    old(state).factor_models(),
                    old(state).edges(),
                    old(state).message_models(),
                    options.max_iterations as nat,
                    0,
                    res.unbounded,
                    options.tolerance,
                    *ops,
                    *res,
                ),
                state.graph_view() == old(state).graph_view(),
                options.max_iterations > 0 ==> factors_agree(fs),
                options.max_iterations > 0 ==> factors_positive(fs),
                semiring_ok(*ops),
                residual_ok::<V, Dt, Dist, Mx, W>(*res),
                iteration <= options.max_iterations,
                target == run_model(
                    fs,
                    edges,
                    state.message_models(),
                    (options.max_iterations - iteration) as nat,
                    iteration as nat,
                    residual,
                    options.tolerance,
                    *ops,
                    *res,
                ),
            decreases options.max_iterations - iteration,
        {
            let ghost prev = state.message_models();
            let ghost rem = (options.max_iterations - iteration) as nat;
            let ghost prev_residual = residual;
            proof {
                assert(target == run_model(fs, edges, prev, rem, iteration as nat, prev_residual, options.tolerance, *ops, *res));
            }
            residual = self.step(state, ops, res);
            iteration += 1;
            let within = (res.within)(&residual, &options.tolerance);
            proof {
                lemma_apply2(res.within, residual, options.tolerance, within);
            }
            if within {
                return RunResult { iterations: iteration, converged: true, residual };
            }
        }
        RunResult { iterations: options.max_iterations, converged: false, residual }
    }

    /// Executes one message-passing iteration.
    ///
    /// Every message is computed from the message state at the start of the
    /// iteration and normalized; the updates are committed only after all of
    /// them have been computed. Returns the maximum message residual produced
    /// by the iteration.
    fn step<
        V: Copy,
        M: Fn(&V, &V) -> V,
        Sm: Fn(&Vec<V>) -> V,
        D: Fn(&V, &V) -> V,
        Dt: Copy,
        Dist: Fn(&Vec<V>, &Vec<V>) -> Dt,
        Mx: Fn(&Dt, &Dt) -> Dt,
        W: Fn(&Dt, &Dt) -> bool,
    >(
        &mut self,
        state: &mut BeliefState<S, V>,
        ops: &SemiringOps<V, M, Sm, D>,
        res: &ResidualOps<Dt, Dist, Mx, W>,
    ) -> (residual: Dt)
        ensures
            final(state).message_models() == synchronous_messages(
                old(state).factor_models(),
                old(state).edges(),
                old(state).message_models(),
                *ops,
            ),
            residual == residual_of(
                old(state).factor_models(),
                old(state).edges(),
                old(state).message_models(),
                visit_order(old(state).edges(), old(state).factor_models().len()),
                *ops,
                *res,
            ),
    {
        let ghost fs = state.factor_models();
        let ghost fvs = state.graph_view().factors_view();
        let ghost edges = state.edges();
        let ghost ms = state.message_models();
        let ghost order = visit_order(edges, fs.len());
        let ghost next = synchronous_messages(fs, edges, ms, *ops);
        let num_factors = state.graph().num_factors();
        proof {
            state.graph_view().lemma_wf();
            lemma_graph_edges(fvs);
            lemma_visit_order(edges, fs.len());
        }
        let mut message_ids: Vec<MessageId> = Vec::new();
        let mut index: usize = 0;
        while index < num_factors
            invariant
                index <= num_factors,
                num_factors == fs.len(),
                state.wf(),
                edges == state.edges(),
                message_indices(message_ids@) == visit_order(edges, index as nat),
            decreases num_factors - index,
        {
            let factor = FactorId::new(index);
            let ghost before = message_ids@;
            append_ids(&mut message_ids, state.messages().factor_in(factor));
            append_ids(&mut message_ids, state.messages().factor_out(factor));
            proof {
                let a = state.store_view().factor_in_view(index as nat);
                let b = state.store_view().factor_out_view(index as nat);
                assert(message_indices(message_ids@) =~= message_indices(before) + message_indices(a) + message_indices(b));
            }
            index += 1;
        }
        let mut updates: Vec<Option<Message<V>>> = Vec::new();
        let mut max_residual: Dt = res.zero;
        let mut t: usize = 0;
        while t < message_ids.len()
            invariant
                state.wf(),
                semiring_ok(*ops),
                residual_ok::<V, Dt, Dist, Mx, W>(*res),
                fs == state.factor_models(),
                fvs == state.graph_view().factors_view(),
                edges == state.edges(),
                ms == state.message_models(),
                factors_agree(fs),
                factors_positive(fs),
                order == visit_order(edges, fs.len()),
                next == synchronous_messages(fs, edges, ms, *ops),
                forall|k: int| 0 <= k < order.len() ==> (#[trigger] order[k]) < edges.len(),
                forall|j: int| 0 <= j < edges.len() ==> edge_of(#[trigger] edges[j], fvs),
                forall|f: int| 0 <= f < fvs.len() ==> (#[trigger] fvs[f]).wf(),
                t <= message_ids.len(),
                message_indices(message_ids@) == order,
                updates.len() == t,
                max_residual == residual_of(fs, edges, ms, order.take(t as int), *ops, *res),
                forall|u: int| 0 <= u < t ==> (#[trigger] updates@[u] matches Some(m) ==> {
                    &&& m.wf()
                    &&& next[order[u] as int] == Some(m.factor_view()@)
                    &&& fits_edge(m.factor_view()@, fs, edges[order[u] as int])
                }),
                forall|u: int| 0 <= u < t ==> (#[trigger] updates@[u] is None ==> next[order[u] as int]
                    == ms[order[u] as int]),
            decreases message_ids.len() - t,
        {
            let id = message_ids[t];
            let ghost j = order[t as int];
            proof {
                assert(message_ids@[t as int]@ == j);
                assert(order.take(t + 1).drop_last() =~= order.take(t as int));
                assert(order.take(t + 1).last() == j);
                let e = edges[j as int];
                assert(edge_of(e, fvs));
                if e.from is Factor {
                    let f = edge_factor(e)@ as int;
                    let x = edge_variable(e);
                    fvs[f].lemma_scope();
                    assert(fs[f] == fvs[f]@);
                    let sc = model_scope(fs[f]);
                    assert(sc.contains(x));
                    let p = position_of(sc, x);
                    assert(0 <= p < sc.len() && sc[p] == x);
                    assert(model_card(fs[f]).len() == sc.len());
                    assert(model_card(fs[f])[p] > 0);
                }
            }
            let computed = compute_message(&*state, id, ops);
            match computed {
                Some(message) => {
                    let factor = message.into_factor().normalize(ops);
                    proof {
                        factor.lemma_scope();
                    }
                    let message = match Message::try_from_factor(factor) {
                        Ok(m) => m,
                        Err(_) => {
                            proof {
                                assert(false);
                            }
                            unreached()
                        },
                    };
                    let residual = match state.messages().get(id) {
                        Some(previous) => {
                            proof {
                                assert(state.store_view().messages_view()[j as int] == Some(*previous));
                                assert(ms[j as int] == Some(previous.factor_view()@));
                                assert(fits_edge(previous.factor_view()@, fs, edges[j as int]));
                            }
                            message.factor().distance(previous.factor(), res)
                        },
                        None => res.unbounded,
                    };
                    let combined = (res.max)(&max_residual, &residual);
                    proof {
                        lemma_apply2(res.max, max_residual, residual, combined);
                    }
                    max_residual = combined;
                    updates.push(Some(message));
                },
                None => {
                    updates.push(None);
                },
            }
            t += 1;
        }
        proof {
            assert(order.take(message_ids.len() as int) =~= order);
            assert forall|j: int| 0 <= j < edges.len() implies #[trigger] order.contains(j as nat) by {
                assert(edge_of(edges[j], fvs));
            }
        }
        let ghost total = updates.len() as int;
        while updates.len() > 0
            invariant
                state.store_view().wf(),
                state.graph_view() == old(state).graph_view(),
                edges == state.edges(),
                fs == state.factor_models(),
                fvs == state.graph_view().factors_view(),
                ms == old(state).message_models(),
                next == synchronous_messages(fs, edges, ms, *ops),
                state.store_view().variable_slots() == old(state).store_view().variable_slots(),
                state.store_view().factor_slots() == old(state).store_view().factor_slots(),
                order.len() == total,
                updates.len() <= total,
                message_ids@.len() == total,
                message_indices(message_ids@) == order,
                forall|j: int| 0 <= j < edges.len() ==> edge_of(#[trigger] edges[j], fvs),
                forall|f: int| 0 <= f < fvs.len() ==> (#[trigger] fvs[f]).wf(),
                factors_agree(fs),
                forall|j: int| 0 <= j < edges.len() ==> #[trigger] order.contains(j as nat),
                forall|k: int| 0 <= k < order.len() ==> (#[trigger] order[k]) < edges.len(),
                forall|u: int| 0 <= u < updates.len() ==> (#[trigger] updates@[u] matches Some(m) ==> {
                    &&& m.wf()
                    &&& next[order[u] as int] == Some(m.factor_view()@)
                    &&& fits_edge(m.factor_view()@, fs, edges[order[u] as int])
                }),
                forall|u: int| 0 <= u < updates.len() ==> (#[trigger] updates@[u] is None ==> next[order[u] as int]
                    == ms[order[u] as int]),
                state.message_models().len() == edges.len(),
                forall|j: int| 0 <= j < edges.len() ==> #[trigger] state.message_models()[j] == if order.subrange(
                    updates.len() as int,
                    total,
                ).contains(j as nat) {
                    next[j]
                } else {
                    ms[j]
                },
                forall|j: int| 0 <= j < edges.len() ==> (#[trigger] state.message_models()[j] matches Some(m) ==> fits_edge(m, fs, edges[j])),
            decreases updates.len(),
        {
            let ghost u = updates.len() - 1;
            let ghost j = order[u];
            let ghost prev_models = state.message_models();
            let ghost prev_updates = updates@;
            let last = updates.pop();
            proof {
                assert(last == Some(prev_updates[u]));
                assert(updates@ =~= prev_updates.subrange(0, u));
                let r0 = order.subrange(u, total);
                let r1 = order.subrange(u + 1, total);
                assert forall|x: nat| #[trigger] r0.contains(x) <==> (r1.contains(x) || x == j) by {
                    if r0.contains(x) {
                        let q = choose|q: int| 0 <= q < r0.len() && r0[q] == x;
                        if q > 0 {
                            assert(r1[q - 1] == x);
                        }
                    }
                    if r1.contains(x) {
                        let q = choose|q: int| 0 <= q < r1.len() && r1[q] == x;
                        assert(r0[q + 1] == x);
                    }
                    if x == j {
                        assert(r0[0] == x);
                    }
                }
            }
            match last {
                Some(Some(message)) => {
                    let id = message_ids[updates.len()];
                    proof {
                        assert(message_ids@[u]@ == j);
                    }
                    state.messages_mut().set(id, message);
                    proof {
                        assert forall|x: int| 0 <= x < edges.len() implies #[trigger] state.message_models()[x] == if order.subrange(
                            u,
                            total,
                        ).contains(x as nat) {
                            next[x]
                        } else {
                            ms[x]
                        } by {
                            if x != j {
                                assert(state.message_models()[x] == prev_models[x]);
                            }
                        }
                        assert forall|x: int| 0 <= x < edges.len() implies (#[trigger] state.message_models()[x] matches Some(m)
                            ==> fits_edge(m, fs, edges[x])) by {
                            if x != j {
                                assert(state.message_models()[x] == prev_models[x]);
                            }
                        }
                    }
                },
                Some(None) => {
                    proof {
                        assert forall|x: int| 0 <= x < edges.len() implies #[trigger] state.message_models()[x] == if order.subrange(
                            u,
                            total,
                        ).contains(x as nat) {
                            next[x]
                        } else {
                            ms[x]
                        } by {
                            assert(state.message_models()[x] == prev_models[x]);
                        }
                    }
                },
                None => {
                    proof {
                        assert(false);
                    }
                },
            }
        }
        proof {
            assert(state.message_models() =~= next) by {
                assert forall|x: int| 0 <= x < edges.len() implies state.message_models()[x] == next[x] by {
                    assert(order.contains(x as nat));
                    assert(order.subrange(0, total) =~= order);
                }
            }
            lemma_fit_agree(fvs, edges, state.message_models());
        }
        max_residual
    }
}

} // verus!
