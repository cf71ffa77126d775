//! Belief-propagation message updates.
//!
//! A variable-to-factor message combines the messages that the variable has
//! received from its other factors. A factor-to-variable message combines the
//! factor with the messages that it has received from its other variables,
//! then eliminates every variable but the destination.

use vstd::prelude::*;

use crate::algebra::{semiring_ok, SemiringOps};
use crate::belief_state::{card_in, combine_present, factors_agree, fits_edge, option_model, BeliefState};
use crate::factor::dense_factor::align::position_of;
use crate::factor::factor_kind::{combine_model, lemma_combine_in_scope, lemma_keeps_own_shape, keeps_shape, model_card, model_data, model_scope, reduce_model, FactorModel};
use crate::factor::{Factor, FactorKind};
use crate::message::store::{edge_factor, edge_of, edge_variable, enters_factor, enters_variable, indices_where, lemma_graph_edges, lemma_indices_where, message_indices};
use crate::message::{DirectedEdge, Endpoint, Message, MessageId};
use crate::semiring::Semiring;
use crate::variable::VariableId;

verus! {

broadcast use crate::variable::lemma_variable_id_view_injective, crate::factor::lemma_factor_id_view_injective,
    crate::message::lemma_message_id_view_injective;

/// The model of the factor that an optional message carries.
pub open spec fn option_message_model<V>(o: Option<Message<V>>) -> Option<FactorModel<V>> {
    match o {
        Some(m) => Some(m.factor_view()@),
        None => None,
    }
}

/// The messages that the variable with index `v` has received, in the order
/// of its incoming edges, where a message from the factor with index `f`
/// counts as absent.
pub open spec fn messages_to_variable_except<V>(
    edges: Seq<DirectedEdge>,
    ms: Seq<Option<FactorModel<V>>>,
    v: nat,
    f: nat,
) -> Seq<Option<FactorModel<V>>> {
    indices_where(edges, enters_variable(v)).map_values(
        |k: nat|
            if edge_factor(edges[k as int])@ == f {
                None
            } else {
                ms[k as int]
            },
    )
}

/// The messages that the factor with index `f` has received, in the order of
/// its incoming edges, where a message from the variable with index `v`
/// counts as absent.
pub open spec fn messages_to_factor_except<V>(
    edges: Seq<DirectedEdge>,
    ms: Seq<Option<FactorModel<V>>>,
    f: nat,
    v: nat,
) -> Seq<Option<FactorModel<V>>> {
    indices_where(edges, enters_factor(f)).map_values(
        |k: nat|
            if edge_variable(edges[k as int])@ == v {
                None
            } else {
                ms[k as int]
            },
    )
}

/// `acc` combined, in order, with the factors that are present among `ms`.
pub open spec fn fold_into<V, M: Fn(&V, &V) -> V>(acc: FactorModel<V>, ms: Seq<Option<FactorModel<V>>>, product: M) -> FactorModel<V>
    decreases ms.len(),
{
    if ms.len() == 0 {
        acc
    } else {
        let a = fold_into(acc, ms.drop_last(), product);
        match ms.last() {
            None => a,
            Some(m) => combine_model(a, m, product),
        }
    }
}

/// Folding nothing leaves the accumulator; folding a sequence extended by one
/// entry folds the sequence, then combines the result with that entry where
/// it is present (an absent entry changes nothing).
pub proof fn lemma_fold_into_push<V, M: Fn(&V, &V) -> V>(
    acc: FactorModel<V>,
    ms: Seq<Option<FactorModel<V>>>,
    m: Option<FactorModel<V>>,
    product: M,
)
    ensures
        fold_into(acc, Seq::<Option<FactorModel<V>>>::empty(), product) == acc,
        fold_into(acc, ms.push(m), product) == match m {
            None => fold_into(acc, ms, product),
            Some(x) => combine_model(fold_into(acc, ms, product), x, product),
        },
{
    assert(ms.push(m).drop_last() =~= ms);
}

/// Folding two sequences one after the other is folding their concatenation:
/// every present entry of both is combined, in order, into the running result.
pub proof fn lemma_fold_into_append<V, M: Fn(&V, &V) -> V>(
    acc: FactorModel<V>,
    ms1: Seq<Option<FactorModel<V>>>,
    ms2: Seq<Option<FactorModel<V>>>,
    product: M,
)
    ensures
        fold_into(acc, ms1 + ms2, product) == fold_into(fold_into(acc, ms1, product), ms2, product),
    decreases ms2.len(),
{
    if ms2.len() == 0 {
        assert(ms1 + ms2 =~= ms1);
    } else {
        let d = ms2.drop_last();
        lemma_fold_into_append(acc, ms1, d, product);
        assert((ms1 + ms2).drop_last() =~= ms1 + d);
        assert((ms1 + ms2).last() == ms2.last());
    }
}

/// The messages that a factor combines into a message to the variable with
/// index `v` are those of its incoming edges, one entry per edge in the order
/// of the edges: the message on the edge where its source is another
/// variable, and none where the source is `v`. Every incoming edge is listed.
pub proof fn lemma_messages_to_factor_except<V>(
    edges: Seq<DirectedEdge>,
    ms: Seq<Option<FactorModel<V>>>,
    f: nat,
    v: nat,
)
    ensures
        ({
            let l = messages_to_factor_except(edges, ms, f, v);
            let ix = indices_where(edges, enters_factor(f));
            &&& l.len() == ix.len()
            &&& forall|k: int| 0 <= k < l.len() ==> (#[trigger] ix[k]) < edges.len() && enters_factor(f)(edges[ix[k] as int])
                && l[k] == if edge_variable(edges[ix[k] as int])@ == v {
                None
            } else {
                ms[ix[k] as int]
            }
            &&& forall|k1: int, k2: int| 0 <= k1 < k2 < ix.len() ==> (#[trigger] ix[k1]) < (#[trigger] ix[k2])
            &&& forall|i: int| 0 <= i < edges.len() && enters_factor(f)(#[trigger] edges[i]) ==> ix.contains(i as nat)
        }),
{
    lemma_indices_where(edges, enters_factor(f));
}

/// The message from a factor to a variable depends only on the messages that
/// the factor received from its other variables: changing the message on an
/// edge that does not enter the factor, or that comes from the destination
/// variable, leaves it unchanged.
pub proof fn lemma_factor_message_local<V, M: Fn(&V, &V) -> V, Sm: Fn(&Vec<V>) -> V, D>(
    factor: FactorModel<V>,
    edges: Seq<DirectedEdge>,
    ms: Seq<Option<FactorModel<V>>>,
    f: nat,
    v: nat,
    i: int,
    x: Option<FactorModel<V>>,
    ops: SemiringOps<V, M, Sm, D>,
)
    requires
        ms.len() == edges.len(),
        0 <= i < edges.len(),
        !enters_factor(f)(edges[i]) || edge_variable(edges[i])@ == v,
    ensures
        factor_to_variable_model(factor, edges, ms.update(i, x), f, v, ops) == factor_to_variable_model(
            factor,
            edges,
            ms,
            f,
            v,
            ops,
        ),
{
    lemma_indices_where(edges, enters_factor(f));
    let ix = indices_where(edges, enters_factor(f));
    let l1 = messages_to_factor_except(edges, ms.update(i, x), f, v);
    let l2 = messages_to_factor_except(edges, ms, f, v);
    assert forall|k: int| 0 <= k < l1.len() implies l1[k] == l2[k] by {
        if ix[k] as int == i {
            assert(enters_factor(f)(edges[i]));
        }
    }
    assert(l1 =~= l2);
}

/// The messages that a variable combines into a message to the factor with
/// index `f` are those of its incoming edges, one entry per edge in the order
/// of the edges: the message on the edge where its source is another factor,
/// and none where the source is `f`. Every incoming edge is listed.
pub proof fn lemma_messages_to_variable_except<V>(
    edges: Seq<DirectedEdge>,
    ms: Seq<Option<FactorModel<V>>>,
    v: nat,
    f: nat,
)
    ensures
        ({
            let l = messages_to_variable_except(edges, ms, v, f);
            let ix = indices_where(edges, enters_variable(v));
            &&& l.len() == ix.len()
            &&& forall|k: int| 0 <= k < l.len() ==> (#[trigger] ix[k]) < edges.len() && enters_variable(v)(edges[ix[k] as int])
                && l[k] == if edge_factor(edges[ix[k] as int])@ == f {
                None
            } else {
                ms[ix[k] as int]
            }
            &&& forall|k1: int, k2: int| 0 <= k1 < k2 < ix.len() ==> (#[trigger] ix[k1]) < (#[trigger] ix[k2])
            &&& forall|i: int| 0 <= i < edges.len() && enters_variable(v)(#[trigger] edges[i]) ==> ix.contains(i as nat)
        }),
{
    lemma_indices_where(edges, enters_variable(v));
}

/// The message from a variable to a factor depends only on the messages that
/// the variable received from its other factors: changing the message on an
/// edge that does not enter the variable, or that comes from the destination
/// factor, leaves it unchanged.
pub proof fn lemma_variable_message_local<V, M: Fn(&V, &V) -> V>(
    edges: Seq<DirectedEdge>,
    ms: Seq<Option<FactorModel<V>>>,
    v: nat,
    f: nat,
    i: int,
    x: Option<FactorModel<V>>,
    product: M,
)
    requires
        ms.len() == edges.len(),
        0 <= i < edges.len(),
        !enters_variable(v)(edges[i]) || edge_factor(edges[i])@ == f,
    ensures
        variable_to_factor_model(edges, ms.update(i, x), v, f, product) == variable_to_factor_model(
            edges,
            ms,
            v,
            f,
            product,
        ),
{
    lemma_indices_where(edges, enters_variable(v));
    let ix = indices_where(edges, enters_variable(v));
    let l1 = messages_to_variable_except(edges, ms.update(i, x), v, f);
    let l2 = messages_to_variable_except(edges, ms, v, f);
    assert forall|k: int| 0 <= k < l1.len() implies l1[k] == l2[k] by {
        if ix[k] as int == i {
            assert(enters_variable(v)(edges[i]));
        }
    }
    assert(l1 =~= l2);
}

/// The variables of `scope` other than the one with index `v`, in order.
pub open spec fn other_vars(scope: Seq<VariableId>, v: nat) -> Seq<VariableId> {
    scope.filter(|x: VariableId| x@ != v)
}

/// The message from the variable with index `v` to the factor with index
/// `f`: the combination of the messages that the variable has received from
/// its other factors, if it has received any.
pub open spec fn variable_to_factor_model<V, M: Fn(&V, &V) -> V>(
    edges: Seq<DirectedEdge>,
    ms: Seq<Option<FactorModel<V>>>,
    v: nat,
    f: nat,
    product: M,
) -> Option<FactorModel<V>> {
    combine_present(messages_to_variable_except(edges, ms, v, f), product)
}

/// The message from the factor `factor`, with index `f`, to the variable with
/// index `v`: the factor combined with the messages that it has received from
/// its other variables, with every variable but `v` eliminated.
pub open spec fn factor_to_variable_model<V, M: Fn(&V, &V) -> V, Sm: Fn(&Vec<V>) -> V, D>(
    factor: FactorModel<V>,
    edges: Seq<DirectedEdge>,
    ms: Seq<Option<FactorModel<V>>>,
    f: nat,
    v: nat,
    ops: SemiringOps<V, M, Sm, D>,
) -> FactorModel<V> {
    let combined = fold_into(factor, messages_to_factor_except(edges, ms, f, v), ops.product);
    reduce_model(combined, other_vars(model_scope(combined), v), ops.sum)
}

/// The message for the edge with index `i`, computed from the messages `ms`.
pub open spec fn compute_model<V, M: Fn(&V, &V) -> V, Sm: Fn(&Vec<V>) -> V, D>(
    factors: Seq<FactorModel<V>>,
    edges: Seq<DirectedEdge>,
    ms: Seq<Option<FactorModel<V>>>,
    i: int,
    ops: SemiringOps<V, M, Sm, D>,
) -> Option<FactorModel<V>> {
    let e = edges[i];
    if e.from is Variable {
        variable_to_factor_model(edges, ms, edge_variable(e)@, edge_factor(e)@, ops.product)
    } else {
        Some(factor_to_variable_model(factors[edge_factor(e)@ as int], edges, ms, edge_factor(e)@, edge_variable(e)@, ops))
    }
}

/// Computes the message for a directed edge from the current message state.
///
/// Returns `None` where a variable has received no message from any of the
/// factors other than the destination.
pub fn compute_message<S: Semiring, V: Copy, M: Fn(&V, &V) -> V, Sm: Fn(&Vec<V>) -> V, D: Fn(&V, &V) -> V>(
    state: &BeliefState<S, V>,
    message_id: MessageId,
    ops: &SemiringOps<V, M, Sm, D>,
) -> (r: Option<Message<V>>)
    requires
        state.wf(),
        message_id@ < state.edges().len(),
        state.edges()[message_id@ as int].from is Factor ==> card_in(
            state.factor_models()[edge_factor(state.edges()[message_id@ as int])@ as int],
            edge_variable(state.edges()[message_id@ as int]),
        ) > 0,
        semiring_ok(*ops),
    ensures
        option_message_model(r) == compute_model(
            state.factor_models(),
            state.edges(),
            state.message_models(),
            message_id@ as int,
            *ops,
        ),
        r matches Some(m) ==> m.wf() && m.factor_view()@ is Unary && model_scope(m.factor_view()@) == seq![
            edge_variable(state.edges()[message_id@ as int]),
        ],
        factors_agree(state.factor_models()) ==> (r matches Some(m) ==> fits_edge(
            m.factor_view()@,
            state.factor_models(),
            state.edges()[message_id@ as int],
        )),
{
    let edge = state.messages().edge(message_id);
    match (edge.from, edge.to) {
        (Endpoint::Variable(_), Endpoint::Factor(_)) => variable_to_factor(state, message_id, ops),
        (Endpoint::Factor(_), Endpoint::Variable(_)) => {
            let r = factor_to_variable(state, message_id, ops);
            proof {
                if let Some(m) = &r {
                    assert(model_scope(m.factor_view()@) =~= seq![edge_variable(state.edges()[message_id@ as int])]);
                }
            }
            r
        },
        _ => {
            proof {
                assert(false);
            }
            unreached()
        },
    }
}

/// Computes the message from a variable to a factor.
///
/// Returns `None` where the variable has received no message from any of its
/// other factors.
pub fn variable_to_factor<S: Semiring, V: Copy, M: Fn(&V, &V) -> V, Sm: Fn(&Vec<V>) -> V, D: Fn(&V, &V) -> V>(
    state: &BeliefState<S, V>,
    message_id: MessageId,
    ops: &SemiringOps<V, M, Sm, D>,
) -> (r: Option<Message<V>>)
    requires
        state.wf(),
        message_id@ < state.edges().len(),
        state.edges()[message_id@ as int].from is Variable,
        semiring_ok(*ops),
    ensures
        option_message_model(r) == variable_to_factor_model(
            state.edges(),
            state.message_models(),
            edge_variable(state.edges()[message_id@ as int])@,
            edge_factor(state.edges()[message_id@ as int])@,
            ops.product,
        ),
        r matches Some(m) ==> m.wf() && m.factor_view()@ is Unary && model_scope(m.factor_view()@) == seq![
            edge_variable(state.edges()[message_id@ as int]),
        ],
        factors_agree(state.factor_models()) ==> (r matches Some(m) ==> fits_edge(
            m.factor_view()@,
            state.factor_models(),
            state.edges()[message_id@ as int],
        )),
{
    let store = state.messages();
    let edge = store.edge(message_id);
    let (variable, factor) = match (edge.from, edge.to) {
        (Endpoint::Variable(v), Endpoint::Factor(f)) => (v, f),
        _ => {
            proof {
                assert(false);
            }
            unreached()
        },
    };
    let ghost edges = state.edges();
    let ghost models = state.message_models();
    let ghost ks = indices_where(edges, enters_variable(variable@));
    let ghost list = messages_to_variable_except(edges, models, variable@, factor@);
    proof {
        state.graph_view().lemma_wf();
        lemma_indices_where(edges, enters_variable(variable@));
        lemma_graph_edges(state.graph_view().factors_view());
        assert(edge_of(edges[message_id@ as int], state.graph_view().factors_view()));
    }
    let incoming = store.variable_in(variable);
    proof {
        assert(message_indices(incoming@) == ks);
    }
    let mut accumulator: Option<FactorKind<V>> = None;
    let ghost mut w: int = -1;
    let mut i: usize = 0;
    while i < incoming.len()
        invariant
            state.wf(),
            semiring_ok(*ops),
            *store == state.store_view(),
            i <= incoming.len(),
            edges == state.edges(),
            models == state.message_models(),
            message_indices(incoming@) == ks,
            ks == indices_where(edges, enters_variable(variable@)),
            list == messages_to_variable_except(edges, models, variable@, factor@),
            forall|k: int| 0 <= k < ks.len() ==> (#[trigger] ks[k]) < edges.len() && enters_variable(variable@)(
                edges[ks[k] as int],
            ),
            option_model(accumulator) == combine_present(list.take(i as int), ops.product),
            accumulator matches Some(a) ==> {
                &&& a.wf()
                &&& 0 <= w < i
                &&& list[w] matches Some(mw)
                &&& list[w] == models[ks[w] as int]
                &&& a@ matches FactorModel::Unary { var, data }
                &&& var == variable
                &&& data.len() == model_data(mw).len()
            },
        decreases incoming.len() - i,
    {
        let incoming_id = incoming[i];
        let ghost k = ks[i as int];
        let incoming_edge = store.edge(incoming_id);
        proof {
            assert(incoming@[i as int]@ == k);
            assert(list.take(i + 1).drop_last() =~= list.take(i as int));
            assert(list.take(i + 1).last() == list[i as int]);
            assert(edge_variable(edges[k as int]) == variable);
        }
        let source_factor = match incoming_edge.from {
            Endpoint::Factor(g) => g,
            Endpoint::Variable(_) => {
                proof {
                    assert(false);
                }
                unreached()
            },
        };
        if !source_factor.same(factor) {
            proof {
                assert(list[i as int] == models[k as int]);
            }
            match store.get(incoming_id) {
                Some(message) => {
                    let f = message.factor().clone();
                    proof {
                        assert(state.store_view().messages_view()[k as int] == Some(*message));
                        assert(models[k as int] == Some(message.factor_view()@));
                        assert(fits_edge(f@, state.factor_models(), edges[k as int]));
                    }
                    accumulator = match accumulator {
                        None => Some(f),
                        Some(a) => {
                            proof {
                                let kw = ks[w];
                                assert(edge_variable(edges[kw as int]) == variable);
                                assert(models[kw as int] matches Some(mw) && model_data(mw).len() == model_data(f@).len());
                                assert(model_card(a@) == seq![model_data(a@).len() as usize]);
                                assert(model_card(f@) == seq![model_data(f@).len() as usize]);
                            }
                            Some(a.combine(f, ops))
                        },
                    };
                    proof {
                        w = i as int;
                    }
                },
                None => {},
            }
        }
        i += 1;
    }
    proof {
        assert(list.take(incoming.len() as int) =~= list);
    }
    match accumulator {
        None => None,
        Some(a) => {
            proof {
                a.lemma_scope();
                assert(model_scope(a@) =~= seq![variable]);
                let kw = ks[w];
                let e = edges[kw as int];
                let fs = state.factor_models();
                if factors_agree(fs) {
                    state.graph_view().lemma_wf();
                    assert(edge_of(e, state.graph_view().factors_view()));
                    let g = edge_factor(e)@ as int;
                    let f = factor@ as int;
                    assert(fs[g] == state.graph_view().factors_view()[g]@);
                    assert(fs[f] == state.graph_view().factors_view()[f]@);
                    state.graph_view().factors_view()[g].lemma_scope();
                    state.graph_view().factors_view()[f].lemma_scope();
                    let sg = model_scope(fs[g]);
                    let sf = model_scope(fs[f]);
                    assert(sg.contains(variable));
                    assert(sf.contains(variable));
                    let pg = position_of(sg, variable);
                    let pf = position_of(sf, variable);
                    assert(0 <= pg < sg.len() && sg[pg] == variable);
                    assert(0 <= pf < sf.len() && sf[pf] == variable);
                    assert(model_card(fs[g])[pg] == model_card(fs[f])[pf]);
                }
            }
            match Message::try_from_factor(a) {
                Ok(m) => Some(m),
                Err(_) => {
                    proof {
                        assert(false);
                    }
                    unreached()
                },
            }
        },
    }
}

/// Computes the message from a factor to a variable.
///
/// The factor is combined with the messages that it has received from its
/// other variables, then every variable but the destination is eliminated.
pub fn factor_to_variable<S: Semiring, V: Copy, M: Fn(&V, &V) -> V, Sm: Fn(&Vec<V>) -> V, D: Fn(&V, &V) -> V>(
    state: &BeliefState<S, V>,
    message_id: MessageId,
    ops: &SemiringOps<V, M, Sm, D>,
) -> (r: Option<Message<V>>)
    requires
        state.wf(),
        message_id@ < state.edges().len(),
        state.edges()[message_id@ as int].from is Factor,
        card_in(
            state.factor_models()[edge_factor(state.edges()[message_id@ as int])@ as int],
            edge_variable(state.edges()[message_id@ as int]),
        ) > 0,
        semiring_ok(*ops),
    ensures
        option_message_model(r) == Some(
            factor_to_variable_model(
                state.factor_models()[edge_factor(state.edges()[message_id@ as int])@ as int],
                state.edges(),
                state.message_models(),
                edge_factor(state.edges()[message_id@ as int])@,
                edge_variable(state.edges()[message_id@ as int])@,
                *ops,
            ),
        ),
        r matches Some(m) ==> m.wf() && fits_edge(m.factor_view()@, state.factor_models(), state.edges()[message_id@ as int]),
{
    let store = state.messages();
    let edge = store.edge(message_id);
    let (factor, variable) = match (edge.from, edge.to) {
        (Endpoint::Factor(f), Endpoint::Variable(v)) => (f, v),
        _ => {
            proof {
                assert(false);
            }
            unreached()
        },
    };
    let ghost edges = state.edges();
    let ghost models = state.message_models();
    let ghost factors = state.graph_view().factors_view();
    let ghost ks = indices_where(edges, enters_factor(factor@));
    let ghost list = messages_to_factor_except(edges, models, factor@, variable@);
    proof {
        state.graph_view().lemma_wf();
        lemma_indices_where(edges, enters_factor(factor@));
        lemma_graph_edges(factors);
        assert(edge_of(edges[message_id@ as int], factors));
    }
    let node = match state.graph().factor(factor) {
        Some(f) => f,
        None => {
            proof {
                assert(false);
            }
            unreached()
        },
    };
    let ghost fmodel = node@;
    let ghost s0 = model_scope(fmodel);
    let ghost c0 = model_card(fmodel);
    // The length of a scope fits in a `usize`.
    let scope_len = node.scope().len();
    proof {
        assert(state.factor_models()[factor@ as int] == fmodel);
        node.lemma_scope();
        assert(s0.contains(variable));
        if let FactorModel::Dense { scope, card, data } = fmodel {
            lemma_keeps_own_shape(scope, card, data);
        }
    }
    let mut result = node.clone();
    let incoming = store.factor_in(factor);
    proof {
        assert(message_indices(incoming@) == ks);
    }
    let mut i: usize = 0;
    while i < incoming.len()
        invariant
            state.wf(),
            semiring_ok(*ops),
            *store == state.store_view(),
            i <= incoming.len(),
            edges == state.edges(),
            models == state.message_models(),
            factors == state.graph_view().factors_view(),
            factor@ < factors.len(),
            fmodel == state.factor_models()[factor@ as int],
            fmodel == factors[factor@ as int]@,
            factors[factor@ as int].wf(),
            s0 == model_scope(fmodel),
            c0 == model_card(fmodel),
            s0.len() == scope_len,
            s0.contains(variable),
            forall|j: int| 0 <= j < edges.len() ==> edge_of(#[trigger] edges[j], factors),
            message_indices(incoming@) == ks,
            ks == indices_where(edges, enters_factor(factor@)),
            list == messages_to_factor_except(edges, models, factor@, variable@),
            forall|k: int| 0 <= k < ks.len() ==> (#[trigger] ks[k]) < edges.len() && enters_factor(factor@)(
                edges[ks[k] as int],
            ),
            result.wf(),
            result@ == fold_into(fmodel, list.take(i as int), ops.product),
            fmodel is Dense ==> keeps_shape(result@, s0, c0),
            !(fmodel is Dense) ==> result@ == fmodel,
        decreases incoming.len() - i,
    {
        let incoming_id = incoming[i];
        let ghost k = ks[i as int];
        let incoming_edge = store.edge(incoming_id);
        proof {
            assert(incoming@[i as int]@ == k);
            assert(list.take(i + 1).drop_last() =~= list.take(i as int));
            assert(list.take(i + 1).last() == list[i as int]);
            assert(edge_factor(edges[k as int]) == factor);
        }
        let source_variable = match incoming_edge.from {
            Endpoint::Variable(x) => x,
            Endpoint::Factor(_) => {
                proof {
                    assert(false);
                }
                unreached()
            },
        };
        if !source_variable.same(variable) {
            proof {
                assert(list[i as int] == models[k as int]);
            }
            match store.get(incoming_id) {
                Some(message) => {
                    let f = message.factor().clone();
                    proof {
                        assert(state.store_view().messages_view()[k as int] == Some(*message));
                        assert(models[k as int] == Some(message.factor_view()@));
                        assert(fits_edge(f@, state.factor_models(), edges[k as int]));
                        assert(edge_variable(edges[k as int]) == source_variable);
                        assert(edge_of(edges[k as int], factors));
                        factors[factor@ as int].lemma_scope();
                        assert(s0.contains(source_variable));
                        if !(fmodel is Dense) {
                            assert(s0.len() <= 1);
                            let pv = choose|p: int| 0 <= p < s0.len() && s0[p] == variable;
                            let px = choose|p: int| 0 <= p < s0.len() && s0[p] == source_variable;
                            assert(false);
                        }
                        lemma_combine_in_scope(result@, s0, c0, source_variable, model_data(f@), ops.product);
                        assert(f@ == FactorModel::Unary { var: source_variable, data: model_data(f@) });
                    }
                    result = result.combine(f, ops);
                },
                None => {},
            }
        }
        i += 1;
    }
    proof {
        assert(list.take(incoming.len() as int) =~= list);
        result.lemma_scope();
    }
    let scope = result.scope();
    let ghost keep_other = |x: VariableId| x@ != variable@;
    let mut reduce_vars: Vec<VariableId> = Vec::new();
    let mut j: usize = 0;
    while j < scope.len()
        invariant
            j <= scope.len(),
            reduce_vars@ == scope@.take(j as int).filter(keep_other),
            keep_other == (|x: VariableId| x@ != variable@),
        decreases scope.len() - j,
    {
        proof {
            reveal(Seq::filter);
            assert(scope@.take(j + 1).drop_last() =~= scope@.take(j as int));
            assert(scope@.take(j + 1).last() == scope@[j as int]);
        }
        if !scope[j].same(variable) {
            reduce_vars.push(scope[j]);
        }
        j += 1;
    }
    let ghost combined = result@;
    proof {
        assert(scope@.take(scope.len() as int) =~= scope@);
        assert(reduce_vars@ == other_vars(model_scope(combined), variable@));
        assert(!reduce_vars@.contains(variable)) by {
            if reduce_vars@.contains(variable) {
                let q = choose|q: int| 0 <= q < reduce_vars@.len() && reduce_vars@[q] == variable;
                scope@.lemma_filter_pred(keep_other, q);
            }
        }
        if let FactorModel::Dense { scope: u, card: cu, .. } = combined {
            assert forall|a: int|
                0 <= a < u.len() && !reduce_vars@.contains(#[trigger] u[a]) && (forall|b: int|
                    0 <= b < u.len() && b != a ==> reduce_vars@.contains(u[b])) implies cu[a] > 0 by {
                if u[a]@ != variable@ {
                    scope@.lemma_filter_contains(keep_other, a);
                }
                assert(u[a] == variable);
                assert(cu[a] == c0[position_of(s0, variable)]);
            }
        }
    }
    let reduced = result.reduce(reduce_vars.as_slice(), ops);
    proof {
        reduced.lemma_scope();
        if let FactorKind::Unary(u) = &reduced {
            u.lemma_wf();
        }
        if combined is Dense {
            let rs = model_scope(reduced@);
            assert(model_scope(combined).contains(variable));
            assert(rs.contains(variable));
            assert forall|y: VariableId| #[trigger] rs.contains(y) implies y == variable by {
                assert(model_scope(combined).contains(y) && !reduce_vars@.contains(y));
                if y@ != variable@ {
                    let a = choose|a: int| 0 <= a < scope@.len() && scope@[a] == y;
                    scope@.lemma_filter_contains(keep_other, a);
                }
            }
            let p = choose|p: int| 0 <= p < rs.len() && rs[p] == variable;
            if rs.len() > 1 {
                let o = if p == 0 { 1int } else { 0int };
                assert(rs.contains(rs[o]));
            }
            assert(rs.len() == 1);
            assert(reduced@ is Unary);
            assert(model_card(reduced@)[0] == model_card(combined)[position_of(model_scope(combined), rs[0])]);
            let a = position_of(model_scope(combined), variable);
            assert(0 <= a < model_scope(combined).len() && model_scope(combined)[a] == variable);
            assert(model_card(combined)[a] == c0[position_of(s0, variable)]);
            assert(model_data(reduced@).len() == model_card(reduced@)[0]);
        } else {
            assert(reduce_vars@.len() == 0) by {
                if reduce_vars@.len() > 0 {
                    assert(reduce_vars@.contains(reduce_vars@[0]));
                    scope@.lemma_filter_contains_rev(keep_other, reduce_vars@[0]);
                    assert(model_scope(combined) == s0);
                    scope@.lemma_filter_pred(keep_other, 0);
                    assert(s0.len() <= 1);
                }
            }
            assert(combined == fmodel);
            assert(s0 == seq![variable]) by {
                assert(s0.len() == 1);
            }
        }
        assert(position_of(seq![variable], variable) == 0) by {
            crate::factor::dense_factor::align::lemma_position_of(seq![variable], 0);
        }
    }
    match Message::try_from_factor(reduced) {
        Ok(m) => Some(m),
        Err(_) => {
            proof {
                assert(false);
            }
            unreached()
        },
    }
}

} // verus!
