//! The state of belief propagation: a factor graph and the messages on its
//! edges.

use std::marker::PhantomData;

use vstd::prelude::*;

use crate::factor::dense_factor::align::{cards_agree, position_of};
use crate::factor::factor_kind::{combine_model, model_card, model_data, model_scope, FactorModel};
use crate::algebra::{semiring_ok, SemiringOps};
use crate::factor::{copied, distinct_vars, DiscreteFactor, Factor, FactorId, FactorKind};
use crate::factor_graph::{FactorGraph, GraphError};
use crate::layout::all_positive;
use crate::factor_graph::{adjacent_factors, factor_indices};
use crate::message::store::{
    edge_base, edge_factor, edge_of, edge_variable, enters_factor, enters_variable, factor_edges, graph_edges,
    indices_where, leaves_factor, leaves_variable, lemma_factor_lists, lemma_graph_edges, lemma_indices_where,
    lemma_adjacent_factors, lemma_slots_after_covered, lemma_variable_lists, message_indices, var_position, MessageStore,
};
use crate::message::{DirectedEdge, Endpoint, Message};
use crate::semiring::Semiring;
use crate::variable::{Variable, VariableId};

verus! {

broadcast use crate::variable::lemma_variable_id_view_injective, crate::factor::lemma_factor_id_view_injective,
    FactorId::lemma_from_index;

/// An error produced when querying an inference belief.
#[derive(Clone, Debug, PartialEq, Eq)]
pub enum BeliefError {
    UnknownVariableId(VariableId),
}

/// The model of each message slot: the factor that the message carries, if
/// one has been computed.
pub open spec fn message_models<V>(ms: Seq<Option<Message<V>>>) -> Seq<Option<FactorModel<V>>> {
    ms.map_values(
        |o: Option<Message<V>>|
            match o {
                Some(m) => Some(m.factor_view()@),
                None => None,
            },
    )
}

/// The model of an optional factor.
pub open spec fn option_model<V>(o: Option<FactorKind<V>>) -> Option<FactorModel<V>> {
    match o {
        Some(f) => Some(f@),
        None => None,
    }
}

/// The cardinality that the factor `m` gives the variable `x` of its scope.
pub open spec fn card_in<V>(m: FactorModel<V>, x: VariableId) -> usize {
    model_card(m)[position_of(model_scope(m), x)]
}

/// `m` is a unary factor over `x` with `n` values.
pub open spec fn unary_over<V>(m: FactorModel<V>, x: VariableId, n: nat) -> bool {
    m matches FactorModel::Unary { var, data } && var == x && data.len() == n
}

/// Each message is a unary factor over the variable of its edge, with one
/// value for each state that the edge's factor gives that variable.
pub open spec fn messages_fit<V>(
    factors: Seq<FactorModel<V>>,
    edges: Seq<DirectedEdge>,
    ms: Seq<Option<FactorModel<V>>>,
) -> bool {
    forall|i: int| 0 <= i < ms.len() ==> (#[trigger] ms[i] matches Some(m) ==> fits_edge(m, factors, edges[i]))
}

/// Messages about the same variable have the same number of values.
pub open spec fn messages_agree<V>(edges: Seq<DirectedEdge>, ms: Seq<Option<FactorModel<V>>>) -> bool {
    forall|i: int, j: int|
        #![trigger ms[i], ms[j]]
        0 <= i < ms.len() && 0 <= j < ms.len() && edge_variable(edges[i]) == edge_variable(edges[j]) ==> (
        ms[i] matches Some(a) ==> (ms[j] matches Some(b) ==> model_data(a).len() == model_data(b).len()))
}

/// Factors that share a variable agree on its cardinality.
pub open spec fn factors_agree<V>(factors: Seq<FactorModel<V>>) -> bool {
    forall|f: int, g: int|
        0 <= f < factors.len() && 0 <= g < factors.len() ==> cards_agree(
            model_scope(#[trigger] factors[f]),
            model_card(factors[f]),
            model_scope(#[trigger] factors[g]),
            model_card(factors[g]),
        )
}

/// Every variable of every factor has at least one state.
pub open spec fn factors_positive<V>(factors: Seq<FactorModel<V>>) -> bool {
    forall|f: int| 0 <= f < factors.len() ==> all_positive(model_card(#[trigger] factors[f]))
}

/// `m` is a unary factor over the variable of the edge `e`, with one value
/// for each state that the edge's factor gives that variable.
pub open spec fn fits_edge<V>(m: FactorModel<V>, factors: Seq<FactorModel<V>>, e: DirectedEdge) -> bool {
    unary_over(m, edge_variable(e), card_in(factors[edge_factor(e)@ as int], edge_variable(e)) as nat)
}

/// The combination, in order, of the factors that are present among `ms`;
/// `None` where none is.
pub open spec fn combine_present<V, M: Fn(&V, &V) -> V>(ms: Seq<Option<FactorModel<V>>>, product: M) -> Option<
    FactorModel<V>,
>
    decreases ms.len(),
{
    if ms.len() == 0 {
        None
    } else {
        let acc = combine_present(ms.drop_last(), product);
        match ms.last() {
            None => acc,
            Some(m) => match acc {
                None => Some(m),
                Some(a) => Some(combine_model(a, m, product)),
            },
        }
    }
}

/// Combining the present factors of a sequence extended by one entry: an
/// absent entry changes nothing, and a present one is combined with the
/// combination of every present factor before it (or stands alone where
/// there is none).
pub proof fn lemma_combine_present_push<V, M: Fn(&V, &V) -> V>(
    ms: Seq<Option<FactorModel<V>>>,
    m: Option<FactorModel<V>>,
    product: M,
)
    ensures
        combine_present(Seq::<Option<FactorModel<V>>>::empty(), product) is None,
        combine_present(ms.push(m), product) == match m {
            None => combine_present(ms, product),
            Some(x) => match combine_present(ms, product) {
                None => Some(x),
                Some(a) => Some(combine_model(a, x, product)),
            },
        },
{
    assert(ms.push(m).drop_last() =~= ms);
}

/// The combination of the present factors is absent exactly when no factor is
/// present.
pub proof fn lemma_combine_present_none<V, M: Fn(&V, &V) -> V>(ms: Seq<Option<FactorModel<V>>>, product: M)
    ensures
        combine_present(ms, product) is None <==> forall|k: int| 0 <= k < ms.len() ==> #[trigger] ms[k] is None,
    decreases ms.len(),
{
    if ms.len() > 0 {
        let d = ms.drop_last();
        lemma_combine_present_none(d, product);
        if combine_present(d, product) is None {
            assert forall|k: int| 0 <= k < d.len() implies #[trigger] ms[k] is None by {
                assert(d[k] == ms[k]);
            }
        } else {
            let k = choose|k: int| 0 <= k < d.len() && !(#[trigger] d[k] is None);
            assert(ms[k] == d[k]);
        }
    }
}

/// The messages on the edges that enter the variable with index `v`, in the
/// order of the edges.
pub open spec fn incoming_messages<V>(edges: Seq<DirectedEdge>, ms: Seq<Option<FactorModel<V>>>, v: nat) -> Seq<
    Option<FactorModel<V>>,
> {
    indices_where(edges, enters_variable(v)).map_values(|k: nat| ms[k as int])
}

/// The belief of the variable with index `v`: the combination of the
/// messages that it has received.
pub open spec fn belief_model<V, M: Fn(&V, &V) -> V>(
    edges: Seq<DirectedEdge>,
    ms: Seq<Option<FactorModel<V>>>,
    v: nat,
    product: M,
) -> Option<FactorModel<V>> {
    combine_present(incoming_messages(edges, ms, v), product)
}

/// Where factors agree on the cardinality of each variable, messages that fit
/// the edges of a graph agree.
pub proof fn lemma_fit_agree<V>(
    factors: Seq<FactorKind<V>>,
    edges: Seq<DirectedEdge>,
    ms: Seq<Option<FactorModel<V>>>,
)
    requires
        forall|f: int| 0 <= f < factors.len() ==> (#[trigger] factors[f]).wf(),
        forall|i: int| 0 <= i < edges.len() ==> edge_of(#[trigger] edges[i], factors),
        ms.len() == edges.len(),
        messages_fit(factors.map_values(|f: FactorKind<V>| f@), edges, ms),
        factors_agree(factors.map_values(|f: FactorKind<V>| f@)),
    ensures
        messages_agree(edges, ms),
{
    let fs = factors.map_values(|f: FactorKind<V>| f@);
    assert forall|i: int, j: int|
        0 <= i < ms.len() && 0 <= j < ms.len() && edge_variable(edges[i]) == edge_variable(edges[j]) implies (
        #[trigger] ms[i] matches Some(a) ==> (#[trigger] ms[j] matches Some(b) ==> model_data(a).len() == model_data(
            b,
        ).len())) by {
        if let Some(a) = ms[i] {
            if let Some(b) = ms[j] {
                let x = edge_variable(edges[i]);
                assert(edge_of(edges[i], factors));
                assert(edge_of(edges[j], factors));
                let fi = edge_factor(edges[i])@ as int;
                let fj = edge_factor(edges[j])@ as int;
                factors[fi].lemma_scope();
                factors[fj].lemma_scope();
                assert(fs[fi] == factors[fi]@);
                assert(fs[fj] == factors[fj]@);
                let si = model_scope(fs[fi]);
                let sj = model_scope(fs[fj]);
                let pi = position_of(si, x);
                let pj = position_of(sj, x);
                assert(si.contains(x));
                assert(sj.contains(x));
                assert(0 <= pi < si.len() && si[pi] == x);
                assert(0 <= pj < sj.len() && sj[pj] == x);
                assert(cards_agree(si, model_card(fs[fi]), sj, model_card(fs[fj])));
                assert(model_card(fs[fi])[pi] == model_card(fs[fj])[pj]);
                assert(fits_edge(a, fs, edges[i]));
                assert(fits_edge(b, fs, edges[j]));
            }
        }
    }
}

/// The inference state of belief propagation under the semiring `S`: a factor
/// graph and one message slot for each direction of each of its edges.
pub struct BeliefState<S, V> {
    graph: FactorGraph<V>,
    messages: MessageStore<V>,
    semiring: PhantomData<S>,
}

impl<S: Semiring, V> BeliefState<S, V> {
    /// The factor graph of the state.
    pub closed spec fn graph_view(&self) -> FactorGraph<V> {
        self.graph
    }

    /// The message store of the state.
    pub closed spec fn store_view(&self) -> MessageStore<V> {
        self.messages
    }

    /// The models of the graph's factors, in the order they were added.
    pub open spec fn factor_models(&self) -> Seq<FactorModel<V>> {
        self.graph_view().factors_view().map_values(|f: FactorKind<V>| f@)
    }

    /// The directed edges of the state, by message index.
    pub open spec fn edges(&self) -> Seq<DirectedEdge> {
        self.store_view().edges_view()
    }

    /// The models of the messages, by message index.
    pub open spec fn message_models(&self) -> Seq<Option<FactorModel<V>>> {
        message_models(self.store_view().messages_view())
    }

    /// The store holds one message slot for each direction of each edge of
    /// the graph, factor by factor, and each message is a unary factor over
    /// its edge's variable that fits the edge's factor; messages about one
    /// variable have the same number of values.
    pub open spec fn wf(&self) -> bool {
        &&& self.graph_view().wf()
        &&& self.store_view().wf()
        &&& self.edges() == graph_edges(self.graph_view().factors_view())
        &&& self.store_view().variable_slots() == self.graph_view().variables_view().len()
        &&& self.store_view().factor_slots() == self.graph_view().factors_view().len()
        &&& messages_fit(self.factor_models(), self.edges(), self.message_models())
        &&& messages_agree(self.edges(), self.message_models())
    }

    /// The messages of a factor follow its scope: the message at position
    /// `i` of the messages entering (leaving) the factor with index `f` is on
    /// the edge from (to) the variable at position `i` of its scope.
    pub proof fn lemma_factor_adjacency(&self, f: int)
        requires
            self.wf(),
            0 <= f < self.graph_view().factors_view().len(),
        ensures
            ({
                let sc = self.graph_view().factors_view()[f].scope_view();
                let fin = self.store_view().factor_in_view(f as nat);
                let fout = self.store_view().factor_out_view(f as nat);
                &&& fin.len() == sc.len()
                &&& fout.len() == sc.len()
                &&& forall|i: int| 0 <= i < sc.len() ==> self.edges()[(#[trigger] fin[i])@ as int]
                    == DirectedEdge::spec_variable_to_factor(sc[i], FactorId::from_index(f as nat))
                &&& forall|i: int| 0 <= i < sc.len() ==> self.edges()[(#[trigger] fout[i])@ as int]
                    == DirectedEdge::spec_factor_to_variable(FactorId::from_index(f as nat), sc[i])
            }),
    {
        let fs = self.graph_view().factors_view();
        let sc = fs[f].scope_view();
        let fin = self.store_view().factor_in_view(f as nat);
        let fout = self.store_view().factor_out_view(f as nat);
        let fe = factor_edges(FactorId::from_index(f as nat), sc);
        let base = edge_base(fs, f as nat);
        self.graph_view().lemma_wf();
        lemma_factor_lists(fs, f as nat);
        assert(message_indices(fin) == indices_where(self.edges(), enters_factor(f as nat)));
        assert(message_indices(fout) == indices_where(self.edges(), leaves_factor(f as nat)));
        assert forall|i: int| 0 <= i < sc.len() implies self.edges()[(#[trigger] fin[i])@ as int]
            == DirectedEdge::spec_variable_to_factor(sc[i], FactorId::from_index(f as nat)) by {
            assert(message_indices(fin)[i] == fin[i]@);
            assert(self.edges()[base + 2 * i] == fe[2 * i]);
            assert((2 * i) / 2 == i && (2 * i) % 2 == 0) by (nonlinear_arith);
        }
        assert forall|i: int| 0 <= i < sc.len() implies self.edges()[(#[trigger] fout[i])@ as int]
            == DirectedEdge::spec_factor_to_variable(FactorId::from_index(f as nat), sc[i]) by {
            assert(message_indices(fout)[i] == fout[i]@);
            assert(self.edges()[base + (2 * i + 1)] == fe[2 * i + 1]);
            assert((2 * i + 1) / 2 == i && (2 * i + 1) % 2 == 1) by (nonlinear_arith);
        }
    }

    /// The messages of a variable follow its adjacency list: the message at
    /// position `i` of the messages leaving (entering) the variable with index
    /// `v` is on the edge to (from) the factor at position `i` of the factors
    /// that the graph lists for it.
    pub proof fn lemma_variable_adjacency(&self, v: int)
        requires
            self.wf(),
            0 <= v < self.graph_view().variables_view().len(),
        ensures
            ({
                let adj = self.graph_view().adjacency_view(v);
                let vout = self.store_view().variable_out_view(v as nat);
                let vin = self.store_view().variable_in_view(v as nat);
                &&& vout.len() == adj.len()
                &&& vin.len() == adj.len()
                &&& forall|i: int| 0 <= i < adj.len() ==> ({
                    let e = self.edges()[(#[trigger] vout[i])@ as int];
                    e.from is Variable && edge_variable(e)@ == v && e.to == Endpoint::Factor(adj[i])
                })
                &&& forall|i: int| 0 <= i < adj.len() ==> ({
                    let e = self.edges()[(#[trigger] vin[i])@ as int];
                    e.to is Variable && edge_variable(e)@ == v && e.from == Endpoint::Factor(adj[i])
                })
            }),
    {
        let fs = self.graph_view().factors_view();
        let adj = self.graph_view().adjacency_view(v);
        let vout = self.store_view().variable_out_view(v as nat);
        let vin = self.store_view().variable_in_view(v as nat);
        self.graph_view().lemma_wf();
        assert forall|f: int| 0 <= f < fs.len() implies distinct_vars(#[trigger] fs[f].scope_view()) by {
            fs[f].lemma_scope();
        }
        lemma_variable_lists(fs, v as nat);
        let nadj = factor_indices(adj);
        assert(nadj == adjacent_factors(fs, v as nat));
        lemma_adjacent_factors(fs, v as nat);
        assert(message_indices(vout) == indices_where(self.edges(), leaves_variable(v as nat)));
        assert(message_indices(vin) == indices_where(self.edges(), enters_variable(v as nat)));
        assert forall|i: int| 0 <= i < adj.len() implies ({
            let e = self.edges()[(#[trigger] vout[i])@ as int];
            e.from is Variable && edge_variable(e)@ == v && e.to == Endpoint::Factor(adj[i])
        }) by {
            self.lemma_variable_adjacency_at(v, i);
        }
        assert forall|i: int| 0 <= i < adj.len() implies ({
            let e = self.edges()[(#[trigger] vin[i])@ as int];
            e.to is Variable && edge_variable(e)@ == v && e.from == Endpoint::Factor(adj[i])
        }) by {
            self.lemma_variable_adjacency_at(v, i);
        }
        assert(message_indices(vout).len() == vout.len());
        assert(message_indices(vin).len() == vin.len());
        assert(nadj.len() == adj.len());
    }

    /// The two messages of the variable with index `v` at position `i` of its
    /// adjacency list.
    proof fn lemma_variable_adjacency_at(&self, v: int, i: int)
        requires
            self.wf(),
            0 <= v < self.graph_view().variables_view().len(),
            0 <= i < self.graph_view().adjacency_view(v).len(),
        ensures
            ({
                let adj = self.graph_view().adjacency_view(v);
                let e = self.edges()[self.store_view().variable_out_view(v as nat)[i]@ as int];
                e.from is Variable && edge_variable(e)@ == v && e.to == Endpoint::Factor(adj[i])
            }),
            ({
                let adj = self.graph_view().adjacency_view(v);
                let e = self.edges()[self.store_view().variable_in_view(v as nat)[i]@ as int];
                e.to is Variable && edge_variable(e)@ == v && e.from == Endpoint::Factor(adj[i])
            }),
    {
        let fs = self.graph_view().factors_view();
        let adj = self.graph_view().adjacency_view(v);
        let vout = self.store_view().variable_out_view(v as nat);
        let vin = self.store_view().variable_in_view(v as nat);
        self.graph_view().lemma_wf();
        assert forall|f: int| 0 <= f < fs.len() implies distinct_vars(#[trigger] fs[f].scope_view()) by {
            fs[f].lemma_scope();
        }
        lemma_variable_lists(fs, v as nat);
        let nadj = factor_indices(adj);
        assert(nadj == adjacent_factors(fs, v as nat));
        lemma_adjacent_factors(fs, v as nat);
        assert(message_indices(vout) == indices_where(self.edges(), leaves_variable(v as nat)));
        assert(message_indices(vin) == indices_where(self.edges(), enters_variable(v as nat)));
        let g = nadj[i];
        assert(g == adj[i]@);
        assert(nadj.contains(g));
        let sc = fs[g as int].scope_view();
        let p = var_position(sc, v as nat);
        assert(0 <= p < sc.len() && sc[p]@ == v);
        lemma_factor_lists(fs, g);
        let fe = factor_edges(FactorId::from_index(g), sc);
        let base = edge_base(fs, g);
        assert(message_indices(vout)[i] == vout[i]@);
        assert(message_indices(vin)[i] == vin[i]@);
        assert(vout[i]@ == base + 2 * p);
        assert(vin[i]@ == base + 2 * p + 1);
        assert(self.edges()[base + 2 * p] == fe[2 * p]);
        assert(self.edges()[base + (2 * p + 1)] == fe[2 * p + 1]);
        assert((2 * p) / 2 == p && (2 * p) % 2 == 0 && (2 * p + 1) / 2 == p && (2 * p + 1) % 2 == 1) by (nonlinear_arith);
        assert(FactorId::from_index(g) == adj[i]);
    }

    /// Creates a belief state from an existing factor graph, with no message
    /// computed yet.
    pub fn from_graph(graph: FactorGraph<V>) -> (s: Self)
        requires
            graph.wf(),
            graph_edges(graph.factors_view()).len() + 1 < usize::MAX,
        ensures
            s.wf(),
            s.graph_view() == graph,
            s.message_models() == Seq::new(s.edges().len(), |i: int| None::<FactorModel<V>>),
    {
        let messages = MessageStore::from_graph(&graph);
        let s = BeliefState { graph, messages, semiring: PhantomData };
        assert(s.message_models() =~= Seq::new(s.edges().len(), |i: int| None::<FactorModel<V>>));
        s
    }

    /// Extends the inference state with a new variable.
    ///
    /// Unlike [`FactorGraph::add_variable`], this updates both the underlying
    /// factor graph and the associated message state.
    ///
    /// # Errors
    ///
    /// Returns [`GraphError::DuplicateVariableName`] if the graph already has
    /// a variable with the same name; the state is then unchanged.
    pub fn extend(&mut self, variable: Variable) -> (r: Result<VariableId, GraphError>)
        requires
            old(self).wf(),
        ensures
            final(self).wf(),
            final(self).graph_view().factors_view() == old(self).graph_view().factors_view(),
            final(self).edges() == old(self).edges(),
            final(self).store_view().messages_view() == old(self).store_view().messages_view(),
            (exists|i: int| 0 <= i < old(self).graph_view().variables_view().len()
                && (#[trigger] old(self).graph_view().variables_view()[i]).name_view() == variable.name_view())
                <==> r is Err,
            r matches Err(e) ==> e matches GraphError::DuplicateVariableName(n) && n@ == variable.name_view()
                && final(self).graph_view().variables_view() == old(self).graph_view().variables_view(),
            r matches Ok(id) ==> id@ == old(self).graph_view().variables_view().len()
                && final(self).graph_view().variables_view() == old(self).graph_view().variables_view().push(variable),
    {
        match self.graph.add_variable(variable) {
            Ok(variable_id) => {
                // The number of variables fits in a `usize`.
                let _variable_count = self.graph.num_variables();
                self.messages.add_variable(variable_id);
                Ok(variable_id)
            },
            Err(e) => Err(e),
        }
    }

    /// Applies a new factor to the inference state.
    ///
    /// Unlike [`FactorGraph::add_factor`], this updates both the underlying
    /// factor graph and the associated message state while preserving existing
    /// messages: the factor's message slots, one in each direction for each
    /// variable of its scope, are appended empty.
    ///
    /// # Errors
    ///
    /// Returns [`GraphError::UnknownVariableId`] with the first variable of the
    /// factor's scope that does not belong to the graph; the state is then
    /// unchanged.
    pub fn apply(&mut self, factor: FactorKind<V>) -> (r: Result<FactorId, GraphError>)
        requires
            old(self).wf(),
            factor.wf(),
            old(self).graph_view().factors_view().len() < usize::MAX,
            old(self).edges().len() + 2 * factor.scope_view().len() + 1 < usize::MAX,
        ensures
            final(self).wf(),
            final(self).graph_view().variables_view() == old(self).graph_view().variables_view(),
            (exists|a: int| 0 <= a < factor.scope_view().len() && (#[trigger] factor.scope_view()[a])@
                >= old(self).graph_view().variables_view().len()) <==> r is Err,
            r matches Err(e) ==> final(self).graph_view().factors_view() == old(self).graph_view().factors_view()
                && final(self).edges() == old(self).edges()
                && final(self).store_view().messages_view() == old(self).store_view().messages_view()
                && exists|a: int|
                0 <= a < factor.scope_view().len() && e == GraphError::UnknownVariableId(factor.scope_view()[a])
                && factor.scope_view()[a]@ >= old(self).graph_view().variables_view().len()
                && forall|b: int| 0 <= b < a ==> (#[trigger] factor.scope_view()[b])@ < old(self).graph_view().variables_view().len(),
            r matches Ok(id) ==> id@ == old(self).graph_view().factors_view().len()
                && final(self).graph_view().factors_view() == old(self).graph_view().factors_view().push(factor)
                && final(self).edges() == old(self).edges() + factor_edges(id, factor.scope_view())
                && final(self).store_view().messages_view() == old(self).store_view().messages_view() + Seq::new(
                2 * factor.scope_view().len(),
                |i: int| None::<Message<V>>,
            ),
    {
        let scope = copied(factor.scope());
        let ghost old_factors = self.graph.factors_view();
        match self.graph.add_factor(factor) {
            Ok(factor_id) => {
                // The number of variables fits in a `usize`.
                let _variable_count = self.graph.num_variables();
                proof {
                    self.graph.lemma_wf();
                    let fs = self.graph.factors_view();
                    assert(fs.drop_last() =~= old_factors);
                    assert(fs.last() == factor);
                    assert(FactorId::from_index((fs.len() - 1) as nat) == factor_id);
                    assert forall|a: int| 0 <= a < scope@.len() implies (#[trigger] scope@[a])@ < usize::MAX by {
                        assert(fs[fs.len() - 1] == factor);
                    }
                    assert forall|a: int| 0 <= a < scope@.len() implies (#[trigger] scope@[a])@
                        < self.messages.variable_slots() by {
                        assert(fs[fs.len() - 1] == factor);
                    }
                    lemma_slots_after_covered(self.messages.variable_slots(), scope@);
                }
                self.messages.add_factor(factor_id, scope.as_slice());
                proof {
                    let fs = self.graph.factors_view();
                    lemma_graph_edges(old_factors);
                    let ms = self.message_models();
                    let om = old(self).message_models();
                    let oe = old(self).edges();
                    assert forall|i: int| 0 <= i < ms.len() implies (#[trigger] ms[i] matches Some(m) ==> fits_edge(
                        m,
                        self.factor_models(),
                        self.edges()[i],
                    )) by {
                        if i < om.len() {
                            assert(ms[i] == om[i]);
                            assert(self.edges()[i] == oe[i]);
                            assert(edge_of(oe[i], old_factors));
                            assert(self.factor_models()[edge_factor(oe[i])@ as int] == old(self).factor_models()[edge_factor(oe[i])@ as int]);
                        }
                    }
                    assert forall|i: int, j: int|
                        0 <= i < ms.len() && 0 <= j < ms.len() && edge_variable(self.edges()[i]) == edge_variable(self.edges()[j])
                        implies (#[trigger] ms[i] matches Some(a) ==> (#[trigger] ms[j] matches Some(b) ==> model_data(a).len()
                        == model_data(b).len())) by {
                        if i < om.len() && j < om.len() {
                            assert(ms[i] == om[i]);
                            assert(ms[j] == om[j]);
                            assert(self.edges()[i] == oe[i]);
                            assert(self.edges()[j] == oe[j]);
                        }
                    }
                }
                Ok(factor_id)
            },
            Err(e) => Err(e),
        }
    }

    /// Whether inference can proceed on this state: factors that share a
    /// variable agree on its number of states, and every variable of every
    /// factor has at least one state.
    #[verifier::loop_isolation(false)]
    pub fn cardinalities_consistent(&self) -> (b: bool)
        requires
            self.wf(),
        ensures
            b == (factors_agree(self.factor_models()) && factors_positive(self.factor_models())),
    {
        let nodes = self.graph.factors();
        let ghost fs = self.factor_models();
        proof {
            self.graph.lemma_wf();
        }
        let n = nodes.len();
        assert forall|i: int| 0 <= i < n implies (#[trigger] nodes@[i]).factor_view()@ == fs[i]
            && nodes@[i].factor_view().wf() by {
            assert(nodes@[i].factor_view() == self.graph.factors_view()[i]);
        }
        let mut f: usize = 0;
        while f < n
            invariant
                f <= n,
                forall|i: int| 0 <= i < f ==> all_positive(model_card(#[trigger] fs[i])),
                forall|i: int, j: int|
                    0 <= i < f && 0 <= j < n ==> cards_agree(
                        model_scope(#[trigger] fs[i]),
                        model_card(fs[i]),
                        model_scope(#[trigger] fs[j]),
                        model_card(fs[j]),
                    ),
            decreases n - f,
        {
            let ff = nodes[f].factor();
            proof {
                ff.lemma_scope();
            }
            let sf = ff.scope();
            let cf = ff.card();
            let mut a: usize = 0;
            while a < cf.len()
                invariant
                    a <= cf.len(),
                    forall|k: int| 0 <= k < a ==> cf@[k] > 0,
                decreases cf.len() - a,
            {
                if cf[a] == 0 {
                    proof {
                        assert(!all_positive(model_card(fs[f as int])));
                    }
                    return false;
                }
                a += 1;
            }
            let mut g: usize = 0;
            while g < n
                invariant
                    g <= n,
                    all_positive(model_card(fs[f as int])),
                    forall|j: int|
                        0 <= j < g ==> cards_agree(
                            model_scope(fs[f as int]),
                            model_card(fs[f as int]),
                            model_scope(#[trigger] fs[j]),
                            model_card(fs[j]),
                        ),
                decreases n - g,
            {
                let fg = nodes[g].factor();
                proof {
                    fg.lemma_scope();
                }
                let sg = fg.scope();
                let cg = fg.card();
                let mut x: usize = 0;
                while x < sf.len()
                    invariant
                        x <= sf.len(),
                        forall|p: int, q: int|
                            0 <= p < x && 0 <= q < sg@.len() && #[trigger] sf@[p] == #[trigger] sg@[q] ==> cf@[p] == cg@[q],
                    decreases sf.len() - x,
                {
                    let mut y: usize = 0;
                    while y < sg.len()
                        invariant
                            y <= sg.len(),
                            forall|q: int| 0 <= q < y && sf@[x as int] == #[trigger] sg@[q] ==> cf@[x as int] == cg@[q],
                        decreases sg.len() - y,
                    {
                        if sf[x].same(sg[y]) && cf[x] != cg[y] {
                            proof {
                                assert(!cards_agree(
                                    model_scope(fs[f as int]),
                                    model_card(fs[f as int]),
                                    model_scope(fs[g as int]),
                                    model_card(fs[g as int]),
                                ));
                            }
                            return false;
                        }
                        y += 1;
                    }
                    x += 1;
                }
                g += 1;
            }
            f += 1;
        }
        true
    }

    /// Returns the factor graph associated with this belief state.
    pub fn graph(&self) -> (g: &FactorGraph<V>)
        ensures
            *g == self.graph_view(),
    {
        &self.graph
    }

    /// Returns the message store of this belief state.
    pub fn messages(&self) -> (m: &MessageStore<V>)
        ensures
            *m == self.store_view(),
    {
        &self.messages
    }

    /// Returns the message store of this belief state for modification.
    pub fn messages_mut(&mut self) -> (m: &mut MessageStore<V>)
        ensures
            *m == old(self).store_view(),
            final(self).graph_view() == old(self).graph_view(),
            final(self).store_view() == *final(m),
    {
        &mut self.messages
    }
}

impl<S: Semiring, V: Copy> BeliefState<S, V> {
    /// Returns the current raw belief for a variable: the combination, in
    /// the order of the variable's incoming edges, of the messages that it
    /// has received.
    ///
    /// The returned factor, when present, has scope exactly `[variable]`.
    ///
    /// Returns `Ok(None)` when the variable is valid but has no concrete
    /// incoming messages.
    ///
    /// # Errors
    ///
    /// Returns [`BeliefError::UnknownVariableId`] if the variable does not
    /// belong to the graph.
    pub fn belief<M: Fn(&V, &V) -> V, Sm: Fn(&Vec<V>) -> V, D: Fn(&V, &V) -> V>(
        &self,
        variable: VariableId,
        ops: &SemiringOps<V, M, Sm, D>,
    ) -> (r: Result<Option<FactorKind<V>>, BeliefError>)
        requires
            self.wf(),
            semiring_ok(*ops),
        ensures
            r is Err <==> variable@ >= self.graph_view().variables_view().len(),
            r matches Err(e) ==> e == BeliefError::UnknownVariableId(variable),
            r matches Ok(b) ==> option_model(b) == belief_model(
                self.edges(),
                self.message_models(),
                variable@,
                ops.product,
            ),
            r matches Ok(Some(f)) ==> f.wf() && f.scope_view() == seq![variable],
            r matches Ok(b) ==> (b is None <==> forall|k: int|
                0 <= k < incoming_messages(self.edges(), self.message_models(), variable@).len()
                    ==> #[trigger] incoming_messages(self.edges(), self.message_models(), variable@)[k] is None),
    {
        proof {
            lemma_combine_present_none(incoming_messages(self.edges(), self.message_models(), variable@), ops.product);
        }
        if self.graph.variable(variable).is_none() {
            return Err(BeliefError::UnknownVariableId(variable));
        }
        let ids = self.messages.variable_in(variable);
        let ghost edges = self.edges();
        let ghost models = self.message_models();
        let ghost ks = indices_where(edges, enters_variable(variable@));
        let ghost list = incoming_messages(edges, models, variable@);
        proof {
            lemma_indices_where(edges, enters_variable(variable@));
            assert(message_indices(ids@) == ks);
        }
        let mut accumulator: Option<FactorKind<V>> = None;
        let ghost mut w: int = -1;
        let mut i: usize = 0;
        while i < ids.len()
            invariant
                self.wf(),
                semiring_ok(*ops),
                i <= ids.len(),
                edges == self.edges(),
                models == self.message_models(),
                message_indices(ids@) == ks,
                ks == indices_where(edges, enters_variable(variable@)),
                list == incoming_messages(edges, models, variable@),
                forall|k: int| 0 <= k < ks.len() ==> (#[trigger] ks[k]) < edges.len() && enters_variable(variable@)(
                    edges[ks[k] as int],
                ),
                option_model(accumulator) == combine_present(list.take(i as int), ops.product),
                accumulator matches Some(f) ==> {
                    &&& f.wf()
                    &&& 0 <= w < i
                    &&& list[w] matches Some(m)
                    &&& f@ matches FactorModel::Unary { var, data }
                    &&& var == variable
                    &&& data.len() == model_data(m).len()
                },
            decreases ids.len() - i,
        {
            let id = ids[i];
            let ghost k = ks[i as int];
            proof {
                assert(ids@[i as int]@ == k);
                assert(list[i as int] == models[k as int]);
                assert(list.take(i + 1).drop_last() =~= list.take(i as int));
                assert(list.take(i + 1).last() == list[i as int]);
            }
            match self.messages.get(id) {
                Some(message) => {
                    let f = message.factor().clone();
                    proof {
                        let e = edges[k as int];
                        assert(self.store_view().messages_view()[k as int] == Some(*message));
                        assert(models[k as int] == Some(message.factor_view()@));
                        assert(edge_variable(e) == variable);
                        assert(unary_over(f@, variable, card_in(self.factor_models()[edge_factor(e)@ as int], variable) as nat));
                    }
                    accumulator = match accumulator {
                        None => Some(f),
                        Some(a) => {
                            proof {
                                let kw = ks[w];
                                assert(edge_variable(edges[kw as int]) == variable);
                                assert(list[w] == models[kw as int]);
                                assert(models[kw as int] matches Some(mw) && model_data(mw).len() == model_data(f@).len());
                                assert(model_card(a@) == seq![model_data(a@).len() as usize]);
                                assert(model_card(f@) == seq![model_data(f@).len() as usize]);
                            }
                            Some(a.combine(f, ops))
                        },
                    };
                    proof {
                        w = i as int;
                    }
                },
                None => {},
            }
            i += 1;
        }
        proof {
            assert(list.take(ids.len() as int) =~= list);
            if let Some(f) = &accumulator {
                f.lemma_scope();
                assert(model_scope(f@) =~= seq![variable]);
            }
        }
        Ok(accumulator)
    }
}

} // verus!
