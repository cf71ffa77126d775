use loopy::algebra::{ResidualOps, SemiringOps};
use loopy::belief_state::{BeliefError, BeliefState};
use loopy::factor::{DenseFactor, FactorKind, UnaryFactor};
use loopy::factor::{DiscreteFactor, Factor, FactorId, ScalarFactor};
use loopy::factor_graph::GraphError;
use loopy::message::{DirectedEdge, Endpoint, Message, MessageStore};
use loopy::schedule::updates::compute_message;
use loopy::schedule::{stop_after, RunOptions, RunResult, Schedule, Synchronous};
use loopy::factor_graph::FactorGraph;
use loopy::{LogMaxProduct, LogSumProduct, Variable, VariableId};

type Ops = SemiringOps<f64, fn(&f64, &f64) -> f64, fn(&Vec<f64>) -> f64, fn(&f64, &f64) -> f64>;

type Residual = ResidualOps<f64, fn(&Vec<f64>, &Vec<f64>) -> f64, fn(&f64, &f64) -> f64, fn(&f64, &f64) -> bool>;

fn add_values(a: &f64, b: &f64) -> f64 {
    a + b
}

fn sub_values(a: &f64, b: &f64) -> f64 {
    a - b
}

fn log_sum_exp(block: &Vec<f64>) -> f64 {
    let max = block.iter().copied().fold(f64::NEG_INFINITY, f64::max);
    if max == f64::NEG_INFINITY {
        return max;
    }
    max + block.iter().map(|x| (x - max).exp()).sum::<f64>().ln()
}

fn max_value(block: &Vec<f64>) -> f64 {
    block.iter().copied().fold(f64::NEG_INFINITY, f64::max)
}

fn log_sum_product() -> Ops {
    SemiringOps { product: add_values, sum: log_sum_exp, quotient: sub_values, unit: 0.0 }
}

#[allow(dead_code)]
fn log_max_product() -> Ops {
    SemiringOps { product: add_values, sum: max_value, quotient: sub_values, unit: 0.0 }
}

fn max_abs_difference(a: &Vec<f64>, b: &Vec<f64>) -> f64 {
    a.iter().zip(b.iter()).map(|(x, y)| (x - y).abs()).fold(0.0, f64::max)
}

fn larger(a: &f64, b: &f64) -> f64 {
    a.max(*b)
}

fn at_most(a: &f64, b: &f64) -> bool {
    a <= b
}

#[allow(dead_code)]
fn residuals() -> Residual {
    ResidualOps { dist: max_abs_difference, max: larger, within: at_most, zero: 0.0, unbounded: f64::INFINITY }
}

#[allow(dead_code)]
fn ln(x: &f64) -> f64 {
    x.ln()
}

fn binary_variable(name: &str) -> Variable {
    Variable::discrete(name, &["0", "1"])
}


fn chain() -> (FactorGraph<f64>, VariableId, VariableId, FactorId, FactorId) {
    let mut graph = FactorGraph::new();
    let x = graph.add_variable(binary_variable("x")).unwrap();
    let y = graph.add_variable(binary_variable("y")).unwrap();
    let f = graph.add_factor(UnaryFactor::from_linear(x, vec![0.8, 0.2], &ln).into()).unwrap();
    let g = graph.add_factor(DenseFactor::from_linear(vec![x, y], vec![2, 2], vec![0.9, 0.1, 0.2, 0.8], &ln).into()).unwrap();
    (graph, x, y, f, g)
}

#[test]
fn step_computes_every_message_from_the_previous_state() {
    let (graph, x, _y, f, g) = chain();
    let mut state = BeliefState::<LogSumProduct, f64>::from_graph(graph);
    let mut schedule = Synchronous::new();
    let ops = log_sum_product();

    schedule.step(&mut state, &ops, &residuals());

    // Recompute each message from a copy of the state after one step, then
    // take a second step: the second step holds exactly those messages,
    // normalized.
    let expected: Vec<Option<Vec<f64>>> = (0..state.messages().len())
        .map(|i| {
            let id = loopy::message::MessageId::new(i);
            compute_message(&state, id, &ops).map(|m| {
                let FactorKind::Unary(u) = m.into_factor().normalize(&ops) else {
                    panic!("expected unary message");
                };
                u.data().to_vec()
            })
        })
        .collect();

    schedule.step(&mut state, &ops, &residuals());

    for (i, expected) in expected.iter().enumerate() {
        let id = loopy::message::MessageId::new(i);
        let stored = state.messages().get(id).map(|m| match m.factor() {
            FactorKind::Unary(u) => u.data().to_vec(),
            _ => panic!("expected unary message"),
        });
        assert_eq!(&stored, expected);
    }

    // The messages of the unary factor and of the dense factor sit in the
    // order of their scopes.
    assert_eq!(state.messages().edge(state.messages().factor_out(f)[0]), DirectedEdge::factor_to_variable(f, x));
    assert_eq!(state.messages().edge(state.messages().factor_in(g)[0]), DirectedEdge::variable_to_factor(x, g));
}

#[test]
fn first_step_reports_unbounded_residual_then_finite() {
    let (graph, _x, _y, _f, _g) = chain();
    let mut state = BeliefState::<LogSumProduct, f64>::from_graph(graph);
    let mut schedule = Synchronous::new();

    let first = schedule.step(&mut state, &log_sum_product(), &residuals());
    assert!(first.is_infinite());

    let _second = schedule.step(&mut state, &log_sum_product(), &residuals());
    let third = schedule.step(&mut state, &log_sum_product(), &residuals());
    let fourth = schedule.step(&mut state, &log_sum_product(), &residuals());
    assert!(third.is_finite());
    assert!(fourth <= 1e-12);
}

#[test]
fn run_with_no_iterations_reports_unbounded_residual() {
    let (graph, _x, _y, _f, _g) = chain();
    let mut state = BeliefState::<LogSumProduct, f64>::from_graph(graph);
    let mut schedule = Synchronous::new();

    let result = schedule.run(
        &mut state,
        RunOptions { max_iterations: 0, tolerance: 1e-10 },
        &log_sum_product(),
        &residuals(),
    );

    assert_eq!(result.iterations, 0);
    assert!(!result.converged);
    assert!(result.residual.is_infinite());
    assert!((0..state.messages().len()).all(|i| state.messages().get(loopy::message::MessageId::new(i)).is_none()));
}

#[test]
fn run_on_a_tree_converges_within_the_limit() {
    let (graph, _x, y, _f, _g) = chain();
    let mut state = BeliefState::<LogMaxProduct, f64>::from_graph(graph);
    let mut schedule = Synchronous::new();

    let result = schedule.run(
        &mut state,
        RunOptions { max_iterations: 10, tolerance: 0.0 },
        &log_max_product(),
        &residuals(),
    );

    assert!(result.converged);
    assert!(result.iterations >= 1 && result.iterations <= 10);
    assert_eq!(result.residual, 0.0);

    // Max-marginal of y: max over x of p(x) p(y | x), normalized so that
    // its largest value is zero in log space.
    let belief = state.belief(y, &log_max_product()).unwrap().unwrap();
    let FactorKind::Unary(belief) = belief else {
        panic!("expected unary belief");
    };
    let y0 = (0.8_f64 * 0.9).max(0.2 * 0.2);
    let y1 = (0.8_f64 * 0.1).max(0.2 * 0.8);
    assert!((belief.data()[0] - 0.0).abs() < 1e-12);
    assert!((belief.data()[1] - (y1 / y0).ln()).abs() < 1e-12);
}

#[test]
fn apply_with_unknown_variable_leaves_state_unchanged() {
    let (graph, x, _y, _f, _g) = chain();
    let mut state = BeliefState::<LogSumProduct, f64>::from_graph(graph);
    let before = state.messages().len();

    let unknown = VariableId::new(7);
    let factor = FactorKind::Dense(DenseFactor::new(vec![x, unknown], vec![2, 2], vec![0.0, 0.0, 0.0, 0.0]));

    assert_eq!(state.apply(factor), Err(GraphError::UnknownVariableId(unknown)));
    assert_eq!(state.messages().len(), before);
    assert_eq!(state.graph().num_factors(), 2);
}

#[test]
fn apply_appends_empty_slots_after_existing_messages() {
    let (graph, x, y, _f, _g) = chain();
    let mut state = BeliefState::<LogSumProduct, f64>::from_graph(graph);
    let mut schedule = Synchronous::new();
    schedule.step(&mut state, &log_sum_product(), &residuals());
    let before = state.messages().len();
    let kept: Vec<bool> = (0..before).map(|i| state.messages().get(loopy::message::MessageId::new(i)).is_some()).collect();

    let h = state.apply(DenseFactor::new(vec![y, x], vec![2, 2], vec![0.0, 1.0, 2.0, 3.0]).into()).unwrap();

    assert_eq!(h, FactorId::new(2));
    assert_eq!(state.messages().len(), before + 4);
    for (i, was_present) in kept.iter().enumerate() {
        assert_eq!(state.messages().get(loopy::message::MessageId::new(i)).is_some(), *was_present);
    }
    assert_eq!(state.messages().factor_in(h).len(), 2);
    assert_eq!(state.messages().edge(state.messages().factor_in(h)[0]), DirectedEdge::variable_to_factor(y, h));
    assert_eq!(state.messages().edge(state.messages().factor_out(h)[1]), DirectedEdge::factor_to_variable(h, x));
    assert!(state.messages().get(state.messages().factor_in(h)[0]).is_none());
}

#[test]
fn extend_rejects_duplicate_name() {
    let (graph, _x, _y, _f, _g) = chain();
    let mut state = BeliefState::<LogSumProduct, f64>::from_graph(graph);

    let result = state.extend(binary_variable("x"));

    assert_eq!(result, Err(GraphError::DuplicateVariableName("x".to_owned())));
    assert_eq!(state.graph().num_variables(), 2);

    let z = state.extend(binary_variable("z")).unwrap();
    assert_eq!(z, VariableId::new(2));
    assert!(state.belief(z, &log_sum_product()).unwrap().is_none());
}

#[test]
fn belief_has_exactly_the_queried_variable() {
    let (graph, x, _y, _f, _g) = chain();
    let mut state = BeliefState::<LogSumProduct, f64>::from_graph(graph);
    let mut schedule = Synchronous::new();
    schedule.step(&mut state, &log_sum_product(), &residuals());

    let belief = state.belief(x, &log_sum_product()).unwrap().unwrap();
    assert_eq!(belief.scope(), &[x]);
}

#[test]
fn message_store_add_factor_appends_edges_in_scope_order() {
    let mut store = MessageStore::<f64>::new();
    let x = VariableId::new(0);
    let y = VariableId::new(1);
    store.add_variable(x);
    store.add_variable(y);
    let f = FactorId::new(0);

    store.add_factor(f, &[y, x]);

    assert_eq!(store.len(), 4);
    assert_eq!(store.edge(loopy::message::MessageId::new(0)), DirectedEdge::variable_to_factor(y, f));
    assert_eq!(store.edge(loopy::message::MessageId::new(1)), DirectedEdge::factor_to_variable(f, y));
    assert_eq!(store.edge(loopy::message::MessageId::new(2)), DirectedEdge::variable_to_factor(x, f));
    assert_eq!(store.edge(loopy::message::MessageId::new(3)), DirectedEdge::factor_to_variable(f, x));
    assert_eq!(store.factor_in(f).len(), 2);
    assert!(matches!(store.edge(store.variable_in(x)[0]).from, Endpoint::Factor(g) if g == f));
}

#[test]
fn message_store_set_replaces_previous_message() {
    let mut store = MessageStore::<f64>::new();
    let x = VariableId::new(0);
    let f = FactorId::new(0);
    let id = store.add(DirectedEdge::factor_to_variable(f, x));

    store.set(id, Message::try_from_factor(UnaryFactor::new(x, vec![1.0, 2.0]).into()).unwrap());
    store.set(id, Message::try_from_factor(UnaryFactor::new(x, vec![3.0, 4.0]).into()).unwrap());

    let FactorKind::Unary(u) = store.get(id).unwrap().factor() else {
        panic!("expected unary message");
    };
    assert_eq!(u.data(), &[3.0, 4.0]);
    assert_eq!(store.get(id).unwrap().variable(), x);
}

#[test]
fn message_rejects_multivariate_factor() {
    let factor = FactorKind::Dense(DenseFactor::new(
        vec![VariableId::new(0), VariableId::new(1)],
        vec![2, 2],
        vec![0.0, 0.0, 0.0, 0.0],
    ));

    let result = Message::try_from_factor(factor);

    let Err(FactorKind::Dense(back)) = result else {
        panic!("expected the factor back");
    };
    assert_eq!(back.card(), &[2, 2]);
    assert!(Message::try_from_factor(FactorKind::Scalar(ScalarFactor::new(1.0))).is_err());
}

#[test]
fn reducing_absent_variables_keeps_values() {
    let ops = log_sum_product();
    let f = DenseFactor::new(vec![VariableId::new(3)], vec![3], vec![1.0, 2.0, 3.0]);

    let FactorKind::Unary(u) = FactorKind::Dense(f).reduce(&[VariableId::new(0)], &ops) else {
        panic!("expected unary factor");
    };
    assert_eq!(u.var(), VariableId::new(3));
    assert_eq!(u.data(), &[1.0, 2.0, 3.0]);
}

#[test]
fn combined_scope_is_union_of_scopes() {
    let ops = log_sum_product();
    let a = FactorKind::Dense(DenseFactor::new(vec![VariableId::new(4), VariableId::new(1)], vec![2, 3], vec![0.0; 6]));
    let b = FactorKind::Dense(DenseFactor::new(vec![VariableId::new(2), VariableId::new(4)], vec![2, 2], vec![1.0; 4]));

    let c = a.combine(b, &ops);

    assert_eq!(c.scope(), &[VariableId::new(1), VariableId::new(2), VariableId::new(4)]);
    let FactorKind::Dense(c) = c else {
        panic!("expected dense factor");
    };
    assert_eq!(c.card(), &[3, 2, 2]);
    assert!(c.data().iter().all(|&value| value == 1.0));
}

#[test]
fn combination_commutes_under_a_commutative_product() {
    let ops = log_sum_product();
    let a = FactorKind::Dense(DenseFactor::new(
        vec![VariableId::new(4), VariableId::new(1)],
        vec![2, 3],
        vec![1.0, 2.0, 3.0, 4.0, 5.0, 6.0],
    ));
    let b = FactorKind::Dense(DenseFactor::new(vec![VariableId::new(2), VariableId::new(4)], vec![2, 2], vec![10.0, 20.0, 30.0, 40.0]));

    let FactorKind::Dense(ab) = a.clone().combine(b.clone(), &ops) else {
        panic!("expected dense factor");
    };
    let FactorKind::Dense(ba) = b.combine(a, &ops) else {
        panic!("expected dense factor");
    };

    assert_eq!(ab.scope(), &[VariableId::new(1), VariableId::new(2), VariableId::new(4)]);
    assert_eq!(ab.scope(), ba.scope());
    assert_eq!(ab.card(), ba.card());
    assert_eq!(ab.data(), ba.data());
    // Assignment x1 = 2, x2 = 1, x4 = 0: 3.0 from `a` and 30.0 from `b`.
    assert_eq!(ab.data()[2 * 4 + 1 * 2], 33.0);

    let u = FactorKind::Unary(UnaryFactor::new(VariableId::new(0), vec![1.0, 2.0]));
    let w = FactorKind::Unary(UnaryFactor::new(VariableId::new(0), vec![5.0, 7.0]));
    let FactorKind::Unary(uw) = u.clone().combine(w.clone(), &ops) else {
        panic!("expected unary factor");
    };
    let FactorKind::Unary(wu) = w.combine(u, &ops) else {
        panic!("expected unary factor");
    };
    assert_eq!(uw.data(), &[6.0, 9.0]);
    assert_eq!(uw.data(), wu.data());
}

#[test]
fn a_run_stops_at_the_first_residual_within_tolerance() {
    let res = residuals();
    let options = RunOptions { max_iterations: 3, tolerance: 0.5 };

    assert_eq!(
        stop_after(1, 0.25, &options, &res),
        Some(RunResult { iterations: 1, converged: true, residual: 0.25 })
    );
    assert_eq!(
        stop_after(3, 0.5, &options, &res),
        Some(RunResult { iterations: 3, converged: true, residual: 0.5 })
    );
    assert_eq!(stop_after(2, 0.75, &options, &res), None);
    assert_eq!(
        stop_after(3, 0.75, &options, &res),
        Some(RunResult { iterations: 3, converged: false, residual: 0.75 })
    );
}

#[test]
fn distance_is_largest_absolute_difference() {
    let res = residuals();
    let a = FactorKind::Unary(UnaryFactor::new(VariableId::new(0), vec![1.0, 5.0, -2.0]));
    let b = FactorKind::Unary(UnaryFactor::new(VariableId::new(0), vec![1.5, 3.0, -2.0]));
    assert_eq!(a.distance(&b, &res), 2.0);

    let c = FactorKind::Dense(DenseFactor::new(vec![VariableId::new(0)], vec![2], vec![0.0, 1.0]));
    let d = FactorKind::Dense(DenseFactor::new(vec![VariableId::new(0)], vec![2], vec![0.25, 1.0]));
    assert_eq!(c.distance(&d, &res), 0.25);
}

#[test]
fn dense_normalization_subtracts_log_normalizer() {
    let ops = log_sum_product();
    let f = DenseFactor::from_linear(vec![VariableId::new(0), VariableId::new(1)], vec![2, 2], vec![1.0, 2.0, 3.0, 4.0], &ln);

    let FactorKind::Dense(n) = FactorKind::Dense(f).normalize(&ops) else {
        panic!("expected dense factor");
    };

    let expected = [0.1_f64.ln(), 0.2_f64.ln(), 0.3_f64.ln(), 0.4_f64.ln()];
    for (actual, expected) in n.data().iter().zip(expected) {
        assert!((actual - expected).abs() < 1e-12);
    }
    assert_eq!(n.scope(), &[VariableId::new(0), VariableId::new(1)]);
}

#[test]
fn factor_conversions_and_clones_keep_contents() {
    let u = UnaryFactor::new(VariableId::new(2), vec![1.0, 2.0]);
    let k: FactorKind<f64> = u.clone().into();
    let FactorKind::Unary(back) = k.clone() else {
        panic!("expected unary factor");
    };
    assert_eq!(back.var(), u.var());
    assert_eq!(back.data(), u.data());

    let s: FactorKind<f64> = ScalarFactor::new(3.0).into();
    assert!(s.scope().is_empty());

    let d = DenseFactor::new(vec![VariableId::new(0)], vec![1], vec![9.0]);
    let (scope, card, data) = d.clone().into_parts();
    assert_eq!(scope, vec![VariableId::new(0)]);
    assert_eq!(card, vec![1]);
    assert_eq!(data, vec![9.0]);
    assert_eq!(d.into_scope(), vec![VariableId::new(0)]);
}

#[test]
fn cardinality_check_detects_disagreeing_factors() {
    let (graph, x, _y, _f, _g) = chain();
    let mut state = BeliefState::<LogSumProduct, f64>::from_graph(graph);
    assert!(state.cardinalities_consistent());

    state.apply(UnaryFactor::new(x, vec![0.0, 0.0, 0.0]).into()).unwrap();
    assert!(!state.cardinalities_consistent());
}

#[test]
fn cardinality_check_detects_stateless_variables() {
    let mut graph = FactorGraph::new();
    let x = graph.add_variable(binary_variable("x")).unwrap();
    let y = graph.add_variable(binary_variable("y")).unwrap();
    graph.add_factor(DenseFactor::new(vec![x, y], vec![2, 0], vec![]).into()).unwrap();

    let state = BeliefState::<LogSumProduct, f64>::from_graph(graph);
    assert!(!state.cardinalities_consistent());
}
