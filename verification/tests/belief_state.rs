use loopy::algebra::{ResidualOps, SemiringOps};
use loopy::belief_state::{BeliefError, BeliefState};
use loopy::factor::{DenseFactor, FactorKind, UnaryFactor};
use loopy::schedule::{Schedule, Synchronous};
use loopy::factor_graph::FactorGraph;
use loopy::{LogMaxProduct, LogSumProduct, Variable, VariableId};

type Ops = SemiringOps<f64, fn(&f64, &f64) -> f64, fn(&Vec<f64>) -> f64, fn(&f64, &f64) -> f64>;

type Residual = ResidualOps<f64, fn(&Vec<f64>, &Vec<f64>) -> f64, fn(&f64, &f64) -> f64, fn(&f64, &f64) -> bool>;

fn add_values(a: &f64, b: &f64) -> f64 {
    a + b
}

fn sub_values(a: &f64, b: &f64) -> f64 {
    a - b
}

fn log_sum_exp(block: &Vec<f64>) -> f64 {
    let max = block.iter().copied().fold(f64::NEG_INFINITY, f64::max);
    if max == f64::NEG_INFINITY {
        return max;
    }
    max + block.iter().map(|x| (x - max).exp()).sum::<f64>().ln()
}

fn max_value(block: &Vec<f64>) -> f64 {
    block.iter().copied().fold(f64::NEG_INFINITY, f64::max)
}

fn log_sum_product() -> Ops {
    SemiringOps { product: add_values, sum: log_sum_exp, quotient: sub_values, unit: 0.0 }
}

#[allow(dead_code)]
fn log_max_product() -> Ops {
    SemiringOps { product: add_values, sum: max_value, quotient: sub_values, unit: 0.0 }
}

fn max_abs_difference(a: &Vec<f64>, b: &Vec<f64>) -> f64 {
    a.iter().zip(b.iter()).map(|(x, y)| (x - y).abs()).fold(0.0, f64::max)
}

fn larger(a: &f64, b: &f64) -> f64 {
    a.max(*b)
}

fn at_most(a: &f64, b: &f64) -> bool {
    a <= b
}

#[allow(dead_code)]
fn residuals() -> Residual {
    ResidualOps { dist: max_abs_difference, max: larger, within: at_most, zero: 0.0, unbounded: f64::INFINITY }
}

#[allow(dead_code)]
fn ln(x: &f64) -> f64 {
    x.ln()
}

fn binary_variable(name: &str) -> Variable {
    Variable::discrete(name, &["0", "1"])
}

#[test]
fn from_graph_builds_message_state() {
    let mut graph = FactorGraph::new();

    let x = graph.add_variable(Variable::discrete("x", &["0", "1"])).unwrap();

    let y = graph.add_variable(Variable::discrete("y", &["0", "1"])).unwrap();

    let factor = FactorKind::Dense(DenseFactor::new(vec![x, y], vec![2, 2], vec![1.0, 2.0, 3.0, 4.0]));

    let f = graph.add_factor(factor).unwrap();

    let state = BeliefState::<LogMaxProduct, f64>::from_graph(graph);

    assert_eq!(state.messages().factor_in(f).len(), 2);
    assert_eq!(state.messages().factor_out(f).len(), 2);
}

#[test]
fn extend_adds_variable_without_messages() {
    let graph = FactorGraph::new();
    let mut state = BeliefState::<LogSumProduct, f64>::from_graph(graph);

    let x = state.extend(Variable::discrete("x", &["0", "1"])).unwrap();

    assert!(state.messages().variable_in(x).is_empty());
    assert!(state.messages().variable_out(x).is_empty());
}

#[test]
fn apply_adds_factor_messages() {
    let mut graph = FactorGraph::new();

    let x = graph.add_variable(Variable::discrete("x", &["0", "1"])).unwrap();

    let y = graph.add_variable(Variable::discrete("y", &["0", "1"])).unwrap();

    let mut state = BeliefState::<LogSumProduct, f64>::from_graph(graph);

    let factor = FactorKind::Dense(DenseFactor::new(vec![x, y], vec![2, 2], vec![1.0, 2.0, 3.0, 4.0]));

    let f = state.apply(factor).unwrap();

    assert_eq!(state.messages().factor_in(f).len(), 2);
    assert_eq!(state.messages().factor_out(f).len(), 2);

    assert_eq!(state.messages().variable_in(x).len(), 1);
    assert_eq!(state.messages().variable_out(x).len(), 1);

    assert_eq!(state.messages().variable_in(y).len(), 1);
    assert_eq!(state.messages().variable_out(y).len(), 1);
}

#[test]
fn belief_from_single_unary_factor() {
    let mut graph = FactorGraph::new();

    let x = graph.add_variable(binary_variable("x")).unwrap();

    graph.add_factor(UnaryFactor::new(x, vec![1.0, 2.0]).into()).unwrap();

    let mut state = BeliefState::<LogSumProduct, f64>::from_graph(graph);
    let mut schedule = Synchronous::new();

    schedule.step(&mut state, &log_sum_product(), &residuals());

    let belief = state
        .belief(x, &log_sum_product())
        .expect("belief query should succeed")
        .expect("expected belief");

    let FactorKind::Unary(belief) = belief else {
        panic!("expected unary belief");
    };

    // A synchronous step stores each message normalized (its log-sum-exp is
    // zero), as the synchronous schedule's own tests require, and the belief
    // combines the incoming messages; so the expected belief is the factor's
    // table shifted by its log normalizer.
    let normalizer = (1.0_f64.exp() + 2.0_f64.exp()).ln();
    let expected = [1.0 - normalizer, 2.0 - normalizer];

    for (actual, expected) in belief.data().iter().zip(expected) {
        assert!((actual - expected).abs() < 1e-12);
    }
}

#[test]
fn belief_combines_multiple_incoming_messages() {
    let mut graph = FactorGraph::new();

    let x = graph.add_variable(binary_variable("x")).unwrap();

    graph.add_factor(UnaryFactor::new(x, vec![1.0, 2.0]).into()).unwrap();

    graph.add_factor(UnaryFactor::new(x, vec![3.0, 4.0]).into()).unwrap();

    let mut state = BeliefState::<LogSumProduct, f64>::from_graph(graph);
    let mut schedule = Synchronous::new();

    schedule.step(&mut state, &log_sum_product(), &residuals());

    let belief = state
        .belief(x, &log_sum_product())
        .expect("belief query should succeed")
        .expect("expected belief");

    let FactorKind::Unary(belief) = belief else {
        panic!("expected unary belief");
    };

    // Each incoming message is stored normalized by the synchronous step, and
    // the belief is the sum (in log space) of the normalized messages.
    let first = (1.0_f64.exp() + 2.0_f64.exp()).ln();
    let second = (3.0_f64.exp() + 4.0_f64.exp()).ln();
    let expected = [1.0 - first + 3.0 - second, 2.0 - first + 4.0 - second];

    for (actual, expected) in belief.data().iter().zip(expected) {
        assert!((actual - expected).abs() < 1e-12);
    }
}

#[test]
fn belief_is_none_without_incoming_messages() {
    let mut graph = FactorGraph::new();

    let x = graph.add_variable(binary_variable("x")).unwrap();

    let state = BeliefState::<LogMaxProduct, f64>::from_graph(graph);

    assert!(state.belief(x, &log_max_product()).expect("belief query should succeed").is_none());
}

#[test]
fn belief_rejects_unknown_variable() {
    let graph = FactorGraph::new();
    let state = BeliefState::<LogSumProduct, f64>::from_graph(graph);

    let unknown = VariableId::new(0);

    let result = state.belief(unknown, &log_sum_product());

    assert!(matches!(
        result,
        Err(BeliefError::UnknownVariableId(id)) if id == unknown
    ));
}
