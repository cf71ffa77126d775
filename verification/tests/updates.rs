use loopy::algebra::{ResidualOps, SemiringOps};
use loopy::belief_state::BeliefState;
use loopy::factor::{DenseFactor, FactorKind, UnaryFactor};
use loopy::factor::FactorId;
use loopy::message::{Endpoint, Message, MessageId};
use loopy::schedule::updates::{factor_to_variable, variable_to_factor};
use loopy::Semiring;
use loopy::factor_graph::FactorGraph;
use loopy::{LogSumProduct, Variable, VariableId};

type Ops = SemiringOps<f64, fn(&f64, &f64) -> f64, fn(&Vec<f64>) -> f64, fn(&f64, &f64) -> f64>;

type Residual = ResidualOps<f64, fn(&Vec<f64>, &Vec<f64>) -> f64, fn(&f64, &f64) -> f64, fn(&f64, &f64) -> bool>;

fn add_values(a: &f64, b: &f64) -> f64 {
    a + b
}

fn sub_values(a: &f64, b: &f64) -> f64 {
    a - b
}

fn log_sum_exp(block: &Vec<f64>) -> f64 {
    let max = block.iter().copied().fold(f64::NEG_INFINITY, f64::max);
    if max == f64::NEG_INFINITY {
        return max;
    }
    max + block.iter().map(|x| (x - max).exp()).sum::<f64>().ln()
}

fn max_value(block: &Vec<f64>) -> f64 {
    block.iter().copied().fold(f64::NEG_INFINITY, f64::max)
}

fn log_sum_product() -> Ops {
    SemiringOps { product: add_values, sum: log_sum_exp, quotient: sub_values, unit: 0.0 }
}

#[allow(dead_code)]
fn log_max_product() -> Ops {
    SemiringOps { product: add_values, sum: max_value, quotient: sub_values, unit: 0.0 }
}

fn max_abs_difference(a: &Vec<f64>, b: &Vec<f64>) -> f64 {
    a.iter().zip(b.iter()).map(|(x, y)| (x - y).abs()).fold(0.0, f64::max)
}

fn larger(a: &f64, b: &f64) -> f64 {
    a.max(*b)
}

fn at_most(a: &f64, b: &f64) -> bool {
    a <= b
}

#[allow(dead_code)]
fn residuals() -> Residual {
    ResidualOps { dist: max_abs_difference, max: larger, within: at_most, zero: 0.0, unbounded: f64::INFINITY }
}

#[allow(dead_code)]
fn ln(x: &f64) -> f64 {
    x.ln()
}

fn binary_variable(name: &str) -> Variable {
    Variable::discrete(name, &["0", "1"])
}


fn unary_message(variable: VariableId, values: [f64; 2]) -> Message<f64> {
    Message::try_from_factor(FactorKind::Unary(UnaryFactor::new(variable, vec![values[0], values[1]])))
        .expect("unary factor should be a valid message")
}

fn variable_to_factor_id<S: Semiring>(state: &BeliefState<S, f64>, variable: VariableId, factor: FactorId) -> MessageId {
    state
        .messages()
        .variable_out(variable)
        .iter()
        .copied()
        .find(|&id| {
            let edge = state.messages().edge(id);

            matches!(
                (edge.from, edge.to),
                (Endpoint::Variable(source), Endpoint::Factor(destination))
                    if source == variable && destination == factor
            )
        })
        .expect("expected variable-to-factor message edge")
}

fn factor_to_variable_id<S: Semiring>(state: &BeliefState<S, f64>, factor: FactorId, variable: VariableId) -> MessageId {
    state
        .messages()
        .factor_out(factor)
        .iter()
        .copied()
        .find(|&id| {
            let edge = state.messages().edge(id);

            matches!(
                (edge.from, edge.to),
                (Endpoint::Factor(source), Endpoint::Variable(destination))
                    if source == factor && destination == variable
            )
        })
        .expect("expected factor-to-variable message edge")
}

#[test]
fn variable_to_factor_with_no_other_messages_returns_none() {
    let mut graph = FactorGraph::new();

    let x = graph.add_variable(binary_variable("x")).unwrap();

    let factor = graph.add_factor(FactorKind::Unary(UnaryFactor::new(x, vec![0.0, 1.0]))).unwrap();

    let state = BeliefState::<LogSumProduct, f64>::from_graph(graph);

    let message_id = variable_to_factor_id(&state, x, factor);

    let result = variable_to_factor(&state, message_id, &log_sum_product());

    assert!(result.is_none());
}

#[test]
fn variable_to_factor_forwards_single_other_message() {
    let mut graph = FactorGraph::new();

    let x = graph.add_variable(binary_variable("x")).unwrap();

    let f = graph.add_factor(FactorKind::Unary(UnaryFactor::new(x, vec![0.0, 0.0]))).unwrap();

    let g = graph.add_factor(FactorKind::Unary(UnaryFactor::new(x, vec![0.0, 0.0]))).unwrap();

    let mut state = BeliefState::<LogSumProduct, f64>::from_graph(graph);

    let incoming_id = factor_to_variable_id(&state, g, x);

    state.messages_mut().set(incoming_id, unary_message(x, [1.0, 2.0]));

    let outgoing_id = variable_to_factor_id(&state, x, f);

    let result = variable_to_factor(&state, outgoing_id, &log_sum_product()).expect("expected a message");

    let FactorKind::Unary(result) = result.factor() else {
        panic!("expected unary factor");
    };

    assert_eq!(result.var(), x);
    assert_eq!(result.data(), &[1.0, 2.0]);
}

#[test]
fn variable_to_factor_combines_multiple_other_messages() {
    let mut graph = FactorGraph::new();

    let x = graph.add_variable(binary_variable("x")).unwrap();

    let f = graph.add_factor(FactorKind::Unary(UnaryFactor::new(x, vec![0.0, 0.0]))).unwrap();

    let g = graph.add_factor(FactorKind::Unary(UnaryFactor::new(x, vec![0.0, 0.0]))).unwrap();

    let h = graph.add_factor(FactorKind::Unary(UnaryFactor::new(x, vec![0.0, 0.0]))).unwrap();

    let mut state = BeliefState::<LogSumProduct, f64>::from_graph(graph);

    for (factor, values) in [(g, [1.0, 2.0]), (h, [3.0, 4.0])] {
        let incoming_id = factor_to_variable_id(&state, factor, x);

        state.messages_mut().set(incoming_id, unary_message(x, values));
    }

    let outgoing_id = variable_to_factor_id(&state, x, f);

    let result = variable_to_factor(&state, outgoing_id, &log_sum_product()).expect("expected a message");

    let FactorKind::Unary(result) = result.factor() else {
        panic!("expected unary factor");
    };

    assert_eq!(result.data(), &[4.0, 6.0]);
}

#[test]
fn factor_to_variable_bootstraps_from_factor() {
    let mut graph = FactorGraph::new();

    let x = graph.add_variable(binary_variable("x")).unwrap();
    let y = graph.add_variable(binary_variable("y")).unwrap();

    let factor = FactorKind::Dense(DenseFactor::new(vec![x, y], vec![2, 2], vec![0.0, 1.0, 2.0, 3.0]));

    let factor_id = graph.add_factor(factor).unwrap();

    let state = BeliefState::<LogSumProduct, f64>::from_graph(graph);

    let message_id = factor_to_variable_id(&state, factor_id, x);

    let result = factor_to_variable(&state, message_id, &log_sum_product()).expect("factor should produce a message");

    let FactorKind::Unary(result) = result.factor() else {
        panic!("expected unary factor");
    };

    assert_eq!(result.var(), x);
}

#[test]
fn factor_to_variable_combines_incoming_message_before_reduction() {
    let mut graph = FactorGraph::new();

    let x = graph.add_variable(binary_variable("x")).unwrap();
    let y = graph.add_variable(binary_variable("y")).unwrap();

    let factor_id = graph
        .add_factor(FactorKind::Dense(DenseFactor::new(vec![x, y], vec![2, 2], vec![0.0, 0.0, 0.0, 0.0])))
        .unwrap();

    let mut state = BeliefState::<LogSumProduct, f64>::from_graph(graph);

    let incoming_id = variable_to_factor_id(&state, y, factor_id);

    state.messages_mut().set(incoming_id, unary_message(y, [1.0, 2.0]));

    let outgoing_id = factor_to_variable_id(&state, factor_id, x);

    let result = factor_to_variable(&state, outgoing_id, &log_sum_product()).expect("expected factor-to-variable message");

    let FactorKind::Unary(result) = result.factor() else {
        panic!("expected unary factor");
    };

    assert_eq!(result.var(), x);
}
