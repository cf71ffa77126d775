use loopy::algebra::{ResidualOps, SemiringOps};
use loopy::belief_state::BeliefState;
use loopy::factor::{DenseFactor, FactorKind, UnaryFactor};
use loopy::message::Endpoint;
use loopy::schedule::{RunOptions, Schedule, Synchronous};
use loopy::factor_graph::FactorGraph;
use loopy::{LogMaxProduct, LogSumProduct, Variable, VariableId};

type Ops = SemiringOps<f64, fn(&f64, &f64) -> f64, fn(&Vec<f64>) -> f64, fn(&f64, &f64) -> f64>;

type Residual = ResidualOps<f64, fn(&Vec<f64>, &Vec<f64>) -> f64, fn(&f64, &f64) -> f64, fn(&f64, &f64) -> bool>;

fn add_values(a: &f64, b: &f64) -> f64 {
    a + b
}

fn sub_values(a: &f64, b: &f64) -> f64 {
    a - b
}

fn log_sum_exp(block: &Vec<f64>) -> f64 {
    let max = block.iter().copied().fold(f64::NEG_INFINITY, f64::max);
    if max == f64::NEG_INFINITY {
        return max;
    }
    max + block.iter().map(|x| (x - max).exp()).sum::<f64>().ln()
}

fn max_value(block: &Vec<f64>) -> f64 {
    block.iter().copied().fold(f64::NEG_INFINITY, f64::max)
}

fn log_sum_product() -> Ops {
    SemiringOps { product: add_values, sum: log_sum_exp, quotient: sub_values, unit: 0.0 }
}

#[allow(dead_code)]
fn log_max_product() -> Ops {
    SemiringOps { product: add_values, sum: max_value, quotient: sub_values, unit: 0.0 }
}

fn max_abs_difference(a: &Vec<f64>, b: &Vec<f64>) -> f64 {
    a.iter().zip(b.iter()).map(|(x, y)| (x - y).abs()).fold(0.0, f64::max)
}

fn larger(a: &f64, b: &f64) -> f64 {
    a.max(*b)
}

fn at_most(a: &f64, b: &f64) -> bool {
    a <= b
}

#[allow(dead_code)]
fn residuals() -> Residual {
    ResidualOps { dist: max_abs_difference, max: larger, within: at_most, zero: 0.0, unbounded: f64::INFINITY }
}

#[allow(dead_code)]
fn ln(x: &f64) -> f64 {
    x.ln()
}

fn binary_variable(name: &str) -> Variable {
    Variable::discrete(name, &["0", "1"])
}


#[test]
fn synchronous_supports_log_max_product() {
    let mut graph = FactorGraph::new();

    let x = graph.add_variable(binary_variable("x")).unwrap();
    let y = graph.add_variable(binary_variable("y")).unwrap();

    let factor = graph.add_factor(DenseFactor::new(vec![x, y], vec![2, 2], vec![0.0, 1.0, 2.0, 3.0]).into()).unwrap();

    let mut state = BeliefState::<LogMaxProduct, f64>::from_graph(graph);
    let mut schedule = Synchronous::new();

    schedule.step(&mut state, &log_max_product(), &residuals());

    let factor_to_x = state.messages().factor_out(factor)[0];

    let message = state.messages().get(factor_to_x).expect("expected factor-to-variable message");

    let FactorKind::Unary(message) = message.factor() else {
        panic!("expected unary factor");
    };

    // Max-product reduction gives [1.0, 3.0].
    // Message normalization subtracts the maximum value, 3.0.
    assert!((message.data()[0] + 2.0).abs() < 1e-10);
    assert!(message.data()[1].abs() < 1e-10);
}

#[test]
fn updates_are_visible_only_on_the_next_iteration() {
    let mut graph = FactorGraph::new();

    let x = graph.add_variable(binary_variable("x")).unwrap();
    let y = graph.add_variable(binary_variable("y")).unwrap();

    let f = graph.add_factor(UnaryFactor::new(x, vec![1.0, 2.0]).into()).unwrap();

    let g = graph.add_factor(DenseFactor::new(vec![x, y], vec![2, 2], vec![0.0, 0.0, 0.0, 0.0]).into()).unwrap();

    let mut state = BeliefState::<LogSumProduct, f64>::from_graph(graph);
    let mut schedule = Synchronous::new();

    let f_to_x = state.messages().factor_out(f)[0];

    let x_to_g = state
        .messages()
        .variable_out(x)
        .iter()
        .copied()
        .find(|&id| {
            matches!(
                state.messages().edge(id).to,
                Endpoint::Factor(destination)
                    if destination == g
            )
        })
        .expect("expected x-to-g message");

    let g_to_y = state.messages().factor_out(g)[1];

    // Iteration 1

    schedule.step(&mut state, &log_sum_product(), &residuals());

    let f_to_x_message = state.messages().get(f_to_x).expect("expected f-to-x message");

    let FactorKind::Unary(f_to_x_factor) = f_to_x_message.factor() else {
        panic!("expected unary factor");
    };

    let normalizer = (1.0_f64.exp() + 2.0_f64.exp()).ln();

    assert!((f_to_x_factor.data()[0] - (1.0 - normalizer)).abs() < 1e-10);
    assert!((f_to_x_factor.data()[1] - (2.0 - normalizer)).abs() < 1e-10);

    // x -> g was computed from the message state at the beginning
    // of iteration 1, before f -> x existed.
    assert!(state.messages().get(x_to_g).is_none());

    let g_to_y_message = state.messages().get(g_to_y).expect("expected g-to-y message");

    let FactorKind::Unary(g_to_y_factor) = g_to_y_message.factor() else {
        panic!("expected unary factor");
    };

    // The raw message is [ln(2), ln(2)]. After sum-product
    // normalization it becomes [-ln(2), -ln(2)].
    let expected = -f64::ln(2.0);

    assert!((g_to_y_factor.data()[0] - expected).abs() < 1e-10);
    assert!((g_to_y_factor.data()[1] - expected).abs() < 1e-10);

    // Iteration 2

    schedule.step(&mut state, &log_sum_product(), &residuals());

    let x_to_g_message = state.messages().get(x_to_g).expect("expected x-to-g message");

    let FactorKind::Unary(x_to_g_factor) = x_to_g_message.factor() else {
        panic!("expected unary factor");
    };

    // x -> g can now see the normalized f -> x message from
    // iteration 1.
    assert!((x_to_g_factor.data()[0] - (1.0 - normalizer)).abs() < 1e-10);
    assert!((x_to_g_factor.data()[1] - (2.0 - normalizer)).abs() < 1e-10);

    let g_to_y_message = state.messages().get(g_to_y).expect("expected g-to-y message");

    let FactorKind::Unary(g_to_y_factor) = g_to_y_message.factor() else {
        panic!("expected unary factor");
    };

    // g -> y was computed during iteration 2 from the state at
    // the beginning of iteration 2, when x -> g was still None.
    assert!((g_to_y_factor.data()[0] - expected).abs() < 1e-10);
    assert!((g_to_y_factor.data()[1] - expected).abs() < 1e-10);
}

#[test]
fn sum_product_matches_exact_marginal_on_tree() {
    let mut graph = FactorGraph::new();

    let x = graph.add_variable(binary_variable("x")).unwrap();
    let y = graph.add_variable(binary_variable("y")).unwrap();

    graph.add_factor(UnaryFactor::from_linear(x, vec![0.8, 0.2], &ln).into()).unwrap();

    graph.add_factor(DenseFactor::from_linear(vec![x, y], vec![2, 2], vec![0.9, 0.1, 0.2, 0.8], &ln).into()).unwrap();

    let mut state = BeliefState::<LogSumProduct, f64>::from_graph(graph);
    let mut schedule = Synchronous::new();

    schedule.step(&mut state, &log_sum_product(), &residuals());
    schedule.step(&mut state, &log_sum_product(), &residuals());
    schedule.step(&mut state, &log_sum_product(), &residuals());

    let belief = state.belief(y, &log_sum_product()).expect("belief query should succeed").expect("expected belief");

    let FactorKind::Unary(belief) = belief else {
        panic!("expected unary belief");
    };

    assert!((belief.data()[0].exp() - 0.76).abs() < 1e-10);
    assert!((belief.data()[1].exp() - 0.24).abs() < 1e-10);
}

#[test]
fn run_converges_to_exact_marginal_on_tree() {
    let mut graph = FactorGraph::new();

    let x = graph.add_variable(binary_variable("x")).unwrap();
    let y = graph.add_variable(binary_variable("y")).unwrap();

    graph.add_factor(UnaryFactor::from_linear(x, vec![0.8, 0.2], &ln).into()).unwrap();

    graph.add_factor(DenseFactor::from_linear(vec![x, y], vec![2, 2], vec![0.9, 0.1, 0.2, 0.8], &ln).into()).unwrap();

    let mut state = BeliefState::<LogSumProduct, f64>::from_graph(graph);
    let mut schedule = Synchronous::new();

    let result = schedule.run(
        &mut state,
        RunOptions { max_iterations: 100, tolerance: 1e-10 },
        &log_sum_product(),
        &residuals(),
    );

    assert!(result.converged);
    assert!(result.iterations > 0);
    assert!(result.residual <= 1e-10);

    let belief = state.belief(y, &log_sum_product()).expect("belief query should succeed").expect("expected belief");

    let FactorKind::Unary(belief) = belief else {
        panic!("expected unary belief");
    };

    assert!((belief.data()[0].exp() - 0.76).abs() < 1e-10);
    assert!((belief.data()[1].exp() - 0.24).abs() < 1e-10);
}

#[test]
fn run_converges_to_exact_marginal_on_three_variable_chain() {
    let mut graph = FactorGraph::new();

    let x = graph.add_variable(binary_variable("x")).unwrap();
    let y = graph.add_variable(binary_variable("y")).unwrap();
    let z = graph.add_variable(binary_variable("z")).unwrap();

    graph.add_factor(UnaryFactor::from_linear(x, vec![0.8, 0.2], &ln).into()).unwrap();

    graph.add_factor(DenseFactor::from_linear(vec![x, y], vec![2, 2], vec![0.9, 0.1, 0.2, 0.8], &ln).into()).unwrap();

    graph.add_factor(DenseFactor::from_linear(vec![y, z], vec![2, 2], vec![0.7, 0.3, 0.1, 0.9], &ln).into()).unwrap();

    let mut state = BeliefState::<LogSumProduct, f64>::from_graph(graph);
    let mut schedule = Synchronous::new();

    let result = schedule.run(
        &mut state,
        RunOptions { max_iterations: 100, tolerance: 1e-10 },
        &log_sum_product(),
        &residuals(),
    );

    assert!(result.converged);
    assert!(result.residual <= 1e-10);

    let belief = state.belief(z, &log_sum_product()).expect("belief query should succeed").expect("expected belief");

    let FactorKind::Unary(belief) = belief else {
        panic!("expected unary belief");
    };

    assert!((belief.data()[0].exp() - 0.556).abs() < 1e-10);
    assert!((belief.data()[1].exp() - 0.444).abs() < 1e-10);
}

#[test]
fn run_converges_on_three_variable_triangle() {
    let mut graph = FactorGraph::new();

    let x = graph.add_variable(binary_variable("x")).unwrap();
    let y = graph.add_variable(binary_variable("y")).unwrap();
    let z = graph.add_variable(binary_variable("z")).unwrap();

    // Evidence favoring x = 0.
    graph.add_factor(UnaryFactor::from_linear(x, vec![0.8, 0.2], &ln).into()).unwrap();

    // Pairwise factors favor neighboring variables taking the same state.
    graph.add_factor(DenseFactor::from_linear(vec![x, y], vec![2, 2], vec![0.8, 0.2, 0.2, 0.8], &ln).into()).unwrap();

    graph.add_factor(DenseFactor::from_linear(vec![y, z], vec![2, 2], vec![0.8, 0.2, 0.2, 0.8], &ln).into()).unwrap();

    graph.add_factor(DenseFactor::from_linear(vec![z, x], vec![2, 2], vec![0.8, 0.2, 0.2, 0.8], &ln).into()).unwrap();

    let mut state = BeliefState::<LogSumProduct, f64>::from_graph(graph);
    let mut schedule = Synchronous::new();

    let options = RunOptions { max_iterations: 100, tolerance: 1e-10 };

    let result = schedule.run(&mut state, options, &log_sum_product(), &residuals());

    assert!(result.converged);
    assert!(result.iterations < options.max_iterations);
    assert!(result.residual.is_finite());
    assert!(result.residual <= options.tolerance);

    let x_belief = state.belief(x, &log_sum_product()).expect("belief query should succeed").expect("expected belief for x");

    let y_belief = state.belief(y, &log_sum_product()).expect("belief query should succeed").expect("expected belief for y");

    let z_belief = state.belief(z, &log_sum_product()).expect("belief query should succeed").expect("expected belief for z");

    let FactorKind::Unary(x_belief) = x_belief else {
        panic!("expected unary belief for x");
    };

    let FactorKind::Unary(y_belief) = y_belief else {
        panic!("expected unary belief for y");
    };

    let FactorKind::Unary(z_belief) = z_belief else {
        panic!("expected unary belief for z");
    };

    // Evidence at x favors state 0, and the attractive pairwise factors
    // should propagate that preference throughout the loop.
    assert!(x_belief.data()[0] > x_belief.data()[1]);
    assert!(y_belief.data()[0] > y_belief.data()[1]);
    assert!(z_belief.data()[0] > z_belief.data()[1]);
}

#[test]
fn run_reports_non_convergence_when_iteration_limit_is_reached() {
    let mut graph = FactorGraph::new();

    let x = graph.add_variable(binary_variable("x")).unwrap();
    let y = graph.add_variable(binary_variable("y")).unwrap();
    let z = graph.add_variable(binary_variable("z")).unwrap();

    graph.add_factor(UnaryFactor::from_linear(x, vec![0.8, 0.2], &ln).into()).unwrap();

    graph.add_factor(DenseFactor::from_linear(vec![x, y], vec![2, 2], vec![0.9, 0.1, 0.2, 0.8], &ln).into()).unwrap();

    graph.add_factor(DenseFactor::from_linear(vec![y, z], vec![2, 2], vec![0.7, 0.3, 0.1, 0.9], &ln).into()).unwrap();

    let mut state = BeliefState::<LogSumProduct, f64>::from_graph(graph);
    let mut schedule = Synchronous::new();

    let result = schedule.run(
        &mut state,
        RunOptions { max_iterations: 1, tolerance: 1e-10 },
        &log_sum_product(),
        &residuals(),
    );

    assert!(!result.converged);
    assert_eq!(result.iterations, 1);
    assert!(result.residual.is_infinite());
}
