use loopy::factor::{Factor, FactorKind, UnaryFactor};
use loopy::factor_graph::{FactorGraph, GraphError};
use loopy::{DiscreteDomain, Domain, Variable, VariableId};

fn binary(name: &str) -> Variable {
    Variable::new(name, Domain::Discrete(DiscreteDomain::new(&["0", "1"])))
}

#[test]
fn new_graph_is_empty() {
    let graph = FactorGraph::<f64>::new();

    assert_eq!(graph.num_variables(), 0);
    assert_eq!(graph.num_factors(), 0);
    assert!(graph.variables().is_empty());
    assert!(graph.factors().is_empty());
}

#[test]
fn add_variable_creates_variable_node() {
    let mut graph = FactorGraph::<f64>::new();

    let x = graph.add_variable(binary("x")).unwrap();

    let node = graph.variable_node(x).unwrap();

    assert_eq!(node.variable().name(), "x");
    assert!(node.factors().is_empty());
}

#[test]
fn add_variable_returns_id() {
    let mut graph = FactorGraph::<f64>::new();

    let x = graph.add_variable(binary("x")).unwrap();

    assert_eq!(x.index(), 0);
    assert_eq!(graph.num_variables(), 1);
}

#[test]
fn variable_can_be_retrieved_by_id() {
    let mut graph = FactorGraph::<f64>::new();

    let x = graph.add_variable(binary("x")).unwrap();

    let variable = graph.variable(x).unwrap();

    assert_eq!(variable.name(), "x");
}

#[test]
fn variable_id_can_be_looked_up_by_name() {
    let mut graph = FactorGraph::<f64>::new();

    let x = graph.add_variable(binary("x")).unwrap();

    assert_eq!(graph.variable_id("x"), Some(x));
    assert_eq!(graph.variable_id("y"), None);
}

#[test]
fn unknown_variable_name_returns_none() {
    let graph = FactorGraph::<f64>::new();

    assert_eq!(graph.variable_id("x"), None);
}

#[test]
fn invalid_variable_id_returns_none() {
    let graph = FactorGraph::<f64>::new();

    let id = VariableId::new(0);

    assert!(graph.variable(id).is_none());
}

#[test]
fn variable_ids_correspond_to_storage_order() {
    let mut graph = FactorGraph::<f64>::new();

    let x = graph.add_variable(binary("x")).unwrap();
    let y = graph.add_variable(binary("y")).unwrap();
    let z = graph.add_variable(binary("z")).unwrap();

    assert_eq!(x.index(), 0);
    assert_eq!(y.index(), 1);
    assert_eq!(z.index(), 2);

    assert_eq!(graph.variable_node(x).unwrap().variable().name(), "x");
    assert_eq!(graph.variable_node(y).unwrap().variable().name(), "y");
    assert_eq!(graph.variable_node(z).unwrap().variable().name(), "z");
}

#[test]
fn variable_names_must_be_unique() {
    let mut graph = FactorGraph::<f64>::new();

    graph.add_variable(binary("x")).unwrap();

    let result = graph.add_variable(binary("x"));

    assert_eq!(result, Err(GraphError::DuplicateVariableName("x".to_owned())));
}

#[test]
fn different_variables_get_different_ids() {
    let mut graph = FactorGraph::<f64>::new();

    let x = graph.add_variable(binary("x")).unwrap();
    let y = graph.add_variable(binary("y")).unwrap();

    assert_ne!(x, y);
}

#[test]
fn factor_scope_must_contain_known_variables() {
    let mut graph = FactorGraph::new();

    let x = graph.add_variable(binary("x")).unwrap();

    let factor = FactorKind::Unary(UnaryFactor::new(x, vec![0.0, 1.0]));

    assert!(graph.add_factor(factor).is_ok());
}

#[test]
fn factor_scope_cannot_contain_unknown_variable() {
    let mut graph = FactorGraph::new();

    let factor = FactorKind::Unary(UnaryFactor::new(VariableId::new(0), vec![0.0, 1.0]));

    assert_eq!(graph.add_factor(factor), Err(GraphError::UnknownVariableId(VariableId::new(0))));
}

#[test]
fn invalid_factor_is_not_added() {
    let mut graph = FactorGraph::new();

    let factor = FactorKind::Unary(UnaryFactor::new(VariableId::new(0), vec![0.0, 1.0]));

    assert!(graph.add_factor(factor).is_err());
    assert_eq!(graph.num_factors(), 0);
}

#[test]
fn factor_can_be_retrieved_after_adding() {
    let mut graph = FactorGraph::new();

    let x = graph.add_variable(binary("x")).unwrap();
    let factor = FactorKind::Unary(UnaryFactor::new(x, vec![0.0, 1.0]));

    let id = graph.add_factor(factor).unwrap();

    assert!(graph.factor(id).is_some());
    assert_eq!(graph.factor(id).unwrap().scope(), &[x]);
}
