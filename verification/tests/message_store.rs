use loopy::factor::{DenseFactor, Factor, FactorId, FactorKind};
use loopy::factor_graph::FactorGraph;
use loopy::message::{DirectedEdge, MessageId, MessageStore};
use loopy::{Variable, VariableId};

fn binary(name: &str) -> Variable {
    Variable::discrete(name, &["0", "1"])
}

#[test]
fn new_store_is_empty() {
    let store = MessageStore::<f64>::new();

    assert_eq!(store.len(), 0);
    assert!(store.is_empty());
}

#[test]
fn add_variable_to_factor_indexes_message() {
    let mut store = MessageStore::<f64>::new();

    let variable = VariableId::new(0);
    let factor = FactorId::new(0);

    let id = store.add(DirectedEdge::variable_to_factor(variable, factor));

    assert_eq!(id, MessageId::new(0));
    assert_eq!(store.len(), 1);

    assert_eq!(store.variable_out(variable), &[id]);
    assert_eq!(store.factor_in(factor), &[id]);

    assert!(store.variable_in(variable).is_empty());
    assert!(store.factor_out(factor).is_empty());
}

#[test]
fn add_factor_to_variable_indexes_message() {
    let mut store = MessageStore::<f64>::new();

    let variable = VariableId::new(0);
    let factor = FactorId::new(0);

    let id = store.add(DirectedEdge::factor_to_variable(factor, variable));

    assert_eq!(id, MessageId::new(0));
    assert_eq!(store.len(), 1);

    assert_eq!(store.factor_out(factor), &[id]);
    assert_eq!(store.variable_in(variable), &[id]);

    assert!(store.factor_in(factor).is_empty());
    assert!(store.variable_out(variable).is_empty());
}

#[test]
fn add_both_directions_indexes_both_messages() {
    let mut store = MessageStore::<f64>::new();

    let variable = VariableId::new(0);
    let factor = FactorId::new(0);

    let variable_to_factor = store.add(DirectedEdge::variable_to_factor(variable, factor));

    let factor_to_variable = store.add(DirectedEdge::factor_to_variable(factor, variable));

    assert_eq!(store.len(), 2);

    assert_eq!(store.variable_out(variable), &[variable_to_factor]);

    assert_eq!(store.variable_in(variable), &[factor_to_variable]);

    assert_eq!(store.factor_in(factor), &[variable_to_factor]);

    assert_eq!(store.factor_out(factor), &[factor_to_variable]);
}

#[test]
fn adjacency_order_matches_graph_topology() {
    let mut graph = FactorGraph::new();

    let x = graph.add_variable(binary("x")).unwrap();
    let y = graph.add_variable(binary("y")).unwrap();
    let z = graph.add_variable(binary("z")).unwrap();

    let factor = FactorKind::Dense(DenseFactor::new(
        vec![x, y, z],
        vec![2, 2, 2],
        vec![1.0, 2.0, 3.0, 4.0, 5.0, 6.0, 7.0, 8.0],
    ));

    let f = graph.add_factor(factor).unwrap();

    let store = MessageStore::from_graph(&graph);

    let factor_in = store.factor_in(f);
    let factor_out = store.factor_out(f);

    assert_eq!(factor_in.len(), 3);
    assert_eq!(factor_out.len(), 3);

    for (i, &variable) in graph.factor_node(f).unwrap().scope().iter().enumerate() {
        assert_eq!(store.edge(factor_in[i]), DirectedEdge::variable_to_factor(variable, f));

        assert_eq!(store.edge(factor_out[i]), DirectedEdge::factor_to_variable(f, variable));
    }

    for &variable in &[x, y, z] {
        let variable_node = graph.variable_node(variable).unwrap();
        let factors = variable_node.factors();

        assert_eq!(factors.len(), 1);
        assert_eq!(factors[0], f);

        let variable_in = store.variable_in(variable);
        let variable_out = store.variable_out(variable);

        assert_eq!(store.edge(variable_in[0]), DirectedEdge::factor_to_variable(f, variable));

        assert_eq!(store.edge(variable_out[0]), DirectedEdge::variable_to_factor(variable, f));
    }
}

#[test]
fn variable_adjacency_order_matches_multiple_factors() {
    let mut graph = FactorGraph::new();

    let x = graph.add_variable(binary("x")).unwrap();
    let y = graph.add_variable(binary("y")).unwrap();

    let f0 = FactorKind::Dense(DenseFactor::new(vec![x, y], vec![2, 2], vec![1.0, 2.0, 3.0, 4.0]));

    let f1 = FactorKind::Dense(DenseFactor::new(vec![x], vec![2], vec![5.0, 6.0]));

    let f0 = graph.add_factor(f0).unwrap();
    let f1 = graph.add_factor(f1).unwrap();

    let store = MessageStore::from_graph(&graph);

    let factors = graph.variable_node(x).unwrap().factors();

    assert_eq!(factors, &[f0, f1]);

    let variable_out = store.variable_out(x);
    let variable_in = store.variable_in(x);

    assert_eq!(variable_out.len(), 2);
    assert_eq!(variable_in.len(), 2);

    for (i, &factor) in factors.iter().enumerate() {
        assert_eq!(store.edge(variable_out[i]), DirectedEdge::variable_to_factor(x, factor));

        assert_eq!(store.edge(variable_in[i]), DirectedEdge::factor_to_variable(factor, x));
    }

    // y is connected only to f0.
    assert_eq!(store.edge(store.variable_out(y)[0]), DirectedEdge::variable_to_factor(y, f0));

    assert_eq!(store.edge(store.variable_in(y)[0]), DirectedEdge::factor_to_variable(f0, y));
}

#[test]
fn isolated_variable_has_no_messages() {
    let mut graph = FactorGraph::<f64>::new();

    let x = graph.add_variable(binary("x")).unwrap();

    let store = MessageStore::from_graph(&graph);

    assert!(store.variable_in(x).is_empty());
    assert!(store.variable_out(x).is_empty());
}

#[test]
fn new_message_slot_is_empty() {
    let mut store = MessageStore::<f64>::new();

    let variable = VariableId::new(0);
    let factor = FactorId::new(0);

    let id = store.add(DirectedEdge::variable_to_factor(variable, factor));

    assert!(store.get(id).is_none());
}
