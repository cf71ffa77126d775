use loopy::factor::FactorId;
use loopy::message::{DirectedEdge, Endpoint, MessageId};
use loopy::{DiscreteDomain, Domain, Variable, VariableId};

#[test]
fn discrete_domain_lists_its_values() {
    let d = DiscreteDomain::new(&["low", "mid", "high"]);

    assert_eq!(d.len(), 3);
    assert!(!d.is_empty());
    assert_eq!(d.values(), &["low".to_owned(), "mid".to_owned(), "high".to_owned()]);

    let e = DiscreteDomain::new(&[]);
    assert_eq!(e.len(), 0);
    assert!(e.is_empty());
}

#[test]
fn variable_keeps_name_and_domain() {
    let v = Variable::discrete("weather", &["sun", "rain"]);

    assert_eq!(v.name(), "weather");
    let Domain::Discrete(d) = v.domain();
    assert_eq!(d.values(), &["sun".to_owned(), "rain".to_owned()]);

    let w = Variable::new("w", Domain::Discrete(DiscreteDomain::new(&["a"])));
    assert_eq!(w.name(), "w");
}

#[test]
fn identifiers_round_trip_their_index() {
    assert_eq!(VariableId::new(5).index(), 5);
    assert_eq!(FactorId::new(8).index(), 8);
    assert_eq!(MessageId::new(13).index(), 13);
    assert!(VariableId::new(1).same(VariableId::new(1)));
    assert!(VariableId::new(1).precedes(VariableId::new(2)));
    assert!(!VariableId::new(2).precedes(VariableId::new(1)));
    assert!(FactorId::new(3).same(FactorId::new(3)));
}

#[test]
fn directed_edges_name_their_endpoints() {
    let x = VariableId::new(0);
    let f = FactorId::new(1);

    let e = DirectedEdge::variable_to_factor(x, f);
    assert_eq!(e.from, Endpoint::Variable(x));
    assert_eq!(e.to, Endpoint::Factor(f));

    let e = DirectedEdge::factor_to_variable(f, x);
    assert_eq!(e.from, Endpoint::Factor(f));
    assert_eq!(e.to, Endpoint::Variable(x));
}
