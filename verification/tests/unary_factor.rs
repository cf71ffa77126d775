use loopy::algebra::{ResidualOps, SemiringOps};
use loopy::factor::{DenseFactor, DiscreteFactor, Factor, FactorKind, ScalarFactor, UnaryFactor};
use loopy::VariableId;

type Ops = SemiringOps<f64, fn(&f64, &f64) -> f64, fn(&Vec<f64>) -> f64, fn(&f64, &f64) -> f64>;

type Residual = ResidualOps<f64, fn(&Vec<f64>, &Vec<f64>) -> f64, fn(&f64, &f64) -> f64, fn(&f64, &f64) -> bool>;

fn add_values(a: &f64, b: &f64) -> f64 {
    a + b
}

fn sub_values(a: &f64, b: &f64) -> f64 {
    a - b
}

fn log_sum_exp(block: &Vec<f64>) -> f64 {
    let max = block.iter().copied().fold(f64::NEG_INFINITY, f64::max);
    if max == f64::NEG_INFINITY {
        return max;
    }
    max + block.iter().map(|x| (x - max).exp()).sum::<f64>().ln()
}

fn max_value(block: &Vec<f64>) -> f64 {
    block.iter().copied().fold(f64::NEG_INFINITY, f64::max)
}

fn log_sum_product() -> Ops {
    SemiringOps { product: add_values, sum: log_sum_exp, quotient: sub_values, unit: 0.0 }
}

#[allow(dead_code)]
fn log_max_product() -> Ops {
    SemiringOps { product: add_values, sum: max_value, quotient: sub_values, unit: 0.0 }
}

fn max_abs_difference(a: &Vec<f64>, b: &Vec<f64>) -> f64 {
    a.iter().zip(b.iter()).map(|(x, y)| (x - y).abs()).fold(0.0, f64::max)
}

fn larger(a: &f64, b: &f64) -> f64 {
    a.max(*b)
}

fn at_most(a: &f64, b: &f64) -> bool {
    a <= b
}

#[allow(dead_code)]
fn residuals() -> Residual {
    ResidualOps { dist: max_abs_difference, max: larger, within: at_most, zero: 0.0, unbounded: f64::INFINITY }
}

fn ln(x: &f64) -> f64 {
    x.ln()
}

fn v(id: usize) -> VariableId {
    VariableId::new(id)
}

fn ln_array(v: &[f64]) -> Vec<f64> {
    v.iter().map(|x| x.ln()).collect()
}

//
// Construction Tests
//

#[test]
fn test_new() {
    let f = UnaryFactor::new(v(3), vec![1.0, 2.0, 3.0]);

    assert_eq!(f.var(), v(3));
    assert_eq!(f.scope(), &[v(3)]);
    assert_eq!(f.card(), &[3]);
    assert_eq!(f.data(), &[1.0, 2.0, 3.0]);
}

#[test]
fn unary_factor_test_from_linear() {
    let f = UnaryFactor::from_linear(v(2), vec![1.0, 10.0, 100.0], &ln);

    let expected = ln_array(&[1.0, 10.0, 100.0]);

    assert_eq!(f.var(), v(2));
    assert_eq!(f.scope(), &[v(2)]);
    assert_eq!(f.card(), &[3]);

    for (actual, expected) in f.data().iter().zip(expected.iter()) {
        assert!((actual - expected).abs() <= 1e-12);
    }
}

#[test]
fn test_into_data() {
    let f = UnaryFactor::new(v(7), vec![1.0, 2.0, 3.0]);

    assert_eq!(f.into_data(), vec![1.0, 2.0, 3.0]);
}

//
// reduce Tests
//

#[test]
fn test_reduce_in_scope() {
    let f = UnaryFactor::new(v(0), ln_array(&[1.0, 2.0]));

    let result = FactorKind::Unary(f).reduce(&[v(0)], &log_sum_product());

    match result {
        FactorKind::Scalar(s) => {
            let expected = (1.0_f64 + 2.0).ln();
            assert!((s.value() - expected).abs() <= 1e-12);
        },
        _ => panic!("Expected scalar factor"),
    }
}

#[test]
fn test_reduce_out_of_scope() {
    let f = UnaryFactor::new(v(0), vec![1.0, 2.0]);

    let result = FactorKind::Unary(f).reduce(&[v(1)], &log_sum_product());

    match result {
        FactorKind::Unary(u) => {
            assert_eq!(u.scope(), &[v(0)]);
            assert_eq!(u.data(), &[1.0, 2.0]);
        },
        _ => panic!("Expected unary factor"),
    }
}

//
// Combine Tests
//

#[test]
fn test_combine_unary_x_unary_intersect() {
    let f = UnaryFactor::new(v(0), vec![1.0, 2.0]);
    let g = UnaryFactor::new(v(0), vec![10.0, 20.0]);

    let result = FactorKind::Unary(f).combine(FactorKind::Unary(g), &log_sum_product());

    match result {
        FactorKind::Unary(u) => {
            assert_eq!(u.scope(), &[v(0)]);
            assert_eq!(u.data(), &[11.0, 22.0]);
        },
        _ => panic!("Expected unary factor"),
    }
}

#[test]
fn test_combine_unary_x_unary_intersect_three_states() {
    let f = UnaryFactor::new(v(0), vec![1.0, 2.0, 3.0]);
    let g = UnaryFactor::new(v(0), vec![10.0, 20.0, 30.0]);

    let result = FactorKind::Unary(f).combine(FactorKind::Unary(g), &log_sum_product());

    match result {
        FactorKind::Unary(u) => {
            assert_eq!(u.scope(), &[v(0)]);
            assert_eq!(u.data(), &[11.0, 22.0, 33.0]);
        },
        _ => panic!("Expected unary factor"),
    }
}

#[test]
fn test_combine_unary_x_unary_disjoint() {
    let f = UnaryFactor::new(v(0), vec![1.0, 2.0]);
    let g = UnaryFactor::new(v(1), vec![10.0, 20.0]);

    let result = FactorKind::Unary(f).combine(FactorKind::Unary(g), &log_sum_product());

    match result {
        FactorKind::Dense(d) => {
            assert_eq!(d.scope(), &[v(0), v(1)]);

            let expected = vec![11.0, 21.0, 12.0, 22.0];

            assert_eq!(d.card(), &[2, 2]);
            assert_eq!(d.data(), expected.as_slice());
        },
        _ => panic!("Expected dense factor"),
    }
}

#[test]
fn test_combine_unary_x_unary_unsorted_scope() {
    let f = UnaryFactor::new(v(1), vec![1.0, 2.0]);
    let g = UnaryFactor::new(v(0), vec![10.0, 20.0]);

    let result = FactorKind::Unary(f).combine(FactorKind::Unary(g), &log_sum_product());

    match result {
        FactorKind::Dense(d) => {
            assert_eq!(d.scope(), &[v(0), v(1)]);

            let expected = vec![11.0, 12.0, 21.0, 22.0];

            assert_eq!(d.card(), &[2, 2]);
            assert_eq!(d.data(), expected.as_slice());
        },
        _ => panic!("Expected dense factor"),
    }
}

#[test]
fn test_combine_unary_x_scalar() {
    let f = UnaryFactor::new(v(0), vec![1.0, 2.0]);
    let scalar = ScalarFactor::new(10.0);

    let result = FactorKind::Unary(f).combine(FactorKind::Scalar(scalar), &log_sum_product());

    match result {
        FactorKind::Unary(u) => {
            assert_eq!(u.scope(), &[v(0)]);
            assert_eq!(u.data(), &[11.0, 12.0]);
        },
        _ => panic!("Expected unary factor"),
    }
}

#[test]
fn test_combine_unary_x_dense_intersect() {
    let f = UnaryFactor::new(v(1), vec![10.0, 20.0]);

    let dense = DenseFactor::new(vec![v(0), v(1)], vec![2, 2], vec![1.0, 2.0, 3.0, 4.0]);

    let result = FactorKind::Unary(f).combine(FactorKind::Dense(dense), &log_sum_product());

    match result {
        FactorKind::Dense(d) => {
            assert_eq!(d.scope(), &[v(0), v(1)]);

            let expected = vec![11.0, 22.0, 13.0, 24.0];

            assert_eq!(d.card(), &[2, 2]);
            assert_eq!(d.data(), expected.as_slice());
        },
        _ => panic!("Expected dense factor"),
    }
}

#[test]
fn test_combine_unary_x_dense_disjoint() {
    let f = UnaryFactor::new(v(2), vec![10.0, 20.0]);

    let dense = DenseFactor::new(vec![v(0), v(1)], vec![2, 2], vec![1.0, 2.0, 3.0, 4.0]);

    let result = FactorKind::Unary(f).combine(FactorKind::Dense(dense), &log_sum_product());
    match result {
        FactorKind::Dense(d) => {
            assert_eq!(d.scope(), &[v(0), v(1), v(2)]);

            // The table is laid out by the sorted output scope: axis `i` holds
            // `scope[i]`, the last axis (here the unary factor's variable)
            // varying fastest.
            let expected = vec![11.0, 21.0, 12.0, 22.0, 13.0, 23.0, 14.0, 24.0];

            assert_eq!(d.card(), &[2, 2, 2]);
            assert_eq!(d.data(), expected.as_slice());
        },
        _ => panic!("Expected dense factor"),
    }
}

#[test]
fn test_combine_unary_x_dense_unsorted_scope() {
    let f = UnaryFactor::new(v(1), vec![10.0, 20.0]);

    let dense = DenseFactor::new(vec![v(1), v(0)], vec![2, 2], vec![1.0, 2.0, 3.0, 4.0]);

    let result = FactorKind::Unary(f).combine(FactorKind::Dense(dense), &log_sum_product());

    match result {
        FactorKind::Dense(d) => {
            assert_eq!(d.scope(), &[v(0), v(1)]);

            let expected = vec![11.0, 23.0, 12.0, 24.0];

            assert_eq!(d.card(), &[2, 2]);
            assert_eq!(d.data(), expected.as_slice());
        },
        _ => panic!("Expected dense factor"),
    }
}

//
// Normalize tests
//

#[test]
fn test_normalize_log_sum_product() {
    let factor = UnaryFactor::from_linear(v(0), vec![2.0, 3.0], &ln);

    let normalized = FactorKind::Unary(factor).normalize(&log_sum_product());

    let expected = [(2.0_f64 / 5.0).ln(), (3.0_f64 / 5.0).ln()];

    let FactorKind::Unary(normalized) = normalized else {
        panic!("expected unary factor");
    };

    for (actual, expected) in normalized.data().iter().zip(expected) {
        assert!((actual - expected).abs() < 1e-12);
    }
}

#[test]
fn test_normalize_log_max_product() {
    let factor = UnaryFactor::from_linear(v(0), vec![2.0, 4.0], &ln);

    let normalized = FactorKind::Unary(factor).normalize(&log_max_product());

    let expected = [(2.0_f64 / 4.0).ln(), 0.0];

    let FactorKind::Unary(normalized) = normalized else {
        panic!("expected unary factor");
    };

    for (actual, expected) in normalized.data().iter().zip(expected) {
        assert!((actual - expected).abs() < 1e-12);
    }
}
