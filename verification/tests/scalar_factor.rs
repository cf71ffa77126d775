use loopy::algebra::{ResidualOps, SemiringOps};
use loopy::factor::{DenseFactor, DiscreteFactor, Factor, FactorKind, ScalarFactor, UnaryFactor};
use loopy::VariableId;

type Ops = SemiringOps<f64, fn(&f64, &f64) -> f64, fn(&Vec<f64>) -> f64, fn(&f64, &f64) -> f64>;

type Residual = ResidualOps<f64, fn(&Vec<f64>, &Vec<f64>) -> f64, fn(&f64, &f64) -> f64, fn(&f64, &f64) -> bool>;

fn add_values(a: &f64, b: &f64) -> f64 {
    a + b
}

fn sub_values(a: &f64, b: &f64) -> f64 {
    a - b
}

fn log_sum_exp(block: &Vec<f64>) -> f64 {
    let max = block.iter().copied().fold(f64::NEG_INFINITY, f64::max);
    if max == f64::NEG_INFINITY {
        return max;
    }
    max + block.iter().map(|x| (x - max).exp()).sum::<f64>().ln()
}

fn max_value(block: &Vec<f64>) -> f64 {
    block.iter().copied().fold(f64::NEG_INFINITY, f64::max)
}

fn log_sum_product() -> Ops {
    SemiringOps { product: add_values, sum: log_sum_exp, quotient: sub_values, unit: 0.0 }
}

#[allow(dead_code)]
fn log_max_product() -> Ops {
    SemiringOps { product: add_values, sum: max_value, quotient: sub_values, unit: 0.0 }
}

fn max_abs_difference(a: &Vec<f64>, b: &Vec<f64>) -> f64 {
    a.iter().zip(b.iter()).map(|(x, y)| (x - y).abs()).fold(0.0, f64::max)
}

fn larger(a: &f64, b: &f64) -> f64 {
    a.max(*b)
}

fn at_most(a: &f64, b: &f64) -> bool {
    a <= b
}

#[allow(dead_code)]
fn residuals() -> Residual {
    ResidualOps { dist: max_abs_difference, max: larger, within: at_most, zero: 0.0, unbounded: f64::INFINITY }
}

fn ln(x: &f64) -> f64 {
    x.ln()
}

fn v(id: usize) -> VariableId {
    VariableId::new(id)
}

#[test]
fn scalar_factor_test_from_linear() {
    let factor = ScalarFactor::from_linear(4.0, &ln);

    assert!((factor.value() - 4.0_f64.ln()).abs() < 1e-12);
    assert!(factor.scope().is_empty());
}

#[test]
fn test_distance() {
    let lhs = FactorKind::Scalar(ScalarFactor::new(2.0));
    let rhs = FactorKind::Scalar(ScalarFactor::new(5.0));

    assert!((lhs.distance(&rhs, &residuals()) - 3.0).abs() < 1e-12);
}

#[test]
fn test_reduce() {
    let factor = ScalarFactor::new(2.0);

    let result = FactorKind::Scalar(factor).reduce(&[v(0)], &log_sum_product());

    match result {
        FactorKind::Scalar(scalar) => {
            assert_eq!(*scalar.value(), 2.0);
        },
        _ => panic!("Expected scalar factor"),
    }
}

#[test]
fn test_combine_scalar_x_scalar() {
    let lhs = ScalarFactor::new(2.0);
    let rhs = ScalarFactor::new(3.0);

    let result = FactorKind::Scalar(lhs).combine(FactorKind::Scalar(rhs), &log_sum_product());

    match result {
        FactorKind::Scalar(scalar) => {
            assert_eq!(*scalar.value(), 5.0);
        },
        _ => panic!("Expected scalar factor"),
    }
}

#[test]
fn test_combine_scalar_x_unary() {
    let scalar = ScalarFactor::new(10.0);
    let unary = UnaryFactor::new(v(0), vec![1.0, 2.0]);

    let result = FactorKind::Scalar(scalar).combine(FactorKind::Unary(unary), &log_sum_product());

    match result {
        FactorKind::Unary(unary) => {
            assert_eq!(unary.scope(), &[v(0)]);
            assert_eq!(unary.data(), &[11.0, 12.0]);
        },
        _ => panic!("Expected unary factor"),
    }
}

#[test]
fn test_combine_scalar_x_dense() {
    let scalar = ScalarFactor::new(10.0);

    let dense = DenseFactor::new(vec![v(0), v(1)], vec![2, 2], vec![1.0, 2.0, 3.0, 4.0]);

    let result = FactorKind::Scalar(scalar).combine(FactorKind::Dense(dense), &log_sum_product());

    match result {
        FactorKind::Dense(dense) => {
            let expected = vec![11.0, 12.0, 13.0, 14.0];

            assert_eq!(dense.scope(), &[v(0), v(1)]);
            assert_eq!(dense.card(), &[2, 2]);
            assert_eq!(dense.data(), expected.as_slice());
        },
        _ => panic!("Expected dense factor"),
    }
}

#[test]
fn test_normalize() {
    let factor = ScalarFactor::new(4.0);

    let normalized = FactorKind::Scalar(factor).normalize(&log_sum_product());

    match normalized {
        FactorKind::Scalar(normalized) => {
            assert_eq!(*normalized.value(), 0.0);
            assert!(normalized.scope().is_empty());
        },
        _ => panic!("Expected scalar factor"),
    }
}
