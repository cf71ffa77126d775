use loopy::algebra::SemiringOps;
use loopy::factor::{DenseFactor, DiscreteFactor, Factor, FactorKind, UnaryFactor};
use loopy::VariableId;

type Ops = SemiringOps<f64, fn(&f64, &f64) -> f64, fn(&Vec<f64>) -> f64, fn(&f64, &f64) -> f64>;

fn add_values(a: &f64, b: &f64) -> f64 {
    a + b
}

fn sub_values(a: &f64, b: &f64) -> f64 {
    a - b
}

fn log_sum_exp(block: &Vec<f64>) -> f64 {
    let max = block.iter().copied().fold(f64::NEG_INFINITY, f64::max);
    if max == f64::NEG_INFINITY {
        return max;
    }
    max + block.iter().map(|x| (x - max).exp()).sum::<f64>().ln()
}

fn max_value(block: &Vec<f64>) -> f64 {
    block.iter().copied().fold(f64::NEG_INFINITY, f64::max)
}

fn log_sum_product() -> Ops {
    SemiringOps { product: add_values, sum: log_sum_exp, quotient: sub_values, unit: 0.0 }
}

fn log_max_product() -> Ops {
    SemiringOps { product: add_values, sum: max_value, quotient: sub_values, unit: 0.0 }
}

fn v(id: usize) -> VariableId {
    VariableId::new(id)
}

fn ln_vec(values: &[f64]) -> Vec<f64> {
    values.iter().map(|x| x.ln()).collect()
}

#[test]
fn test_scope() {
    let f = DenseFactor::new(vec![v(0), v(1)], vec![2, 2], ln_vec(&[1.0, 2.0, 3.0, 4.0]));
    assert_eq!(f.scope(), &[v(0), v(1)]);
    assert_eq!(f.card().len(), 2);
}

#[test]
fn test_reduce_single_in_scope() {
    let f = DenseFactor::new(vec![v(0), v(1)], vec![2, 2], ln_vec(&[1.0, 2.0, 3.0, 4.0]));

    let g = FactorKind::Dense(f).reduce(&[v(0)], &log_sum_product());
    let expected = ln_vec(&[4.0, 6.0]);

    match g {
        FactorKind::Dense(d) => {
            panic!("Unexpected dense factor: {:?}", d);
        },
        FactorKind::Unary(u) => {
            assert_eq!(u.scope(), &[v(1)]);
            assert_eq!(u.data().len(), expected.len());
            for (a, b) in u.data().iter().zip(expected.iter()) {
                assert!((a - b).abs() <= 1e-12);
            }
        },
        FactorKind::Scalar(s) => {
            panic!("Unexpected scalar factor: {:?}", s);
        },
    }
}

#[test]
fn test_reduce_single_out_of_scope() {
    let f = DenseFactor::new(vec![v(0), v(1)], vec![2, 2], ln_vec(&[1.0, 2.0, 3.0, 4.0]));

    let g = FactorKind::Dense(f).reduce(&[v(2)], &log_sum_product());
    let expected = ln_vec(&[1.0, 2.0, 3.0, 4.0]);

    match g {
        FactorKind::Dense(d) => {
            assert_eq!(d.scope(), &[v(0), v(1)]);
            assert_eq!(d.card(), &[2, 2]);
            assert!(
                d.data().iter().zip(expected.iter()).all(|(a, b)| (a - b).abs() <= 1e-12),
                "Data changed when marginalizing an out-of-scope variable"
            );
        },
        FactorKind::Unary(u) => {
            panic!("Unexpected unary factor: {:?}", u);
        },
        FactorKind::Scalar(s) => {
            panic!("Unexpected scalar factor: {:?}", s);
        },
    }
}

#[test]
fn test_reduce_multiple_vars_logspace() {
    let f = DenseFactor::new(
        vec![v(0), v(1), v(2)],
        vec![2, 2, 2],
        ln_vec(&[1.0, 2.0, 3.0, 4.0, 5.0, 6.0, 7.0, 8.0]),
    );

    let g = FactorKind::Dense(f).reduce(&[v(0), v(2)], &log_sum_product());
    let expected = ln_vec(&[14.0, 22.0]);

    match g {
        FactorKind::Dense(d) => {
            panic!("Unexpected dense factor: {:?}", d);
        },
        FactorKind::Unary(u) => {
            assert_eq!(u.scope(), &[v(1)]);
            assert_eq!(u.data().len(), expected.len());
            for (a, b) in u.data().iter().zip(expected.iter()) {
                assert!((a - b).abs() <= 1e-12);
            }
        },
        FactorKind::Scalar(s) => {
            panic!("Unexpected scalar factor: {:?}", s);
        },
    }
}

#[test]
fn test_reduce_to_scalar() {
    let f = DenseFactor::new(vec![v(0)], vec![2], ln_vec(&[1.0, 2.0]));

    let g = FactorKind::Dense(f).reduce(&[v(0)], &log_sum_product());

    match g {
        FactorKind::Scalar(s) => {
            let expected = (1.0_f64 + 2.0_f64).ln();
            assert!((s.value() - expected).abs() <= 1e-12);
        },
        _ => panic!("Expected scalar factor"),
    }
}

#[test]
fn test_reduce_unsorted_scope() {
    let f = DenseFactor::new(vec![v(1), v(0)], vec![2, 2], ln_vec(&[1.0, 2.0, 3.0, 4.0]));

    let g = FactorKind::Dense(f).reduce(&[v(0)], &log_sum_product());

    match g {
        FactorKind::Unary(u) => {
            assert_eq!(u.scope(), &[v(1)]);

            let expected = [3.0_f64.ln(), 7.0_f64.ln()];

            for (actual, expected) in u.data().iter().zip(expected) {
                assert!((actual - expected).abs() < 1e-12);
            }
        },
        _ => panic!("Expected unary factor"),
    }
}

#[test]
fn test_reduce_unsorted_3d_scope() {
    // axis 0 -> v2
    // axis 1 -> v0
    // axis 2 -> v1
    let f = DenseFactor::new(
        vec![v(2), v(0), v(1)],
        vec![2, 2, 2],
        ln_vec(&[1.0, 2.0, 3.0, 4.0, 5.0, 6.0, 7.0, 8.0]),
    );

    // Eliminate v0 and v2, leaving v1.
    let g = FactorKind::Dense(f).reduce(&[v(0), v(2)], &log_sum_product());

    match g {
        FactorKind::Unary(u) => {
            assert_eq!(u.scope(), &[v(1)]);

            // v1 = 0: 1 + 3 + 5 + 7 = 16
            // v1 = 1: 2 + 4 + 6 + 8 = 20
            let expected = [16.0_f64.ln(), 20.0_f64.ln()];

            for (actual, expected) in u.data().iter().zip(expected) {
                assert!((actual - expected).abs() < 1e-12);
            }
        },
        _ => panic!("Expected unary factor"),
    }
}

#[test]
fn test_reduce_max_single_in_scope() {
    let f = DenseFactor::new(vec![v(0), v(1)], vec![2, 2], ln_vec(&[1.0, 2.0, 3.0, 4.0]));

    let g = FactorKind::Dense(f).reduce(&[v(0)], &log_max_product());

    match g {
        FactorKind::Unary(u) => {
            assert_eq!(u.scope(), &[v(1)]);

            let expected = [3.0_f64.ln(), 4.0_f64.ln()];

            for (actual, expected) in u.data().iter().zip(expected.iter()) {
                assert!((actual - expected).abs() < 1e-12, "Expected {}, got {}", expected, actual);
            }
        },
        FactorKind::Dense(d) => {
            panic!("Expected unary factor, got dense factor: {:?}", d);
        },
        FactorKind::Scalar(s) => {
            panic!("Expected unary factor, got scalar factor: {:?}", s);
        },
    }
}

#[test]
fn test_combine_dense_x_dense_intersect() {
    let f = DenseFactor::new(vec![v(0), v(1)], vec![2, 2], vec![1.0, 2.0, 3.0, 4.0]);
    let g = DenseFactor::new(vec![v(1), v(2)], vec![2, 2], vec![10.0, 20.0, 30.0, 40.0]);

    let out = match FactorKind::Dense(f).combine(FactorKind::Dense(g), &log_sum_product()) {
        FactorKind::Dense(d) => d,
        _ => panic!("Expected dense"),
    };

    // Expected shape: [0,1,2] -> [2,2,2]
    let expected = vec![11.0, 21.0, 32.0, 42.0, 13.0, 23.0, 34.0, 44.0];

    assert_eq!(out.scope(), &[v(0), v(1), v(2)]);
    assert_eq!(out.card(), &[2, 2, 2]);
    assert_eq!(out.data(), expected.as_slice());
}

#[test]
fn test_combine_dense_x_dense_disjoint() {
    let f = DenseFactor::new(vec![v(0)], vec![2], vec![1.0, 2.0]);
    let g = DenseFactor::new(vec![v(1)], vec![2], vec![10.0, 20.0]);

    let out = match FactorKind::Dense(f).combine(FactorKind::Dense(g), &log_sum_product()) {
        FactorKind::Dense(d) => d,
        _ => panic!("Expected dense"),
    };

    let expected = vec![11.0, 21.0, 12.0, 22.0];

    assert_eq!(out.scope(), &[v(0), v(1)]);
    assert_eq!(out.card(), &[2, 2]);
    assert_eq!(out.data(), expected.as_slice());
}

#[test]
fn test_combine_dense_x_unary_intersect() {
    let f = DenseFactor::new(vec![v(0), v(1)], vec![2, 2], vec![1.0, 2.0, 3.0, 4.0]);
    let u = UnaryFactor::new(v(1), vec![10.0, 20.0]);

    let out = match FactorKind::Dense(f).combine(FactorKind::Unary(u), &log_sum_product()) {
        FactorKind::Dense(d) => d,
        _ => panic!("Expected dense"),
    };

    let expected = vec![11.0, 22.0, 13.0, 24.0];

    assert_eq!(out.scope(), &[v(0), v(1)]);
    assert_eq!(out.card(), &[2, 2]);
    assert_eq!(out.data(), expected.as_slice());
}

#[test]
fn test_combine_dense_x_unary_disjoint() {
    let f = DenseFactor::new(vec![v(0), v(1)], vec![2, 2], vec![1.0, 2.0, 3.0, 4.0]);
    let u = UnaryFactor::new(v(2), vec![10.0, 20.0]);

    let out = match FactorKind::Dense(f).combine(FactorKind::Unary(u), &log_sum_product()) {
        FactorKind::Dense(d) => d,
        _ => panic!("Expected dense"),
    };

    // The table is laid out by the sorted output scope: axis `i` holds
    // `scope[i]`, the last axis (here the unary factor's variable) varying
    // fastest.
    let expected = vec![11.0, 21.0, 12.0, 22.0, 13.0, 23.0, 14.0, 24.0];

    assert_eq!(out.scope(), &[v(0), v(1), v(2)]);
    assert_eq!(out.card(), &[2, 2, 2]);
    assert_eq!(out.data(), expected.as_slice());
}

#[test]
fn test_combine_dense_x_dense_unsorted_scopes() {
    // Scope [1, 0] means:
    //   axis 0 -> variable 1
    //   axis 1 -> variable 0
    let f = DenseFactor::new(vec![v(1), v(0)], vec![2, 2], vec![1.0, 2.0, 3.0, 4.0]);
    let g = DenseFactor::new(vec![v(2), v(1)], vec![2, 2], vec![10.0, 20.0, 30.0, 40.0]);

    let out = match FactorKind::Dense(f).combine(FactorKind::Dense(g), &log_sum_product()) {
        FactorKind::Dense(d) => d,
        _ => panic!("Expected dense"),
    };

    assert_eq!(out.scope(), &[v(0), v(1), v(2)]);

    let expected = vec![11.0, 31.0, 23.0, 43.0, 12.0, 32.0, 24.0, 44.0];

    assert_eq!(out.card(), &[2, 2, 2]);
    assert_eq!(out.data(), expected.as_slice());
}

#[test]
fn test_combine_dense_x_unary_unsorted_scope() {
    // Dense scope [1, 0]:
    //   axis 0 -> variable 1
    //   axis 1 -> variable 0
    let f = DenseFactor::new(vec![v(1), v(0)], vec![2, 2], vec![1.0, 2.0, 3.0, 4.0]);
    let u = UnaryFactor::new(v(1), vec![10.0, 20.0]);

    let out = match FactorKind::Dense(f).combine(FactorKind::Unary(u), &log_sum_product()) {
        FactorKind::Dense(d) => d,
        _ => panic!("Expected dense"),
    };

    assert_eq!(out.scope(), &[v(0), v(1)]);

    let expected = vec![11.0, 23.0, 12.0, 24.0];

    assert_eq!(out.card(), &[2, 2]);
    assert_eq!(out.data(), expected.as_slice());
}
