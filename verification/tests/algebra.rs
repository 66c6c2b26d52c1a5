use kalk::types::{Error, Value};

fn num(x: f64) -> Value {
    Value::Number(x.to_bits())
}

fn mat(entries: Vec<f64>, width: usize) -> Value {
    Value::Matrix(entries.into_iter().map(num).collect(), width)
}

#[test]
fn sub_is_add_negate_on_scalars() {
    let a = num(2.5);
    let b = num(1.25);
    let d = a.sub(&b).unwrap();
    let n = b.negate().unwrap();
    let s = a.add(&n).unwrap();
    assert!(d.equal(&s));
    assert!(d.equal(&num(1.25)));
}

#[test]
fn add_commutes_on_scalars() {
    let a = num(2.0);
    let b = num(3.0);
    let x = a.add(&b).unwrap();
    let y = b.add(&a).unwrap();
    assert!(x.equal(&y));
    assert!(x.equal(&num(5.0)));
}

#[test]
fn mul_commutes_on_scalars() {
    let a = num(2.0);
    let b = num(3.5);
    let x = a.mul(&b).unwrap();
    let y = b.mul(&a).unwrap();
    assert!(x.equal(&y));
    assert!(x.equal(&num(7.0)));
}

#[test]
fn div_by_zero_is_arithmetic_error() {
    let a = num(5.0);
    assert!(matches!(a.div(&num(0.0)), Err(Error::ArithmeticError)));
    assert!(matches!(a.div(&num(-0.0)), Err(Error::ArithmeticError)));
}

#[test]
fn div_computes_quotients() {
    let q = num(1.0).div(&num(2.0)).unwrap();
    assert!(q.equal(&num(0.5)));
}

#[test]
fn div_refuses_matrices() {
    let m = mat(vec![1.0, 2.0], 2);
    assert!(matches!(num(1.0).div(&m), Err(Error::ArithmeticError)));
    assert!(matches!(m.div(&num(2.0)), Err(Error::ArithmeticError)));
}

#[test]
fn sub_matrices_elementwise() {
    let a = mat(vec![1.0, 2.0, 3.0, 4.0], 2);
    let b = mat(vec![0.5, 1.0, 1.5, 2.0], 2);
    let d = a.sub(&b).unwrap();
    let n = b.negate().unwrap();
    let s = a.add(&n).unwrap();
    assert!(d.equal(&s));
    assert!(d.equal(&mat(vec![0.5, 1.0, 1.5, 2.0], 2)));
}

#[test]
fn add_requires_equal_sizes() {
    let a = mat(vec![1.0, 2.0], 2);
    let b = mat(vec![1.0, 2.0], 1);
    assert!(matches!(a.add(&b), Err(Error::ArithmeticError)));
    assert!(matches!(a.add(&num(1.0)), Err(Error::ArithmeticError)));
}

#[test]
fn mul_matrix_product() {
    let a = mat(vec![1.0, 2.0, 3.0, 4.0], 2);
    let b = mat(vec![5.0, 6.0, 7.0, 8.0], 2);
    let p = a.mul(&b).unwrap();
    assert!(p.equal(&mat(vec![19.0, 22.0, 43.0, 50.0], 2)));
}

#[test]
fn mul_inner_dimension_mismatch() {
    let a = mat(vec![1.0, 2.0], 2);
    let b = mat(vec![3.0, 4.0, 5.0], 1);
    assert!(matches!(a.mul(&b), Err(Error::ArithmeticError)));
}

#[test]
fn mul_scales_by_scalars() {
    let m = mat(vec![1.0, 2.0, 3.0, 4.0], 2);
    let s = num(2.0).mul(&m).unwrap();
    assert!(s.equal(&mat(vec![2.0, 4.0, 6.0, 8.0], 2)));
    let t = m.mul(&num(2.0)).unwrap();
    assert!(t.equal(&s));
}

#[test]
fn negate_scalar_and_matrix() {
    assert!(num(2.0).negate().unwrap().equal(&num(-2.0)));
    let m = mat(vec![1.0, -2.0], 2);
    assert!(m.negate().unwrap().equal(&mat(vec![-1.0, 2.0], 2)));
}

#[test]
fn exp_integral_and_fractional() {
    let p = num(2.0).exp(&num(10.0)).unwrap();
    assert!(p.equal(&num(1024.0)));
    let q = num(2.0).exp(&num(-2.0)).unwrap();
    assert!(q.equal(&num(0.25)));
    let r = num(9.0).exp(&num(0.5)).unwrap();
    let bits = match r {
        Value::Number(b) => b,
        Value::Matrix(_, _) => panic!("scalar power gave a matrix"),
    };
    assert!((f64::from_bits(bits) - 3.0).abs() < 1e-9);
}

#[test]
fn exp_edge_cases() {
    // anything to the zero is 1, and a negative base refuses a fraction
    assert!(num(0.0).exp(&num(0.0)).unwrap().equal(&num(1.0)));
    let nan = num(-2.0).exp(&num(0.5)).unwrap();
    let bits = match nan {
        Value::Number(b) => b,
        Value::Matrix(_, _) => panic!("scalar power gave a matrix"),
    };
    assert!(f64::from_bits(bits).is_nan());
}

#[test]
fn exp_large_and_infinite_exponents() {
    let huge = num(2.0f64.powi(70));
    let p = num(2.0).exp(&huge).unwrap();
    let bits = match p {
        Value::Number(b) => b,
        Value::Matrix(_, _) => panic!("scalar power gave a matrix"),
    };
    assert!(f64::from_bits(bits).is_infinite());
    let q = num(0.5).exp(&num(f64::INFINITY)).unwrap();
    assert!(q.equal(&num(0.0)));
    let one = num(1.0).exp(&num(f64::NAN)).unwrap();
    assert!(one.equal(&num(1.0)));
}

#[test]
fn exp_refuses_matrices() {
    let m = mat(vec![1.0, 2.0], 2);
    assert!(matches!(num(2.0).exp(&m), Err(Error::ArithmeticError)));
    assert!(matches!(m.exp(&num(2.0)), Err(Error::ArithmeticError)));
}

#[test]
fn size_of_values() {
    assert_eq!(num(7.0).size(), (1, 1));
    assert_eq!(mat(vec![1.0, 2.0, 3.0, 4.0, 5.0, 6.0], 3).size(), (2, 3));
    assert_eq!(mat(vec![], 0).size(), (0, 0));
}

#[test]
fn is_number_distinguishes_shapes() {
    assert!(num(1.0).is_number());
    assert!(!mat(vec![1.0], 1).is_number());
}

#[test]
fn equality_follows_ieee_rules() {
    assert!(num(0.0).equal(&num(-0.0)));
    assert!(!num(f64::NAN).equal(&num(f64::NAN)));
    assert!(!mat(vec![1.0], 1).equal(&num(1.0)));
    assert!(!mat(vec![1.0, 2.0], 2).equal(&mat(vec![1.0, 2.0], 1)));
}

#[test]
fn duplicate_copies_structurally() {
    let m = mat(vec![1.0, 2.0, 3.0, 4.0], 2);
    assert!(m.duplicate().equal(&m));
}

#[test]
fn render_scalars_and_matrices() {
    assert_eq!(num(1.5).render(false), "1.5");
    let m = mat(vec![19.0, 22.0, 43.0, 50.0], 2);
    assert_eq!(m.render(false), "[19, 22; 43, 50]");
    assert_eq!(m.render(true), "[19, 22;\n 43, 50]");
    assert_eq!(mat(vec![], 0).render(false), "[]");
}
