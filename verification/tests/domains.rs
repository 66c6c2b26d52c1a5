use kalk::sets::{ArithmeticProgression, FiniteSet, IterableSet, QueryableSet, SetSize, SizedSet};
use kalk::types::Value;

fn num(x: f64) -> Value {
    Value::Number(x.to_bits())
}

fn bits(x: f64) -> u64 {
    x.to_bits()
}

#[test]
fn progression_cardinality() {
    let p = ArithmeticProgression::new_finite(bits(0.0), bits(2.0), bits(10.0));
    assert!(matches!(p.card(), SetSize::Finite(6)));
}

#[test]
fn progression_membership() {
    let p = ArithmeticProgression::new_finite(bits(0.0), bits(2.0), bits(10.0));
    assert!(!p.contains(&num(7.0)));
    assert!(p.contains(&num(4.0)));
    assert!(!p.contains(&Value::Matrix(vec![num(4.0)], 1)));
}

#[test]
fn progression_indexing() {
    let p = ArithmeticProgression::new_finite(bits(0.0), bits(2.0), bits(10.0));
    match p.index(3) {
        Some(v) => assert!(v.equal(&num(6.0))),
        None => panic!("the progression has a fourth element"),
    }
}

#[test]
fn progression_with_offset_start() {
    let p = ArithmeticProgression::new_infinite(bits(1.5), bits(0.25));
    assert!(matches!(p.card(), SetSize::Infinite));
    match p.index(2) {
        Some(v) => assert!(v.equal(&num(2.0))),
        None => panic!("the progression has a third element"),
    }
    assert!(p.contains(&num(2.25)));
    assert!(!p.contains(&num(2.3)));
}

#[test]
fn finite_set_cardinality_and_order() {
    let s = FiniteSet::new(vec![num(3.0), num(1.0)]);
    assert!(matches!(s.card(), SetSize::Finite(2)));
    match s.index(0) {
        Some(v) => assert!(v.equal(&num(3.0))),
        None => panic!("the set has a first element"),
    }
    match s.index(1) {
        Some(v) => assert!(v.equal(&num(1.0))),
        None => panic!("the set has a second element"),
    }
    assert!(matches!(s.index(2), None));
}

#[test]
fn finite_set_membership_is_structural() {
    let m = Value::Matrix(vec![num(1.0), num(2.0)], 2);
    let s = FiniteSet::new(vec![num(3.0), m]);
    assert!(s.contains(&num(3.0)));
    assert!(s.contains(&Value::Matrix(vec![num(1.0), num(2.0)], 2)));
    assert!(!s.contains(&num(2.0)));
    assert!(!s.contains(&Value::Matrix(vec![num(1.0), num(2.0)], 1)));
}
