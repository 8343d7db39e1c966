use esa_rust::element_to_field;
use esa_rust::field::Scalar;
use esa_rust::poly::xgcd;

#[test]
fn xgcd_of_zero_and_constant() {
    let a: Vec<Scalar> = vec![];
    let b = vec![Scalar::one()];
    let (g, _u, _v) = xgcd(&a, &b).unwrap();
    assert_eq!(g, vec![Scalar::one()]);
}

#[test]
fn xgcd_of_polynomial_and_zero() {
    let x = element_to_field(&5);
    let a = vec![x, Scalar::one()];
    let b: Vec<Scalar> = vec![];
    let (g, u, v) = xgcd(&a, &b).unwrap();
    assert_eq!(g, a);
    assert_eq!(u, vec![Scalar::one()]);
    assert!(v.is_empty());
}

#[test]
fn xgcd_of_both_zero_is_none() {
    let a: Vec<Scalar> = vec![];
    assert!(xgcd(&a, &a).is_none());
}

#[test]
fn xgcd_of_coprime_linear_factors_is_constant() {
    let a = vec![element_to_field(&1), Scalar::one()];
    let b = vec![element_to_field(&2), Scalar::one()];
    let (g, _u, _v) = xgcd(&a, &b).unwrap();
    assert_eq!(g.len(), 1);
    assert!(!g[0].is_zero());
}

#[test]
fn xgcd_of_equal_linear_factors_is_that_factor() {
    let a = vec![element_to_field(&1), Scalar::one()];
    let (g, _u, _v) = xgcd(&a, &a.clone()).unwrap();
    assert_eq!(g.len(), 2);
}

#[test]
fn xgcd_of_zero_and_polynomial_is_that_polynomial() {
    let a: Vec<Scalar> = vec![];
    let b = vec![element_to_field(&3), element_to_field(&4), Scalar::one()];
    let (g, u, v) = xgcd(&a, &b).unwrap();
    assert_eq!(g, b);
    assert!(u.is_empty());
    assert_eq!(v, vec![Scalar::one()]);
}

#[test]
fn xgcd_with_constant_second_argument() {
    let a = vec![element_to_field(&7), Scalar::one()];
    let c = vec![element_to_field(&8)];
    let (g, u, v) = xgcd(&a, &c).unwrap();
    assert_eq!(g, c);
    assert!(u.is_empty());
    assert_eq!(v, vec![Scalar::one()]);
}
