use anf::mon::{Monomial, VariableOrder};
use anf::order::{DegRevLex, Lex};
use anf::ring::Ring;

#[test]
fn display() {
    assert_eq!(2 + 2, 4);
}

fn ordinals(m: &Monomial<Lex>) -> Vec<usize> {
    m.vars().unwrap().iter().map(VariableOrder::order).collect()
}

#[test]
fn variables_are_kept_sorted_and_idempotent() {
    let ring = Ring::<Lex>::new(5);
    let m = Monomial::one(&ring)
        .mul_variable(ring.var(3))
        .mul_variable(ring.var(1))
        .mul_variable(ring.var(4));
    assert_eq!(ordinals(&m), vec![1, 3, 4]);
    let same = m.mul_variable(ring.var(3));
    assert_eq!(ordinals(&same), vec![1, 3, 4]);
    assert!(same == m);
    let more = m.mul_variable(ring.var(0));
    assert_eq!(ordinals(&more), vec![0, 1, 3, 4]);
    assert_eq!(more.degree(), 4);
}

#[test]
fn product_is_the_union() {
    let ring = Ring::<Lex>::new(4);
    let a = Monomial::from_variable(&ring, ring.var(2)).mul_variable(ring.var(0));
    let b = Monomial::from_variable(&ring, ring.var(3)).mul_variable(ring.var(2));
    let p = a.mul(&b);
    assert_eq!(ordinals(&p), vec![0, 2, 3]);
    assert_eq!(p.to_string(), "x_0*x_2*x_3");
    let mut q = a.clone();
    q.mul_assign(&b);
    assert!(q == p);
    assert!(a.mul(&Monomial::Zero).is_zero());
    assert!(Monomial::Zero.mul(&a).is_zero());
}

#[test]
fn identity_and_zero() {
    let ring = Ring::<Lex>::new(2);
    let one = Monomial::new(&ring);
    assert!(one.is_one());
    assert!(!one.is_zero());
    assert_eq!(one.degree(), 0);
    assert_eq!(one.to_string(), "1");
    assert!(one.ring().is_some());
    let zero: Monomial<Lex> = Monomial::Zero;
    assert!(zero.is_zero());
    assert!(!zero.is_one());
    assert_eq!(zero.degree(), 0);
    assert!(zero.vars().is_none());
    assert!(zero.ring().is_none());
    assert_eq!(zero.to_string(), "0");
    assert!(zero != one);
    assert!(zero < one);
    let x0 = Monomial::from_variable(&ring, ring.var(0));
    let x1 = Monomial::from_variable(&ring, ring.var(1));
    assert!(x1 < x0);
    assert!(one < x1);
}

#[test]
fn written_from_the_highest_ordinal_under_degrevlex() {
    let ring = Ring::<DegRevLex>::new(3);
    let m = Monomial::from_variable(&ring, ring.var(0)).mul_variable(ring.var(2));
    assert_eq!(m.to_string(), "x_2*x_0");
}

#[test]
fn renamed_variable_is_written_with_its_new_name() {
    let mut r = Ring::<Lex>::new(3);
    r.set_variable_name("a".to_string(), 2);
    let m = Monomial::from_variable(&r, r.var(2)).mul_variable(r.var(0));
    assert_eq!(m.to_string(), "x_0*a");
    assert_eq!(Monomial::one(&r).to_string(), "1");
}
