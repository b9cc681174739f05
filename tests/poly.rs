use anf::mon::Monomial;
use anf::order::{DegLex, Lex};
use anf::poly::Polynomial;
use anf::ring::Ring;

#[test]
fn mul() {
    let ring = Ring::<Lex>::new(8);
    let p1 = Polynomial::from_variable(&ring, ring.var(0));
    let p2 = Polynomial::from_variable(&ring, ring.var(1));
    assert_eq!("x_0*x_1", (p1.mul(&p2)).to_string());
}

#[test]
fn mul_mon() {
    let ring = Ring::<Lex>::new(2);
    let mut p1 = Polynomial::from_variable(&ring, ring.var(0));
    p1.add_assign(&Polynomial::from_monomial(&ring, Monomial::one(&ring)));
    let m: Monomial<_> = Monomial::from_variable(&ring, ring.var(1));
    assert_eq!("x_0*x_1 + x_1", (p1.mul_monomial(&m)).to_string());
}

fn sample(ring: &Ring<Lex>) -> Polynomial<'_, Lex> {
    let x0 = Polynomial::from_variable(ring, ring.var(0));
    let x1 = Polynomial::from_variable(ring, ring.var(1));
    let x2 = Polynomial::from_variable(ring, ring.var(2));
    x0.mul(&x1).add(&x2).add(&Polynomial::one(ring))
}

#[test]
fn adding_a_polynomial_to_itself_gives_zero() {
    let ring = Ring::<Lex>::new(3);
    let p = sample(&ring);
    assert_eq!("x_0*x_1 + x_2 + 1", p.to_string());
    let z = p.add(&p);
    assert!(z.is_zero());
    assert_eq!("0", z.to_string());
}

#[test]
fn addition_commutes_and_associates() {
    let ring = Ring::<Lex>::new(3);
    let a = sample(&ring);
    let b = Polynomial::from_variable(&ring, ring.var(2)).add(&Polynomial::from_variable(&ring, ring.var(0)));
    let c = Polynomial::one(&ring);
    assert_eq!(a.add(&b).to_string(), b.add(&a).to_string());
    assert_eq!(a.add(&b).to_string(), "x_0*x_1 + x_0 + 1");
    assert_eq!(a.add(&b).add(&c).to_string(), a.add(&b.add(&c)).to_string());
    assert_eq!(a.add(&b).add(&c).to_string(), "x_0*x_1 + x_0");
}

#[test]
fn multiplying_by_one_changes_nothing() {
    let ring = Ring::<Lex>::new(3);
    let p = sample(&ring);
    assert_eq!(p.mul_monomial(&Monomial::one(&ring)).to_string(), p.to_string());
    assert_eq!(p.mul(&Polynomial::one(&ring)).to_string(), p.to_string());
}

#[test]
fn multiplying_by_zero_gives_zero() {
    let ring = Ring::<Lex>::new(3);
    let p = sample(&ring);
    let z = p.mul_monomial(&Monomial::Zero);
    assert!(z.is_zero());
    assert_eq!("0", z.to_string());
    assert!(p.mul(&Polynomial::zero(&ring)).is_zero());
    assert!(Polynomial::zero(&ring).mul(&p).is_zero());
}

#[test]
fn equal_products_cancel() {
    // (x_0 + x_0*x_1) * x_1 = x_0*x_1 + x_0*x_1 = 0
    let ring = Ring::<Lex>::new(2);
    let x0 = Polynomial::from_variable(&ring, ring.var(0));
    let x0x1 = x0.mul(&Polynomial::from_variable(&ring, ring.var(1)));
    let p = x0.add(&x0x1);
    let m = Monomial::from_variable(&ring, ring.var(1));
    assert!(p.mul_monomial(&m).is_zero());
    // (x_0 + x_1) * (x_0 + x_1) = x_0 + x_1 over the Boolean ring
    let s = x0.add(&Polynomial::from_variable(&ring, ring.var(1)));
    assert_eq!(s.mul(&s).to_string(), "x_0 + x_1");
}

#[test]
fn leading_monomial_is_the_greatest() {
    let ring = Ring::<DegLex>::new(3);
    let x0 = Polynomial::from_variable(&ring, ring.var(0));
    let x1x2 = Polynomial::from_variable(&ring, ring.var(1)).mul(&Polynomial::from_variable(&ring, ring.var(2)));
    let p = x0.add(&x1x2);
    let lm = p.lm();
    assert_eq!(lm.to_string(), "x_1*x_2");
    assert!(Polynomial::zero(&ring).lm().is_zero());
}

#[test]
fn adding_monomials_toggles_them() {
    let ring = Ring::<Lex>::new(2);
    let one = Monomial::one(&ring);
    let x1 = Monomial::from_variable(&ring, ring.var(1));
    let p = Polynomial::zero(&ring).add_monomial(&x1).add_monomial(&one);
    assert_eq!(p.to_string(), "x_1 + 1");
    let mut q = p.add_monomial(&one);
    assert_eq!(q.to_string(), "x_1");
    q.add_assign_monomial(&Monomial::Zero);
    assert_eq!(q.to_string(), "x_1");
    q.add_assign_monomial(&x1);
    assert!(q.is_zero_mut());
}

#[test]
fn parity_adds_the_identity_on_odd_values() {
    let ring = Ring::<Lex>::new(2);
    let mut p = Polynomial::from_variable(&ring, ring.var(0));
    p.add_assign_parity(4);
    assert_eq!(p.to_string(), "x_0");
    p.add_assign_parity(7);
    assert_eq!(p.to_string(), "x_0 + 1");
    p.add_assign_parity(1);
    assert_eq!(p.to_string(), "x_0");
}

#[test]
fn from_zero_monomial_is_zero() {
    let ring = Ring::<Lex>::new(2);
    assert!(Polynomial::from_monomial(&ring, Monomial::Zero).is_zero());
    assert!(Polynomial::new(&ring).is_zero());
    assert_eq!(Polynomial::one(&ring).to_string(), "1");
    assert_eq!(Polynomial::one(&ring).ring().gens(), 2);
}

#[test]
fn additions_keep_the_monomials_added_an_odd_number_of_times() {
    let ring = Ring::<Lex>::new(3);
    let x0 = Monomial::from_variable(&ring, ring.var(0));
    let x1 = Monomial::from_variable(&ring, ring.var(1));
    let x0x2 = x0.mul_variable(ring.var(2));
    let one = Monomial::one(&ring);
    // x0 three times, x1 twice, x0*x2 once, 1 once
    let first = [&x0, &x1, &x0, &x0x2, &x1, &one, &x0];
    let second = [&one, &x0, &x0, &x0x2, &x1, &x0, &x1];
    let mut p = Polynomial::zero(&ring);
    for m in first {
        p.add_assign_monomial(m);
    }
    let mut q = Polynomial::zero(&ring);
    for m in second {
        q.add_assign_monomial(m);
    }
    assert_eq!(p.to_string(), "x_0*x_2 + x_0 + 1");
    assert_eq!(q.to_string(), p.to_string());
}

#[test]
fn multiplication_commutes() {
    let ring = Ring::<DegLex>::new(3);
    let x0 = Polynomial::from_variable(&ring, ring.var(0));
    let x1 = Polynomial::from_variable(&ring, ring.var(1));
    let x2 = Polynomial::from_variable(&ring, ring.var(2));
    let a = x0.add(&x1.mul(&x2)).add(&Polynomial::one(&ring));
    let b = x1.add(&x2);
    assert_eq!(a.mul(&b).to_string(), b.mul(&a).to_string());
    assert_eq!(a.mul(&b).to_string(), "x_0*x_1 + x_0*x_2 + x_1 + x_2");
}
