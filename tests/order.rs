use anf::mon::Monomial;
use anf::order::{DegLex, DegRevLex, Lex, MonomialOrdering};
use anf::poly::Polynomial;
use anf::ring::Ring;
use std::cmp::Ordering;

fn test_poly<'a, O: MonomialOrdering>(ring: &'a Ring<O>) -> Polynomial<'a, O> {
    let x: Vec<_> = (0..4)
        .map(|i| Polynomial::from_variable(ring, ring.var(i)))
        .collect();
    let mut p = x[0]
        .mul(&x[1])
        .mul(&x[2])
        .add(&x[0].mul(&x[2]))
        .add(&x[0])
        .add(&x[1].mul(&x[2]).mul(&x[3]))
        .add(&x[1].mul(&x[3]))
        .add(&x[2])
        .add(&x[3]);
    p.justify();
    p
}

#[test]
fn lex_order() {
    let ring = Ring::<Lex>::new(4);
    let p = test_poly(&ring);
    assert_eq!(
        "x_0*x_1*x_2 + x_0*x_2 + x_0 + x_1*x_2*x_3 + x_1*x_3 + x_2 + x_3",
        p.to_string()
    );
}

#[test]
fn degrevlex_order() {
    let ring = Ring::<DegRevLex>::new(4);
    let p = test_poly(&ring);
    assert_eq!(
        "x_2*x_1*x_0 + x_3*x_2*x_1 + x_2*x_0 + x_3*x_1 + x_0 + x_2 + x_3",
        p.to_string()
    );
}

#[test]
fn deglex_order() {
    let ring = Ring::<DegLex>::new(4);
    let p = test_poly(&ring);
    assert_eq!(
        "x_0*x_1*x_2 + x_1*x_2*x_3 + x_0*x_2 + x_1*x_3 + x_0 + x_2 + x_3",
        p.to_string()
    );
}

fn mon<'a, O: MonomialOrdering>(ring: &'a Ring<O>, vars: &[usize]) -> Monomial<'a, O> {
    let mut m = Monomial::one(ring);
    for &v in vars {
        m = m.mul_variable(ring.var(v));
    }
    m
}

#[test]
fn zero_is_below_every_nonzero_monomial() {
    let ring = Ring::<Lex>::new(3);
    let zero: Monomial<Lex> = Monomial::Zero;
    let one = Monomial::one(&ring);
    let x0 = mon(&ring, &[0]);
    assert_eq!(Lex::cmp(&zero, &one), Ordering::Less);
    assert_eq!(Lex::cmp(&x0, &zero), Ordering::Greater);
    assert_eq!(Lex::cmp(&zero, &Monomial::Zero), Ordering::Equal);
    let ring = Ring::<DegLex>::new(1);
    assert_eq!(DegLex::cmp(&Monomial::Zero, &Monomial::one(&ring)), Ordering::Less);
    let ring = Ring::<DegRevLex>::new(1);
    assert_eq!(DegRevLex::cmp(&Monomial::Zero, &Monomial::one(&ring)), Ordering::Less);
}

#[test]
fn lex_ranks_lower_ordinals_higher() {
    let ring = Ring::<Lex>::new(4);
    let x0 = mon(&ring, &[0]);
    let x1x2x3 = mon(&ring, &[1, 2, 3]);
    let x0x2 = mon(&ring, &[0, 2]);
    let one = Monomial::one(&ring);
    assert_eq!(Lex::cmp(&x0, &x1x2x3), Ordering::Greater);
    assert_eq!(Lex::cmp(&x0x2, &x0), Ordering::Greater);
    assert_eq!(Lex::cmp(&one, &x0), Ordering::Less);
    assert_eq!(Lex::cmp(&x0x2, &mon(&ring, &[2, 0])), Ordering::Equal);
}

#[test]
fn graded_orders_rank_degree_first() {
    let ring = Ring::<DegLex>::new(4);
    let x0 = mon(&ring, &[0]);
    let x2x3 = mon(&ring, &[2, 3]);
    assert_eq!(DegLex::cmp(&x0, &x2x3), Ordering::Less);
    assert_eq!(DegLex::cmp(&mon(&ring, &[0, 3]), &mon(&ring, &[1, 2])), Ordering::Greater);
    let ring = Ring::<DegRevLex>::new(4);
    assert_eq!(DegRevLex::cmp(&mon(&ring, &[0]), &mon(&ring, &[2, 3])), Ordering::Less);
    // scanned from the highest ordinal: x_2 against x_3
    assert_eq!(DegRevLex::cmp(&mon(&ring, &[0, 3]), &mon(&ring, &[1, 2])), Ordering::Less);
    assert_eq!(DegRevLex::cmp(&mon(&ring, &[1, 2]), &mon(&ring, &[0, 3])), Ordering::Greater);
}

#[test]
fn ordering_is_antisymmetric_and_transitive_on_examples() {
    let ring = Ring::<DegRevLex>::new(4);
    let ms = [
        Monomial::Zero,
        mon(&ring, &[]),
        mon(&ring, &[0]),
        mon(&ring, &[3]),
        mon(&ring, &[0, 2]),
        mon(&ring, &[1, 3]),
        mon(&ring, &[0, 1, 2]),
    ];
    for a in ms.iter() {
        for b in ms.iter() {
            assert_eq!(DegRevLex::cmp(a, b), DegRevLex::cmp(b, a).reverse());
            for c in ms.iter() {
                if DegRevLex::cmp(a, b) == Ordering::Less && DegRevLex::cmp(b, c) == Ordering::Less {
                    assert_eq!(DegRevLex::cmp(a, c), Ordering::Less);
                }
            }
        }
    }
}
