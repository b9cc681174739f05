use anf::order::Lex;
use anf::ring::Ring;
use anf::var::{AssociatedVariableType, Variable};

#[test]
fn variable_accessors() {
    let mut v = Variable::new("a".to_string(), 3);
    assert_eq!(v.name(), "a");
    assert_eq!(v.order(), 3);
    assert!(matches!(v.associated_type(), AssociatedVariableType::NoType));
    v.set_name("b".to_string());
    v.set_associated_type(AssociatedVariableType::K(7));
    assert_eq!(v.name(), "b");
    assert!(matches!(v.associated_type(), AssociatedVariableType::K(7)));
    assert_eq!(v.order(), 3);
}

#[test]
fn variables_compare_by_ordinal() {
    let a = Variable::new("a".to_string(), 1);
    let b = Variable::new("b".to_string(), 1);
    let c = Variable::new("a".to_string(), 2);
    assert!(a == b);
    assert!(a != c);
    assert!(a < c);
}

#[test]
fn ring_names_variables_by_default() {
    let mut ring = Ring::<Lex>::new(12);
    assert_eq!(ring.gens(), 12);
    assert_eq!(ring.var(0).name(), "x_0");
    assert_eq!(ring.var(11).name(), "x_11");
    assert_eq!(ring.var(11).order(), 11);
    ring.set_variable_name("k".to_string(), 11);
    ring.set_variable_type(AssociatedVariableType::X(1, 2), 11);
    assert_eq!(ring.var(11).name(), "k");
    assert!(matches!(ring.var(11).associated_type(), AssociatedVariableType::X(1, 2)));
    assert_eq!(ring.var(11).order(), 11);
}
