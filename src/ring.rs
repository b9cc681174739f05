use vstd::prelude::*;

use crate::var::{AssociatedVariableType, Variable};
use std::marker::PhantomData;
use vstd::string::StringExecFns;

verus! {

/// The decimal digits of `n`, most significant first.
pub open spec fn decimal(n: nat) -> Seq<char>
    decreases n,
{
    let digit = seq!['0', '1', '2', '3', '4', '5', '6', '7', '8', '9'][(n % 10) as int];
    if n < 10 {
        seq![digit]
    } else {
        decimal(n / 10).push(digit)
    }
}

/// The name a fresh variable space gives to variable `i`: `x_` and the
/// decimal digits of `i`.
pub open spec fn default_name(i: nat) -> Seq<char> {
    seq!['x', '_'] + decimal(i)
}

/// The character of one decimal digit.
fn digit_str(d: usize) -> (r: &'static str)
    requires
        d < 10,
    ensures
        r@ == seq![seq!['0', '1', '2', '3', '4', '5', '6', '7', '8', '9'][d as int]],
{
    proof {
        reveal_strlit("0");
        reveal_strlit("1");
        reveal_strlit("2");
        reveal_strlit("3");
        reveal_strlit("4");
        reveal_strlit("5");
        reveal_strlit("6");
        reveal_strlit("7");
        reveal_strlit("8");
        reveal_strlit("9");
    }
    match d {
        0 => "0",
        1 => "1",
        2 => "2",
        3 => "3",
        4 => "4",
        5 => "5",
        6 => "6",
        7 => "7",
        8 => "8",
        _ => "9",
    }
}

/// Appends the decimal digits of `n` to `s`.
fn append_decimal(s: &mut String, n: usize)
    ensures
        final(s)@ == old(s)@ + decimal(n as nat),
    decreases n,
{
    if n >= 10 {
        append_decimal(s, n / 10);
    }
    s.append(digit_str(n % 10));
    assert(s@ =~= old(s)@ + decimal(n as nat));
}

/// The default name of variable `i`.
fn default_name_of(i: usize) -> (r: String)
    ensures
        r@ == default_name(i as nat),
{
    proof {
        reveal_strlit("x_");
    }
    let mut s = String::from_str("x_");
    append_decimal(&mut s, i);
    s
}

/// A variable space: variables `0..n` by ordinal, with names and tags.
/// The ordering type parameter ties every monomial and polynomial built on
/// the space to one monomial ordering.
pub struct Ring<T> {
    vars: Vec<Variable>,
    order: PhantomData<T>,
}

impl<T> Ring<T> {
    #[verifier::type_invariant]
    spec fn inv(&self) -> bool {
        &&& self.vars@.len() <= u32::MAX + 1
        &&& forall|i: int| 0 <= i < self.vars@.len() ==> self.vars@[i].spec_order() == i
    }

    /// The number of variables.
    pub closed spec fn spec_gens(&self) -> nat {
        self.vars@.len()
    }

    /// The variables' names, by ordinal.
    pub closed spec fn spec_names(&self) -> Seq<Seq<char>> {
        self.vars@.map_values(|v: Variable| v.spec_name())
    }

    /// The variables' tags, by ordinal.
    pub closed spec fn spec_types(&self) -> Seq<AssociatedVariableType> {
        self.vars@.map_values(|v: Variable| v.spec_associated_type())
    }

    /// A space of `n` variables, named `x_0` to `x_{n-1}`, untagged.
    /// Ordinals are 32-bit, so there are at most 2^32 of them.
    pub fn new(n: usize) -> (r: Self)
        requires
            n <= u32::MAX + 1,
        ensures
            r.spec_gens() == n,
            r.spec_names().len() == n,
            r.spec_types().len() == n,
            forall|i: int| 0 <= i < n ==> #[trigger] r.spec_names()[i] == default_name(i as nat),
            forall|i: int| 0 <= i < n ==> #[trigger] r.spec_types()[i] == AssociatedVariableType::NoType,
    {
        let mut vars: Vec<Variable> = Vec::with_capacity(n);
        let mut i: usize = 0;
        while i < n
            invariant
                i <= n,
                n <= u32::MAX + 1,
                vars@.len() == i,
                forall|j: int| 0 <= j < i ==> #[trigger] vars@[j].spec_order() == j,
                forall|j: int| 0 <= j < i ==> #[trigger] vars@[j].spec_name() == default_name(j as nat),
                forall|j: int| 0 <= j < i ==> #[trigger] vars@[j].spec_associated_type() == AssociatedVariableType::NoType,
            decreases n - i,
        {
            vars.push(Variable::new(default_name_of(i), i));
            i = i + 1;
        }
        Ring { vars, order: PhantomData }
    }

    /// Renames variable `order`.
    pub fn set_variable_name(&mut self, name: String, order: usize)
        requires
            order < old(self).spec_gens(),
        ensures
            final(self).spec_gens() == old(self).spec_gens(),
            final(self).spec_names() == old(self).spec_names().update(order as int, name@),
            final(self).spec_names().len() == final(self).spec_gens(),
            final(self).spec_types().len() == final(self).spec_gens(),
            final(self).spec_types() == old(self).spec_types(),
    {
        proof {
            use_type_invariant(&*self);
        }
        let t = self.vars[order].associated_type();
        let mut v = Variable::new(name, order);
        v.set_associated_type(t);
        let mut vars: Vec<Variable> = Vec::new();
        std::mem::swap(&mut self.vars, &mut vars);
        vars.set(order, v);
        std::mem::swap(&mut self.vars, &mut vars);
        assert(self.spec_names() =~= old(self).spec_names().update(order as int, name@));
        assert(self.spec_types() =~= old(self).spec_types());
    }

    /// Tags variable `order`.
    pub fn set_variable_type(&mut self, associated_type: AssociatedVariableType, order: usize)
        requires
            order < old(self).spec_gens(),
        ensures
            final(self).spec_gens() == old(self).spec_gens(),
            final(self).spec_names() == old(self).spec_names(),
            final(self).spec_types() == old(self).spec_types().update(order as int, associated_type),
            final(self).spec_names().len() == final(self).spec_gens(),
            final(self).spec_types().len() == final(self).spec_gens(),
    {
        proof {
            use_type_invariant(&*self);
        }
        let name = self.vars[order].name().to_owned();
        let mut v = Variable::new(name, order);
        v.set_associated_type(associated_type);
        let mut vars: Vec<Variable> = Vec::new();
        std::mem::swap(&mut self.vars, &mut vars);
        vars.set(order, v);
        std::mem::swap(&mut self.vars, &mut vars);
        assert(self.spec_names() =~= old(self).spec_names());
        assert(self.spec_types() =~= old(self).spec_types().update(order as int, associated_type));
    }

    /// The variable with ordinal `n`.
    pub fn var(&self, n: usize) -> (r: &Variable)
        requires
            n < self.spec_gens(),
        ensures
            r.spec_order() == n,
            r.spec_name() == self.spec_names()[n as int],
            r.spec_associated_type() == self.spec_types()[n as int],
    {
        proof {
            use_type_invariant(self);
        }
        &self.vars[n]
    }

    /// The number of variables; ordinals are 32-bit, so it is at most 2^32.
    pub fn gens(&self) -> (r: usize)
        ensures
            r == self.spec_gens(),
            r <= u32::MAX + 1,
    {
        proof {
            use_type_invariant(self);
        }
        self.vars.len()
    }
}

} // verus!
