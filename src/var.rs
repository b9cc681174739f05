use vstd::prelude::*;

verus! {

/// A classification attached to a variable by downstream consumers; the
/// algebra never looks at it.
#[derive(Debug, Clone, Copy)]
pub enum AssociatedVariableType {
    NoType,
    L(usize, usize, usize),
    K(usize),
    X(usize, usize),
    Y(usize, usize),
}

/// A named variable with a fixed ordinal position in its variable space.
#[derive(Debug)]
pub struct Variable {
    name: String,
    order: usize,
    associated_type: AssociatedVariableType,
}

impl Variable {
    /// The display name.
    pub closed spec fn spec_name(&self) -> Seq<char> {
        self.name@
    }

    /// The ordinal: the variable's identity.
    pub closed spec fn spec_order(&self) -> usize {
        self.order
    }

    /// The classification tag.
    pub closed spec fn spec_associated_type(&self) -> AssociatedVariableType {
        self.associated_type
    }

    pub fn new(name: String, order: usize) -> (r: Self)
        ensures
            r.spec_name() == name@,
            r.spec_order() == order,
            r.spec_associated_type() == AssociatedVariableType::NoType,
    {
        Variable { name, order, associated_type: AssociatedVariableType::NoType }
    }

    pub fn set_name(&mut self, name: String)
        ensures
            final(self).spec_name() == name@,
            final(self).spec_order() == old(self).spec_order(),
            final(self).spec_associated_type() == old(self).spec_associated_type(),
    {
        self.name = name;
    }

    pub fn set_associated_type(&mut self, associated_type: AssociatedVariableType)
        ensures
            final(self).spec_name() == old(self).spec_name(),
            final(self).spec_order() == old(self).spec_order(),
            final(self).spec_associated_type() == associated_type,
    {
        self.associated_type = associated_type;
    }

    pub fn name(&self) -> (r: &str)
        ensures
            r@ == self.spec_name(),
    {
        self.name.as_str()
    }

    pub fn associated_type(&self) -> (r: AssociatedVariableType)
        ensures
            r == self.spec_associated_type(),
    {
        self.associated_type
    }

    /// The ordinal as a 32-bit value (truncated, as ordinals are 32-bit).
    pub fn order(&self) -> (r: u32)
        ensures
            r == self.spec_order() as u32,
    {
        self.order as u32
    }
}


impl PartialEq for Variable {
    /// Variables are equal when their ordinals are.
    fn eq(&self, other: &Self) -> (r: bool)
        ensures
            r == (self.spec_order() == other.spec_order()),
    {
        self.order == other.order
    }
}

impl vstd::std_specs::cmp::PartialEqSpecImpl for Variable {
    open spec fn obeys_eq_spec() -> bool {
        true
    }

    open spec fn eq_spec(&self, other: &Self) -> bool {
        self.spec_order() == other.spec_order()
    }
}

impl PartialOrd for Variable {
    /// Variables are ordered by ordinal.
    fn partial_cmp(&self, other: &Self) -> (r: Option<core::cmp::Ordering>)
        ensures
            r == Some(
                if self.spec_order() < other.spec_order() {
                    core::cmp::Ordering::Less
                } else if self.spec_order() > other.spec_order() {
                    core::cmp::Ordering::Greater
                } else {
                    core::cmp::Ordering::Equal
                },
            ),
    {
        if self.order < other.order {
            Some(core::cmp::Ordering::Less)
        } else if self.order > other.order {
            Some(core::cmp::Ordering::Greater)
        } else {
            Some(core::cmp::Ordering::Equal)
        }
    }
}

impl vstd::std_specs::cmp::PartialOrdSpecImpl for Variable {
    open spec fn obeys_partial_cmp_spec() -> bool {
        true
    }

    open spec fn partial_cmp_spec(&self, other: &Self) -> Option<core::cmp::Ordering> {
        Some(
            if self.spec_order() < other.spec_order() {
                core::cmp::Ordering::Less
            } else if self.spec_order() > other.spec_order() {
                core::cmp::Ordering::Greater
            } else {
                core::cmp::Ordering::Equal
            },
        )
    }
}

} // verus!
