//! The ordinal sets of monomials are kept in `sorted_vec::SortedVec<u32>`.
//! This module declares that type to Verus and states, over its contents,
//! what each operation of it that the library uses does.
use vstd::prelude::*;

verus! {

#[verifier::external_type_specification]
#[verifier::external_body]
#[verifier::reject_recursive_types(T)]
pub struct ExSortedVec<T: Ord>(sorted_vec::SortedVec<T>);

/// The elements of a sorted vector, from first to last.
pub uninterp spec fn sorted_contents(v: sorted_vec::SortedVec<u32>) -> Seq<u32>;

/// Each element is at most the next.
pub open spec fn is_sorted(s: Seq<u32>) -> bool {
    forall|i: int, j: int| 0 <= i < j < s.len() ==> s[i] <= s[j]
}

/// Each element is below the next: sorted and free of repeats.
pub open spec fn is_strictly_sorted(s: Seq<u32>) -> bool {
    forall|i: int, j: int| 0 <= i < j < s.len() ==> s[i] < s[j]
}

/// `s` with `x` put at its sorted place, or `s` itself where an element
/// equal to `x` is met first.
pub open spec fn insert_sorted(s: Seq<u32>, x: u32) -> Seq<u32>
    decreases s.len(),
{
    if s.len() == 0 {
        seq![x]
    } else if x < s[0] {
        seq![x] + s
    } else if x == s[0] {
        s
    } else {
        seq![s[0]] + insert_sorted(s.drop_first(), x)
    }
}

/// Relies on `SortedVec::with_capacity`: a new vector with no elements.
#[verifier::external_body]
pub(crate) fn sv_with_capacity(capacity: usize) -> (r: sorted_vec::SortedVec<u32>)
    ensures
        sorted_contents(r) == Seq::<u32>::empty(),
{
    sorted_vec::SortedVec::with_capacity(capacity)
}

/// Relies on `SortedVec::find_or_insert`: a binary search for `x`; where it
/// is absent, `x` is inserted at the point the search returned, the one place
/// that keeps the elements sorted.
#[verifier::external_body]
pub(crate) fn sv_find_or_insert(v: &mut sorted_vec::SortedVec<u32>, x: u32)
    requires
        is_sorted(sorted_contents(*old(v))),
    ensures
        sorted_contents(*final(v)) == insert_sorted(sorted_contents(*old(v)), x),
{
    let _ = v.find_or_insert(x);
}

/// Relies on the derived `Clone` of `SortedVec`, which clones its vector.
#[verifier::external_body]
pub(crate) fn sv_clone(v: &sorted_vec::SortedVec<u32>) -> (r: sorted_vec::SortedVec<u32>)
    ensures
        sorted_contents(r) == sorted_contents(*v),
{
    v.clone()
}

/// Relies on `Deref for SortedVec`, which hands out its inner vector.
#[verifier::external_body]
pub(crate) fn sv_elements(v: &sorted_vec::SortedVec<u32>) -> (r: &Vec<u32>)
    ensures
        r@ == sorted_contents(*v),
{
    v
}

} // verus!
