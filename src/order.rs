use vstd::prelude::*;

use crate::mon::Monomial;
use crate::sorted::sv_elements;
use core::cmp::Ordering;

verus! {

/// The opposite outcome of a comparison.
pub open spec fn flip(o: Ordering) -> Ordering {
    match o {
        Ordering::Less => Ordering::Greater,
        Ordering::Equal => Ordering::Equal,
        Ordering::Greater => Ordering::Less,
    }
}

/// Compares two lengths (degrees).
pub open spec fn len_cmp(a: Seq<u32>, b: Seq<u32>) -> Ordering {
    if a.len() < b.len() {
        Ordering::Less
    } else if a.len() > b.len() {
        Ordering::Greater
    } else {
        Ordering::Equal
    }
}

/// Lexicographic rank of two ascending ordinal sequences: scanning from the
/// front, at the first difference the one holding the smaller ordinal ranks
/// greater; where one is a prefix of the other, the longer ranks greater.
pub open spec fn lex_rank(a: Seq<u32>, b: Seq<u32>) -> Ordering
    decreases a.len(),
{
    if a.len() == 0 && b.len() == 0 {
        Ordering::Equal
    } else if a.len() == 0 {
        Ordering::Less
    } else if b.len() == 0 {
        Ordering::Greater
    } else if a[0] < b[0] {
        Ordering::Greater
    } else if a[0] > b[0] {
        Ordering::Less
    } else {
        lex_rank(a.drop_first(), b.drop_first())
    }
}

/// The mirror image of `lex_rank`: scanning from the back, at the first
/// difference the one holding the smaller ordinal ranks greater.
pub open spec fn colex_rank(a: Seq<u32>, b: Seq<u32>) -> Ordering
    decreases a.len(),
{
    if a.len() == 0 && b.len() == 0 {
        Ordering::Equal
    } else if a.len() == 0 {
        Ordering::Less
    } else if b.len() == 0 {
        Ordering::Greater
    } else if a.last() < b.last() {
        Ordering::Greater
    } else if a.last() > b.last() {
        Ordering::Less
    } else {
        colex_rank(a.drop_last(), b.drop_last())
    }
}

/// Graded lexicographic rank: the higher degree ranks greater, then `lex_rank`.
pub open spec fn deglex_rank(a: Seq<u32>, b: Seq<u32>) -> Ordering {
    if a.len() != b.len() {
        len_cmp(a, b)
    } else {
        lex_rank(a, b)
    }
}

/// Graded reverse lexicographic rank: the higher degree ranks greater, then
/// `colex_rank`.
pub open spec fn degrevlex_rank(a: Seq<u32>, b: Seq<u32>) -> Ordering {
    if a.len() != b.len() {
        len_cmp(a, b)
    } else {
        colex_rank(a, b)
    }
}

/// How an ordering compares two monomials (`None` is the zero monomial):
/// zero is below every non-zero monomial, and two non-zero monomials go by
/// the ordering's rank.
pub open spec fn mon_cmp<T: MonomialOrdering>(a: Option<Seq<u32>>, b: Option<Seq<u32>>) -> Ordering {
    match (a, b) {
        (None, None) => Ordering::Equal,
        (None, Some(_)) => Ordering::Less,
        (Some(_), None) => Ordering::Greater,
        (Some(x), Some(y)) => T::rank(x, y),
    }
}

pub proof fn lemma_lex_antisymmetric(a: Seq<u32>, b: Seq<u32>)
    ensures
        lex_rank(a, b) == flip(lex_rank(b, a)),
        (lex_rank(a, b) == Ordering::Equal) == (a == b),
    decreases a.len(),
{
    if a.len() > 0 && b.len() > 0 && a[0] == b[0] {
        lemma_lex_antisymmetric(a.drop_first(), b.drop_first());
        if a.drop_first() == b.drop_first() {
            assert(a =~= seq![a[0]] + a.drop_first());
            assert(b =~= seq![b[0]] + b.drop_first());
        }
    }
    if a.len() == 0 && b.len() == 0 {
        assert(a =~= b);
    }
}

pub proof fn lemma_lex_transitive(a: Seq<u32>, b: Seq<u32>, c: Seq<u32>)
    requires
        lex_rank(a, b) == Ordering::Less,
        lex_rank(b, c) == Ordering::Less,
    ensures
        lex_rank(a, c) == Ordering::Less,
    decreases a.len(),
{
    if a.len() > 0 && b.len() > 0 && c.len() > 0 && a[0] == b[0] && b[0] == c[0] {
        lemma_lex_transitive(a.drop_first(), b.drop_first(), c.drop_first());
    }
}

pub proof fn lemma_colex_antisymmetric(a: Seq<u32>, b: Seq<u32>)
    ensures
        colex_rank(a, b) == flip(colex_rank(b, a)),
        (colex_rank(a, b) == Ordering::Equal) == (a == b),
    decreases a.len(),
{
    if a.len() > 0 && b.len() > 0 && a.last() == b.last() {
        lemma_colex_antisymmetric(a.drop_last(), b.drop_last());
        if a.drop_last() == b.drop_last() {
            assert(a =~= a.drop_last().push(a.last()));
            assert(b =~= b.drop_last().push(b.last()));
        }
    }
    if a.len() == 0 && b.len() == 0 {
        assert(a =~= b);
    }
}

pub proof fn lemma_colex_transitive(a: Seq<u32>, b: Seq<u32>, c: Seq<u32>)
    requires
        colex_rank(a, b) == Ordering::Less,
        colex_rank(b, c) == Ordering::Less,
    ensures
        colex_rank(a, c) == Ordering::Less,
    decreases a.len(),
{
    if a.len() > 0 && b.len() > 0 && c.len() > 0 && a.last() == b.last() && b.last() == c.last() {
        lemma_colex_transitive(a.drop_last(), b.drop_last(), c.drop_last());
    }
}

/// A total order on monomials, chosen per computation.
pub trait MonomialOrdering: Copy {
    /// How this ordering ranks two non-zero monomials, each given by its
    /// ordinals in ascending order.
    spec fn rank(a: Seq<u32>, b: Seq<u32>) -> Ordering;

    /// Whether a monomial is written from its highest ordinal down (else
    /// from its lowest up).
    spec fn spec_descending() -> bool;

    proof fn lemma_rank_antisymmetric(a: Seq<u32>, b: Seq<u32>)
        ensures
            Self::rank(a, b) == flip(Self::rank(b, a)),
            (Self::rank(a, b) == Ordering::Equal) == (a == b),
    ;

    proof fn lemma_rank_transitive(a: Seq<u32>, b: Seq<u32>, c: Seq<u32>)
        requires
            Self::rank(a, b) == Ordering::Less,
            Self::rank(b, c) == Ordering::Less,
        ensures
            Self::rank(a, c) == Ordering::Less,
    ;

    /// Compares two monomials: zero is below every non-zero monomial, and
    /// two non-zero ones go by `rank`.
    fn cmp(a: &Monomial<Self>, b: &Monomial<Self>) -> (r: Ordering)
        ensures
            r == match (a@, b@) {
                (None, None) => Ordering::Equal,
                (None, Some(_)) => Ordering::Less,
                (Some(_), None) => Ordering::Greater,
                (Some(x), Some(y)) => Self::rank(x, y),
            },
    ;

    /// Whether a monomial is written from its highest ordinal down.
    fn descending() -> (r: bool)
        ensures
            r == Self::spec_descending(),
    ;
}

/// `lex_rank` of two ordinal lists.
fn lex_scan(a: &Vec<u32>, b: &Vec<u32>) -> (r: Ordering)
    ensures
        r == lex_rank(a@, b@),
{
    let mut i: usize = 0;
    assert(a@.skip(0) =~= a@);
    assert(b@.skip(0) =~= b@);
    while i < a.len() && i < b.len()
        invariant
            i <= a@.len(),
            i <= b@.len(),
            lex_rank(a@, b@) == lex_rank(a@.skip(i as int), b@.skip(i as int)),
        decreases a@.len() - i,
    {
        if a[i] < b[i] {
            return Ordering::Greater;
        }
        if a[i] > b[i] {
            return Ordering::Less;
        }
        assert(a@.skip(i as int).drop_first() =~= a@.skip(i + 1));
        assert(b@.skip(i as int).drop_first() =~= b@.skip(i + 1));
        i = i + 1;
    }
    if a.len() == i && b.len() == i {
        Ordering::Equal
    } else if a.len() == i {
        Ordering::Less
    } else {
        Ordering::Greater
    }
}

/// `colex_rank` of two ordinal lists of one length.
fn colex_scan(a: &Vec<u32>, b: &Vec<u32>) -> (r: Ordering)
    requires
        a@.len() == b@.len(),
    ensures
        r == colex_rank(a@, b@),
{
    let mut i: usize = a.len();
    assert(a@.take(i as int) =~= a@);
    assert(b@.take(i as int) =~= b@);
    while i > 0
        invariant
            i <= a@.len(),
            a@.len() == b@.len(),
            colex_rank(a@, b@) == colex_rank(a@.take(i as int), b@.take(i as int)),
        decreases i,
    {
        if a[i - 1] < b[i - 1] {
            return Ordering::Greater;
        }
        if a[i - 1] > b[i - 1] {
            return Ordering::Less;
        }
        assert(a@.take(i as int).drop_last() =~= a@.take(i - 1));
        assert(b@.take(i as int).drop_last() =~= b@.take(i - 1));
        i = i - 1;
    }
    Ordering::Equal
}

/// Plain lexicographic order.
#[derive(Clone, Copy)]
pub struct Lex;

/// Graded lexicographic order.
#[derive(Clone, Copy)]
pub struct DegLex;

/// Graded reverse lexicographic order.
#[derive(Clone, Copy)]
pub struct DegRevLex;

impl MonomialOrdering for Lex {
    open spec fn rank(a: Seq<u32>, b: Seq<u32>) -> Ordering {
        lex_rank(a, b)
    }

    open spec fn spec_descending() -> bool {
        false
    }

    proof fn lemma_rank_antisymmetric(a: Seq<u32>, b: Seq<u32>) {
        lemma_lex_antisymmetric(a, b);
    }

    proof fn lemma_rank_transitive(a: Seq<u32>, b: Seq<u32>, c: Seq<u32>) {
        lemma_lex_transitive(a, b, c);
    }

    fn cmp(a: &Monomial<Self>, b: &Monomial<Self>) -> (r: Ordering) {
        match (a, b) {
            (Monomial::Zero, Monomial::Zero) => Ordering::Equal,
            (Monomial::Zero, _) => Ordering::Less,
            (_, Monomial::Zero) => Ordering::Greater,
            (Monomial::NonZero { vars: va, .. }, Monomial::NonZero { vars: vb, .. }) => {
                lex_scan(sv_elements(va), sv_elements(vb))
            },
        }
    }

    fn descending() -> (r: bool) {
        false
    }
}

impl MonomialOrdering for DegLex {
    open spec fn rank(a: Seq<u32>, b: Seq<u32>) -> Ordering {
        deglex_rank(a, b)
    }

    open spec fn spec_descending() -> bool {
        false
    }

    proof fn lemma_rank_antisymmetric(a: Seq<u32>, b: Seq<u32>) {
        lemma_lex_antisymmetric(a, b);
    }

    proof fn lemma_rank_transitive(a: Seq<u32>, b: Seq<u32>, c: Seq<u32>) {
        if a.len() == b.len() && b.len() == c.len() {
            lemma_lex_transitive(a, b, c);
        }
    }

    fn cmp(a: &Monomial<Self>, b: &Monomial<Self>) -> (r: Ordering) {
        match (a, b) {
            (Monomial::Zero, Monomial::Zero) => Ordering::Equal,
            (Monomial::Zero, _) => Ordering::Less,
            (_, Monomial::Zero) => Ordering::Greater,
            (Monomial::NonZero { vars: va, .. }, Monomial::NonZero { vars: vb, .. }) => {
                let ea = sv_elements(va);
                let eb = sv_elements(vb);
                if ea.len() < eb.len() {
                    Ordering::Less
                } else if ea.len() > eb.len() {
                    Ordering::Greater
                } else {
                    lex_scan(ea, eb)
                }
            },
        }
    }

    fn descending() -> (r: bool) {
        false
    }
}

impl MonomialOrdering for DegRevLex {
    open spec fn rank(a: Seq<u32>, b: Seq<u32>) -> Ordering {
        degrevlex_rank(a, b)
    }

    open spec fn spec_descending() -> bool {
        true
    }

    proof fn lemma_rank_antisymmetric(a: Seq<u32>, b: Seq<u32>) {
        lemma_colex_antisymmetric(a, b);
    }

    proof fn lemma_rank_transitive(a: Seq<u32>, b: Seq<u32>, c: Seq<u32>) {
        if a.len() == b.len() && b.len() == c.len() {
            lemma_colex_transitive(a, b, c);
        }
    }

    fn cmp(a: &Monomial<Self>, b: &Monomial<Self>) -> (r: Ordering) {
        match (a, b) {
            (Monomial::Zero, Monomial::Zero) => Ordering::Equal,
            (Monomial::Zero, _) => Ordering::Less,
            (_, Monomial::Zero) => Ordering::Greater,
            (Monomial::NonZero { vars: va, .. }, Monomial::NonZero { vars: vb, .. }) => {
                let ea = sv_elements(va);
                let eb = sv_elements(vb);
                if ea.len() < eb.len() {
                    Ordering::Less
                } else if ea.len() > eb.len() {
                    Ordering::Greater
                } else {
                    colex_scan(ea, eb)
                }
            },
        }
    }

    fn descending() -> (r: bool) {
        true
    }
}


/// Under any one ordering, comparison of monomials is a total order: the
/// two directions agree, only equal monomials compare equal, it is
/// transitive, and zero is below every non-zero monomial.
pub proof fn lemma_ordering_total<T: MonomialOrdering>(
    a: Option<Seq<u32>>,
    b: Option<Seq<u32>>,
    c: Option<Seq<u32>>,
)
    ensures
        mon_cmp::<T>(a, b) == flip(mon_cmp::<T>(b, a)),
        (mon_cmp::<T>(a, b) == Ordering::Equal) == (a == b),
        mon_cmp::<T>(a, b) == Ordering::Less && mon_cmp::<T>(b, c) == Ordering::Less ==> mon_cmp::<T>(a, c)
            == Ordering::Less,
        a is None && b is Some ==> mon_cmp::<T>(a, b) == Ordering::Less,
{
    if let (Some(x), Some(y)) = (a, b) {
        T::lemma_rank_antisymmetric(x, y);
        if let Some(z) = c {
            if T::rank(x, y) == Ordering::Less && T::rank(y, z) == Ordering::Less {
                T::lemma_rank_transitive(x, y, z);
            }
        }
    }
}

} // verus!
