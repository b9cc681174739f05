use vstd::prelude::*;

use crate::mon::{lemma_mul_vars, mon_mul, mon_text, mul_vars, Monomial};
use crate::sorted::is_strictly_sorted;
use crate::order::{flip, MonomialOrdering};
use crate::ring::Ring;
use crate::var::Variable;
use core::cmp::Ordering;
use vstd::string::StringExecFns;

verus! {

/// Adds one monomial to a set of monomials over GF(2): it leaves the set
/// where present, and joins it where absent.
pub open spec fn toggle(s: Set<Seq<u32>>, m: Seq<u32>) -> Set<Seq<u32>> {
    if s.contains(m) {
        s.remove(m)
    } else {
        s.insert(m)
    }
}

/// The sum of two polynomials over GF(2): the monomials present in exactly
/// one of them.
pub open spec fn sum(a: Set<Seq<u32>>, b: Set<Seq<u32>>) -> Set<Seq<u32>> {
    a.difference(b).union(b.difference(a))
}

/// The product of the monomials `ps` with the non-zero monomial `m`: each
/// product `p * m`, added in turn, so that one arising twice cancels.
pub open spec fn times_mon(ps: Seq<Seq<u32>>, m: Seq<u32>) -> Set<Seq<u32>>
    decreases ps.len(),
{
    if ps.len() == 0 {
        Set::empty()
    } else {
        toggle(times_mon(ps.drop_last(), m), mul_vars(ps.last(), m))
    }
}

/// The product of the monomials `ps` with a monomial; zero annihilates.
pub open spec fn times_monomial(ps: Seq<Seq<u32>>, m: Option<Seq<u32>>) -> Set<Seq<u32>> {
    match m {
        Some(v) => times_mon(ps, v),
        None => Set::empty(),
    }
}

/// The product of two polynomials given by their monomials: the sum, over
/// each monomial `q` of `qs`, of `ps` times `q`.
pub open spec fn times(ps: Seq<Seq<u32>>, qs: Seq<Seq<u32>>) -> Set<Seq<u32>>
    decreases qs.len(),
{
    if qs.len() == 0 {
        Set::empty()
    } else {
        sum(times(ps, qs.drop_last()), times_mon(ps, qs.last()))
    }
}

/// Monomials written in turn, joined by ` + `.
pub open spec fn join_terms(names: Seq<Seq<char>>, ms: Seq<Seq<u32>>, descending: bool) -> Seq<char>
    decreases ms.len(),
{
    if ms.len() == 0 {
        Seq::empty()
    } else if ms.len() == 1 {
        mon_text(names, Some(ms[0]), descending)
    } else {
        join_terms(names, ms.drop_last(), descending) + seq![' ', '+', ' '] + mon_text(
            names,
            Some(ms.last()),
            descending,
        )
    }
}

/// How a polynomial is written: `0` where it has no monomials, else its
/// monomials from the greatest down, joined by ` + `.
pub open spec fn poly_text(names: Seq<Seq<char>>, terms: Seq<Seq<u32>>, descending: bool) -> Seq<char> {
    if terms.len() == 0 {
        seq!['0']
    } else {
        join_terms(names, terms.reverse(), descending)
    }
}

/// The ordinals of a monomial known to be non-zero.
pub open spec fn nz(m: Option<Seq<u32>>) -> Seq<u32> {
    match m {
        Some(v) => v,
        None => Seq::empty(),
    }
}

/// A sum of distinct non-zero monomials over one variable space, kept in
/// ascending order under `T`.
pub struct Polynomial<'a, T: MonomialOrdering> {
    mons: Vec<Monomial<'a, T>>,
    ring: &'a Ring<T>,
}

impl<'a, T: MonomialOrdering> View for Polynomial<'a, T> {
    /// The set of monomials.
    type V = Set<Seq<u32>>;

    open spec fn view(&self) -> Set<Seq<u32>> {
        self.terms().to_set()
    }
}

impl<'a, T: MonomialOrdering> Polynomial<'a, T> {
    /// The monomials, ascending under `T`.
    pub closed spec fn terms(&self) -> Seq<Seq<u32>> {
        self.mons@.map_values(|m: Monomial<'a, T>| nz(m@))
    }

    pub closed spec fn spec_ring(&self) -> &'a Ring<T> {
        self.ring
    }

    /// Every stored monomial is non-zero, well formed and of the
    /// polynomial's space, and each ranks below the next: so none repeats.
    pub closed spec fn wf(&self) -> bool {
        &&& forall|i: int|
            0 <= i < self.mons@.len() ==> {
                &&& (#[trigger] self.mons@[i])@ is Some
                &&& self.mons@[i].wf()
                &&& self.mons@[i].spec_ring() == Some(self.ring)
            }
        &&& forall|i: int, j: int|
            0 <= i < j < self.mons@.len() ==> T::rank(
                #[trigger] nz(self.mons@[i]@),
                #[trigger] nz(self.mons@[j]@),
            ) == Ordering::Less
    }

    /// The leading monomial: the greatest under `T`, or zero.
    pub open spec fn spec_lm(&self) -> Option<Seq<u32>> {
        if self.terms().len() == 0 {
            None
        } else {
            Some(self.terms().last())
        }
    }

    /// How the polynomial is written.
    pub open spec fn spec_text(&self) -> Seq<char> {
        poly_text(self.spec_ring().spec_names(), self.terms(), T::spec_descending())
    }

    proof fn lemma_terms(&self)
        requires
            self.wf(),
        ensures
            self.terms().len() == self.mons@.len(),
            forall|i: int| 0 <= i < self.mons@.len() ==> #[trigger] self.terms()[i] == nz(self.mons@[i]@),
            forall|i: int| 0 <= i < self.mons@.len() ==> self.mons@[i]@ == Some(#[trigger] self.terms()[i]),
            forall|i: int, j: int|
                0 <= i < j < self.terms().len() ==> T::rank(#[trigger] self.terms()[i], #[trigger] self.terms()[j])
                    == Ordering::Less,
    {
    }

    /// The first place whose monomial does not rank below `m`.
    fn position(&self, m: &Monomial<'a, T>) -> (i: usize)
        requires
            self.wf(),
            m@ is Some,
        ensures
            i <= self.mons@.len(),
            forall|j: int| 0 <= j < i ==> T::rank(#[trigger] self.terms()[j], nz(m@)) == Ordering::Less,
            i < self.mons@.len() ==> T::rank(self.terms()[i as int], nz(m@)) != Ordering::Less,
    {
        proof {
            self.lemma_terms();
        }
        let mut i: usize = 0;
        while i < self.mons.len()
            invariant
                self.wf(),
                m@ is Some,
                i <= self.mons@.len(),
                forall|j: int| 0 <= j < i ==> T::rank(#[trigger] self.terms()[j], nz(m@)) == Ordering::Less,
            decreases self.mons@.len() - i,
        {
            proof {
                self.lemma_terms();
            }
            match T::cmp(&self.mons[i], m) {
                Ordering::Less => {},
                _ => {
                    return i;
                },
            }
            i = i + 1;
        }
        i
    }

    /// Adds one non-zero monomial of the same space: removes it where
    /// present, inserts it at its place where absent.
    fn toggle_in(&mut self, m: Monomial<'a, T>)
        requires
            old(self).wf(),
            m.wf(),
            m@ is Some,
            m.spec_ring() == Some(old(self).spec_ring()),
        ensures
            final(self).wf(),
            final(self).spec_ring() == old(self).spec_ring(),
            final(self)@ == toggle(old(self)@, nz(m@)),
    {
        proof {
            self.lemma_terms();
        }
        let i = self.position(&m);
        let ghost mv = nz(m@);
        let ghost t = self.terms();
        let ghost old_mons = self.mons@;
        let found = if i < self.mons.len() {
            match T::cmp(&self.mons[i], &m) {
                Ordering::Equal => true,
                _ => false,
            }
        } else {
            false
        };
        if found {
            proof {
                T::lemma_rank_antisymmetric(t[i as int], mv);
            }
            self.mons.remove(i);
            proof {
                let nt = self.terms();
                assert(nt =~= t.remove(i as int));
                assert forall|a: int, b: int| 0 <= a < b < self.mons@.len() implies T::rank(
                    #[trigger] nz(self.mons@[a]@),
                    #[trigger] nz(self.mons@[b]@),
                ) == Ordering::Less by {
                    let a0 = if a < i { a } else { a + 1 };
                    let b0 = if b < i { b } else { b + 1 };
                    assert(nz(self.mons@[a]@) == t[a0]);
                    assert(nz(self.mons@[b]@) == t[b0]);
                }
                assert forall|x: Seq<u32>| nt.to_set().contains(x) <==> toggle(t.to_set(), mv).contains(x) by {
                    assert(t.contains(mv)) by {
                        assert(t[i as int] == mv);
                    }
                    if nt.contains(x) {
                        let k = choose|k: int| 0 <= k < nt.len() && nt[k] == x;
                        let k0 = if k < i { k } else { k + 1 };
                        assert(t[k0] == x);
                        if k0 < i {
                            T::lemma_rank_antisymmetric(t[k0], t[i as int]);
                        } else {
                            T::lemma_rank_antisymmetric(t[i as int], t[k0]);
                        }
                    }
                    if t.contains(x) && x != mv {
                        let k = choose|k: int| 0 <= k < t.len() && t[k] == x;
                        assert(k != i);
                        let k1 = if k < i { k } else { k - 1 };
                        assert(nt[k1] == x);
                    }
                }
                assert(self@ =~= toggle(old(self)@, mv));
            }
        } else {
            proof {
                if i < t.len() {
                    T::lemma_rank_antisymmetric(t[i as int], mv);
                }
            }
            self.mons.insert(i, m);
            proof {
                let nt = self.terms();
                assert(nt =~= t.insert(i as int, mv));
                assert forall|j: int| 0 <= j < t.len() implies t[j] != mv by {
                    if j < i {
                        T::lemma_rank_antisymmetric(t[j], mv);
                    } else {
                        if j > i {
                            T::lemma_rank_transitive(mv, t[i as int], t[j]);
                        }
                        T::lemma_rank_antisymmetric(mv, t[j]);
                    }
                }
                assert forall|a: int, b: int| 0 <= a < b < self.mons@.len() implies T::rank(
                    #[trigger] nz(self.mons@[a]@),
                    #[trigger] nz(self.mons@[b]@),
                ) == Ordering::Less by {
                    assert(nz(self.mons@[a]@) == nt[a]);
                    assert(nz(self.mons@[b]@) == nt[b]);
                    if a == i as int {
                        if b > i + 1 {
                            T::lemma_rank_transitive(mv, t[i as int], t[b - 1]);
                        }
                    } else if b == i as int {
                    } else {
                        let a0 = if a < i { a } else { a - 1 };
                        let b0 = if b < i { b } else { b - 1 };
                        assert(nt[a] == t[a0]);
                        assert(nt[b] == t[b0]);
                    }
                }
                assert forall|x: Seq<u32>| nt.to_set().contains(x) <==> toggle(t.to_set(), mv).contains(x) by {
                    assert(!t.contains(mv));
                    if nt.contains(x) {
                        let k = choose|k: int| 0 <= k < nt.len() && nt[k] == x;
                        if k != i {
                            let k0 = if k < i { k } else { k - 1 };
                            assert(t[k0] == x);
                        }
                    }
                    if t.contains(x) {
                        let k = choose|k: int| 0 <= k < t.len() && t[k] == x;
                        let k1 = if k < i { k } else { k + 1 };
                        assert(nt[k1] == x);
                    }
                    if x == mv {
                        assert(nt[i as int] == x);
                    }
                }
                assert(self@ =~= toggle(old(self)@, mv));
            }
        }
    }

    /// The zero polynomial: no monomials.
    pub fn zero(ring: &'a Ring<T>) -> (r: Self)
        ensures
            r.wf(),
            r.spec_ring() == ring,
            r@ == Set::<Seq<u32>>::empty(),
            r.terms() == Seq::<Seq<u32>>::empty(),
    {
        let r = Polynomial { mons: Vec::new(), ring };
        assert(r.terms() =~= Seq::<Seq<u32>>::empty());
        assert(r@ =~= Set::<Seq<u32>>::empty());
        r
    }

    /// The zero polynomial.
    pub fn new(ring: &'a Ring<T>) -> (r: Self)
        ensures
            r.wf(),
            r.spec_ring() == ring,
            r@ == Set::<Seq<u32>>::empty(),
            r.terms() == Seq::<Seq<u32>>::empty(),
    {
        Polynomial::zero(ring)
    }

    /// The polynomial of one non-zero monomial.
    fn single(ring: &'a Ring<T>, m: Monomial<'a, T>) -> (r: Self)
        requires
            m.wf(),
            m@ is Some,
            m.spec_ring() == Some(ring),
        ensures
            r.wf(),
            r.spec_ring() == ring,
            r@ == set![nz(m@)],
            r.terms() == seq![nz(m@)],
    {
        let ghost mv = nz(m@);
        let mut mons: Vec<Monomial<'a, T>> = Vec::new();
        mons.push(m);
        let r = Polynomial { mons, ring };
        assert(r.terms() =~= seq![mv]);
        assert forall|x: Seq<u32>| r@.contains(x) <==> set![mv].contains(x) by {
            if x == mv {
                assert(r.terms()[0] == x);
            }
        }
        assert(r@ =~= set![mv]);
        r
    }

    /// The polynomial `1`: the identity monomial alone.
    pub fn one(ring: &'a Ring<T>) -> (r: Self)
        ensures
            r.wf(),
            r.spec_ring() == ring,
            r@ == set![Seq::<u32>::empty()],
            r.terms() == seq![Seq::<u32>::empty()],
    {
        Polynomial::single(ring, Monomial::one(ring))
    }

    /// The polynomial of one monomial; that of zero is the zero polynomial.
    pub fn from_monomial(ring: &'a Ring<T>, m: Monomial<'a, T>) -> (r: Self)
        requires
            m.wf(),
            m@ is Some ==> m.spec_ring() == Some(ring),
        ensures
            r.wf(),
            r.spec_ring() == ring,
            r@ == match m@ {
                Some(v) => set![v],
                None => Set::<Seq<u32>>::empty(),
            },
    {
        if m.is_zero() {
            Polynomial::zero(ring)
        } else {
            Polynomial::single(ring, m)
        }
    }

    /// The polynomial of one variable of `ring`.
    pub fn from_variable(ring: &'a Ring<T>, v: &Variable) -> (r: Self)
        requires
            v.spec_order() < ring.spec_gens(),
        ensures
            r.wf(),
            r.spec_ring() == ring,
            r@ == set![seq![v.spec_order() as u32]],
    {
        Polynomial::single(ring, Monomial::from_variable(ring, v))
    }

    /// The variable space.
    pub fn ring(&self) -> (r: &'a Ring<T>)
        ensures
            r == self.spec_ring(),
    {
        self.ring
    }

    /// The leading monomial: the greatest under `T`, or zero where there is
    /// none.
    pub fn lm(&self) -> (r: Monomial<'a, T>)
        requires
            self.wf(),
        ensures
            r@ == self.spec_lm(),
            r.wf(),
            r@ is Some ==> r.spec_ring() == Some(self.spec_ring()),
    {
        proof {
            self.lemma_terms();
        }
        let n = self.mons.len();
        if n == 0 {
            Monomial::Zero
        } else {
            self.mons[n - 1].clone()
        }
    }

    /// Every operation keeps the monomials distinct and ordered, so nothing
    /// is left to compact: the polynomial stays as it is.
    pub fn justify(&mut self)
        ensures
            *final(self) == *old(self),
    {
    }

    /// Keeps the leading monomial valid; like `justify`, there is nothing
    /// left to do.
    pub fn justify_lm(&mut self)
        ensures
            *final(self) == *old(self),
    {
    }

    /// Whether the polynomial has no monomials.
    pub fn is_zero(&self) -> (r: bool)
        requires
            self.wf(),
        ensures
            r == (self@ == Set::<Seq<u32>>::empty()),
    {
        proof {
            self.lemma_terms();
            if self.terms().len() > 0 {
                assert(self@.contains(self.terms()[0]));
            } else {
                assert(self@ =~= Set::<Seq<u32>>::empty());
            }
        }
        self.mons.len() == 0
    }

    /// Justifies, then tells whether the polynomial is zero.
    pub fn is_zero_mut(&mut self) -> (r: bool)
        requires
            old(self).wf(),
        ensures
            *final(self) == *old(self),
            r == (old(self)@ == Set::<Seq<u32>>::empty()),
    {
        self.justify();
        self.is_zero()
    }

    /// Adds `rhs` in place: the monomials present in exactly one survive.
    pub fn add_assign(&mut self, rhs: &Self)
        requires
            old(self).wf(),
            rhs.wf(),
            old(self).spec_ring() == rhs.spec_ring(),
        ensures
            final(self).wf(),
            final(self).spec_ring() == old(self).spec_ring(),
            final(self)@ == sum(old(self)@, rhs@),
    {
        let ghost a = self@;
        let ghost ts = rhs.terms();
        proof {
            rhs.lemma_terms();
            lemma_distinct_terms(rhs);
            assert(ts.take(0).to_set() =~= Set::<Seq<u32>>::empty());
            assert(sum(a, Set::<Seq<u32>>::empty()) =~= a);
        }
        let mut i: usize = 0;
        while i < rhs.mons.len()
            invariant
                self.wf(),
                rhs.wf(),
                self.spec_ring() == rhs.spec_ring(),
                self.spec_ring() == old(self).spec_ring(),
                ts == rhs.terms(),
                ts.len() == rhs.mons@.len(),
                ts.no_duplicates(),
                i <= ts.len(),
                self@ == sum(a, ts.take(i as int).to_set()),
            decreases ts.len() - i,
        {
            proof {
                rhs.lemma_terms();
                lemma_sum_step(a, ts, i as int);
            }
            let m = rhs.mons[i].clone();
            self.toggle_in(m);
            i = i + 1;
        }
        assert(ts.take(i as int) =~= ts);
    }

    /// The sum of two polynomials of one space.
    pub fn add(&self, rhs: &Self) -> (r: Self)
        requires
            self.wf(),
            rhs.wf(),
            self.spec_ring() == rhs.spec_ring(),
        ensures
            r.wf(),
            r.spec_ring() == self.spec_ring(),
            r@ == sum(self@, rhs@),
    {
        let mut r = self.clone();
        r.add_assign(rhs);
        r
    }

    /// Adds one monomial in place; zero changes nothing.
    pub fn add_assign_monomial(&mut self, m: &Monomial<'a, T>)
        requires
            old(self).wf(),
            m.wf(),
            m@ is Some ==> m.spec_ring() == Some(old(self).spec_ring()),
        ensures
            final(self).wf(),
            final(self).spec_ring() == old(self).spec_ring(),
            final(self)@ == match m@ {
                Some(v) => toggle(old(self)@, v),
                None => old(self)@,
            },
    {
        if !m.is_zero() {
            self.toggle_in(m.clone());
        }
    }

    /// The sum with one monomial; zero changes nothing.
    pub fn add_monomial(&self, m: &Monomial<'a, T>) -> (r: Self)
        requires
            self.wf(),
            m.wf(),
            m@ is Some ==> m.spec_ring() == Some(self.spec_ring()),
        ensures
            r.wf(),
            r.spec_ring() == self.spec_ring(),
            r@ == match m@ {
                Some(v) => toggle(self@, v),
                None => self@,
            },
    {
        let mut r = self.clone();
        r.add_assign_monomial(m);
        r
    }

    /// Adds the low bit of `rhs`: the identity where it is 1.
    pub fn add_assign_parity(&mut self, rhs: u64)
        requires
            old(self).wf(),
        ensures
            final(self).wf(),
            final(self).spec_ring() == old(self).spec_ring(),
            final(self)@ == if rhs % 2 == 1 {
                toggle(old(self)@, Seq::<u32>::empty())
            } else {
                old(self)@
            },
    {
        if rhs % 2 == 1 {
            let one = Monomial::one(self.ring);
            self.toggle_in(one);
        }
    }

    /// The product with one monomial: zero annihilates, the identity leaves
    /// the polynomial as it is, and otherwise each monomial is multiplied by
    /// `m` and the products are added, so that equal products cancel.
    pub fn mul_monomial(&self, m: &Monomial<'a, T>) -> (r: Self)
        requires
            self.wf(),
            m.wf(),
            m@ is Some ==> m.spec_ring() == Some(self.spec_ring()),
        ensures
            r.wf(),
            r.spec_ring() == self.spec_ring(),
            r@ == times_monomial(self.terms(), m@),
    {
        if m.is_zero() {
            return Polynomial::zero(self.ring);
        }
        if m.is_one() {
            proof {
                lemma_distinct_terms(self);
                lemma_times_one(self.terms());
            }
            return self.clone();
        }
        let ghost ts = self.terms();
        let ghost mv = nz(m@);
        let mut res = Polynomial::zero(self.ring);
        proof {
            self.lemma_terms();
            assert(ts.take(0) =~= Seq::<Seq<u32>>::empty());
        }
        let mut i: usize = 0;
        while i < self.mons.len()
            invariant
                self.wf(),
                m.wf(),
                m@ == Some(mv),
                m.spec_ring() == Some(self.spec_ring()),
                res.wf(),
                res.spec_ring() == self.spec_ring(),
                ts == self.terms(),
                ts.len() == self.mons@.len(),
                i <= ts.len(),
                res@ == times_mon(ts.take(i as int), mv),
            decreases ts.len() - i,
        {
            proof {
                self.lemma_terms();
                assert(ts.take(i + 1).drop_last() =~= ts.take(i as int));
            }
            let p = self.mons[i].mul(m);
            res.toggle_in(p);
            i = i + 1;
        }
        assert(ts.take(i as int) =~= ts);
        res
    }

    /// The product of two polynomials of one space: zero where either is
    /// zero, else the sum over the monomials `q` of `rhs` of `self` times `q`.
    pub fn mul(&self, rhs: &Self) -> (r: Self)
        requires
            self.wf(),
            rhs.wf(),
            self.spec_ring() == rhs.spec_ring(),
        ensures
            r.wf(),
            r.spec_ring() == self.spec_ring(),
            r@ == times(self.terms(), rhs.terms()),
    {
        if self.is_zero() || rhs.is_zero() {
            proof {
                self.lemma_terms();
                rhs.lemma_terms();
                if self.terms().len() > 0 {
                    assert(self@.contains(self.terms()[0]));
                }
                if rhs.terms().len() > 0 {
                    assert(rhs@.contains(rhs.terms()[0]));
                }
                if self.terms().len() == 0 {
                    assert(self.terms() =~= Seq::<Seq<u32>>::empty());
                    lemma_times_of_zero(rhs.terms());
                }
            }
            return Polynomial::zero(self.ring);
        }
        let ghost ps = self.terms();
        let ghost qs = rhs.terms();
        let mut res = Polynomial::zero(self.ring);
        proof {
            rhs.lemma_terms();
            assert(qs.take(0) =~= Seq::<Seq<u32>>::empty());
        }
        let mut j: usize = 0;
        while j < rhs.mons.len()
            invariant
                self.wf(),
                rhs.wf(),
                self.spec_ring() == rhs.spec_ring(),
                res.wf(),
                res.spec_ring() == self.spec_ring(),
                ps == self.terms(),
                qs == rhs.terms(),
                qs.len() == rhs.mons@.len(),
                j <= qs.len(),
                res@ == times(ps, qs.take(j as int)),
            decreases qs.len() - j,
        {
            proof {
                rhs.lemma_terms();
                assert(qs.take(j + 1).drop_last() =~= qs.take(j as int));
            }
            let t = self.mul_monomial(&rhs.mons[j]);
            res.add_assign(&t);
            j = j + 1;
        }
        assert(qs.take(j as int) =~= qs);
        res
    }

    /// Writes the polynomial: `0`, or its monomials from the greatest down
    /// joined by ` + `.
    pub fn to_string(&self) -> (r: String)
        requires
            self.wf(),
        ensures
            r@ == self.spec_text(),
    {
        proof {
            self.lemma_terms();
        }
        let n = self.mons.len();
        if n == 0 {
            proof {
                reveal_strlit("0");
            }
            return String::from_str("0");
        }
        let ghost names = self.ring.spec_names();
        let ghost ms = self.terms().reverse();
        let mut s = String::new();
        proof {
            assert(ms.take(0) =~= Seq::<Seq<u32>>::empty());
        }
        let mut k: usize = 0;
        while k < n
            invariant
                self.wf(),
                n == self.mons@.len(),
                n > 0,
                k <= n,
                names == self.ring.spec_names(),
                ms == self.terms().reverse(),
                ms.len() == n,
                s@ == join_terms(names, ms.take(k as int), T::spec_descending()),
            decreases n - k,
        {
            proof {
                self.lemma_terms();
                reveal_strlit(" + ");
                assert(ms.take(k + 1).drop_last() =~= ms.take(k as int));
                assert(ms[k as int] == self.terms()[n - 1 - k]);
            }
            let w = self.mons[n - 1 - k].to_string();
            if k > 0 {
                s.append(" + ");
            }
            s.append(w.as_str());
            proof {
                if k == 0 {
                    assert(s@ =~= join_terms(names, ms.take(1), T::spec_descending()));
                } else {
                    assert(s@ =~= join_terms(names, ms.take(k + 1), T::spec_descending()));
                }
            }
            k = k + 1;
        }
        assert(ms.take(n as int) =~= ms);
        s
    }
}

/// The stored monomials of a polynomial ascend strictly under its ordering,
/// so they are pairwise distinct, and their number is the size of its set of
/// monomials, however it was built.
pub proof fn lemma_distinct_terms<'a, T: MonomialOrdering>(p: &Polynomial<'a, T>)
    requires
        p.wf(),
    ensures
        forall|i: int, j: int|
            0 <= i < j < p.terms().len() ==> T::rank(#[trigger] p.terms()[i], #[trigger] p.terms()[j])
                == Ordering::Less,
        p.terms().no_duplicates(),
        p@.len() == p.terms().len(),
{
    p.lemma_terms();
    let t = p.terms();
    assert forall|i: int, j: int| 0 <= i < t.len() && 0 <= j < t.len() && i != j implies t[i] != t[j] by {
        if i < j {
            T::lemma_rank_antisymmetric(t[i], t[j]);
        } else {
            T::lemma_rank_antisymmetric(t[j], t[i]);
        }
    }
    t.unique_seq_to_set();
}

proof fn lemma_sum_step(a: Set<Seq<u32>>, ts: Seq<Seq<u32>>, i: int)
    requires
        ts.no_duplicates(),
        0 <= i < ts.len(),
    ensures
        toggle(sum(a, ts.take(i).to_set()), ts[i]) == sum(a, ts.take(i + 1).to_set()),
{
    let tb = ts.take(i);
    let tc = ts.take(i + 1);
    let b = tb.to_set();
    let c = tc.to_set();
    assert forall|x: Seq<u32>| c.contains(x) <==> (b.contains(x) || x == ts[i]) by {
        if tc.contains(x) {
            let k = choose|k: int| 0 <= k < tc.len() && tc[k] == x;
            if k < i {
                assert(tb[k] == x);
            }
        }
        if tb.contains(x) {
            let k = choose|k: int| 0 <= k < tb.len() && tb[k] == x;
            assert(tc[k] == x);
        }
        if x == ts[i] {
            assert(tc[i] == x);
        }
    }
    assert(!b.contains(ts[i])) by {
        if tb.contains(ts[i]) {
            let k = choose|k: int| 0 <= k < tb.len() && tb[k] == ts[i];
            assert(ts[k] == ts[i]);
        }
    }
    assert(toggle(sum(a, b), ts[i]) =~= sum(a, c));
}

/// Multiplying distinct monomials by the identity gives back their set.
proof fn lemma_times_one(ts: Seq<Seq<u32>>)
    requires
        ts.no_duplicates(),
    ensures
        times_mon(ts, Seq::<u32>::empty()) == ts.to_set(),
    decreases ts.len(),
{
    if ts.len() == 0 {
        assert(ts.to_set() =~= Set::<Seq<u32>>::empty());
    } else {
        let d = ts.drop_last();
        assert(d.no_duplicates()) by {
            assert forall|i: int, j: int| 0 <= i < d.len() && 0 <= j < d.len() && i != j implies d[i] != d[j] by {
                assert(d[i] == ts[i] && d[j] == ts[j]);
            }
        }
        lemma_times_one(d);
        assert(mul_vars(ts.last(), Seq::<u32>::empty()) == ts.last());
        assert(!d.to_set().contains(ts.last())) by {
            if d.contains(ts.last()) {
                let k = choose|k: int| 0 <= k < d.len() && d[k] == ts.last();
                assert(ts[k] == ts[ts.len() - 1]);
            }
        }
        assert forall|x: Seq<u32>| ts.to_set().contains(x) <==> d.to_set().insert(ts.last()).contains(x) by {
            if ts.contains(x) {
                let k = choose|k: int| 0 <= k < ts.len() && ts[k] == x;
                if k < ts.len() - 1 {
                    assert(d[k] == x);
                }
            }
            if d.contains(x) {
                let k = choose|k: int| 0 <= k < d.len() && d[k] == x;
                assert(ts[k] == x);
            }
            if x == ts.last() {
                assert(ts[ts.len() - 1] == x);
            }
        }
        assert(ts.to_set() =~= d.to_set().insert(ts.last()));
    }
}

/// The zero polynomial times anything is zero.
proof fn lemma_times_of_zero(qs: Seq<Seq<u32>>)
    ensures
        times(Seq::<Seq<u32>>::empty(), qs) == Set::<Seq<u32>>::empty(),
    decreases qs.len(),
{
    if qs.len() > 0 {
        lemma_times_of_zero(qs.drop_last());
        assert(times_mon(Seq::<Seq<u32>>::empty(), qs.last()) == Set::<Seq<u32>>::empty());
        assert(sum(Set::<Seq<u32>>::empty(), Set::<Seq<u32>>::empty()) =~= Set::<Seq<u32>>::empty());
    }
}

impl<'a, T: MonomialOrdering> Clone for Polynomial<'a, T> {
    fn clone(&self) -> (r: Self)
        ensures
            r.terms() == self.terms(),
            r.spec_ring() == self.spec_ring(),
            self.wf() ==> r.wf(),
    {
        let mut mons: Vec<Monomial<'a, T>> = Vec::with_capacity(self.mons.len());
        let mut i: usize = 0;
        while i < self.mons.len()
            invariant
                i <= self.mons@.len(),
                mons@.len() == i,
                forall|j: int| 0 <= j < i ==> (#[trigger] mons@[j])@ == self.mons@[j]@,
                forall|j: int| 0 <= j < i ==> (#[trigger] mons@[j]).spec_ring() == self.mons@[j].spec_ring(),
            decreases self.mons@.len() - i,
        {
            mons.push(self.mons[i].clone());
            i = i + 1;
        }
        let r = Polynomial { mons, ring: self.ring };
        assert(r.terms() =~= self.terms());
        proof {
            if self.wf() {
                assert forall|j: int| 0 <= j < r.mons@.len() implies (#[trigger] r.mons@[j]).wf() by {
                    assert(self.mons@[j].wf());
                }
            }
        }
        r
    }
}


/// Addition is commutative.
pub proof fn lemma_add_commutative<'a, T: MonomialOrdering>(a: &Polynomial<'a, T>, b: &Polynomial<'a, T>)
    ensures
        sum(a@, b@) == sum(b@, a@),
{
    assert(sum(a@, b@) =~= sum(b@, a@));
}

/// Addition is associative.
pub proof fn lemma_add_associative<'a, T: MonomialOrdering>(
    a: &Polynomial<'a, T>,
    b: &Polynomial<'a, T>,
    c: &Polynomial<'a, T>,
)
    ensures
        sum(sum(a@, b@), c@) == sum(a@, sum(b@, c@)),
{
    assert(sum(sum(a@, b@), c@) =~= sum(a@, sum(b@, c@)));
}

/// Every polynomial is its own additive inverse: `a + a` is zero.
pub proof fn lemma_add_self_inverse<'a, T: MonomialOrdering>(a: &Polynomial<'a, T>)
    ensures
        sum(a@, a@) == Set::<Seq<u32>>::empty(),
{
    assert(sum(a@, a@) =~= Set::<Seq<u32>>::empty());
}

/// Multiplying by the identity, as a monomial or as the polynomial `1`,
/// gives back the polynomial.
pub proof fn lemma_mul_by_one<'a, T: MonomialOrdering>(p: &Polynomial<'a, T>)
    requires
        p.wf(),
    ensures
        times_monomial(p.terms(), Some(Seq::<u32>::empty())) == p@,
        times(p.terms(), seq![Seq::<u32>::empty()]) == p@,
{
    lemma_distinct_terms(p);
    lemma_times_one(p.terms());
    assert(seq![Seq::<u32>::empty()].drop_last() =~= Seq::<Seq<u32>>::empty());
    assert(times(p.terms(), Seq::<Seq<u32>>::empty()) == Set::<Seq<u32>>::empty());
    assert(sum(Set::<Seq<u32>>::empty(), p@) =~= p@);
}

/// Multiplying by zero, as the zero monomial or the zero polynomial, on
/// either side, gives zero.
pub proof fn lemma_mul_by_zero<'a, T: MonomialOrdering>(p: &Polynomial<'a, T>)
    ensures
        times_monomial(p.terms(), None) == Set::<Seq<u32>>::empty(),
        times(p.terms(), Seq::<Seq<u32>>::empty()) == Set::<Seq<u32>>::empty(),
        times(Seq::<Seq<u32>>::empty(), p.terms()) == Set::<Seq<u32>>::empty(),
{
    lemma_times_of_zero(p.terms());
}

/// The leading monomial of a non-zero polynomial is one of its monomials,
/// and every other ranks below it; a polynomial without one is zero.
pub proof fn lemma_leading_is_max<'a, T: MonomialOrdering>(p: &Polynomial<'a, T>)
    requires
        p.wf(),
    ensures
        match p.spec_lm() {
            Some(l) => p@.contains(l) && forall|m: Seq<u32>|
                #[trigger] p@.contains(m) ==> m == l || T::rank(m, l) == Ordering::Less,
            None => p@ == Set::<Seq<u32>>::empty(),
        },
{
    p.lemma_terms();
    let t = p.terms();
    if t.len() == 0 {
        assert(p@ =~= Set::<Seq<u32>>::empty());
    } else {
        let l = t.last();
        assert(t[t.len() - 1] == l);
        assert forall|m: Seq<u32>| #[trigger] p@.contains(m) implies m == l || T::rank(m, l) == Ordering::Less by {
            let k = choose|k: int| 0 <= k < t.len() && t[k] == m;
            if k < t.len() - 1 {
                assert(T::rank(t[k], t[t.len() - 1]) == Ordering::Less);
            }
        }
    }
}


/// The monomials added one after another to `s`, each by `toggle`.
pub open spec fn toggle_all(s: Set<Seq<u32>>, ms: Seq<Seq<u32>>) -> Set<Seq<u32>>
    decreases ms.len(),
{
    if ms.len() == 0 {
        s
    } else {
        toggle(toggle_all(s, ms.drop_last()), ms.last())
    }
}

/// Each monomial of `ps` times `m`, in turn.
pub open spec fn scaled(ps: Seq<Seq<u32>>, m: Seq<u32>) -> Seq<Seq<u32>> {
    ps.map_values(|p: Seq<u32>| mul_vars(p, m))
}

/// `m` times each monomial of `ps`, in turn.
pub open spec fn scaled_left(m: Seq<u32>, ps: Seq<Seq<u32>>) -> Seq<Seq<u32>> {
    ps.map_values(|p: Seq<u32>| mul_vars(m, p))
}

/// Each product `p * q` of a monomial `p` of `ps` with a monomial `q` of
/// `qs`, once per pair.
pub open spec fn products(ps: Seq<Seq<u32>>, qs: Seq<Seq<u32>>) -> Seq<Seq<u32>>
    decreases qs.len(),
{
    if qs.len() == 0 {
        Seq::empty()
    } else {
        products(ps, qs.drop_last()) + scaled(ps, qs.last())
    }
}

/// Adding monomials one after another to zero, in any order and with
/// repeats, leaves exactly those added an odd number of times.
pub proof fn lemma_additions_parity(ms: Seq<Seq<u32>>)
    ensures
        forall|x: Seq<u32>|
            #[trigger] toggle_all(Set::<Seq<u32>>::empty(), ms).contains(x) <==> ms.to_multiset().count(x)
                % 2 == 1,
    decreases ms.len(),
{
    broadcast use vstd::seq_lib::group_to_multiset_ensures;
    broadcast use vstd::multiset::group_multiset_axioms;

    if ms.len() == 0 {
        assert(ms.to_multiset().len() == 0);
        assert forall|x: Seq<u32>| ms.to_multiset().count(x) == 0 by {
            if ms.to_multiset().count(x) > 0 {
                assert(ms.to_multiset().contains(x));
            }
        }
    } else {
        lemma_additions_parity(ms.drop_last());
        assert(ms =~= ms.drop_last().push(ms.last()));
        assert(ms.to_multiset() =~= ms.drop_last().to_multiset().insert(ms.last()));
        assert forall|x: Seq<u32>|
            #[trigger] toggle_all(Set::<Seq<u32>>::empty(), ms).contains(x) <==> ms.to_multiset().count(x) % 2
                == 1 by {
            assert(toggle_all(Set::<Seq<u32>>::empty(), ms.drop_last()).contains(x)
                <==> ms.drop_last().to_multiset().count(x) % 2 == 1);
        }
    }
}

/// The product with one monomial leaves exactly the products that arise an
/// odd number of times.
proof fn lemma_times_mon_parity(ps: Seq<Seq<u32>>, m: Seq<u32>)
    ensures
        forall|x: Seq<u32>|
            #[trigger] times_mon(ps, m).contains(x) <==> scaled(ps, m).to_multiset().count(x)
                % 2 == 1,
    decreases ps.len(),
{
    let qs = scaled(ps, m);
    assert(toggle_all(Set::<Seq<u32>>::empty(), qs) == times_mon(ps, m)) by {
        lemma_toggle_all_map(ps, m);
    }
    lemma_additions_parity(qs);
}

proof fn lemma_toggle_all_map(ps: Seq<Seq<u32>>, m: Seq<u32>)
    ensures
        toggle_all(Set::<Seq<u32>>::empty(), scaled(ps, m)) == times_mon(ps, m),
    decreases ps.len(),
{
    if ps.len() > 0 {
        lemma_toggle_all_map(ps.drop_last(), m);
        let qs = scaled(ps, m);
        assert(qs.drop_last() =~= scaled(ps.drop_last(), m));
    }
}

/// A monomial is in the product of two polynomials exactly when an odd
/// number of pairs of their monomials multiply to it: the product does not
/// depend on the order in which the pairs are taken.
pub proof fn lemma_product_parity(ps: Seq<Seq<u32>>, qs: Seq<Seq<u32>>)
    ensures
        forall|x: Seq<u32>| #[trigger] times(ps, qs).contains(x) <==> products(ps, qs).to_multiset().count(x) % 2 == 1,
    decreases qs.len(),
{
    broadcast use vstd::seq_lib::group_to_multiset_ensures;
    broadcast use vstd::seq_lib::lemma_multiset_commutative;
    broadcast use vstd::multiset::group_multiset_axioms;

    if qs.len() == 0 {
        let e = products(ps, qs);
        assert(e.to_multiset().len() == 0);
        assert forall|x: Seq<u32>| e.to_multiset().count(x) == 0 by {
            if e.to_multiset().count(x) > 0 {
                assert(e.to_multiset().contains(x));
            }
        }
    } else {
        lemma_product_parity(ps, qs.drop_last());
        lemma_times_mon_parity(ps, qs.last());
        let a = products(ps, qs.drop_last());
        let b = scaled(ps, qs.last());
        assert((a + b).to_multiset() =~= a.to_multiset().add(b.to_multiset()));
        assert forall|x: Seq<u32>| #[trigger] times(ps, qs).contains(x) <==> products(ps, qs).to_multiset().count(x)
            % 2 == 1 by {
            assert(times(ps, qs.drop_last()).contains(x) <==> a.to_multiset().count(x) % 2 == 1);
            assert(times_mon(ps, qs.last()).contains(x) <==> b.to_multiset().count(x) % 2 == 1);
        }
    }
}


/// Two strictly ascending sequences with the same elements are equal.
proof fn lemma_sorted_unique(a: Seq<u32>, b: Seq<u32>)
    requires
        is_strictly_sorted(a),
        is_strictly_sorted(b),
        forall|y: u32| a.contains(y) <==> b.contains(y),
    ensures
        a == b,
    decreases a.len(),
{
    if a.len() == 0 {
        if b.len() > 0 {
            assert(b.contains(b[0]));
        }
        assert(a =~= b);
    } else {
        assert(a.contains(a[0]));
        assert(b.len() > 0);
        assert(b.contains(b[0]));
        let i = choose|i: int| 0 <= i < b.len() && b[i] == a[0];
        let j = choose|j: int| 0 <= j < a.len() && a[j] == b[0];
        if i > 0 {
            assert(b[0] < b[i]);
        }
        if j > 0 {
            assert(a[0] < a[j]);
        }
        assert(a[0] == b[0]);
        let ta = a.drop_first();
        let tb = b.drop_first();
        assert forall|y: u32| ta.contains(y) <==> tb.contains(y) by {
            if ta.contains(y) {
                let k = choose|k: int| 0 <= k < ta.len() && ta[k] == y;
                assert(a[k + 1] == y);
                assert(a.contains(y));
                let m = choose|m: int| 0 <= m < b.len() && b[m] == y;
                assert(a[0] < a[k + 1]);
                assert(m != 0);
                assert(tb[m - 1] == y);
            }
            if tb.contains(y) {
                let k = choose|k: int| 0 <= k < tb.len() && tb[k] == y;
                assert(b[k + 1] == y);
                assert(b.contains(y));
                let m = choose|m: int| 0 <= m < a.len() && a[m] == y;
                assert(b[0] < b[k + 1]);
                assert(m != 0);
                assert(ta[m - 1] == y);
            }
        }
        lemma_sorted_unique(ta, tb);
        assert(a =~= seq![a[0]] + ta);
        assert(b =~= seq![b[0]] + tb);
    }
}

/// The product of two monomials does not depend on the order of the factors.
pub proof fn lemma_mul_vars_commutative(a: Seq<u32>, b: Seq<u32>)
    requires
        is_strictly_sorted(a),
        is_strictly_sorted(b),
    ensures
        mul_vars(a, b) == mul_vars(b, a),
{
    lemma_mul_vars(a, b);
    lemma_mul_vars(b, a);
    assert forall|y: u32| mul_vars(a, b).contains(y) <==> mul_vars(b, a).contains(y) by {}
    lemma_sorted_unique(mul_vars(a, b), mul_vars(b, a));
}

/// Every element of `ps` is a well-formed monomial's ordinals.
spec fn all_sorted(ps: Seq<Seq<u32>>) -> bool {
    forall|i: int| 0 <= i < ps.len() ==> is_strictly_sorted(#[trigger] ps[i])
}

proof fn lemma_products_push_left(qs: Seq<Seq<u32>>, q: Seq<u32>, ps: Seq<Seq<u32>>)
    ensures
        products(qs.push(q), ps).to_multiset() == products(qs, ps).to_multiset().add(
            scaled_left(q, ps).to_multiset(),
        ),
    decreases ps.len(),
{
    broadcast use vstd::seq_lib::group_to_multiset_ensures;
    broadcast use vstd::seq_lib::lemma_multiset_commutative;
    broadcast use vstd::multiset::group_multiset_axioms;

    if ps.len() == 0 {
        assert(scaled_left(q, ps) =~= Seq::<Seq<u32>>::empty());
        assert(products(qs.push(q), ps).to_multiset() =~= products(qs, ps).to_multiset().add(
            scaled_left(q, ps).to_multiset(),
        ));
    } else {
        let d = ps.drop_last();
        let l = ps.last();
        lemma_products_push_left(qs, q, d);
        let a = scaled(qs.push(q), l);
        assert(a =~= scaled(qs, l).push(mul_vars(q, l)));
        assert(scaled_left(q, ps) =~= scaled_left(q, d).push(mul_vars(q, l)));
        assert(products(qs.push(q), ps) == products(qs.push(q), d) + a);
        assert(products(qs, ps) == products(qs, d) + scaled(qs, l));
        assert(products(qs.push(q), ps).to_multiset() =~= products(qs, ps).to_multiset().add(
            scaled_left(q, ps).to_multiset(),
        ));
    }
}

/// The pairs of monomials multiplied by `times` are the same either way
/// round.
proof fn lemma_products_commutative(ps: Seq<Seq<u32>>, qs: Seq<Seq<u32>>)
    requires
        all_sorted(ps),
        all_sorted(qs),
    ensures
        products(ps, qs).to_multiset() == products(qs, ps).to_multiset(),
    decreases qs.len(),
{
    broadcast use vstd::seq_lib::group_to_multiset_ensures;
    broadcast use vstd::seq_lib::lemma_multiset_commutative;
    broadcast use vstd::multiset::group_multiset_axioms;

    if qs.len() == 0 {
        lemma_products_of_none(ps);
        assert(qs =~= Seq::<Seq<u32>>::empty());
        assert(products(ps, qs) == products(qs, ps));
    } else {
        let d = qs.drop_last();
        let q = qs.last();
        assert(all_sorted(d)) by {
            assert forall|i: int| 0 <= i < d.len() implies is_strictly_sorted(#[trigger] d[i]) by {
                assert(d[i] == qs[i]);
            }
        }
        assert(is_strictly_sorted(q)) by {
            assert(q == qs[qs.len() - 1]);
        }
        lemma_products_commutative(ps, d);
        assert(qs =~= d.push(q));
        lemma_products_push_left(d, q, ps);
        assert(scaled_left(q, ps) =~= scaled(ps, q)) by {
            assert forall|i: int| 0 <= i < ps.len() implies mul_vars(q, ps[i]) == mul_vars(ps[i], q) by {
                lemma_mul_vars_commutative(q, ps[i]);
            }
        }
        assert(products(ps, qs) == products(ps, d) + scaled(ps, q));
        assert(products(ps, qs).to_multiset() == products(ps, d).to_multiset().add(
            scaled(ps, q).to_multiset(),
        ));
        assert(products(qs, ps) == products(d.push(q), ps));
        assert(products(ps, d).to_multiset() == products(d, ps).to_multiset());
        assert(products(d.push(q), ps).to_multiset() == products(d, ps).to_multiset().add(
            scaled_left(q, ps).to_multiset(),
        ));
        assert(products(ps, qs).to_multiset() == products(qs, ps).to_multiset());
    }
}

proof fn lemma_products_of_none(ps: Seq<Seq<u32>>)
    ensures
        products(Seq::<Seq<u32>>::empty(), ps) == Seq::<Seq<u32>>::empty(),
    decreases ps.len(),
{
    if ps.len() > 0 {
        lemma_products_of_none(ps.drop_last());
        assert(scaled(Seq::<Seq<u32>>::empty(), ps.last()) =~= Seq::<Seq<u32>>::empty());
        assert(products(Seq::<Seq<u32>>::empty(), ps) =~= Seq::<Seq<u32>>::empty());
    }
}

/// Multiplication of polynomials is commutative.
pub proof fn lemma_mul_commutative<'a, T: MonomialOrdering>(p: &Polynomial<'a, T>, q: &Polynomial<'a, T>)
    requires
        p.wf(),
        q.wf(),
    ensures
        times(p.terms(), q.terms()) == times(q.terms(), p.terms()),
{
    p.lemma_terms();
    q.lemma_terms();
    let ps = p.terms();
    let qs = q.terms();
    assert forall|i: int| 0 <= i < ps.len() implies is_strictly_sorted(#[trigger] ps[i]) by {
        assert(p.mons@[i].wf());
    }
    assert forall|i: int| 0 <= i < qs.len() implies is_strictly_sorted(#[trigger] qs[i]) by {
        assert(q.mons@[i].wf());
    }
    lemma_products_commutative(ps, qs);
    lemma_product_parity(ps, qs);
    lemma_product_parity(qs, ps);
    assert(times(ps, qs) =~= times(qs, ps));
}

} // verus!
