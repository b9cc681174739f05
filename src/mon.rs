use vstd::prelude::*;

use crate::order::{mon_cmp, MonomialOrdering};
use vstd::string::StringExecFns;
use crate::ring::Ring;
use crate::sorted::{
    insert_sorted, is_strictly_sorted, sorted_contents, sv_clone, sv_elements, sv_find_or_insert,
    sv_with_capacity,
};
use crate::var::Variable;

verus! {

/// The room a new monomial reserves for ordinals; not a bound on degree.
pub const MAX_MONOMIAL_DEGREE: usize = 10;

/// Each ordinal names a variable of a space of `n` variables.
pub open spec fn ordinals_below(s: Seq<u32>, n: nat) -> bool {
    forall|i: int| 0 <= i < s.len() ==> (s[i] as nat) < n
}

/// The ordinals of the product of two non-zero monomials: those of `b`
/// inserted one by one into those of `a`, each only where absent.
pub open spec fn mul_vars(a: Seq<u32>, b: Seq<u32>) -> Seq<u32>
    decreases b.len(),
{
    if b.len() == 0 {
        a
    } else {
        insert_sorted(mul_vars(a, b.drop_last()), b.last())
    }
}

/// The product of two monomials; `None` is the zero monomial, which absorbs.
pub open spec fn mon_mul(a: Option<Seq<u32>>, b: Option<Seq<u32>>) -> Option<Seq<u32>> {
    match (a, b) {
        (Some(x), Some(y)) => Some(mul_vars(x, y)),
        _ => None,
    }
}

pub proof fn lemma_insert_sorted(s: Seq<u32>, x: u32)
    requires
        is_strictly_sorted(s),
    ensures
        is_strictly_sorted(insert_sorted(s, x)),
        forall|y: u32| insert_sorted(s, x).contains(y) <==> (s.contains(y) || y == x),
        s.contains(x) ==> insert_sorted(s, x) == s,
        !s.contains(x) ==> insert_sorted(s, x).len() == s.len() + 1,
    decreases s.len(),
{
    if s.len() == 0 {
        assert forall|y: u32| insert_sorted(s, x).contains(y) <==> (s.contains(y) || y == x) by {
            if y == x {
                assert(insert_sorted(s, x)[0] == y);
            }
        }
    } else if x < s[0] {
        let r = seq![x] + s;
        assert forall|y: u32| r.contains(y) <==> (s.contains(y) || y == x) by {
            if r.contains(y) && y != x {
                let k = choose|k: int| 0 <= k < r.len() && r[k] == y;
                assert(s[k - 1] == y);
            }
            if s.contains(y) {
                let k = choose|k: int| 0 <= k < s.len() && s[k] == y;
                assert(r[k + 1] == y);
            }
            if y == x {
                assert(r[0] == y);
            }
        }
        assert forall|i: int, j: int| 0 <= i < j < r.len() implies r[i] < r[j] by {
            if i > 0 {
                assert(r[i] == s[i - 1]);
            }
            assert(r[j] == s[j - 1]);
            if j - 1 > 0 {
                assert(s[0] < s[j - 1]);
            }
        }
        if s.contains(x) {
            let k = choose|k: int| 0 <= k < s.len() && s[k] == x;
            if k > 0 {
                assert(s[0] < s[k]);
            }
        }
    } else if x == s[0] {
        assert(s.contains(x));
    } else {
        let t = s.drop_first();
        assert forall|i: int, j: int| 0 <= i < j < t.len() implies t[i] < t[j] by {
            assert(t[i] == s[i + 1] && t[j] == s[j + 1]);
        }
        lemma_insert_sorted(t, x);
        let u = insert_sorted(t, x);
        let r = seq![s[0]] + u;
        assert(s =~= seq![s[0]] + t);
        assert forall|y: u32| r.contains(y) <==> (s.contains(y) || y == x) by {
            if r.contains(y) {
                let k = choose|k: int| 0 <= k < r.len() && r[k] == y;
                if k == 0 {
                    assert(s[0] == y);
                } else {
                    assert(u[k - 1] == y);
                    assert(u.contains(y));
                    if t.contains(y) {
                        let m = choose|m: int| 0 <= m < t.len() && t[m] == y;
                        assert(s[m + 1] == y);
                    }
                }
            }
            if s.contains(y) {
                let k = choose|k: int| 0 <= k < s.len() && s[k] == y;
                if k == 0 {
                    assert(r[0] == y);
                } else {
                    assert(t[k - 1] == y);
                    assert(t.contains(y));
                    assert(u.contains(y));
                    let m = choose|m: int| 0 <= m < u.len() && u[m] == y;
                    assert(r[m + 1] == y);
                }
            }
            if y == x {
                assert(u.contains(y));
                let m = choose|m: int| 0 <= m < u.len() && u[m] == y;
                assert(r[m + 1] == y);
            }
        }
        assert forall|i: int, j: int| 0 <= i < j < r.len() implies r[i] < r[j] by {
            if i == 0 {
                assert(u.contains(r[j])) by {
                    assert(u[j - 1] == r[j]);
                }
                if t.contains(r[j]) {
                    let m = choose|m: int| 0 <= m < t.len() && t[m] == r[j];
                    assert(s[m + 1] == r[j]);
                }
            } else {
                assert(r[i] == u[i - 1] && r[j] == u[j - 1]);
            }
        }
        if s.contains(x) {
            let k = choose|k: int| 0 <= k < s.len() && s[k] == x;
            assert(k > 0);
            assert(t[k - 1] == x);
            assert(t.contains(x));
        } else {
            assert forall|m: int| 0 <= m < t.len() implies t[m] != x by {
                assert(s[m + 1] == t[m]);
            }
        }
    }
}

pub proof fn lemma_mul_vars(a: Seq<u32>, b: Seq<u32>)
    requires
        is_strictly_sorted(a),
    ensures
        is_strictly_sorted(mul_vars(a, b)),
        forall|y: u32| #[trigger] mul_vars(a, b).contains(y) <==> (a.contains(y) || b.contains(y)),
    decreases b.len(),
{
    if b.len() > 0 {
        lemma_mul_vars(a, b.drop_last());
        lemma_insert_sorted(mul_vars(a, b.drop_last()), b.last());
        assert forall|y: u32| mul_vars(a, b).contains(y) <==> (a.contains(y) || b.contains(y)) by {
            assert(b =~= b.drop_last().push(b.last()));
            assert(mul_vars(a, b.drop_last()).contains(y) <==> (a.contains(y) || b.drop_last().contains(y)));
            if b.contains(y) && y != b.last() {
                let k = choose|k: int| 0 <= k < b.len() && b[k] == y;
                assert(b.drop_last()[k] == y);
            }
            if b.drop_last().contains(y) {
                let k = choose|k: int| 0 <= k < b.len() - 1 && b.drop_last()[k] == y;
                assert(b[k] == y);
            }
        }
    }
}

/// Variable names joined by `*`, in the order of `vs`.
pub open spec fn join_names(names: Seq<Seq<char>>, vs: Seq<u32>) -> Seq<char>
    decreases vs.len(),
{
    if vs.len() == 0 {
        Seq::empty()
    } else if vs.len() == 1 {
        names[vs[0] as int]
    } else {
        join_names(names, vs.drop_last()) + seq!['*'] + names[vs.last() as int]
    }
}

/// How a monomial is written: `0` for zero, `1` for the identity, else the
/// names of its variables joined by `*`, from the lowest ordinal up, or from
/// the highest down where `descending` holds.
pub open spec fn mon_text(names: Seq<Seq<char>>, m: Option<Seq<u32>>, descending: bool) -> Seq<char> {
    match m {
        None => seq!['0'],
        Some(vs) => if vs.len() == 0 {
            seq!['1']
        } else if descending {
            join_names(names, vs.reverse())
        } else {
            join_names(names, vs)
        },
    }
}

/// An ordinal as a monomial's variable handle.
#[derive(Clone, Copy, Debug, PartialEq, Eq, Structural, PartialOrd, Ord)]
pub struct VariableOrder(u32);

impl VariableOrder {
    /// The ordinal.
    pub closed spec fn spec_ordinal(&self) -> u32 {
        self.0
    }

    pub fn order(&self) -> (r: usize)
        ensures
            r == self.spec_ordinal(),
    {
        self.0 as usize
    }
}

/// Whether two ordinal lists are equal.
fn same_ordinals(a: &Vec<u32>, b: &Vec<u32>) -> (r: bool)
    ensures
        r == (a@ == b@),
{
    if a.len() != b.len() {
        return false;
    }
    let mut i: usize = 0;
    while i < a.len()
        invariant
            a@.len() == b@.len(),
            i <= a@.len(),
            forall|j: int| 0 <= j < i ==> a@[j] == b@[j],
        decreases a@.len() - i,
    {
        if a[i] != b[i] {
            return false;
        }
        i = i + 1;
    }
    assert(a@ =~= b@);
    true
}

/// A square-free product of distinct variables of one space, or zero.
pub enum Monomial<'a, T> {
    NonZero { ring: &'a Ring<T>, vars: sorted_vec::SortedVec<u32> },
    Zero,
}

impl<'a, T> View for Monomial<'a, T> {
    /// The ordinals of the variables, ascending; `None` for zero.
    type V = Option<Seq<u32>>;

    open spec fn view(&self) -> Option<Seq<u32>> {
        match self {
            Monomial::NonZero { vars, .. } => Some(sorted_contents(*vars)),
            Monomial::Zero => None,
        }
    }
}

impl<'a, T> Monomial<'a, T> {
    /// The ordinals are ascending without repeats and name variables of the
    /// monomial's space.
    pub open spec fn wf(&self) -> bool {
        match self {
            Monomial::NonZero { ring, vars } => {
                &&& is_strictly_sorted(sorted_contents(*vars))
                &&& ordinals_below(sorted_contents(*vars), ring.spec_gens())
            },
            Monomial::Zero => true,
        }
    }

    /// Both monomials, where non-zero, belong to the same space.
    pub open spec fn same_space(&self, other: &Self) -> bool {
        match (self.spec_ring(), other.spec_ring()) {
            (Some(a), Some(b)) => a == b,
            _ => true,
        }
    }

    /// The ordinal names a variable of the monomial's space, if it has one.
    pub open spec fn admits(&self, ordinal: nat) -> bool {
        match self.spec_ring() {
            Some(r) => ordinal < r.spec_gens(),
            None => true,
        }
    }

    /// The space of a non-zero monomial.
    pub open spec fn spec_ring(&self) -> Option<&'a Ring<T>> {
        match self {
            Monomial::NonZero { ring, .. } => Some(*ring),
            Monomial::Zero => None,
        }
    }

    /// The identity: no variables.
    pub fn one(ring: &'a Ring<T>) -> (r: Self)
        ensures
            r@ == Some(Seq::<u32>::empty()),
            r.spec_ring() == Some(ring),
            r.wf(),
    {
        Monomial::NonZero { vars: sv_with_capacity(MAX_MONOMIAL_DEGREE), ring }
    }

    /// The identity.
    pub fn new(ring: &'a Ring<T>) -> (r: Self)
        ensures
            r@ == Some(Seq::<u32>::empty()),
            r.spec_ring() == Some(ring),
            r.wf(),
    {
        Monomial::one(ring)
    }

    /// The space of a non-zero monomial; `None` for zero.
    pub fn ring(&self) -> (r: Option<&'a Ring<T>>)
        ensures
            r == self.spec_ring(),
    {
        match self {
            Monomial::NonZero { ring, .. } => Some(*ring),
            Monomial::Zero => None,
        }
    }

    pub fn is_zero(&self) -> (r: bool)
        ensures
            r == (self@ is None),
    {
        !matches!(self, Monomial::NonZero { .. })
    }

    pub fn is_one(&self) -> (r: bool)
        ensures
            r == (self@ == Some(Seq::<u32>::empty())),
    {
        match self {
            Monomial::NonZero { vars, .. } => {
                let e = sv_elements(vars);
                if e.len() == 0 {
                    assert(e@ =~= Seq::<u32>::empty());
                    true
                } else {
                    false
                }
            },
            Monomial::Zero => false,
        }
    }

    /// The number of variables; zero has degree 0.
    pub fn degree(&self) -> (r: usize)
        ensures
            r == match self@ {
                Some(v) => v.len(),
                None => 0,
            },
    {
        match self {
            Monomial::NonZero { vars, .. } => sv_elements(vars).len(),
            Monomial::Zero => 0,
        }
    }

    /// The ordinals of a non-zero monomial, ascending; `None` for zero.
    pub fn vars(&self) -> (r: Option<Vec<VariableOrder>>)
        ensures
            match (r, self@) {
                (Some(o), Some(v)) => o@.len() == v.len() && forall|i: int|
                    0 <= i < v.len() ==> #[trigger] o@[i].spec_ordinal() == v[i],
                (None, None) => true,
                _ => false,
            },
    {
        match self {
            Monomial::NonZero { vars, .. } => {
                let e = sv_elements(vars);
                let mut o: Vec<VariableOrder> = Vec::with_capacity(e.len());
                let mut i: usize = 0;
                while i < e.len()
                    invariant
                        i <= e@.len(),
                        o@.len() == i,
                        forall|j: int| 0 <= j < i ==> #[trigger] o@[j].spec_ordinal() == e@[j],
                    decreases e@.len() - i,
                {
                    o.push(VariableOrder(e[i]));
                    i = i + 1;
                }
                Some(o)
            },
            Monomial::Zero => None,
        }
    }

    /// The monomial of one variable, which must belong to `ring`.
    pub fn from_variable(ring: &'a Ring<T>, v: &Variable) -> (r: Self)
        requires
            v.spec_order() < ring.spec_gens(),
        ensures
            r@ == Some(seq![v.spec_order() as u32]),
            r.spec_ring() == Some(ring),
            r.wf(),
    {
        // the count carries the bound that makes the ordinal fit 32 bits
        let _ = ring.gens();
        let mut vars = sv_with_capacity(MAX_MONOMIAL_DEGREE);
        sv_find_or_insert(&mut vars, v.order());
        assert(insert_sorted(Seq::<u32>::empty(), v.spec_order() as u32) =~= seq![v.spec_order() as u32]);
        Monomial::NonZero { vars, ring }
    }

    /// The product: zero absorbs; otherwise the union of the two variable
    /// sets (a variable times itself is itself).
    pub fn mul(&self, rhs: &Self) -> (r: Self)
        requires
            self.wf(),
            rhs.wf(),
            self.same_space(rhs),
        ensures
            r@ == mon_mul(self@, rhs@),
            r.wf(),
            r@ is Some ==> r.spec_ring() == self.spec_ring(),
    {
        match (self, rhs) {
            (Monomial::NonZero { vars: va, ring }, Monomial::NonZero { vars: vb, .. }) => {
                let mut res = sv_clone(va);
                let eb = sv_elements(vb);
                let ghost a = sorted_contents(*va);
                let mut i: usize = 0;
                while i < eb.len()
                    invariant
                        i <= eb@.len(),
                        is_strictly_sorted(a),
                        sorted_contents(res) == mul_vars(a, eb@.take(i as int)),
                    decreases eb@.len() - i,
                {
                    proof {
                        lemma_mul_vars(a, eb@.take(i as int));
                        assert(eb@.take(i + 1).drop_last() =~= eb@.take(i as int));
                    }
                    sv_find_or_insert(&mut res, eb[i]);
                    i = i + 1;
                }
                proof {
                    assert(eb@.take(eb@.len() as int) =~= eb@);
                    lemma_mul_vars(a, eb@);
                    let m = mul_vars(a, eb@);
                    assert forall|k: int| 0 <= k < m.len() implies (m[k] as nat) < ring.spec_gens() by {
                        assert(m.contains(m[k]));
                        if a.contains(m[k]) {
                            let j = choose|j: int| 0 <= j < a.len() && a[j] == m[k];
                        } else {
                            let j = choose|j: int| 0 <= j < eb@.len() && eb@[j] == m[k];
                        }
                    }
                }
                Monomial::NonZero { vars: res, ring }
            },
            _ => Monomial::Zero,
        }
    }

    /// Multiplies in place.
    pub fn mul_assign(&mut self, rhs: &Self)
        requires
            old(self).wf(),
            rhs.wf(),
            old(self).same_space(rhs),
        ensures
            final(self)@ == mon_mul(old(self)@, rhs@),
            final(self).wf(),
            final(self)@ is Some ==> final(self).spec_ring() == old(self).spec_ring(),
    {
        let r = self.mul(rhs);
        *self = r;
    }

    /// The product with one variable of the monomial's space.
    pub fn mul_variable(&self, v: &Variable) -> (r: Self)
        requires
            self.wf(),
            self.admits(v.spec_order() as nat),
        ensures
            r@ == mon_mul(self@, Some(seq![v.spec_order() as u32])),
            r.wf(),
            r.spec_ring() == self.spec_ring(),
    {
        match self {
            Monomial::NonZero { vars, ring } => {
                let single = Monomial::from_variable(*ring, v);
                self.mul(&single)
            },
            Monomial::Zero => Monomial::Zero,
        }
    }
}

impl<'a, T: MonomialOrdering> Monomial<'a, T> {
    /// How the monomial is written under the ordering `T`.
    pub open spec fn spec_text(&self) -> Seq<char> {
        match self {
            Monomial::NonZero { ring, .. } => mon_text(ring.spec_names(), self@, T::spec_descending()),
            Monomial::Zero => seq!['0'],
        }
    }

    /// Writes the monomial: `0`, `1`, or its variables' names joined by `*`.
    pub fn to_string(&self) -> (r: String)
        requires
            self.wf(),
        ensures
            r@ == self.spec_text(),
    {
        match self {
            Monomial::NonZero { ring, vars } => {
                let e = sv_elements(vars);
                let n = e.len();
                if n == 0 {
                    proof {
                        reveal_strlit("1");
                    }
                    return String::from_str("1");
                }
                let desc = T::descending();
                let ghost names = ring.spec_names();
                let ghost os = if desc { e@.reverse() } else { e@ };
                let mut s = String::new();
                let mut k: usize = 0;
                proof {
                    reveal_strlit("*");
                    assert(os.take(0) =~= Seq::<u32>::empty());
                }
                while k < n
                    invariant
                        n == e@.len(),
                        n > 0,
                        k <= n,
                        os == (if desc { e@.reverse() } else { e@ }),
                        os.len() == n,
                        ordinals_below(e@, ring.spec_gens()),
                        names == ring.spec_names(),
                        s@ == join_names(names, os.take(k as int)),
                    decreases n - k,
                {
                    let idx = if desc { n - 1 - k } else { k };
                    let o = e[idx];
                    assert(os[k as int] == o);
                    let name = ring.var(o as usize).name();
                    proof {
                        assert(os.take(k + 1).drop_last() =~= os.take(k as int));
                        reveal_strlit("*");
                    }
                    if k > 0 {
                        s.append("*");
                    }
                    s.append(name);
                    proof {
                        if k == 0 {
                            assert(s@ =~= join_names(names, os.take(1)));
                        } else {
                            assert(s@ =~= join_names(names, os.take(k + 1)));
                        }
                    }
                    k = k + 1;
                }
                assert(os.take(n as int) =~= os);
                s
            },
            Monomial::Zero => {
                proof {
                    reveal_strlit("0");
                }
                String::from_str("0")
            },
        }
    }
}

impl<'a, T: MonomialOrdering> PartialOrd for Monomial<'a, T> {
    /// Ranks by the ordering `T`; always comparable.
    fn partial_cmp(&self, other: &Self) -> (r: Option<core::cmp::Ordering>)
        ensures
            r == Some(mon_cmp::<T>(self@, other@)),
    {
        Some(T::cmp(self, other))
    }
}

impl<'a, T: MonomialOrdering> vstd::std_specs::cmp::PartialOrdSpecImpl for Monomial<'a, T> {
    open spec fn obeys_partial_cmp_spec() -> bool {
        true
    }

    open spec fn partial_cmp_spec(&self, other: &Self) -> Option<core::cmp::Ordering> {
        Some(mon_cmp::<T>(self@, other@))
    }
}

impl<'a, T> Clone for Monomial<'a, T> {
    fn clone(&self) -> (r: Self)
        ensures
            r@ == self@,
            r.spec_ring() == self.spec_ring(),
    {
        match self {
            Monomial::NonZero { ring, vars } => Monomial::NonZero { ring: *ring, vars: sv_clone(vars) },
            Monomial::Zero => Monomial::Zero,
        }
    }
}

impl<'a, T> PartialEq for Monomial<'a, T> {
    /// Equal variable sets, or both zero; the space is not compared.
    fn eq(&self, other: &Self) -> (r: bool)
        ensures
            r == (self@ == other@),
    {
        match (self, other) {
            (Monomial::Zero, Monomial::Zero) => true,
            (Monomial::NonZero { vars: a, .. }, Monomial::NonZero { vars: b, .. }) => {
                same_ordinals(sv_elements(a), sv_elements(b))
            },
            _ => false,
        }
    }
}

impl<'a, T> vstd::std_specs::cmp::PartialEqSpecImpl for Monomial<'a, T> {
    open spec fn obeys_eq_spec() -> bool {
        true
    }

    open spec fn eq_spec(&self, other: &Self) -> bool {
        self@ == other@
    }
}


/// A variable is idempotent: multiplying a monomial by one of its own
/// variables leaves it unchanged, and by a variable it lacks adds exactly
/// that variable.
pub proof fn lemma_variable_idempotent(a: Seq<u32>, x: u32)
    requires
        is_strictly_sorted(a),
    ensures
        a.contains(x) ==> mon_mul(Some(a), Some(seq![x])) == Some(a),
        !a.contains(x) ==> match mon_mul(Some(a), Some(seq![x])) {
            Some(r) => r.len() == a.len() + 1 && is_strictly_sorted(r) && forall|y: u32|
                #[trigger] r.contains(y) <==> (a.contains(y) || y == x),
            None => false,
        },
{
    assert(seq![x].drop_last() =~= Seq::<u32>::empty());
    assert(mul_vars(a, Seq::<u32>::empty()) == a);
    assert(mul_vars(a, seq![x]) == insert_sorted(a, x));
    lemma_insert_sorted(a, x);
}

} // verus!
