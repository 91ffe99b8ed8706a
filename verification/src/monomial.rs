//! Monomials: one exponent for each variable.
//!
//! A monomial is seen as the sequence of its exponents.  Exponents are 64 bit
//! wide and a product that would leave that range stays at the largest
//! exponent, so multiplying monomials never fails.

use vstd::prelude::*;

verus! {

/// A power product of the variables of a ring: one exponent for each
/// variable, in the order of the variables.  It is seen as the sequence of
/// its exponents and does not change once it is made.
#[derive(Clone, Debug, PartialEq, Eq, Hash)]
pub struct Monomial {
    powers: Vec<u64>,
}

impl View for Monomial {
    type V = Seq<u64>;

    closed spec fn view(&self) -> Seq<u64> {
        self.powers@
    }
}

/// How two monomials stand to each other in the term order.
#[derive(Clone, Copy, Debug, PartialEq, Eq, Structural)]
pub enum Place {
    Before,
    Same,
    After,
}

/// `a` divides `b`: both have the same number of variables and no exponent of
/// `a` is larger than the one of `b` at its position.
pub open spec fn divides(a: Seq<u64>, b: Seq<u64>) -> bool {
    &&& a.len() == b.len()
    &&& forall|i: int| 0 <= i < a.len() ==> a[i] <= b[i]
}

/// The sum of two exponents, held at the largest exponent when it would pass it.
pub open spec fn exponent_sum(x: u64, y: u64) -> u64 {
    if x + y > u64::MAX {
        u64::MAX
    } else {
        (x + y) as u64
    }
}

/// The product of two monomials: exponents are added position by position.
pub open spec fn times(a: Seq<u64>, b: Seq<u64>) -> Seq<u64> {
    Seq::new(a.len(), |i: int| exponent_sum(a[i], b[i]))
}

/// The monomial of `n` variables in which every exponent is zero.
pub open spec fn unit(n: nat) -> Seq<u64> {
    Seq::new(n, |i: int| 0u64)
}

/// Whether `a` comes before `b` when both are compared from position `i` on.
pub open spec fn precedes_from(a: Seq<u64>, b: Seq<u64>, i: int) -> bool
    decreases a.len() - i,
{
    if i < 0 || i >= b.len() {
        false
    } else if i >= a.len() {
        true
    } else if a[i] != b[i] {
        a[i] < b[i]
    } else {
        precedes_from(a, b, i + 1)
    }
}

/// The term order: `a` comes before `b` when, at the first position where
/// they differ, the exponent of `a` is the smaller one (a proper prefix comes
/// before what it is a prefix of).
pub open spec fn precedes(a: Seq<u64>, b: Seq<u64>) -> bool {
    precedes_from(a, b, 0)
}

/// No monomial comes before itself.
pub proof fn lemma_precedes_irreflexive(a: Seq<u64>)
    ensures
        !precedes(a, a),
{
    lemma_irreflexive_from(a, 0);
}

proof fn lemma_irreflexive_from(a: Seq<u64>, i: int)
    requires
        0 <= i,
    ensures
        !precedes_from(a, a, i),
    decreases a.len() - i,
{
    if i < a.len() {
        lemma_irreflexive_from(a, i + 1);
    }
}

/// The term order is transitive.
pub proof fn lemma_precedes_transitive(a: Seq<u64>, b: Seq<u64>, c: Seq<u64>)
    requires
        precedes(a, b),
        precedes(b, c),
    ensures
        precedes(a, c),
{
    lemma_transitive_from(a, b, c, 0);
}

proof fn lemma_transitive_from(a: Seq<u64>, b: Seq<u64>, c: Seq<u64>, i: int)
    requires
        0 <= i,
        precedes_from(a, b, i),
        precedes_from(b, c, i),
    ensures
        precedes_from(a, c, i),
    decreases a.len() - i,
{
    if i < a.len() && i < b.len() && i < c.len() && a[i] == b[i] && b[i] == c[i] {
        lemma_transitive_from(a, b, c, i + 1);
    }
}

/// Of two different monomials one comes before the other.
pub proof fn lemma_precedes_total(a: Seq<u64>, b: Seq<u64>)
    ensures
        a == b || precedes(a, b) || precedes(b, a),
{
    lemma_total_from(a, b, 0);
    if !precedes(a, b) && !precedes(b, a) {
        assert(a =~= b);
    }
}

proof fn lemma_total_from(a: Seq<u64>, b: Seq<u64>, i: int)
    requires
        0 <= i <= a.len(),
        i <= b.len(),
    ensures
        precedes_from(a, b, i) || precedes_from(b, a, i) || (a.len() == b.len() && forall|j: int|
            i <= j < a.len() ==> a[j] == b[j]),
    decreases a.len() - i,
{
    if i < a.len() && i < b.len() && a[i] == b[i] {
        lemma_total_from(a, b, i + 1);
    }
}

/// Of two monomials at most one comes before the other.
pub proof fn lemma_precedes_asymmetric(a: Seq<u64>, b: Seq<u64>)
    requires
        precedes(a, b),
    ensures
        !precedes(b, a),
{
    if precedes(b, a) {
        lemma_precedes_transitive(a, b, a);
        lemma_precedes_irreflexive(a);
    }
}

/// Every monomial divides itself.
pub proof fn lemma_divides_reflexive(a: Seq<u64>)
    ensures
        divides(a, a),
{
}

/// Divisibility is transitive.
pub proof fn lemma_divides_transitive(a: Seq<u64>, b: Seq<u64>, c: Seq<u64>)
    requires
        divides(a, b),
        divides(b, c),
    ensures
        divides(a, c),
{
}

/// Two monomials that divide each other are the same.
pub proof fn lemma_divides_antisymmetric(a: Seq<u64>, b: Seq<u64>)
    requires
        divides(a, b),
        divides(b, a),
    ensures
        a == b,
{
    assert(a =~= b);
}

/// Each factor divides the product.
pub proof fn lemma_factor_divides_product(a: Seq<u64>, b: Seq<u64>)
    requires
        a.len() == b.len(),
    ensures
        divides(a, times(a, b)),
        divides(b, times(a, b)),
{
}

/// The product of monomials does not depend on the order of the factors.
pub proof fn lemma_times_commutative(a: Seq<u64>, b: Seq<u64>)
    requires
        a.len() == b.len(),
    ensures
        times(a, b) == times(b, a),
{
    assert(times(a, b) =~= times(b, a));
}

/// The product of monomials does not depend on how the factors are grouped.
pub proof fn lemma_times_associative(a: Seq<u64>, b: Seq<u64>, c: Seq<u64>)
    requires
        a.len() == b.len(),
        b.len() == c.len(),
    ensures
        times(times(a, b), c) == times(a, times(b, c)),
{
    assert(times(times(a, b), c) =~= times(a, times(b, c)));
}

/// Multiplying by the monomial without variables changes nothing.
pub proof fn lemma_times_unit(a: Seq<u64>)
    ensures
        times(a, unit(a.len())) == a,
        times(unit(a.len()), a) == a,
{
    assert(times(a, unit(a.len())) =~= a);
    assert(times(unit(a.len()), a) =~= a);
}

impl Monomial {
    /// The monomial with the given exponents.
    pub fn new(powers: Vec<u64>) -> (m: Monomial)
        ensures
            m@ == powers@,
    {
        Monomial { powers }
    }

    /// The monomial of `n` variables in which every exponent is zero.
    pub fn unit(n: usize) -> (m: Monomial)
        ensures
            m@ == unit(n as nat),
    {
        let mut powers: Vec<u64> = Vec::new();
        let mut i: usize = 0;
        while i < n
            invariant
                i <= n,
                powers@ == unit(i as nat),
            decreases n - i,
        {
            powers.push(0);
            i += 1;
            assert(powers@ =~= unit(i as nat));
        }
        Monomial { powers }
    }

    /// The exponents, in the order of the variables.
    pub fn powers(&self) -> (powers: &Vec<u64>)
        ensures
            powers@ == self@,
    {
        &self.powers
    }

    /// The number of variables.
    pub fn arity(&self) -> (n: usize)
        ensures
            n == self@.len(),
    {
        self.powers.len()
    }

    /// The exponent of the variable at position `i`.
    pub fn power(&self, i: usize) -> (p: u64)
        requires
            i < self@.len(),
        ensures
            p == self@[i as int],
    {
        self.powers[i]
    }

    /// A second monomial with the same exponents.
    pub fn duplicate(&self) -> (m: Monomial)
        ensures
            m@ == self@,
    {
        let mut powers: Vec<u64> = Vec::new();
        let mut i: usize = 0;
        while i < self.powers.len()
            invariant
                i <= self.powers.len(),
                powers@ == self.powers@.take(i as int),
            decreases self.powers.len() - i,
        {
            powers.push(self.powers[i]);
            i += 1;
            assert(powers@ =~= self.powers@.take(i as int));
        }
        assert(self.powers@.take(i as int) =~= self.powers@);
        Monomial { powers }
    }

    /// Whether every exponent is zero.
    pub fn is_unit(&self) -> (b: bool)
        ensures
            b == (self@ == unit(self@.len())),
    {
        let mut i: usize = 0;
        while i < self.powers.len()
            invariant
                i <= self.powers.len(),
                forall|j: int| 0 <= j < i ==> self.powers@[j] == 0,
            decreases self.powers.len() - i,
        {
            if self.powers[i] != 0 {
                assert(unit(self@.len())[i as int] == 0);
                return false;
            }
            i += 1;
        }
        assert(self@ =~= unit(self@.len()));
        true
    }

    /// Whether `self` divides `other`.
    pub fn divides(&self, other: &Monomial) -> (b: bool)
        ensures
            b == divides(self@, other@),
    {
        if self.powers.len() != other.powers.len() {
            return false;
        }
        let mut i: usize = 0;
        while i < self.powers.len()
            invariant
                i <= self.powers.len(),
                self.powers.len() == other.powers.len(),
                forall|j: int| 0 <= j < i ==> self.powers@[j] <= other.powers@[j],
            decreases self.powers.len() - i,
        {
            if self.powers[i] > other.powers[i] {
                return false;
            }
            i += 1;
        }
        true
    }

    /// The product of two monomials of the same number of variables.  An
    /// exponent that would pass the largest one stays there.
    pub fn product(&self, other: &Monomial) -> (m: Monomial)
        requires
            self@.len() == other@.len(),
        ensures
            m@ == times(self@, other@),
    {
        let mut powers: Vec<u64> = Vec::new();
        let mut i: usize = 0;
        while i < self.powers.len()
            invariant
                i <= self.powers.len(),
                self.powers.len() == other.powers.len(),
                powers@ == times(self@, other@).take(i as int),
            decreases self.powers.len() - i,
        {
            powers.push(self.powers[i].saturating_add(other.powers[i]));
            i += 1;
            assert(powers@ =~= times(self@, other@).take(i as int));
        }
        assert(times(self@, other@).take(i as int) =~= times(self@, other@));
        Monomial { powers }
    }

    /// Where `self` stands to `other` in the term order.
    pub fn place(&self, other: &Monomial) -> (p: Place)
        ensures
            p == Place::Before <==> precedes(self@, other@),
            p == Place::Same <==> self@ == other@,
            p == Place::After <==> precedes(other@, self@),
    {
        proof {
            lemma_precedes_irreflexive(self@);
            lemma_precedes_total(self@, other@);
            if precedes(self@, other@) {
                lemma_precedes_asymmetric(self@, other@);
            }
        }
        let mut i: usize = 0;
        while i < self.powers.len() && i < other.powers.len()
            invariant
                i <= self.powers.len(),
                i <= other.powers.len(),
                precedes(self@, other@) == precedes_from(self@, other@, i as int),
                precedes(other@, self@) == precedes_from(other@, self@, i as int),
            decreases self.powers.len() - i,
        {
            if self.powers[i] < other.powers[i] {
                return Place::Before;
            }
            if self.powers[i] > other.powers[i] {
                return Place::After;
            }
            i += 1;
        }
        if i < other.powers.len() {
            Place::Before
        } else if i < self.powers.len() {
            Place::After
        } else {
            Place::Same
        }
    }
}

} // verus!
