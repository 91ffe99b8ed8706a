//! What it takes to be a coefficient ring.
//!
//! Two capabilities are declared here.  [`RingElement`] is for a type whose
//! values are themselves the elements of one fixed ring, such as a number
//! type.  [`Ring`] is for a *context*: a value that stands for a ring and
//! computes with elements of another type.  [`AlreadyRing`] turns the first
//! into the second, and a polynomial ring over any context is a context again.

use std::marker::PhantomData;
use vstd::prelude::*;

verus! {

/// A type whose values are the elements of a ring.
///
/// What an element denotes is its `Value`; the ring is the part of `Value`
/// picked out by `is_value`, and the laws are stated for members of it.
pub trait RingElement: Sized {
    /// What an element denotes.
    type Value;

    /// The value that `self` denotes.
    spec fn value(&self) -> Self::Value;

    /// Whether `v` is a member of the ring.
    spec fn is_value(v: Self::Value) -> bool;

    /// The additive identity.
    spec fn zero_value() -> Self::Value;

    /// The multiplicative identity.
    spec fn one_value() -> Self::Value;

    /// Ring addition.
    spec fn sum(a: Self::Value, b: Self::Value) -> Self::Value;

    /// The additive inverse.
    spec fn negation(a: Self::Value) -> Self::Value;

    /// Ring multiplication.
    spec fn product(a: Self::Value, b: Self::Value) -> Self::Value;

    /// How the element is written out.
    spec fn text(&self) -> Seq<char>;

    /// Both identities are members.
    proof fn lemma_identities()
        ensures
            Self::is_value(Self::zero_value()),
            Self::is_value(Self::one_value()),
    ;

    /// The ring is closed under its operations.
    proof fn lemma_closed(a: Self::Value, b: Self::Value)
        requires
            Self::is_value(a),
            Self::is_value(b),
        ensures
            Self::is_value(Self::sum(a, b)),
            Self::is_value(Self::negation(a)),
            Self::is_value(Self::product(a, b)),
    ;

    /// Addition is commutative.
    proof fn lemma_sum_commutative(a: Self::Value, b: Self::Value)
        requires
            Self::is_value(a),
            Self::is_value(b),
        ensures
            Self::sum(a, b) == Self::sum(b, a),
    ;

    /// Addition is associative.
    proof fn lemma_sum_associative(a: Self::Value, b: Self::Value, c: Self::Value)
        requires
            Self::is_value(a),
            Self::is_value(b),
            Self::is_value(c),
        ensures
            Self::sum(Self::sum(a, b), c) == Self::sum(a, Self::sum(b, c)),
    ;

    /// Zero is neutral for addition.
    proof fn lemma_sum_zero(a: Self::Value)
        requires
            Self::is_value(a),
        ensures
            Self::sum(a, Self::zero_value()) == a,
    ;

    /// An element and its negation add up to zero.
    proof fn lemma_sum_negation(a: Self::Value)
        requires
            Self::is_value(a),
        ensures
            Self::sum(a, Self::negation(a)) == Self::zero_value(),
    ;

    /// Multiplication is associative.
    proof fn lemma_product_associative(a: Self::Value, b: Self::Value, c: Self::Value)
        requires
            Self::is_value(a),
            Self::is_value(b),
            Self::is_value(c),
        ensures
            Self::product(Self::product(a, b), c) == Self::product(a, Self::product(b, c)),
    ;

    /// One is neutral for multiplication, on either side.
    proof fn lemma_product_one(a: Self::Value)
        requires
            Self::is_value(a),
        ensures
            Self::product(a, Self::one_value()) == a,
            Self::product(Self::one_value(), a) == a,
    ;

    /// Multiplication distributes over addition, on either side.
    proof fn lemma_distributive(a: Self::Value, b: Self::Value, c: Self::Value)
        requires
            Self::is_value(a),
            Self::is_value(b),
            Self::is_value(c),
        ensures
            Self::product(a, Self::sum(b, c)) == Self::sum(
                Self::product(a, b),
                Self::product(a, c),
            ),
            Self::product(Self::sum(a, b), c) == Self::sum(
                Self::product(a, c),
                Self::product(b, c),
            ),
    ;

    /// Whether `self` denotes a member of the ring.
    fn is_member(&self) -> (b: bool)
        ensures
            b == Self::is_value(self.value()),
    ;

    /// The additive identity.
    fn zero() -> (r: Self)
        ensures
            r.value() == Self::zero_value(),
    ;

    /// The multiplicative identity.
    fn one() -> (r: Self)
        ensures
            r.value() == Self::one_value(),
    ;

    /// Whether `self` is the additive identity.
    fn is_zero(&self) -> (b: bool)
        requires
            Self::is_value(self.value()),
        ensures
            b == (self.value() == Self::zero_value()),
    ;

    /// Whether `self` is the multiplicative identity.
    fn is_one(&self) -> (b: bool)
        requires
            Self::is_value(self.value()),
        ensures
            b == (self.value() == Self::one_value()),
    ;

    /// A second element with the value of `self`.
    fn duplicate(&self) -> (r: Self)
        ensures
            r.value() == self.value(),
    ;

    /// `self + rhs`.
    fn add(&self, rhs: &Self) -> (r: Self)
        requires
            Self::is_value(self.value()),
            Self::is_value(rhs.value()),
        ensures
            r.value() == Self::sum(self.value(), rhs.value()),
    ;

    /// `-self`.
    fn neg(&self) -> (r: Self)
        requires
            Self::is_value(self.value()),
        ensures
            r.value() == Self::negation(self.value()),
    ;

    /// `self - rhs`.
    fn sub(&self, rhs: &Self) -> (r: Self)
        requires
            Self::is_value(self.value()),
            Self::is_value(rhs.value()),
        ensures
            r.value() == Self::sum(self.value(), Self::negation(rhs.value())),
    ;

    /// `self * rhs`.
    fn mul(&self, rhs: &Self) -> (r: Self)
        requires
            Self::is_value(self.value()),
            Self::is_value(rhs.value()),
        ensures
            r.value() == Self::product(self.value(), rhs.value()),
    ;

    /// `self += rhs`.
    fn add_assign(&mut self, rhs: &Self)
        requires
            Self::is_value(old(self).value()),
            Self::is_value(rhs.value()),
        ensures
            final(self).value() == Self::sum(old(self).value(), rhs.value()),
    ;

    /// `self -= rhs`.
    fn sub_assign(&mut self, rhs: &Self)
        requires
            Self::is_value(old(self).value()),
            Self::is_value(rhs.value()),
        ensures
            final(self).value() == Self::sum(old(self).value(), Self::negation(rhs.value())),
    ;

    /// `self *= rhs`.
    fn mul_assign(&mut self, rhs: &Self)
        requires
            Self::is_value(old(self).value()),
            Self::is_value(rhs.value()),
        ensures
            final(self).value() == Self::product(old(self).value(), rhs.value()),
    ;

    /// Writes the element out.
    fn render(&self) -> (s: String)
        requires
            Self::is_value(self.value()),
        ensures
            s@ == self.text(),
    ;
}

/// A ring context: a value that stands for a ring and knows how to compute
/// with its elements.
///
/// An element is held as `Elem`; what it denotes is its `Value`.  The ring is
/// the part of `Value` picked out by `contains`, and every law below is stated
/// for members of it, in a context that is `wf`.
pub trait Ring {
    /// How an element is held.
    type Elem;

    /// What an element denotes.
    type Value;

    /// The value that an element denotes.
    spec fn value(e: &Self::Elem) -> Self::Value;

    /// Whether the context itself is usable.
    spec fn wf(&self) -> bool;

    /// Whether `v` is a member of the ring.
    spec fn contains(&self, v: Self::Value) -> bool;

    /// The additive identity.
    spec fn zero_value(&self) -> Self::Value;

    /// The multiplicative identity.
    spec fn one_value(&self) -> Self::Value;

    /// Ring addition.
    spec fn sum(&self, a: Self::Value, b: Self::Value) -> Self::Value;

    /// The additive inverse.
    spec fn negation(&self, a: Self::Value) -> Self::Value;

    /// Ring multiplication.
    spec fn product(&self, a: Self::Value, b: Self::Value) -> Self::Value;

    /// How an element is written out.
    spec fn text(&self, e: &Self::Elem) -> Seq<char>;

    /// Both identities are members.
    proof fn lemma_identities(&self)
        requires
            self.wf(),
        ensures
            self.contains(self.zero_value()),
            self.contains(self.one_value()),
    ;

    /// The ring is closed under its operations.
    proof fn lemma_closed(&self, a: Self::Value, b: Self::Value)
        requires
            self.wf(),
            self.contains(a),
            self.contains(b),
        ensures
            self.contains(self.sum(a, b)),
            self.contains(self.negation(a)),
            self.contains(self.product(a, b)),
    ;

    /// Addition is commutative.
    proof fn lemma_sum_commutative(&self, a: Self::Value, b: Self::Value)
        requires
            self.wf(),
            self.contains(a),
            self.contains(b),
        ensures
            self.sum(a, b) == self.sum(b, a),
    ;

    /// Addition is associative.
    proof fn lemma_sum_associative(&self, a: Self::Value, b: Self::Value, c: Self::Value)
        requires
            self.wf(),
            self.contains(a),
            self.contains(b),
            self.contains(c),
        ensures
            self.sum(self.sum(a, b), c) == self.sum(a, self.sum(b, c)),
    ;

    /// Zero is neutral for addition.
    proof fn lemma_sum_zero(&self, a: Self::Value)
        requires
            self.wf(),
            self.contains(a),
        ensures
            self.sum(a, self.zero_value()) == a,
    ;

    /// An element and its negation add up to zero.
    proof fn lemma_sum_negation(&self, a: Self::Value)
        requires
            self.wf(),
            self.contains(a),
        ensures
            self.sum(a, self.negation(a)) == self.zero_value(),
    ;

    /// Multiplication is associative.
    proof fn lemma_product_associative(&self, a: Self::Value, b: Self::Value, c: Self::Value)
        requires
            self.wf(),
            self.contains(a),
            self.contains(b),
            self.contains(c),
        ensures
            self.product(self.product(a, b), c) == self.product(a, self.product(b, c)),
    ;

    /// One is neutral for multiplication, on either side.
    proof fn lemma_product_one(&self, a: Self::Value)
        requires
            self.wf(),
            self.contains(a),
        ensures
            self.product(a, self.one_value()) == a,
            self.product(self.one_value(), a) == a,
    ;

    /// Multiplication distributes over addition, on either side.
    proof fn lemma_distributive(&self, a: Self::Value, b: Self::Value, c: Self::Value)
        requires
            self.wf(),
            self.contains(a),
            self.contains(b),
            self.contains(c),
        ensures
            self.product(a, self.sum(b, c)) == self.sum(self.product(a, b), self.product(a, c)),
            self.product(self.sum(a, b), c) == self.sum(self.product(a, c), self.product(b, c)),
    ;

    /// Whether `e` denotes a member of the ring.
    fn is_member(&self, e: &Self::Elem) -> (b: bool)
        requires
            self.wf(),
        ensures
            b == self.contains(Self::value(e)),
    ;

    /// The additive identity.
    fn zero(&self) -> (r: Self::Elem)
        requires
            self.wf(),
        ensures
            Self::value(&r) == self.zero_value(),
    ;

    /// The multiplicative identity.
    fn one(&self) -> (r: Self::Elem)
        requires
            self.wf(),
        ensures
            Self::value(&r) == self.one_value(),
    ;

    /// Whether `a` is the additive identity.
    fn is_zero(&self, a: &Self::Elem) -> (b: bool)
        requires
            self.wf(),
            self.contains(Self::value(a)),
        ensures
            b == (Self::value(a) == self.zero_value()),
    ;

    /// Whether `a` is the multiplicative identity.
    fn is_one(&self, a: &Self::Elem) -> (b: bool)
        requires
            self.wf(),
            self.contains(Self::value(a)),
        ensures
            b == (Self::value(a) == self.one_value()),
    ;

    /// A second element with the value of `a`.
    fn duplicate(&self, a: &Self::Elem) -> (r: Self::Elem)
        requires
            self.wf(),
            self.contains(Self::value(a)),
        ensures
            Self::value(&r) == Self::value(a),
    ;

    /// `a + b`.
    fn add(&self, a: &Self::Elem, b: &Self::Elem) -> (r: Self::Elem)
        requires
            self.wf(),
            self.contains(Self::value(a)),
            self.contains(Self::value(b)),
        ensures
            Self::value(&r) == self.sum(Self::value(a), Self::value(b)),
    ;

    /// `-a`.
    fn neg(&self, a: &Self::Elem) -> (r: Self::Elem)
        requires
            self.wf(),
            self.contains(Self::value(a)),
        ensures
            Self::value(&r) == self.negation(Self::value(a)),
    ;

    /// `a - b`.
    fn sub(&self, a: &Self::Elem, b: &Self::Elem) -> (r: Self::Elem)
        requires
            self.wf(),
            self.contains(Self::value(a)),
            self.contains(Self::value(b)),
        ensures
            Self::value(&r) == self.sum(Self::value(a), self.negation(Self::value(b))),
    ;

    /// `a * b`.
    fn mul(&self, a: &Self::Elem, b: &Self::Elem) -> (r: Self::Elem)
        requires
            self.wf(),
            self.contains(Self::value(a)),
            self.contains(Self::value(b)),
        ensures
            Self::value(&r) == self.product(Self::value(a), Self::value(b)),
    ;

    /// `a += b`.
    fn add_assign(&self, a: &mut Self::Elem, b: &Self::Elem)
        requires
            self.wf(),
            self.contains(Self::value(old(a))),
            self.contains(Self::value(b)),
        ensures
            Self::value(final(a)) == self.sum(Self::value(old(a)), Self::value(b)),
    ;

    /// `a -= b`.
    fn sub_assign(&self, a: &mut Self::Elem, b: &Self::Elem)
        requires
            self.wf(),
            self.contains(Self::value(old(a))),
            self.contains(Self::value(b)),
        ensures
            Self::value(final(a)) == self.sum(Self::value(old(a)), self.negation(Self::value(b))),
    ;

    /// `a *= b`.
    fn mul_assign(&self, a: &mut Self::Elem, b: &Self::Elem)
        requires
            self.wf(),
            self.contains(Self::value(old(a))),
            self.contains(Self::value(b)),
        ensures
            Self::value(final(a)) == self.product(Self::value(old(a)), Self::value(b)),
    ;

    /// Writes the element out.
    fn render(&self, a: &Self::Elem) -> (s: String)
        requires
            self.wf(),
            self.contains(Self::value(a)),
        ensures
            s@ == self.text(a),
    ;
}

/// Whether multiplication in `ring` is commutative.
pub open spec fn is_commutative<R: Ring>(ring: &R) -> bool {
    forall|a: R::Value, b: R::Value|
        ring.contains(a) && ring.contains(b) ==> #[trigger] ring.product(a, b) == ring.product(
            b,
            a,
        )
}

/// The ring whose elements are the values of `T` themselves: the context that
/// ends a tower of polynomial rings.
#[derive(Debug)]
pub struct AlreadyRing<T> {
    pub phantom: PhantomData<T>,
}

impl<T> Clone for AlreadyRing<T> {
    fn clone(&self) -> (r: Self)
        ensures
            r == *self,
    {
        AlreadyRing { phantom: PhantomData }
    }
}

impl<T: RingElement> AlreadyRing<T> {
    /// The context of the ring made of `T`'s values.
    pub fn new() -> (r: Self)
        ensures
            r.wf(),
    {
        AlreadyRing { phantom: PhantomData }
    }
}

impl<T: RingElement> Ring for AlreadyRing<T> {
    type Elem = T;

    type Value = T::Value;

    open spec fn value(e: &T) -> T::Value {
        e.value()
    }

    open spec fn wf(&self) -> bool {
        true
    }

    open spec fn contains(&self, v: T::Value) -> bool {
        T::is_value(v)
    }

    open spec fn zero_value(&self) -> T::Value {
        T::zero_value()
    }

    open spec fn one_value(&self) -> T::Value {
        T::one_value()
    }

    open spec fn sum(&self, a: T::Value, b: T::Value) -> T::Value {
        T::sum(a, b)
    }

    open spec fn negation(&self, a: T::Value) -> T::Value {
        T::negation(a)
    }

    open spec fn product(&self, a: T::Value, b: T::Value) -> T::Value {
        T::product(a, b)
    }

    open spec fn text(&self, e: &T) -> Seq<char> {
        e.text()
    }

    proof fn lemma_identities(&self) {
        T::lemma_identities();
    }

    proof fn lemma_closed(&self, a: T::Value, b: T::Value) {
        T::lemma_closed(a, b);
    }

    proof fn lemma_sum_commutative(&self, a: T::Value, b: T::Value) {
        T::lemma_sum_commutative(a, b);
    }

    proof fn lemma_sum_associative(&self, a: T::Value, b: T::Value, c: T::Value) {
        T::lemma_sum_associative(a, b, c);
    }

    proof fn lemma_sum_zero(&self, a: T::Value) {
        T::lemma_sum_zero(a);
    }

    proof fn lemma_sum_negation(&self, a: T::Value) {
        T::lemma_sum_negation(a);
    }

    proof fn lemma_product_associative(&self, a: T::Value, b: T::Value, c: T::Value) {
        T::lemma_product_associative(a, b, c);
    }

    proof fn lemma_product_one(&self, a: T::Value) {
        T::lemma_product_one(a);
    }

    proof fn lemma_distributive(&self, a: T::Value, b: T::Value, c: T::Value) {
        T::lemma_distributive(a, b, c);
    }

    fn is_member(&self, e: &T) -> (b: bool) {
        e.is_member()
    }

    fn zero(&self) -> (r: T) {
        T::zero()
    }

    fn one(&self) -> (r: T) {
        T::one()
    }

    fn is_zero(&self, a: &T) -> (b: bool) {
        a.is_zero()
    }

    fn is_one(&self, a: &T) -> (b: bool) {
        a.is_one()
    }

    fn duplicate(&self, a: &T) -> (r: T) {
        a.duplicate()
    }

    fn add(&self, a: &T, b: &T) -> (r: T) {
        a.add(b)
    }

    fn neg(&self, a: &T) -> (r: T) {
        a.neg()
    }

    fn sub(&self, a: &T, b: &T) -> (r: T) {
        a.sub(b)
    }

    fn mul(&self, a: &T, b: &T) -> (r: T) {
        a.mul(b)
    }

    fn add_assign(&self, a: &mut T, b: &T) {
        a.add_assign(b);
    }

    fn sub_assign(&self, a: &mut T, b: &T) {
        a.sub_assign(b);
    }

    fn mul_assign(&self, a: &mut T, b: &T) {
        a.mul_assign(b);
    }

    fn render(&self, a: &T) -> (s: String) {
        a.render()
    }
}

/// Whether `a` and `b` denote the same member of the ring: decided by
/// testing their difference for zero.
pub fn ring_equal<R: Ring>(ring: &R, a: &R::Elem, b: &R::Elem) -> (same: bool)
    requires
        ring.wf(),
        ring.contains(R::value(a)),
        ring.contains(R::value(b)),
    ensures
        same == (R::value(a) == R::value(b)),
{
    let d = ring.sub(a, b);
    proof {
        let x = R::value(a);
        let y = R::value(b);
        let n = ring.negation(y);
        ring.lemma_identities();
        ring.lemma_closed(y, y);
        ring.lemma_closed(x, n);
        ring.lemma_sum_negation(y);
        if ring.sum(x, n) == ring.zero_value() {
            // x = x + 0 = x + (n + y) = (x + n) + y = 0 + y = y
            ring.lemma_sum_zero(x);
            ring.lemma_sum_commutative(y, n);
            ring.lemma_sum_associative(x, n, y);
            ring.lemma_sum_commutative(ring.zero_value(), y);
            ring.lemma_sum_zero(y);
        }
    }
    ring.is_zero(&d)
}

} // verus!
