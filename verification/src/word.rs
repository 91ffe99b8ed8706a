//! Machine words as coefficients.
//!
//! A `u64` with wrapping arithmetic is an element of the ring of integers
//! modulo 2<sup>64</sup>.  What it denotes is the residue, a number from zero
//! up to the modulus.

use crate::ring::{is_commutative, AlreadyRing, Ring, RingElement};
use crate::text::{decimal, render_decimal};
use vstd::arithmetic::div_mod::{lemma_add_mod_noop, lemma_mul_mod_noop_general};
use vstd::arithmetic::mul::{
    lemma_mul_is_associative, lemma_mul_is_commutative, lemma_mul_is_distributive_add,
    lemma_mul_is_distributive_add_other_way,
};
use vstd::prelude::*;

verus! {

/// The number of values of a `u64`.
pub open spec fn modulus() -> int {
    0x1_0000_0000_0000_0000
}

/// The integers multiply in either order, and so do their residues.
pub proof fn lemma_words_commutative(ring: &AlreadyRing<u64>)
    ensures
        is_commutative(ring),
{
    assert forall|a: int, b: int| #[trigger] ring.product(a, b) == ring.product(b, a) by {
        lemma_mul_is_commutative(a, b);
    }
}

impl RingElement for u64 {
    type Value = int;

    open spec fn value(&self) -> int {
        *self as int
    }

    open spec fn is_value(v: int) -> bool {
        0 <= v < modulus()
    }

    open spec fn zero_value() -> int {
        0
    }

    open spec fn one_value() -> int {
        1
    }

    open spec fn sum(a: int, b: int) -> int {
        (a + b) % modulus()
    }

    open spec fn negation(a: int) -> int {
        (modulus() - a) % modulus()
    }

    open spec fn product(a: int, b: int) -> int {
        (a * b) % modulus()
    }

    open spec fn text(&self) -> Seq<char> {
        decimal(*self as nat)
    }

    proof fn lemma_identities() {
    }

    proof fn lemma_closed(a: int, b: int) {
    }

    proof fn lemma_sum_commutative(a: int, b: int) {
    }

    proof fn lemma_sum_associative(a: int, b: int, c: int) {
    }

    proof fn lemma_sum_zero(a: int) {
    }

    proof fn lemma_sum_negation(a: int) {
    }

    proof fn lemma_product_associative(a: int, b: int, c: int) {
        let m = modulus();
        lemma_mul_mod_noop_general(a * b, c, m);
        lemma_mul_mod_noop_general(a, b * c, m);
        lemma_mul_is_associative(a, b, c);
    }

    proof fn lemma_product_one(a: int) {
    }

    proof fn lemma_distributive(a: int, b: int, c: int) {
        let m = modulus();
        lemma_mul_mod_noop_general(a, b + c, m);
        lemma_mul_mod_noop_general(a + b, c, m);
        lemma_add_mod_noop(a * b, a * c, m);
        lemma_add_mod_noop(a * c, b * c, m);
        lemma_mul_is_distributive_add(a, b, c);
        lemma_mul_is_distributive_add_other_way(c, a, b);
    }

    fn is_member(&self) -> (b: bool) {
        true
    }

    fn zero() -> (r: u64) {
        0
    }

    fn one() -> (r: u64) {
        1
    }

    fn is_zero(&self) -> (b: bool) {
        *self == 0
    }

    fn is_one(&self) -> (b: bool) {
        *self == 1
    }

    fn duplicate(&self) -> (r: u64) {
        *self
    }

    fn add(&self, rhs: &u64) -> (r: u64) {
        self.wrapping_add(*rhs)
    }

    fn neg(&self) -> (r: u64) {
        0u64.wrapping_sub(*self)
    }

    fn sub(&self, rhs: &u64) -> (r: u64) {
        self.wrapping_sub(*rhs)
    }

    fn mul(&self, rhs: &u64) -> (r: u64) {
        self.wrapping_mul(*rhs)
    }

    fn add_assign(&mut self, rhs: &u64) {
        *self = self.wrapping_add(*rhs);
    }

    fn sub_assign(&mut self, rhs: &u64) {
        *self = self.wrapping_sub(*rhs);
    }

    fn mul_assign(&mut self, rhs: &u64) {
        *self = self.wrapping_mul(*rhs);
    }

    fn render(&self) -> (s: String) {
        render_decimal(*self)
    }
}

} // verus!
