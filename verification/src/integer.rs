//! Integers of any size as coefficients.
//!
//! An [`Integer`] holds its value in two's complement, least significant byte
//! first.  Sums, differences and products are computed by `num`'s big
//! integers; what is from there is stated, not proved, in the few functions
//! at the head of this module that make the calls.

use crate::ring::{is_commutative, AlreadyRing, Ring, RingElement};
use crate::text::signed_decimal;
use num::BigInt;
use vstd::prelude::*;

verus! {

/// The integer that `bytes` holds in two's complement, least significant byte
/// first.  No bytes hold zero.
pub open spec fn twos_complement(bytes: Seq<u8>) -> int
    decreases bytes.len(),
{
    if bytes.len() == 0 {
        0
    } else if bytes.len() == 1 {
        if bytes[0] < 128 {
            bytes[0] as int
        } else {
            bytes[0] - 256
        }
    } else {
        bytes[0] + 256 * twos_complement(bytes.drop_first())
    }
}

/// The sum of two integers, by `num`: both are read with
/// `BigInt::from_signed_bytes_le`, added with `BigInt`'s `+`, and the result
/// is written with `BigInt::to_signed_bytes_le`.  Taken on trust: the result
/// holds the sum of what the arguments hold.
#[verifier::external_body]
fn bytes_sum(a: &Vec<u8>, b: &Vec<u8>) -> (r: Vec<u8>)
    ensures
        twos_complement(r@) == twos_complement(a@) + twos_complement(b@),
{
    (BigInt::from_signed_bytes_le(a) + BigInt::from_signed_bytes_le(b)).to_signed_bytes_le()
}

/// The difference of two integers, by `num`: as [`bytes_sum`], with
/// `BigInt`'s `-`.  Taken on trust: the result holds the difference of what
/// the arguments hold.
#[verifier::external_body]
fn bytes_difference(a: &Vec<u8>, b: &Vec<u8>) -> (r: Vec<u8>)
    ensures
        twos_complement(r@) == twos_complement(a@) - twos_complement(b@),
{
    (BigInt::from_signed_bytes_le(a) - BigInt::from_signed_bytes_le(b)).to_signed_bytes_le()
}

/// The product of two integers, by `num`: as [`bytes_sum`], with `BigInt`'s
/// `*`.  Taken on trust: the result holds the product of what the arguments
/// hold.
#[verifier::external_body]
fn bytes_product(a: &Vec<u8>, b: &Vec<u8>) -> (r: Vec<u8>)
    ensures
        twos_complement(r@) == twos_complement(a@) * twos_complement(b@),
{
    (BigInt::from_signed_bytes_le(a) * BigInt::from_signed_bytes_le(b)).to_signed_bytes_le()
}

/// An integer in decimal digits, by `num`: read with
/// `BigInt::from_signed_bytes_le` and written with `BigInt`'s `to_string`.
/// Taken on trust: the text is the decimal digits of what the argument holds,
/// without leading zeros, after a `-` where it is negative.
#[verifier::external_body]
fn bytes_text(a: &Vec<u8>) -> (s: String)
    ensures
        s@ == signed_decimal(twos_complement(a@)),
{
    BigInt::from_signed_bytes_le(a).to_string()
}

/// Bytes hold zero exactly when each of them is zero.
pub proof fn lemma_zero_bytes(bytes: Seq<u8>)
    ensures
        twos_complement(bytes) == 0 <==> forall|i: int| 0 <= i < bytes.len() ==> bytes[i] == 0,
    decreases bytes.len(),
{
    if bytes.len() >= 2 {
        let rest = bytes.drop_first();
        lemma_zero_bytes(rest);
        if twos_complement(bytes) == 0 {
            assert(twos_complement(rest) == 0 && bytes[0] == 0);
            assert forall|i: int| 0 <= i < bytes.len() implies bytes[i] == 0 by {
                if i > 0 {
                    assert(rest[i - 1] == bytes[i]);
                }
            }
        }
        if forall|i: int| 0 <= i < bytes.len() ==> bytes[i] == 0 {
            assert forall|i: int| 0 <= i < rest.len() implies rest[i] == 0 by {
                assert(rest[i] == bytes[i + 1]);
            }
        }
    }
}

/// The integers multiply in either order.
pub proof fn lemma_integers_commutative(ring: &AlreadyRing<Integer>)
    ensures
        is_commutative(ring),
{
    assert forall|a: int, b: int| #[trigger] ring.product(a, b) == ring.product(b, a) by {
        assert(a * b == b * a) by (nonlinear_arith);
    }
}

/// An integer of any size.
#[derive(Clone, Debug)]
pub struct Integer {
    pub bytes: Vec<u8>,
}

impl View for Integer {
    type V = int;

    open spec fn view(&self) -> int {
        twos_complement(self.bytes@)
    }
}

/// The two's complement bytes of `v`.
fn bytes_of(v: i64) -> (bytes: Vec<u8>)
    ensures
        twos_complement(bytes@) == v,
        bytes@.len() >= 1,
    decreases
            (if v >= 0 {
                v as int
            } else {
                -(v as int)
            }),
{
    if -128 <= v && v < 128 {
        let b: u8 = if v >= 0 {
            v as u8
        } else {
            (v + 256) as u8
        };
        let mut bytes: Vec<u8> = Vec::new();
        bytes.push(b);
        bytes
    } else {
        // v is shifted into the non-negative range by a multiple of 256
        let shift: i64 = 0x4000_0000_0000_0000;
        let w: i64 = if v >= 0 {
            v
        } else {
            (v + shift) + shift
        };
        let low: i64 = w % 256;
        let high: i64 = if v >= 0 {
            w / 256
        } else {
            w / 256 - 0x0080_0000_0000_0000
        };
        assert(v == low + 256 * high);
        let mut bytes = bytes_of(high);
        let ghost rest = bytes@;
        bytes.insert(0, low as u8);
        assert(bytes@.drop_first() =~= rest);
        bytes
    }
}

impl Integer {
    /// The integer `v`.
    pub fn from_i64(v: i64) -> (r: Integer)
        ensures
            r@ == v,
    {
        Integer { bytes: bytes_of(v) }
    }

    /// The integer that `bytes` hold in two's complement, least significant
    /// byte first.
    pub fn from_bytes(bytes: Vec<u8>) -> (r: Integer)
        ensures
            r@ == twos_complement(bytes@),
    {
        Integer { bytes }
    }

    /// Whether two integers are the same number.
    pub fn equals(&self, other: &Integer) -> (b: bool)
        ensures
            b == (self@ == other@),
    {
        self.sub(other).is_zero()
    }
}

impl RingElement for Integer {
    type Value = int;

    open spec fn value(&self) -> int {
        self@
    }

    open spec fn is_value(v: int) -> bool {
        true
    }

    open spec fn zero_value() -> int {
        0
    }

    open spec fn one_value() -> int {
        1
    }

    open spec fn sum(a: int, b: int) -> int {
        a + b
    }

    open spec fn negation(a: int) -> int {
        -a
    }

    open spec fn product(a: int, b: int) -> int {
        a * b
    }

    open spec fn text(&self) -> Seq<char> {
        signed_decimal(self@)
    }

    proof fn lemma_identities() {
    }

    proof fn lemma_closed(a: int, b: int) {
    }

    proof fn lemma_sum_commutative(a: int, b: int) {
    }

    proof fn lemma_sum_associative(a: int, b: int, c: int) {
    }

    proof fn lemma_sum_zero(a: int) {
    }

    proof fn lemma_sum_negation(a: int) {
    }

    proof fn lemma_product_associative(a: int, b: int, c: int) {
        assert((a * b) * c == a * (b * c)) by (nonlinear_arith);
    }

    proof fn lemma_product_one(a: int) {
    }

    proof fn lemma_distributive(a: int, b: int, c: int) {
        assert(a * (b + c) == a * b + a * c) by (nonlinear_arith);
        assert((a + b) * c == a * c + b * c) by (nonlinear_arith);
    }

    fn is_member(&self) -> (b: bool) {
        true
    }

    fn zero() -> (r: Integer) {
        Integer { bytes: Vec::new() }
    }

    fn one() -> (r: Integer) {
        let mut bytes: Vec<u8> = Vec::new();
        bytes.push(1);
        Integer { bytes }
    }

    fn is_zero(&self) -> (b: bool) {
        let mut i: usize = 0;
        while i < self.bytes.len()
            invariant
                i <= self.bytes.len(),
                forall|j: int| 0 <= j < i ==> self.bytes@[j] == 0,
            decreases self.bytes.len() - i,
        {
            if self.bytes[i] != 0 {
                proof {
                    lemma_zero_bytes(self.bytes@);
                }
                return false;
            }
            i = i + 1;
        }
        proof {
            lemma_zero_bytes(self.bytes@);
        }
        true
    }

    fn is_one(&self) -> (b: bool) {
        let one = Integer::one();
        self.sub(&one).is_zero()
    }

    fn duplicate(&self) -> (r: Integer) {
        let mut bytes: Vec<u8> = Vec::new();
        let mut i: usize = 0;
        while i < self.bytes.len()
            invariant
                i <= self.bytes.len(),
                bytes@ == self.bytes@.take(i as int),
            decreases self.bytes.len() - i,
        {
            bytes.push(self.bytes[i]);
            i = i + 1;
            assert(bytes@ =~= self.bytes@.take(i as int));
        }
        assert(self.bytes@.take(i as int) =~= self.bytes@);
        Integer { bytes }
    }

    fn add(&self, rhs: &Integer) -> (r: Integer) {
        Integer { bytes: bytes_sum(&self.bytes, &rhs.bytes) }
    }

    fn neg(&self) -> (r: Integer) {
        let zero = Integer::zero();
        Integer { bytes: bytes_difference(&zero.bytes, &self.bytes) }
    }

    fn sub(&self, rhs: &Integer) -> (r: Integer) {
        Integer { bytes: bytes_difference(&self.bytes, &rhs.bytes) }
    }

    fn mul(&self, rhs: &Integer) -> (r: Integer) {
        Integer { bytes: bytes_product(&self.bytes, &rhs.bytes) }
    }

    fn add_assign(&mut self, rhs: &Integer) {
        self.bytes = bytes_sum(&self.bytes, &rhs.bytes);
    }

    fn sub_assign(&mut self, rhs: &Integer) {
        self.bytes = bytes_difference(&self.bytes, &rhs.bytes);
    }

    fn mul_assign(&mut self, rhs: &Integer) {
        self.bytes = bytes_product(&self.bytes, &rhs.bytes);
    }

    fn render(&self) -> (s: String) {
        bytes_text(&self.bytes)
    }
}

} // verus!
