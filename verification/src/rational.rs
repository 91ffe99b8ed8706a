//! Rational numbers of any size as coefficients.
//!
//! A [`Rational`] holds a fraction in lowest terms with a positive
//! denominator; what it denotes is the real number `numerator / denominator`.
//! The arithmetic is `num`'s: the functions at the head of this module make
//! the calls, and what they say of the results is stated, not proved.

use crate::integer::{twos_complement, Integer};
use crate::ring::{is_commutative, AlreadyRing, Ring, RingElement};
use crate::text::{decimal, signed_decimal};
use num::{BigInt, BigRational};
use vstd::prelude::*;

verus! {

/// `n` and `d` have no common divisor but one.
pub open spec fn coprime(n: int, d: int) -> bool {
    forall|k: int| k > 1 ==> !(#[trigger] (n % k) == 0 && d % k == 0)
}

/// The fraction `n / d` is in lowest terms.
pub open spec fn lowest_terms(n: int, d: int) -> bool {
    d > 0 && coprime(n, d)
}

/// The number `n / d`.
pub open spec fn ratio(n: int, d: int) -> real {
    (n as real) / (d as real)
}

/// A fraction written out: the numerator alone where the denominator is one,
/// and numerator, `/`, denominator otherwise.
pub open spec fn fraction_text(n: int, d: int) -> Seq<char> {
    if d == 1 {
        signed_decimal(n)
    } else {
        signed_decimal(n) + seq!['/'] + decimal(d as nat)
    }
}

/// A fraction in lowest terms, by `num`: numerator and denominator are read
/// with `BigInt::from_signed_bytes_le`, `BigRational::new` makes the
/// fraction, and its `numer` and `denom` are written with
/// `BigInt::to_signed_bytes_le`.  Taken on trust: what comes back is in
/// lowest terms and is the same number as `n / d`.
#[verifier::external_body]
fn fraction_lowest(n: &Vec<u8>, d: &Vec<u8>) -> (r: (Vec<u8>, Vec<u8>))
    requires
        twos_complement(d@) != 0,
    ensures
        lowest_terms(twos_complement(r.0@), twos_complement(r.1@)),
        twos_complement(r.0@) * twos_complement(d@) == twos_complement(n@) * twos_complement(
            r.1@,
        ),
{
    let q = BigRational::new(BigInt::from_signed_bytes_le(n), BigInt::from_signed_bytes_le(d));
    (q.numer().to_signed_bytes_le(), q.denom().to_signed_bytes_le())
}

/// The sum of two fractions, by `num`: both are made as in
/// [`fraction_lowest`] and added with `BigRational`'s `+`.  Taken on trust:
/// what comes back is in lowest terms and is the number
/// `an / ad + bn / bd`.
#[verifier::external_body]
fn fraction_sum(an: &Vec<u8>, ad: &Vec<u8>, bn: &Vec<u8>, bd: &Vec<u8>) -> (r: (Vec<u8>, Vec<u8>))
    requires
        twos_complement(ad@) != 0,
        twos_complement(bd@) != 0,
    ensures
        lowest_terms(twos_complement(r.0@), twos_complement(r.1@)),
        twos_complement(r.0@) * (twos_complement(ad@) * twos_complement(bd@)) == (twos_complement(
            an@,
        ) * twos_complement(bd@) + twos_complement(bn@) * twos_complement(ad@)) * twos_complement(
            r.1@,
        ),
{
    let a = BigRational::new(BigInt::from_signed_bytes_le(an), BigInt::from_signed_bytes_le(ad));
    let b = BigRational::new(BigInt::from_signed_bytes_le(bn), BigInt::from_signed_bytes_le(bd));
    let q = a + b;
    (q.numer().to_signed_bytes_le(), q.denom().to_signed_bytes_le())
}

/// The difference of two fractions, by `num`: as [`fraction_sum`], with
/// `BigRational`'s `-`.  Taken on trust: what comes back is in lowest terms
/// and is the number `an / ad - bn / bd`.
#[verifier::external_body]
fn fraction_difference(an: &Vec<u8>, ad: &Vec<u8>, bn: &Vec<u8>, bd: &Vec<u8>) -> (r: (
    Vec<u8>,
    Vec<u8>,
))
    requires
        twos_complement(ad@) != 0,
        twos_complement(bd@) != 0,
    ensures
        lowest_terms(twos_complement(r.0@), twos_complement(r.1@)),
        twos_complement(r.0@) * (twos_complement(ad@) * twos_complement(bd@)) == (twos_complement(
            an@,
        ) * twos_complement(bd@) - twos_complement(bn@) * twos_complement(ad@)) * twos_complement(
            r.1@,
        ),
{
    let a = BigRational::new(BigInt::from_signed_bytes_le(an), BigInt::from_signed_bytes_le(ad));
    let b = BigRational::new(BigInt::from_signed_bytes_le(bn), BigInt::from_signed_bytes_le(bd));
    let q = a - b;
    (q.numer().to_signed_bytes_le(), q.denom().to_signed_bytes_le())
}

/// The product of two fractions, by `num`: as [`fraction_sum`], with
/// `BigRational`'s `*`.  Taken on trust: what comes back is in lowest terms
/// and is the number `(an / ad) * (bn / bd)`.
#[verifier::external_body]
fn fraction_product(an: &Vec<u8>, ad: &Vec<u8>, bn: &Vec<u8>, bd: &Vec<u8>) -> (r: (
    Vec<u8>,
    Vec<u8>,
))
    requires
        twos_complement(ad@) != 0,
        twos_complement(bd@) != 0,
    ensures
        lowest_terms(twos_complement(r.0@), twos_complement(r.1@)),
        twos_complement(r.0@) * (twos_complement(ad@) * twos_complement(bd@)) == (twos_complement(
            an@,
        ) * twos_complement(bn@)) * twos_complement(r.1@),
{
    let a = BigRational::new(BigInt::from_signed_bytes_le(an), BigInt::from_signed_bytes_le(ad));
    let b = BigRational::new(BigInt::from_signed_bytes_le(bn), BigInt::from_signed_bytes_le(bd));
    let q = a * b;
    (q.numer().to_signed_bytes_le(), q.denom().to_signed_bytes_le())
}

/// A fraction in lowest terms written out, by `num`: made as in
/// [`fraction_lowest`] and written with `BigRational`'s `to_string`.  Taken
/// on trust: the text is the numerator in decimal digits, followed by `/` and
/// the denominator unless that is one.
#[verifier::external_body]
fn fraction_string(n: &Vec<u8>, d: &Vec<u8>) -> (s: String)
    requires
        lowest_terms(twos_complement(n@), twos_complement(d@)),
    ensures
        s@ == fraction_text(twos_complement(n@), twos_complement(d@)),
{
    BigRational::new(BigInt::from_signed_bytes_le(n), BigInt::from_signed_bytes_le(d)).to_string()
}

/// Two fractions that agree crosswise are the same number.
pub proof fn lemma_ratio_equal(n: int, d: int, m: int, e: int)
    requires
        d != 0,
        e != 0,
        n * e == m * d,
    ensures
        ratio(n, d) == ratio(m, e),
{
    assert((n as real) / (d as real) == (m as real) / (e as real)) by (nonlinear_arith)
        requires
            d != 0,
            e != 0,
            n * e == m * d,
    ;
}

/// The sum, the difference and the product of two fractions, each as one
/// fraction.
pub proof fn lemma_ratio_arithmetic(n: int, d: int, m: int, e: int)
    requires
        d != 0,
        e != 0,
    ensures
        d * e != 0,
        ratio(n, d) + ratio(m, e) == ratio(n * e + m * d, d * e),
        ratio(n, d) + (-ratio(m, e)) == ratio(n * e - m * d, d * e),
        ratio(n, d) * ratio(m, e) == ratio(n * m, d * e),
{
    assert(d * e != 0) by (nonlinear_arith)
        requires
            d != 0,
            e != 0,
    ;
    assert((n as real) / (d as real) + (m as real) / (e as real) == ((n * e + m * d) as real) / ((d
        * e) as real)) by (nonlinear_arith)
        requires
            d != 0,
            e != 0,
    ;
    assert((n as real) / (d as real) + (-((m as real) / (e as real))) == ((n * e - m * d) as real)
        / ((d * e) as real)) by (nonlinear_arith)
        requires
            d != 0,
            e != 0,
    ;
    assert(((n as real) / (d as real)) * ((m as real) / (e as real)) == ((n * m) as real) / ((d
        * e) as real)) by (nonlinear_arith)
        requires
            d != 0,
            e != 0,
    ;
}

/// The rational numbers multiply in either order.
pub proof fn lemma_rationals_commutative(ring: &AlreadyRing<Rational>)
    ensures
        is_commutative(ring),
{
    assert forall|a: real, b: real| #[trigger] ring.product(a, b) == ring.product(b, a) by {
        assert(a * b == b * a) by (nonlinear_arith);
    }
}

/// A rational number of any size.
#[derive(Debug)]
pub struct Rational {
    numer: Integer,
    denom: Integer,
}

impl Clone for Rational {
    fn clone(&self) -> (r: Self)
        ensures
            r.value() == self.value(),
    {
        self.duplicate()
    }
}

impl Rational {
    /// The numerator of the fraction in lowest terms.
    pub closed spec fn numerator(&self) -> int {
        self.numer@
    }

    /// The denominator of the fraction in lowest terms.
    pub closed spec fn denominator(&self) -> int {
        self.denom@
    }

    #[verifier::type_invariant]
    spec fn in_lowest_terms(self) -> bool {
        lowest_terms(self.numer@, self.denom@)
    }

    /// The number `numer / denom`; none where `denom` is zero.
    pub fn new(numer: &Integer, denom: &Integer) -> (r: Option<Rational>)
        ensures
            r is Some <==> denom@ != 0,
            r matches Some(q) ==> q.value() == ratio(numer@, denom@),
    {
        if denom.equals(&Integer::from_i64(0)) {
            return None;
        }
        let (n, d) = fraction_lowest(&numer.bytes, &denom.bytes);
        let q = Rational { numer: Integer::from_bytes(n), denom: Integer::from_bytes(d) };
        proof {
            lemma_ratio_equal(q.numer@, q.denom@, numer@, denom@);
        }
        Some(q)
    }

    /// The whole number `v`.
    pub fn from_i64(v: i64) -> (r: Rational)
        ensures
            r.value() == ratio(v as int, 1),
    {
        let n = Integer::from_i64(v);
        let d = Integer::from_i64(1);
        assert(coprime(n@, 1)) by {
            assert forall|k: int| k > 1 implies !(#[trigger] (n@ % k) == 0 && 1int % k == 0) by {
                assert(1int % k == 1) by (nonlinear_arith)
                    requires
                        k > 1,
                ;
            }
        }
        Rational { numer: n, denom: d }
    }

    /// The numerator of the fraction in lowest terms.
    pub fn numer(&self) -> (n: &Integer)
        ensures
            n@ == self.numerator(),
            lowest_terms(self.numerator(), self.denominator()),
    {
        proof {
            use_type_invariant(self);
        }
        &self.numer
    }

    /// The denominator of the fraction in lowest terms.
    pub fn denom(&self) -> (d: &Integer)
        ensures
            d@ == self.denominator(),
            lowest_terms(self.numerator(), self.denominator()),
    {
        proof {
            use_type_invariant(self);
        }
        &self.denom
    }
}

impl RingElement for Rational {
    type Value = real;

    open spec fn value(&self) -> real {
        ratio(self.numerator(), self.denominator())
    }

    open spec fn is_value(v: real) -> bool {
        true
    }

    open spec fn zero_value() -> real {
        0real
    }

    open spec fn one_value() -> real {
        1real
    }

    open spec fn sum(a: real, b: real) -> real {
        a + b
    }

    open spec fn negation(a: real) -> real {
        -a
    }

    open spec fn product(a: real, b: real) -> real {
        a * b
    }

    open spec fn text(&self) -> Seq<char> {
        fraction_text(self.numerator(), self.denominator())
    }

    proof fn lemma_identities() {
    }

    proof fn lemma_closed(a: real, b: real) {
    }

    proof fn lemma_sum_commutative(a: real, b: real) {
    }

    proof fn lemma_sum_associative(a: real, b: real, c: real) {
    }

    proof fn lemma_sum_zero(a: real) {
    }

    proof fn lemma_sum_negation(a: real) {
    }

    proof fn lemma_product_associative(a: real, b: real, c: real) {
        assert((a * b) * c == a * (b * c)) by (nonlinear_arith);
    }

    proof fn lemma_product_one(a: real) {
        assert(a * 1real == a && 1real * a == a) by (nonlinear_arith);
    }

    proof fn lemma_distributive(a: real, b: real, c: real) {
        assert(a * (b + c) == a * b + a * c) by (nonlinear_arith);
        assert((a + b) * c == a * c + b * c) by (nonlinear_arith);
    }

    fn is_member(&self) -> (b: bool) {
        true
    }

    fn zero() -> (r: Rational) {
        let r = Rational::from_i64(0);
        assert(ratio(0, 1) == 0real) by (nonlinear_arith);
        r
    }

    fn one() -> (r: Rational) {
        let r = Rational::from_i64(1);
        assert(ratio(1, 1) == 1real) by (nonlinear_arith);
        r
    }

    fn is_zero(&self) -> (b: bool) {
        proof {
            use_type_invariant(self);
            let n = self.numer@;
            let d = self.denom@;
            assert(((n as real) / (d as real) == 0real) <==> n == 0) by (nonlinear_arith)
                requires
                    d > 0,
            ;
        }
        self.numer.is_zero()
    }

    fn is_one(&self) -> (b: bool) {
        proof {
            use_type_invariant(self);
            let n = self.numer@;
            let d = self.denom@;
            assert(((n as real) / (d as real) == 1real) <==> n == d) by (nonlinear_arith)
                requires
                    d > 0,
            ;
        }
        self.numer.equals(&self.denom)
    }

    fn duplicate(&self) -> (r: Rational) {
        proof {
            use_type_invariant(self);
        }
        Rational { numer: self.numer.duplicate(), denom: self.denom.duplicate() }
    }

    fn add(&self, rhs: &Rational) -> (r: Rational) {
        proof {
            use_type_invariant(self);
            use_type_invariant(rhs);
        }
        let (n, d) = fraction_sum(
            &self.numer.bytes,
            &self.denom.bytes,
            &rhs.numer.bytes,
            &rhs.denom.bytes,
        );
        let r = Rational { numer: Integer::from_bytes(n), denom: Integer::from_bytes(d) };
        proof {
            let (an, ad, bn, bd) = (self.numer@, self.denom@, rhs.numer@, rhs.denom@);
            let (rn, rd) = (r.numer@, r.denom@);
            lemma_ratio_arithmetic(an, ad, bn, bd);
            lemma_ratio_equal(rn, rd, an * bd + bn * ad, ad * bd);
        }
        r
    }

    fn neg(&self) -> (r: Rational) {
        let zero = Rational::zero();
        let r = zero.sub(self);
        r
    }

    fn sub(&self, rhs: &Rational) -> (r: Rational) {
        proof {
            use_type_invariant(self);
            use_type_invariant(rhs);
        }
        let (n, d) = fraction_difference(
            &self.numer.bytes,
            &self.denom.bytes,
            &rhs.numer.bytes,
            &rhs.denom.bytes,
        );
        let r = Rational { numer: Integer::from_bytes(n), denom: Integer::from_bytes(d) };
        proof {
            let (an, ad, bn, bd) = (self.numer@, self.denom@, rhs.numer@, rhs.denom@);
            let (rn, rd) = (r.numer@, r.denom@);
            lemma_ratio_arithmetic(an, ad, bn, bd);
            lemma_ratio_equal(rn, rd, an * bd - bn * ad, ad * bd);
        }
        r
    }

    fn mul(&self, rhs: &Rational) -> (r: Rational) {
        proof {
            use_type_invariant(self);
            use_type_invariant(rhs);
        }
        let (n, d) = fraction_product(
            &self.numer.bytes,
            &self.denom.bytes,
            &rhs.numer.bytes,
            &rhs.denom.bytes,
        );
        let r = Rational { numer: Integer::from_bytes(n), denom: Integer::from_bytes(d) };
        proof {
            let (an, ad, bn, bd) = (self.numer@, self.denom@, rhs.numer@, rhs.denom@);
            let (rn, rd) = (r.numer@, r.denom@);
            lemma_ratio_arithmetic(an, ad, bn, bd);
            lemma_ratio_equal(rn, rd, an * bn, ad * bd);
        }
        r
    }

    fn add_assign(&mut self, rhs: &Rational) {
        let r = self.add(rhs);
        *self = r;
    }

    fn sub_assign(&mut self, rhs: &Rational) {
        let r = self.sub(rhs);
        *self = r;
    }

    fn mul_assign(&mut self, rhs: &Rational) {
        let r = self.mul(rhs);
        *self = r;
    }

    fn render(&self) -> (s: String) {
        proof {
            use_type_invariant(self);
        }
        fraction_string(&self.numer.bytes, &self.denom.bytes)
    }
}

} // verus!
