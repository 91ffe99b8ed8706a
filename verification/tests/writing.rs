use polyring::integer::Integer;
use polyring::monomial::Monomial;
use polyring::polynomial::{Polynomial, PolynomialRing, Term, Unreduced};
use polyring::rational::Rational;
use polyring::ring::{AlreadyRing, Ring};
use polyring::text::{render_decimal, render_monomial};

type Integers = AlreadyRing<Integer>;

fn names(vars: &[&str]) -> Vec<String> {
    vars.iter().map(|v| v.to_string()).collect()
}

fn poly(ring: &PolynomialRing<'_, Integers>, terms: Vec<(i64, Vec<u64>)>) -> Polynomial<Integer> {
    let raw = Unreduced::new(
        terms
            .into_iter()
            .map(|(c, p)| Term::new(Monomial::new(p), Integer::from_i64(c)))
            .collect(),
    );
    assert!(ring.check(&raw));
    ring.reduce(&raw)
}

#[test]
fn natural_numbers_in_decimal_digits() {
    assert_eq!(render_decimal(0), "0");
    assert_eq!(render_decimal(7), "7");
    assert_eq!(render_decimal(10), "10");
    assert_eq!(render_decimal(1905), "1905");
    assert_eq!(render_decimal(u64::MAX), "18446744073709551615");
}

#[test]
fn a_monomial_is_the_product_of_its_powers() {
    let vars = names(&["x", "y", "z"]);
    assert_eq!(render_monomial(&vars, &Monomial::new(vec![1, 0, 0])), "x");
    assert_eq!(render_monomial(&vars, &Monomial::new(vec![0, 0, 3])), "z^3");
    assert_eq!(render_monomial(&vars, &Monomial::new(vec![1, 1, 0])), "x*y");
    assert_eq!(render_monomial(&vars, &Monomial::new(vec![2, 0, 1])), "x^2*z");
    assert_eq!(render_monomial(&vars, &Monomial::new(vec![12, 1, 10])), "x^12*y*z^10");
    assert_eq!(render_monomial(&vars, &Monomial::new(vec![0, 0, 0])), "1");
    assert_eq!(render_monomial(&Vec::new(), &Monomial::new(vec![])), "1");
    let ring_base = Integers::new();
    let ring = PolynomialRing::new(names(&["x_1", "x_2"]), &ring_base);
    assert_eq!(ring.render_monomial(&Monomial::new(vec![1, 2])), "x_1*x_2^2");
    assert_eq!(ring.render_monomial(&Monomial::new(vec![4, 0])), "x_1^4");
}

#[test]
fn the_polynomial_without_terms_is_written_as_zero() {
    let base = Integers::new();
    let ring = PolynomialRing::new(names(&["x", "y"]), &base);
    assert_eq!(ring.render(&ring.zero()), "0");
    assert_eq!(ring.render(&poly(&ring, vec![(0, vec![1, 1])])), "0");
    assert_eq!(ring.render(&poly(&ring, vec![(2, vec![1, 1]), (-2, vec![1, 1])])), "0");
}

#[test]
fn a_coefficient_of_one_is_not_written() {
    let base = Integers::new();
    let ring = PolynomialRing::new(names(&["x", "y"]), &base);
    assert_eq!(ring.render(&ring.one()), "1");
    assert_eq!(ring.render(&poly(&ring, vec![(1, vec![1, 0])])), "x");
    assert_eq!(ring.render(&poly(&ring, vec![(1, vec![1, 0]), (1, vec![0, 1])])), "y+x");
    assert_eq!(ring.render(&poly(&ring, vec![(3, vec![0, 0])])), "3*1");
    assert_eq!(ring.render(&poly(&ring, vec![(1, vec![0, 0]), (1, vec![2, 0])])), "1+x^2");
}

#[test]
fn terms_after_the_first_bring_their_sign() {
    let base = Integers::new();
    let ring = PolynomialRing::new(names(&["x", "y"]), &base);
    assert_eq!(ring.render(&poly(&ring, vec![(2, vec![0, 1]), (-3, vec![1, 0])])), "2*y-3*x");
    assert_eq!(ring.render(&poly(&ring, vec![(-2, vec![0, 1]), (3, vec![1, 0])])), "-2*y+3*x");
    assert_eq!(ring.render(&poly(&ring, vec![(-1, vec![0, 1]), (-1, vec![1, 0])])), "-1*y-1*x");
    assert_eq!(
        ring.render(&poly(&ring, vec![(5, vec![0, 0]), (1, vec![0, 2]), (-12, vec![3, 1])])),
        "5*1+y^2-12*x^3*y"
    );
}

#[test]
fn terms_are_written_in_the_term_order() {
    let base = Integers::new();
    let ring = PolynomialRing::new(names(&["x", "y", "z"]), &base);
    let f = poly(
        &ring,
        vec![(1, vec![1, 0, 0]), (2, vec![1, 1, 0]), (3, vec![0, 1, 1])],
    );
    let g = poly(
        &ring,
        vec![(-1, vec![1, 0, 0]), (-3, vec![1, 1, 0]), (2, vec![1, 1, 1])],
    );
    assert_eq!(ring.render(&f), "3*y*z+x+2*x*y");
    assert_eq!(ring.render(&g), "-1*x-3*x*y+2*x*y*z");
    assert_eq!(ring.render(&ring.add(&f, &g)), "3*y*z-1*x*y+2*x*y*z");
}

#[test]
fn fractions_as_coefficients() {
    let base = AlreadyRing::<Rational>::new();
    let ring = PolynomialRing::new(names(&["a", "b"]), &base);
    let q = |n: i64, d: i64| match Rational::new(&Integer::from_i64(n), &Integer::from_i64(d)) {
        Some(q) => q,
        None => panic!("the denominator is zero"),
    };
    let raw = Unreduced::new(vec![
        Term::new(Monomial::new(vec![1, 0]), q(1, 2)),
        Term::new(Monomial::new(vec![0, 1]), q(-2, 3)),
        Term::new(Monomial::new(vec![1, 0]), q(1, 3)),
    ]);
    assert!(ring.check(&raw));
    let f = ring.reduce(&raw);
    assert_eq!(ring.render(&f), "-2/3*b+5/6*a");
    let sq = ring.mul(&f, &f);
    assert_eq!(ring.render(&sq), "4/9*b^2-10/9*a*b+25/36*a^2");
    let half = ring.reduce(&Unreduced::new(vec![Term::new(Monomial::new(vec![0, 0]), q(1, 2))]));
    let sum = ring.add(&half, &half);
    assert!(ring.is_one(&sum));
    assert_eq!(ring.render(&sum), "1");
}

#[test]
fn products_that_vanish_modulo_the_word_leave_no_term() {
    let base = AlreadyRing::<u64>::new();
    let ring = PolynomialRing::new(names(&["x"]), &base);
    let raw = Unreduced::new(vec![
        Term::new(Monomial::new(vec![1]), 1u64 << 32),
        Term::new(Monomial::new(vec![0]), 3u64),
    ]);
    assert!(ring.check(&raw));
    let f = ring.reduce(&raw);
    assert_eq!(ring.render(&f), "3*1+4294967296*x");
    let sq = ring.mul(&f, &f);
    // the square of the leading term is zero modulo the word
    assert_eq!(sq.len(), 2);
    assert_eq!(ring.render(&sq), "9*1+25769803776*x");
    let minus = ring.neg(&f);
    assert_eq!(ring.render(&minus), "18446744073709551613*1+18446744069414584320*x");
    assert!(ring.is_zero(&ring.add(&f, &minus)));
}
