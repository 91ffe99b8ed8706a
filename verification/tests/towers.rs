use polyring::integer::Integer;
use polyring::monomial::Monomial;
use polyring::polynomial::{Polynomial, PolynomialRing, Term, Unreduced};
use polyring::ring::{AlreadyRing, Ring};

type Integers = AlreadyRing<Integer>;

fn names(vars: &[&str]) -> Vec<String> {
    vars.iter().map(|v| v.to_string()).collect()
}

fn inner_poly(
    ring: &PolynomialRing<'_, Integers>,
    terms: Vec<(i64, Vec<u64>)>,
) -> Polynomial<Integer> {
    let raw = Unreduced::new(
        terms
            .into_iter()
            .map(|(c, p)| Term::new(Monomial::new(p), Integer::from_i64(c)))
            .collect(),
    );
    assert!(ring.check(&raw));
    ring.reduce(&raw)
}

#[test]
fn polynomials_are_coefficients_of_polynomials() {
    let integers = Integers::new();
    let inner = PolynomialRing::new(names(&["x"]), &integers);
    let outer = PolynomialRing::new(names(&["y"]), &inner);
    assert!(outer.is_zero(&outer.zero()));
    assert!(outer.is_one(&outer.one()));
    assert_eq!(outer.render(&outer.one()), "1");

    // y + x, with x a coefficient
    let x = inner_poly(&inner, vec![(1, vec![1])]);
    let raw = Unreduced::new(vec![
        Term::new(Monomial::new(vec![1]), inner.one()),
        Term::new(Monomial::new(vec![0]), x),
    ]);
    assert!(outer.check(&raw));
    let f = outer.reduce(&raw);
    assert_eq!(f.len(), 2);
    assert_eq!(outer.render(&f), "x*1+y");

    let sq = outer.mul(&f, &f);
    assert_eq!(sq.len(), 3);
    assert_eq!(sq.term(0).monomial.powers(), &vec![0]);
    assert_eq!(inner.render(&sq.term(0).coeff), "x^2");
    assert_eq!(sq.term(1).monomial.powers(), &vec![1]);
    assert_eq!(inner.render(&sq.term(1).coeff), "2*x");
    assert_eq!(sq.term(2).monomial.powers(), &vec![2]);
    assert_eq!(inner.render(&sq.term(2).coeff), "1");
    assert_eq!(outer.render(&sq), "x^2*1+2*x*y+y^2");

    let d = outer.sub(&sq, &sq);
    assert!(outer.is_zero(&d));
    assert!(outer.same(&outer.add(&sq, &d), &sq));
}

#[test]
fn coefficients_that_cancel_in_the_base_ring_drop_the_term() {
    let integers = Integers::new();
    let inner = PolynomialRing::new(names(&["x"]), &integers);
    let outer = PolynomialRing::new(names(&["y", "z"]), &inner);
    let x = inner_poly(&inner, vec![(1, vec![1])]);
    let minus_x = inner.neg(&x);
    let raw = Unreduced::new(vec![
        Term::new(Monomial::new(vec![1, 1]), x),
        Term::new(Monomial::new(vec![0, 2]), inner.one()),
        Term::new(Monomial::new(vec![1, 1]), minus_x),
    ]);
    assert!(outer.check(&raw));
    let f = outer.reduce(&raw);
    assert_eq!(f.len(), 1);
    assert_eq!(outer.render(&f), "z^2");
    match outer.try_as_reduced(raw) {
        Ok(_) => panic!("a repeated monomial is not reduced"),
        Err(e) => assert_eq!(e.terms.terms.len(), 3),
    }
}

#[test]
fn a_coefficient_from_another_ring_is_no_member() {
    let integers = Integers::new();
    let inner = PolynomialRing::new(names(&["x"]), &integers);
    let other = PolynomialRing::new(names(&["u", "v"]), &integers);
    let outer = PolynomialRing::new(names(&["y"]), &inner);
    let stranger = inner_poly(&other, vec![(1, vec![1, 1])]);
    let raw = Unreduced::new(vec![Term::new(Monomial::new(vec![1]), stranger)]);
    assert!(!outer.check(&raw));
}
