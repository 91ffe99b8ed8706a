use polyring::integer::Integer;
use polyring::monomial::Monomial;
use polyring::polynomial::{Polynomial, PolynomialRing, Term, Unreduced};
use polyring::ring::{AlreadyRing, Ring, RingElement};

fn term(c: i64, powers: Vec<u64>) -> Term<Integer> {
    Term::new(Monomial::new(powers), Integer::from_i64(c))
}

fn names(vars: &[&str]) -> Vec<String> {
    vars.iter().map(|v| v.to_string()).collect()
}

fn listing(p: &Polynomial<Integer>) -> Vec<(Vec<u64>, String)> {
    let mut out = Vec::new();
    for i in 0..p.len() {
        let t = p.term(i);
        out.push((t.monomial.powers().clone(), t.coeff.render()));
    }
    out
}

fn entry(powers: Vec<u64>, c: &str) -> (Vec<u64>, String) {
    (powers, c.to_string())
}

#[test]
fn duplicate_monomial_is_unreduced_and_reduces_to_one_term() {
    let base = AlreadyRing::<Integer>::new();
    let ring = PolynomialRing::new(names(&["x_1", "x_2"]), &base);
    let raw = ring.from_terms(vec![term(2, vec![1, 2]), term(1, vec![1, 2])]);
    assert!(ring.check(&raw));
    let p = ring.reduce(&raw);
    assert_eq!(listing(&p), vec![entry(vec![1, 2], "3")]);
    match ring.try_as_reduced(raw) {
        Ok(_) => panic!("a repeated monomial is not reduced"),
        Err(e) => {
            assert_eq!(e.terms.terms.len(), 2);
            assert_eq!(e.terms.terms[0].monomial.powers(), &vec![1, 2]);
            assert_eq!(e.terms.terms[0].coeff.render(), "2");
            assert_eq!(e.terms.terms[1].monomial.powers(), &vec![1, 2]);
            assert_eq!(e.terms.terms[1].coeff.render(), "1");
        }
    }
}

#[test]
fn sum_of_two_polynomials_and_its_text() {
    let base = AlreadyRing::<Integer>::new();
    let ring = PolynomialRing::new(names(&["x_1", "x_2"]), &base);
    let f = ring.reduce(&Unreduced::new(vec![term(2, vec![1, 2]), term(1, vec![1, 2])]));
    let g = ring.reduce(&Unreduced::new(vec![term(3, vec![4, 0])]));
    let h = ring.add(&f, &g);
    assert_eq!(listing(&h), vec![entry(vec![1, 2], "3"), entry(vec![4, 0], "3")]);
    assert_eq!(ring.render(&h), "3*x_1*x_2^2+3*x_1^4");
}

#[test]
fn square_of_a_plus_b() {
    let base = AlreadyRing::<Integer>::new();
    let ring = PolynomialRing::new(names(&["a", "b"]), &base);
    let foo = ring.reduce(&Unreduced::new(vec![term(1, vec![1, 0]), term(1, vec![0, 1])]));
    let bar = ring.duplicate(&foo);
    let sq = ring.mul(&foo, &bar);
    assert_eq!(
        listing(&sq),
        vec![entry(vec![0, 2], "1"), entry(vec![1, 1], "2"), entry(vec![2, 0], "1")]
    );
    assert_eq!(ring.render(&sq), "b^2+2*a*b+a^2");
}

#[test]
fn zero_coefficient_is_unreduced_and_dropped_by_reduce() {
    let base = AlreadyRing::<Integer>::new();
    let ring = PolynomialRing::new(names(&["x", "y"]), &base);
    let raw = ring.from_terms(vec![term(5, vec![1, 0]), term(0, vec![0, 1])]);
    let p = ring.reduce(&raw);
    assert_eq!(listing(&p), vec![entry(vec![1, 0], "5")]);
    match ring.try_as_reduced(raw) {
        Ok(_) => panic!("a zero coefficient is not reduced"),
        Err(e) => {
            assert_eq!(e.terms.terms.len(), 2);
            assert_eq!(e.terms.terms[0].monomial.powers(), &vec![1, 0]);
            assert_eq!(e.terms.terms[0].coeff.render(), "5");
            assert_eq!(e.terms.terms[1].monomial.powers(), &vec![0, 1]);
            assert_eq!(e.terms.terms[1].coeff.render(), "0");
        }
    }
}
