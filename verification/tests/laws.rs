use polyring::integer::Integer;
use polyring::monomial::Monomial;
use polyring::polynomial::{Polynomial, PolynomialRing, Term, Unreduced};
use polyring::ring::{AlreadyRing, Ring, RingElement};

type Integers = AlreadyRing<Integer>;

fn term(c: i64, powers: Vec<u64>) -> Term<Integer> {
    Term::new(Monomial::new(powers), Integer::from_i64(c))
}

fn names(vars: &[&str]) -> Vec<String> {
    vars.iter().map(|v| v.to_string()).collect()
}

fn poly(ring: &PolynomialRing<'_, Integers>, terms: Vec<(i64, Vec<u64>)>) -> Polynomial<Integer> {
    let raw = Unreduced::new(terms.into_iter().map(|(c, p)| term(c, p)).collect());
    assert!(ring.check(&raw));
    ring.reduce(&raw)
}

fn listing(p: &Polynomial<Integer>) -> Vec<(Vec<u64>, String)> {
    (0..p.len())
        .map(|i| (p.term(i).monomial.powers().clone(), p.term(i).coeff.render()))
        .collect()
}

fn f(ring: &PolynomialRing<'_, Integers>) -> Polynomial<Integer> {
    poly(ring, vec![(2, vec![1, 0]), (-3, vec![0, 2]), (5, vec![0, 0])])
}

fn g(ring: &PolynomialRing<'_, Integers>) -> Polynomial<Integer> {
    poly(ring, vec![(1, vec![1, 1]), (3, vec![0, 2]), (-7, vec![3, 0])])
}

fn h(ring: &PolynomialRing<'_, Integers>) -> Polynomial<Integer> {
    poly(ring, vec![(4, vec![2, 2]), (-2, vec![1, 0])])
}

#[test]
fn reducing_twice_is_reducing_once() {
    let base = Integers::new();
    let ring = PolynomialRing::new(names(&["x", "y"]), &base);
    let raw = Unreduced::new(vec![
        term(2, vec![1, 1]),
        term(0, vec![3, 0]),
        term(-2, vec![0, 1]),
        term(5, vec![1, 1]),
        term(2, vec![0, 1]),
    ]);
    let once = ring.reduce(&raw);
    assert_eq!(listing(&once), vec![(vec![1, 1], "7".to_string())]);
    let again = ring.reduce(&ring.duplicate(&once).into_unreduced());
    assert!(ring.same(&once, &again));
    assert_eq!(listing(&once), listing(&again));
}

#[test]
fn reducing_does_not_depend_on_the_order_of_the_terms() {
    let base = Integers::new();
    let ring = PolynomialRing::new(names(&["x", "y"]), &base);
    let one_way = poly(
        &ring,
        vec![(2, vec![1, 1]), (4, vec![0, 3]), (-1, vec![1, 1]), (6, vec![2, 0]), (-4, vec![0, 3])],
    );
    let other_way = poly(
        &ring,
        vec![(-4, vec![0, 3]), (6, vec![2, 0]), (-1, vec![1, 1]), (4, vec![0, 3]), (2, vec![1, 1])],
    );
    assert!(ring.same(&one_way, &other_way));
    assert_eq!(
        listing(&one_way),
        vec![(vec![1, 1], "1".to_string()), (vec![2, 0], "6".to_string())]
    );
    assert_eq!(listing(&one_way), listing(&other_way));
}

#[test]
fn reduced_data_is_taken_as_it_is() {
    let base = Integers::new();
    let ring = PolynomialRing::new(names(&["x", "y"]), &base);
    let raw = Unreduced::new(vec![term(6, vec![2, 0]), term(-1, vec![0, 3]), term(1, vec![1, 1])]);
    let p = match ring.try_as_reduced(raw) {
        Ok(p) => p,
        Err(_) => panic!("the data is reduced"),
    };
    assert_eq!(
        listing(&p),
        vec![
            (vec![0, 3], "-1".to_string()),
            (vec![1, 1], "1".to_string()),
            (vec![2, 0], "6".to_string())
        ]
    );
}

#[test]
fn adding_zero_changes_nothing() {
    let base = Integers::new();
    let ring = PolynomialRing::new(names(&["x", "y"]), &base);
    let f = f(&ring);
    let zero = ring.zero();
    assert!(ring.is_zero(&zero));
    assert!(!ring.is_zero(&f));
    assert!(ring.same(&ring.add(&f, &zero), &f));
    assert!(ring.same(&ring.add(&zero, &f), &f));
}

#[test]
fn addition_does_not_depend_on_the_order_of_the_summands() {
    let base = Integers::new();
    let ring = PolynomialRing::new(names(&["x", "y"]), &base);
    let (f, g) = (f(&ring), g(&ring));
    let fg = ring.add(&f, &g);
    let gf = ring.add(&g, &f);
    assert!(ring.same(&fg, &gf));
    assert_eq!(
        listing(&fg),
        vec![
            (vec![0, 0], "5".to_string()),
            (vec![1, 0], "2".to_string()),
            (vec![1, 1], "1".to_string()),
            (vec![3, 0], "-7".to_string())
        ]
    );
}

#[test]
fn multiplication_of_integer_polynomials_does_not_depend_on_the_order_of_the_factors() {
    let base = Integers::new();
    let ring = PolynomialRing::new(names(&["x", "y"]), &base);
    let (f, g) = (f(&ring), g(&ring));
    let fg = ring.mul(&f, &g);
    let gf = ring.mul(&g, &f);
    assert!(ring.same(&fg, &gf));
    // (2x - 3y^2 + 5)(xy + 3y^2 - 7x^3)
    assert_eq!(
        listing(&fg),
        vec![
            (vec![0, 2], "15".to_string()),
            (vec![0, 4], "-9".to_string()),
            (vec![1, 1], "5".to_string()),
            (vec![1, 2], "6".to_string()),
            (vec![1, 3], "-3".to_string()),
            (vec![2, 1], "2".to_string()),
            (vec![3, 0], "-35".to_string()),
            (vec![3, 2], "21".to_string()),
            (vec![4, 0], "-14".to_string())
        ]
    );
}

#[test]
fn addition_does_not_depend_on_the_grouping() {
    let base = Integers::new();
    let ring = PolynomialRing::new(names(&["x", "y"]), &base);
    let (f, g, h) = (f(&ring), g(&ring), h(&ring));
    let left = ring.add(&ring.add(&f, &g), &h);
    let right = ring.add(&f, &ring.add(&g, &h));
    assert!(ring.same(&left, &right));
    assert_eq!(listing(&left), listing(&right));
}

#[test]
fn multiplication_does_not_depend_on_the_grouping() {
    let base = Integers::new();
    let ring = PolynomialRing::new(names(&["x", "y"]), &base);
    let (f, g, h) = (f(&ring), g(&ring), h(&ring));
    let left = ring.mul(&ring.mul(&f, &g), &h);
    let right = ring.mul(&f, &ring.mul(&g, &h));
    assert!(ring.same(&left, &right));
    assert_eq!(listing(&left), listing(&right));
    assert_eq!(left.len(), 18);
}

#[test]
fn multiplication_distributes_over_addition() {
    let base = Integers::new();
    let ring = PolynomialRing::new(names(&["x", "y"]), &base);
    let (f, g, h) = (f(&ring), g(&ring), h(&ring));
    let left = ring.mul(&f, &ring.add(&g, &h));
    let right = ring.add(&ring.mul(&f, &g), &ring.mul(&f, &h));
    assert!(ring.same(&left, &right));
    let left = ring.mul(&ring.add(&f, &g), &h);
    let right = ring.add(&ring.mul(&f, &h), &ring.mul(&g, &h));
    assert!(ring.same(&left, &right));
}

#[test]
fn multiplying_by_one_changes_nothing() {
    let base = Integers::new();
    let ring = PolynomialRing::new(names(&["x", "y"]), &base);
    let f = f(&ring);
    let one = ring.one();
    assert_eq!(listing(&one), vec![(vec![0, 0], "1".to_string())]);
    assert!(ring.is_one(&one));
    assert!(!ring.is_one(&f));
    assert!(!ring.is_one(&ring.zero()));
    assert!(ring.same(&ring.mul(&f, &one), &f));
    assert!(ring.same(&ring.mul(&one, &f), &f));
}

#[test]
fn subtraction_adds_the_negative() {
    let base = Integers::new();
    let ring = PolynomialRing::new(names(&["x", "y"]), &base);
    let (f, g) = (f(&ring), g(&ring));
    let d = ring.sub(&f, &g);
    assert_eq!(
        listing(&d),
        vec![
            (vec![0, 0], "5".to_string()),
            (vec![0, 2], "-6".to_string()),
            (vec![1, 0], "2".to_string()),
            (vec![1, 1], "-1".to_string()),
            (vec![3, 0], "7".to_string())
        ]
    );
    assert!(ring.same(&d, &ring.add(&f, &ring.neg(&g))));
    assert!(ring.is_zero(&ring.sub(&f, &f)));
    assert!(ring.same(&ring.add(&d, &g), &f));
    assert_eq!(
        listing(&ring.neg(&f)),
        vec![
            (vec![0, 0], "-5".to_string()),
            (vec![0, 2], "3".to_string()),
            (vec![1, 0], "-2".to_string())
        ]
    );
}

#[test]
fn operations_in_place_give_what_the_operations_give() {
    let base = Integers::new();
    let ring = PolynomialRing::new(names(&["x", "y"]), &base);
    let (f, g) = (f(&ring), g(&ring));
    let mut a = ring.duplicate(&f);
    ring.add_assign(&mut a, &g);
    assert!(ring.same(&a, &ring.add(&f, &g)));
    let mut s = ring.duplicate(&f);
    ring.sub_assign(&mut s, &g);
    assert!(ring.same(&s, &ring.sub(&f, &g)));
    let mut m = ring.duplicate(&f);
    ring.mul_assign(&mut m, &g);
    assert!(ring.same(&m, &ring.mul(&f, &g)));
}

#[test]
fn coefficients_are_looked_up_by_monomial() {
    let base = Integers::new();
    let ring = PolynomialRing::new(names(&["x", "y"]), &base);
    let f = f(&ring);
    assert_eq!(ring.coefficient(&f, &Monomial::new(vec![0, 2])).render(), "-3");
    assert_eq!(ring.coefficient(&f, &Monomial::new(vec![1, 0])).render(), "2");
    assert_eq!(ring.coefficient(&f, &Monomial::new(vec![7, 7])).render(), "0");
}

#[test]
fn terms_that_cancel_leave_no_entry() {
    let base = Integers::new();
    let ring = PolynomialRing::new(names(&["x", "y"]), &base);
    let a = poly(&ring, vec![(3, vec![1, 1]), (2, vec![0, 1])]);
    let b = poly(&ring, vec![(-3, vec![1, 1]), (1, vec![2, 0])]);
    let s = ring.add(&a, &b);
    assert_eq!(
        listing(&s),
        vec![(vec![0, 1], "2".to_string()), (vec![2, 0], "1".to_string())]
    );
    // (x + y)(x - y) = x^2 - y^2: the mixed terms cancel
    let p = poly(&ring, vec![(1, vec![1, 0]), (1, vec![0, 1])]);
    let q = poly(&ring, vec![(1, vec![1, 0]), (-1, vec![0, 1])]);
    assert_eq!(
        listing(&ring.mul(&p, &q)),
        vec![(vec![0, 2], "-1".to_string()), (vec![2, 0], "1".to_string())]
    );
}

#[test]
fn term_data_must_fit_the_ring() {
    let base = Integers::new();
    let ring = PolynomialRing::new(names(&["x", "y"]), &base);
    assert_eq!(ring.arity(), 2);
    assert_eq!(ring.variable(1), "y");
    assert!(ring.check(&Unreduced::new(vec![term(1, vec![1, 2])])));
    assert!(ring.check(&Unreduced::new(vec![])));
    assert!(!ring.check(&Unreduced::new(vec![term(1, vec![1, 2]), term(1, vec![1, 2, 3])])));
    assert!(!ring.check(&Unreduced::new(vec![term(1, vec![1])])));
    let f = f(&ring);
    assert!(ring.is_member(&f));
    let other = PolynomialRing::new(names(&["x", "y", "z"]), &base);
    assert!(!other.is_member(&f));
    assert!(other.is_member(&other.zero()));
}

#[test]
fn operations_take_term_data_in_any_form() {
    let base = Integers::new();
    let ring = PolynomialRing::new(names(&["x", "y"]), &base);
    let a = Unreduced::new(vec![
        term(1, vec![1, 0]),
        term(0, vec![5, 5]),
        term(1, vec![1, 0]),
        term(3, vec![0, 1]),
    ]);
    let b = Unreduced::new(vec![term(4, vec![0, 1]), term(-7, vec![0, 1]), term(1, vec![2, 2])]);
    assert!(ring.check(&a) && ring.check(&b));
    let (ra, rb) = (ring.reduce(&a), ring.reduce(&b));
    assert_eq!(
        listing(&ring.add_terms(&a, &b)),
        vec![(vec![1, 0], "2".to_string()), (vec![2, 2], "1".to_string())]
    );
    assert!(ring.same(&ring.add_terms(&a, &b), &ring.add(&ra, &rb)));
    assert_eq!(
        listing(&ring.sub_terms(&a, &b)),
        vec![
            (vec![0, 1], "6".to_string()),
            (vec![1, 0], "2".to_string()),
            (vec![2, 2], "-1".to_string())
        ]
    );
    assert!(ring.same(&ring.sub_terms(&a, &b), &ring.sub(&ra, &rb)));
    assert_eq!(
        listing(&ring.mul_terms(&a, &b)),
        vec![
            (vec![0, 2], "-9".to_string()),
            (vec![1, 1], "-6".to_string()),
            (vec![2, 3], "3".to_string()),
            (vec![3, 2], "2".to_string())
        ]
    );
    assert!(ring.same(&ring.mul_terms(&a, &b), &ring.mul(&ra, &rb)));
    assert_eq!(
        listing(&ring.neg_terms(&a)),
        vec![(vec![0, 1], "-3".to_string()), (vec![1, 0], "-2".to_string())]
    );
    assert!(ring.same(&ring.neg_terms(&a), &ring.neg(&ra)));
    // one operand reduced, the other as it was written down
    assert!(ring.same(&ring.add_terms(ra.as_unreduced(), &b), &ring.add(&ra, &rb)));
    assert!(ring.same(&ring.mul_terms(&a, rb.as_unreduced()), &ring.mul(&ra, &rb)));
    assert!(ring.is_zero(&ring.sub_terms(&a, ra.as_unreduced())));
}
