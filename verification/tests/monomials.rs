use polyring::monomial::{Monomial, Place};

fn m(powers: &[u64]) -> Monomial {
    Monomial::new(powers.to_vec())
}

#[test]
fn a_monomial_divides_another_when_no_exponent_is_larger() {
    assert!(m(&[1, 2, 0]).divides(&m(&[1, 2, 0])));
    assert!(m(&[1, 2, 0]).divides(&m(&[3, 2, 1])));
    assert!(m(&[0, 0, 0]).divides(&m(&[3, 2, 1])));
    assert!(!m(&[1, 3, 0]).divides(&m(&[3, 2, 1])));
    assert!(!m(&[3, 2, 1]).divides(&m(&[1, 2, 0])));
    assert!(!m(&[0, 0, 1]).divides(&m(&[5, 5, 0])));
}

#[test]
fn divisibility_is_reflexive_and_transitive() {
    let a = m(&[1, 0, 2]);
    let b = m(&[1, 4, 2]);
    let c = m(&[6, 4, 3]);
    assert!(a.divides(&a));
    assert!(b.divides(&b));
    assert!(a.divides(&b));
    assert!(b.divides(&c));
    assert!(a.divides(&c));
    assert!(!c.divides(&a));
}

#[test]
fn monomials_of_different_arity_do_not_divide_each_other() {
    assert!(!m(&[1, 2]).divides(&m(&[1, 2, 3])));
    assert!(!m(&[1, 2, 3]).divides(&m(&[1, 2])));
    assert!(m(&[]).divides(&m(&[])));
}

#[test]
fn the_product_adds_the_exponents() {
    let p = m(&[1, 2, 0]).product(&m(&[4, 0, 7]));
    assert_eq!(p.powers(), &vec![5, 2, 7]);
    assert_eq!(p.arity(), 3);
    assert_eq!(p.power(2), 7);
    assert_eq!(m(&[]).product(&m(&[])).powers(), &Vec::<u64>::new());
}

#[test]
fn each_factor_divides_the_product() {
    let a = m(&[1, 2, 0]);
    let b = m(&[4, 0, 7]);
    let p = a.product(&b);
    assert!(a.divides(&p));
    assert!(b.divides(&p));
}

#[test]
fn an_exponent_stays_at_the_largest_one() {
    let p = m(&[u64::MAX, 1]).product(&m(&[1, 1]));
    assert_eq!(p.powers(), &vec![u64::MAX, 2]);
    let q = m(&[u64::MAX - 1, u64::MAX]).product(&m(&[1, u64::MAX]));
    assert_eq!(q.powers(), &vec![u64::MAX, u64::MAX]);
    let r = m(&[1 << 63]).product(&m(&[1 << 63]));
    assert_eq!(r.powers(), &vec![u64::MAX]);
}

#[test]
fn the_unit_has_no_variable() {
    let u = Monomial::unit(3);
    assert_eq!(u.powers(), &vec![0, 0, 0]);
    assert!(u.is_unit());
    assert!(Monomial::unit(0).is_unit());
    assert!(!m(&[0, 1, 0]).is_unit());
    assert_eq!(m(&[2, 3, 4]).product(&u).powers(), &vec![2, 3, 4]);
}

#[test]
fn the_term_order_goes_by_the_first_exponent_that_differs() {
    assert!(matches!(m(&[1, 2]).place(&m(&[4, 0])), Place::Before));
    assert!(matches!(m(&[4, 0]).place(&m(&[1, 2])), Place::After));
    assert!(matches!(m(&[0, 5]).place(&m(&[1, 0])), Place::Before));
    assert!(matches!(m(&[1, 1]).place(&m(&[1, 2])), Place::Before));
    assert!(matches!(m(&[1, 2]).place(&m(&[1, 2])), Place::Same));
    assert!(matches!(m(&[1]).place(&m(&[1, 0])), Place::Before));
    assert!(matches!(m(&[2]).place(&m(&[1, 0])), Place::After));
    assert!(matches!(m(&[]).place(&m(&[])), Place::Same));
}

#[test]
fn a_duplicate_has_the_same_exponents() {
    let a = m(&[3, 0, 9]);
    let b = a.duplicate();
    assert_eq!(a.powers(), b.powers());
    assert!(matches!(a.place(&b), Place::Same));
}
