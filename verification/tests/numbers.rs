use polyring::integer::Integer;
use polyring::rational::Rational;
use polyring::ring::{ring_equal, AlreadyRing, Ring, RingElement};

fn whole(v: i64) -> Integer {
    Integer::from_i64(v)
}

fn frac(n: i64, d: i64) -> Rational {
    match Rational::new(&whole(n), &whole(d)) {
        Some(q) => q,
        None => panic!("the denominator is zero"),
    }
}

#[test]
fn integers_are_written_in_decimal_digits() {
    assert_eq!(whole(0).render(), "0");
    assert_eq!(whole(7).render(), "7");
    assert_eq!(whole(-7).render(), "-7");
    assert_eq!(whole(127).render(), "127");
    assert_eq!(whole(128).render(), "128");
    assert_eq!(whole(-128).render(), "-128");
    assert_eq!(whole(-129).render(), "-129");
    assert_eq!(whole(255).render(), "255");
    assert_eq!(whole(256).render(), "256");
    assert_eq!(whole(65535).render(), "65535");
    assert_eq!(whole(-65536).render(), "-65536");
    assert_eq!(whole(1234567890123).render(), "1234567890123");
    assert_eq!(whole(i64::MAX).render(), "9223372036854775807");
    assert_eq!(whole(i64::MIN).render(), "-9223372036854775808");
}

#[test]
fn integers_are_held_in_twos_complement() {
    assert_eq!(whole(0).bytes, vec![0]);
    assert_eq!(whole(1).bytes, vec![1]);
    assert_eq!(whole(-1).bytes, vec![255]);
    assert_eq!(whole(127).bytes, vec![127]);
    assert_eq!(whole(128).bytes, vec![128, 0]);
    assert_eq!(whole(-128).bytes, vec![128]);
    assert_eq!(whole(-129).bytes, vec![127, 255]);
    assert_eq!(whole(-1125).bytes, vec![155, 251]);
    assert_eq!(Integer::from_bytes(vec![155, 251]).render(), "-1125");
    assert_eq!(Integer::from_bytes(vec![]).render(), "0");
    assert_eq!(Integer::from_bytes(vec![0, 0, 0]).render(), "0");
    assert_eq!(Integer::from_bytes(vec![255, 255, 255]).render(), "-1");
    assert_eq!(Integer::from_bytes(vec![0, 1]).render(), "256");
}

#[test]
fn integers_add_subtract_and_multiply() {
    assert_eq!(whole(3).add(&whole(4)).render(), "7");
    assert_eq!(whole(3).sub(&whole(4)).render(), "-1");
    assert_eq!(whole(3).mul(&whole(4)).render(), "12");
    assert_eq!(whole(-3).mul(&whole(4)).render(), "-12");
    assert_eq!(whole(5).neg().render(), "-5");
    assert_eq!(whole(0).neg().render(), "0");
    assert_eq!(whole(200).add(&whole(100)).render(), "300");
}

#[test]
fn integers_grow_past_the_machine_word() {
    let big = whole(1_000_000_000_000_000_000);
    assert_eq!(big.mul(&big).render(), "1000000000000000000000000000000000000");
    assert_eq!(whole(i64::MAX).add(&whole(1)).render(), "9223372036854775808");
    assert_eq!(whole(i64::MIN).sub(&whole(1)).render(), "-9223372036854775809");
    assert_eq!(whole(i64::MIN).neg().render(), "9223372036854775808");
}

#[test]
fn integer_operations_in_place() {
    let mut a = whole(10);
    a.add_assign(&whole(5));
    assert_eq!(a.render(), "15");
    a.sub_assign(&whole(20));
    assert_eq!(a.render(), "-5");
    a.mul_assign(&whole(-6));
    assert_eq!(a.render(), "30");
}

#[test]
fn zero_and_one_are_recognised_in_every_form() {
    assert!(Integer::zero().is_zero());
    assert!(whole(0).is_zero());
    assert!(Integer::from_bytes(vec![0, 0]).is_zero());
    assert!(!whole(1).is_zero());
    assert!(!whole(-1).is_zero());
    assert!(!whole(256).is_zero());
    assert!(Integer::one().is_one());
    assert!(whole(1).is_one());
    assert!(Integer::from_bytes(vec![1, 0, 0]).is_one());
    assert!(!whole(0).is_one());
    assert!(!whole(-1).is_one());
    assert!(!whole(257).is_one());
    assert!(whole(3).is_member());
}

#[test]
fn integers_are_compared_by_value() {
    assert!(whole(5).equals(&whole(5)));
    assert!(!whole(5).equals(&whole(-5)));
    assert!(Integer::from_bytes(vec![5, 0, 0]).equals(&whole(5)));
    assert!(whole(5).duplicate().equals(&whole(5)));
    let ring = AlreadyRing::<Integer>::new();
    assert!(ring_equal(&ring, &whole(12), &whole(3).mul(&whole(4))));
    assert!(!ring_equal(&ring, &whole(12), &whole(13)));
}

#[test]
fn the_ring_of_a_number_type_computes_as_the_type_does() {
    let ring = AlreadyRing::<Integer>::new();
    assert_eq!(ring.render(&ring.zero()), "0");
    assert_eq!(ring.render(&ring.one()), "1");
    assert_eq!(ring.render(&ring.add(&whole(2), &whole(3))), "5");
    assert_eq!(ring.render(&ring.sub(&whole(2), &whole(3))), "-1");
    assert_eq!(ring.render(&ring.mul(&whole(2), &whole(3))), "6");
    assert_eq!(ring.render(&ring.neg(&whole(2))), "-2");
    assert_eq!(ring.render(&ring.duplicate(&whole(2))), "2");
    assert!(ring.is_zero(&whole(0)));
    assert!(ring.is_one(&whole(1)));
    assert!(ring.is_member(&whole(1)));
    let mut a = whole(4);
    ring.add_assign(&mut a, &whole(1));
    ring.mul_assign(&mut a, &whole(3));
    ring.sub_assign(&mut a, &whole(5));
    assert_eq!(ring.render(&a), "10");
}

#[test]
fn fractions_are_kept_in_lowest_terms() {
    assert_eq!(frac(1, 2).render(), "1/2");
    assert_eq!(frac(2, 4).render(), "1/2");
    assert_eq!(frac(3, -6).render(), "-1/2");
    assert_eq!(frac(-3, -6).render(), "1/2");
    assert_eq!(frac(6, 3).render(), "2");
    assert_eq!(frac(0, 5).render(), "0");
    assert_eq!(frac(2, 4).numer().render(), "1");
    assert_eq!(frac(2, 4).denom().render(), "2");
    assert_eq!(frac(3, -6).numer().render(), "-1");
    assert_eq!(frac(3, -6).denom().render(), "2");
    assert_eq!(Rational::from_i64(-9).render(), "-9");
    assert_eq!(Rational::from_i64(-9).denom().render(), "1");
}

#[test]
fn a_fraction_needs_a_denominator_other_than_zero() {
    assert!(Rational::new(&whole(1), &whole(0)).is_none());
    assert!(Rational::new(&whole(0), &whole(0)).is_none());
    assert!(Rational::new(&whole(1), &Integer::from_bytes(vec![0, 0])).is_none());
    assert!(Rational::new(&whole(0), &whole(1)).is_some());
}

#[test]
fn fractions_add_subtract_and_multiply() {
    assert_eq!(frac(1, 2).add(&frac(1, 3)).render(), "5/6");
    assert_eq!(frac(1, 2).sub(&frac(1, 3)).render(), "1/6");
    assert_eq!(frac(1, 3).sub(&frac(1, 2)).render(), "-1/6");
    assert_eq!(frac(2, 3).mul(&frac(3, 4)).render(), "1/2");
    assert_eq!(frac(1, 2).add(&frac(1, 2)).render(), "1");
    assert_eq!(frac(1, 2).neg().render(), "-1/2");
    assert_eq!(frac(-5, 7).neg().render(), "5/7");
    let mut a = frac(1, 2);
    a.add_assign(&frac(1, 4));
    assert_eq!(a.render(), "3/4");
    a.mul_assign(&frac(2, 3));
    assert_eq!(a.render(), "1/2");
    a.sub_assign(&frac(1, 2));
    assert_eq!(a.render(), "0");
}

#[test]
fn zero_and_one_among_the_fractions() {
    assert!(Rational::zero().is_zero());
    assert!(frac(0, 9).is_zero());
    assert!(!frac(1, 9).is_zero());
    assert!(Rational::one().is_one());
    assert!(frac(7, 7).is_one());
    assert!(frac(-7, -7).is_one());
    assert!(!frac(7, -7).is_one());
    assert!(!frac(1, 2).is_one());
    assert!(frac(1, 2).is_member());
    assert_eq!(frac(3, 9).duplicate().render(), "1/3");
    let ring = AlreadyRing::<Rational>::new();
    assert!(ring_equal(&ring, &frac(1, 2), &frac(3, 6)));
    assert!(!ring_equal(&ring, &frac(1, 2), &frac(2, 3)));
}

#[test]
fn machine_words_wrap_around() {
    assert_eq!(u64::MAX.add(&1), 0);
    assert_eq!(7u64.add(&8), 15);
    assert_eq!(3u64.sub(&5), u64::MAX - 1);
    assert_eq!(5u64.sub(&3), 2);
    assert_eq!(6u64.mul(&7), 42);
    assert_eq!((1u64 << 32).mul(&(1u64 << 32)), 0);
    assert_eq!((1u64 << 63).mul(&3), 1u64 << 63);
    assert_eq!(1u64.neg(), u64::MAX);
    assert_eq!(0u64.neg(), 0);
    assert_eq!(u64::zero(), 0);
    assert_eq!(u64::one(), 1);
    assert!(0u64.is_zero());
    assert!(!1u64.is_zero());
    assert!(1u64.is_one());
    assert!(!2u64.is_one());
    assert!(9u64.is_member());
    assert_eq!(9u64.duplicate(), 9);
    assert_eq!(1905u64.render(), "1905");
    assert_eq!(u64::MAX.render(), "18446744073709551615");
    let mut a = 10u64;
    a.add_assign(&5);
    a.mul_assign(&2);
    a.sub_assign(&31);
    assert_eq!(a, u64::MAX);
}
