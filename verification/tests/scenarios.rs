use acm::integers::{ext_euclid, first_congruent_prime, first_congruent_prime_within, is_prime, mod_classes};
use acm::traits::{One, Zero};
use acm::{divisors, factorize, ACMElementIterator, ACMError, ArithmeticCongruenceMonoid, ModClass, GCD};

type ACM = ArithmeticCongruenceMonoid;

#[test]
fn monoid_3_6_has_two_factorizations_of_225() {
    let mut acm = ACM::new(3, 6).unwrap();
    assert_eq!(acm.factor(225), &vec![vec![15, 15], vec![3, 75]]);
}

#[test]
fn monoid_3_6_small_numbers() {
    let mut acm = ACM::new(3, 6).unwrap();
    assert_eq!(acm.factor(1), &vec![Vec::<u64>::new()]);
    assert_eq!(acm.factor(2), &Vec::<Vec<u64>>::new());
    assert_eq!(acm.factor(3), &vec![vec![3]]);
    assert_eq!(acm.factor(9), &vec![vec![3, 3]]);
}

#[test]
fn factorize_method_agrees_with_factor() {
    let mut acm = ACM::new(3, 6).unwrap();
    let by_factor = acm.factor(225).clone();
    assert_eq!(acm.factorize(225), &by_factor);
    assert_eq!(acm.factorize(81), &vec![vec![3, 3, 3, 3]]);
}

#[test]
fn membership_in_1_4() {
    let acm = ACM::new(1, 4).unwrap();
    assert!(acm.contains(&5));
    assert!(!acm.contains(&6));
    assert!(acm.contains(&1));
}

#[test]
fn construction_errors() {
    assert_eq!(ACM::new(2, 4).unwrap_err(), ACMError::InvalidParameters(2, 4, 4));
    assert_eq!(ACM::new(6, 16).unwrap_err(), ACMError::InvalidParameters(6, 36, 16));
    assert_eq!(ACM::new(1, 0).unwrap_err(), ACMError::DivisionByZero);
    assert_eq!(ACM::with_unit(0, 0, true).unwrap_err(), ACMError::DivisionByZero);
    let big = ACM::new(4_000_000_000, 4_000_000_001).unwrap_err();
    assert_eq!(
        big,
        ACMError::InvalidParameters(4_000_000_000, 16_000_000_000_000_000_000, 4_000_000_001)
    );
}

#[test]
fn components_are_reduced() {
    let acm = ACM::new(9, 4).unwrap();
    assert_eq!(acm.a(), 1);
    assert_eq!(acm.b(), 4);
    assert!(!acm.has_unit());
}

#[test]
fn zero_has_no_prime_factorization() {
    assert_eq!(factorize(0), Err(ACMError::InvalidInput));
    assert_eq!(acm::factor::factor(0), Err(ACMError::InvalidInput));
    assert_eq!(acm::prime_factors::prime_factors(0), Err(ACMError::InvalidInput));
}

#[test]
fn one_has_the_empty_prime_factorization() {
    assert_eq!(factorize(1), Ok(vec![]));
    assert_eq!(acm::factor::factor(1), Ok(vec![]));
    assert_eq!(acm::prime_factors::prime_factors(1), Ok(vec![]));
}

#[test]
fn large_prime_powers() {
    assert_eq!(factorize(1 << 63), Ok(vec![(2, 63)]));
    assert_eq!(factorize(3u64.pow(40)), Ok(vec![(3, 40)]));
    assert_eq!(acm::factor::factor(120), Ok(vec![(2, 3), (3, 1), (5, 1)]));
    assert_eq!(acm::prime_factors::prime_factors(u32::MAX), Ok(vec![(3, 1), (5, 1), (17, 1), (257, 1), (65537, 1)]));
}

#[test]
fn divisors_come_prime_by_prime() {
    assert_eq!(divisors(60), vec![1, 2, 4, 3, 6, 12, 5, 10, 20, 15, 30, 60]);
    assert_eq!(divisors(1), vec![1]);
    assert_eq!(divisors(0), vec![1]);
    assert_eq!(divisors(8), vec![1, 2, 4, 8]);
}

#[test]
fn element_divisors_of_225() {
    let acm = ACM::new(1, 4).unwrap();
    assert_eq!(acm.divisors(225), vec![1, 9, 5, 25, 45, 225]);
    let other = ACM::new(3, 6).unwrap();
    assert_eq!(other.divisors(225), vec![3, 9, 15, 75, 45, 225]);
    assert_eq!(other.divisors(0), Vec::<u64>::new());
    assert_eq!(acm.divisors(0), vec![1]);
}

#[test]
fn nearest_ith_and_index() {
    let acm = ACM::new(1, 4).unwrap();
    assert_eq!(acm.nearest(0), 1);
    assert_eq!(acm.nearest(1), 1);
    assert_eq!(acm.nearest(5), 5);
    assert_eq!(acm.nearest(6), 5);
    assert_eq!(acm.nearest(u64::MAX), u64::MAX - 2);
    assert_eq!(acm.ith(0), 1);
    assert_eq!(acm.ith(1), 5);
    assert_eq!(acm.ith(56), 225);
    assert_eq!(acm.index(225), Some(56));
    assert_eq!(acm.index(1), Some(0));
    assert_eq!(acm.index(6), None);
    let other = ACM::new(6, 10).unwrap();
    assert_eq!(other.nearest(5), 6);
    assert_eq!(other.nearest(25), 16);
    assert_eq!(other.index(other.ith(7)), Some(7));
    assert_eq!(other.index(0), None);
}

#[test]
fn atoms_of_1_4() {
    let mut acm = ACM::new(1, 4).unwrap();
    assert!(acm.contains(&5) && acm.atomic(&5));
    assert!(!acm.contains(&15) && !acm.atomic(&15));
    assert!(acm.contains(&25) && !acm.atomic(&25));
    assert!(acm.atomic(&9));
    assert!(acm.atomic(&21));
    assert!(!acm.atomic(&45));
    assert!(acm.atomic(&1));
}

#[test]
fn non_unique_factorization_in_1_4() {
    let mut acm = ACM::new(1, 4).unwrap();
    assert_eq!(acm.factor(441), &vec![vec![21, 21], vec![9, 49]]);
    assert_eq!(acm.factor(45), &vec![vec![5, 9]]);
    assert_eq!(acm.factor(3), &Vec::<Vec<u64>>::new());
}

#[test]
fn the_unit_is_a_matter_of_choice() {
    let mut strict = ACM::new(3, 6).unwrap();
    let mut unital = ACM::with_unit(3, 6, true).unwrap();
    assert!(!strict.contains(&1));
    assert!(unital.contains(&1));
    assert!(unital.has_unit());
    assert!(!strict.atomic(&1));
    assert!(unital.atomic(&1));
    assert_eq!(strict.factor(1), &vec![Vec::<u64>::new()]);
    assert_eq!(unital.factor(1), &vec![Vec::<u64>::new()]);
    assert_eq!(strict.divisors(9), vec![3, 9]);
    assert_eq!(unital.divisors(9), vec![1, 3, 9]);
    for n in 0..300u64 {
        assert_eq!(strict.factor(n).clone(), unital.factor(n).clone());
        if n != 1 {
            assert_eq!(strict.contains(&n), unital.contains(&n));
            assert_eq!(strict.atomic(&n), unital.atomic(&n));
        }
    }
}

#[test]
fn zero_as_an_element() {
    let mut multiples = ACM::new(0, 5).unwrap();
    assert!(multiples.contains(&0));
    assert_eq!(multiples.factor(0), &vec![vec![0]]);
    assert!(multiples.atomic(&0));
    assert_eq!(multiples.factor(25), &vec![vec![5, 5]]);
    assert_eq!(multiples.factor(50), &vec![vec![5, 10]]);
    let mut other = ACM::new(1, 4).unwrap();
    assert_eq!(other.factor(0), &Vec::<Vec<u64>>::new());
    assert!(!other.atomic(&0));
}

#[test]
fn modulus_one_gives_the_natural_numbers() {
    let mut all = ACM::new(0, 1).unwrap();
    assert!(all.contains(&1) && all.contains(&7));
    assert_eq!(all.factor(12), &vec![vec![2, 2, 3]]);
    assert_eq!(all.factor(1), &vec![Vec::<u64>::new()]);
    assert!(all.atomic(&7));
    assert!(!all.atomic(&12));
}

#[test]
fn walks_through_the_progression() {
    let acm = ACM::new(1, 4).unwrap();
    assert_eq!(acm.elements(5, 1), vec![1, 5, 9, 13, 17]);
    assert_eq!(acm.elements(3, 7), vec![5, 9, 13]);
    assert_eq!(acm.elements(0, 7), Vec::<u64>::new());
    let mut walk = acm.iter_from(6);
    assert_eq!(walk.next(), Some(5));
    assert_eq!(walk.next(), Some(9));
    assert_eq!(walk.next(), Some(13));
    let mut from_start = acm.iter();
    assert_eq!(from_start.next(), Some(1));
    assert_eq!(from_start.next(), Some(5));
}

#[test]
fn a_walk_ends_at_the_top_of_the_range() {
    let mut walk = ACMElementIterator::new(1, u64::MAX - 2, 5);
    assert_eq!(walk.next(), Some(5));
    assert_eq!(walk.next(), None);
    assert_eq!(walk.next(), None);
    let mut exact = ACMElementIterator::new(0, 5, u64::MAX - 5);
    assert_eq!(exact.next(), Some(u64::MAX - 5));
    assert_eq!(exact.next(), Some(u64::MAX));
    assert_eq!(exact.next(), None);
}

#[test]
fn greatest_common_divisors() {
    let a: i32 = 23 * 8;
    let b: i32 = 23 * 9;
    assert_eq!(a.gcd(b), 23);
    assert_eq!(b.gcd(a), 23);
    assert_eq!(0i64.gcd(0), 0);
    assert_eq!(0i64.gcd(7), 7);
    assert_eq!(7i64.gcd(0), 7);
    assert_eq!(i64::MAX.gcd(i64::MAX - 1), 1);
    assert_eq!((-12i32).gcd(18).abs(), 6);
    assert_eq!(12i32.gcd(-18).abs(), 6);
    assert_eq!((i32::MIN + 1).gcd(i32::MAX), i32::MAX);
}

#[test]
fn extended_euclid_gives_coefficients() {
    assert_eq!(ext_euclid(240, 46), [2, -9, 47]);
    assert_eq!(ext_euclid(0, 5), [5, 0, 1]);
    assert_eq!(ext_euclid(5, 0), [5, 1, 0]);
    assert_eq!(ext_euclid(-4, 6), [2, 1, 1]);
    assert_eq!(ext_euclid(4, -6), [-2, 1, 1]);
    for a in -40..40i64 {
        for b in -40..40i64 {
            let [g, x, y] = ext_euclid(a, b);
            assert_eq!(a * x + b * y, g);
            if a != 0 || b != 0 {
                assert!(g != 0 && a % g == 0 && b % g == 0);
                let greatest = (1..=40).rev().find(|d| a % d == 0 && b % d == 0).unwrap();
                assert_eq!(g.abs(), greatest);
            } else {
                assert_eq!(g, 0);
            }
            if a >= 0 && b >= 0 {
                assert!(g >= 0);
            }
            assert!(x.abs() <= b.abs().max(1) && y.abs() <= a.abs().max(1));
            assert_eq!(a.gcd(b), g);
        }
    }
    let [g, x, y] = ext_euclid(i64::MAX, i64::MIN + 1);
    assert_eq!((g.abs(), x + y), (i64::MAX, 1));
}

#[test]
fn primality() {
    let primes: Vec<u32> = (0..60).filter(|&x| is_prime(x)).collect();
    assert_eq!(primes, vec![2, 3, 5, 7, 11, 13, 17, 19, 23, 29, 31, 37, 41, 43, 47, 53, 59]);
    assert!(is_prime(65537));
    assert!(!is_prime(65535));
}

#[test]
fn first_primes_of_residue_classes() {
    assert_eq!(first_congruent_prime(1, 4), Some(5));
    assert_eq!(first_congruent_prime(3, 4), Some(3));
    assert_eq!(first_congruent_prime(7, 4), Some(3));
    assert_eq!(first_congruent_prime(2, 4), Some(2));
    assert_eq!(first_congruent_prime(4, 6), None);
    assert_eq!(first_congruent_prime(0, 6), None);
    assert_eq!(first_congruent_prime(0, 5), Some(5));
    assert_eq!(first_congruent_prime(0, 1), Some(2));
    assert_eq!(first_congruent_prime(1, 10), Some(11));
    assert_eq!(first_congruent_prime_within(1, 4, 4), None);
    assert_eq!(first_congruent_prime_within(1, 4, 5), Some(5));
    assert_eq!(first_congruent_prime_within(3, 4, 2), None);
    assert_eq!(first_congruent_prime_within(0, 5, 4), None);
    assert_eq!(first_congruent_prime_within(9, 10, 18), None);
    assert_eq!(first_congruent_prime_within(9, 10, 19), Some(19));
}

#[test]
fn residue_classes() {
    let class = ModClass::new(1, 4);
    assert_eq!(class.a(), 1);
    assert_eq!(class.m(), 4);
    assert_eq!(class.first_prime(), Some(5));
    let bounded = ModClass::within(9, 10, 18);
    assert_eq!(bounded.a(), 9);
    assert_eq!(bounded.m(), 10);
    assert_eq!(bounded.first_prime(), None);
}

#[test]
fn catalog_of_6_10() {
    let acm = ACM::new(6, 10).unwrap();
    let residues: Vec<u32> = acm.mod_classes().iter().map(|c| c.a()).collect();
    assert_eq!(residues, vec![2, 3, 7, 9]);
    let primes: Vec<Option<u32>> = acm.mod_classes().iter().map(|c| c.first_prime()).collect();
    assert_eq!(primes, vec![Some(2), Some(3), Some(7), Some(19)]);
    assert!(acm.mod_classes().iter().all(|c| c.m() == 10));
    let bounded: Vec<Option<u32>> =
        mod_classes(6, 10, 18).iter().map(|c| c.first_prime()).collect();
    assert_eq!(bounded, vec![Some(2), Some(3), Some(7), None]);
    assert!(mod_classes(1, 2, 100).is_empty());
    assert!(mod_classes(0, 1, 100).is_empty());
}

#[test]
fn neutral_elements() {
    assert_eq!(<i32 as Zero>::ZERO, 0);
    assert_eq!(<i32 as One>::ONE, 1);
}
