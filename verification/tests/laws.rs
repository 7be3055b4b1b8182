use acm::{divisors, ArithmeticCongruenceMonoid};

const MONOIDS: [(u32, u32); 9] =
    [(1, 4), (3, 6), (6, 10), (1, 2), (0, 1), (4, 6), (0, 5), (13, 26), (6, 15)];

fn is_member(a: u64, b: u64, x: u64) -> bool {
    x % b == a
}

fn is_atom_by_search(a: u64, b: u64, x: u64) -> bool {
    if x <= 1 || !is_member(a, b, x) {
        return false;
    }
    for u in 2..x {
        if x % u == 0 && is_member(a, b, u) && is_member(a, b, x / u) {
            return false;
        }
    }
    true
}

fn all_factorizations(a: u64, b: u64, n: u64, least: u64, prefix: &mut Vec<u64>, out: &mut Vec<Vec<u64>>) {
    if n == 1 {
        out.push(prefix.clone());
        return;
    }
    for d in least..=n {
        if n % d == 0 && is_atom_by_search(a, b, d) {
            prefix.push(d);
            all_factorizations(a, b, n / d, d, prefix, out);
            prefix.pop();
        }
    }
}

fn by_last_atoms(f: &Vec<u64>) -> Vec<u64> {
    let mut key = f.clone();
    key.reverse();
    key
}

#[test]
fn every_factorization_multiplies_to_its_number() {
    for (a, b) in MONOIDS {
        let mut acm = ArithmeticCongruenceMonoid::new(a, b).unwrap();
        for n in 0..400u64 {
            for f in acm.factor(n) {
                assert_eq!(f.iter().product::<u64>(), n, "{:?} in ({}, {})", f, a, b);
            }
        }
    }
}

#[test]
fn factorizations_are_ascending_atoms() {
    for (a, b) in MONOIDS {
        let mut acm = ArithmeticCongruenceMonoid::new(a, b).unwrap();
        for n in 2..400u64 {
            for f in acm.factor(n).clone() {
                assert!(f.windows(2).all(|w| w[0] <= w[1]));
                for x in f {
                    assert!(is_atom_by_search(acm.a(), acm.b(), x));
                    assert!(acm.atomic(&x));
                }
            }
        }
    }
}

#[test]
fn factorizations_match_exhaustive_search() {
    for (a, b) in MONOIDS {
        let mut acm = ArithmeticCongruenceMonoid::new(a, b).unwrap();
        for n in 1..400u64 {
            let mut expected = Vec::new();
            all_factorizations(acm.a(), acm.b(), n, 2, &mut Vec::new(), &mut expected);
            expected.sort_by_key(by_last_atoms);
            assert_eq!(acm.factor(n), &expected, "{} in ({}, {})", n, a, b);
        }
    }
}

#[test]
fn atomic_means_a_single_short_factorization() {
    for (a, b) in MONOIDS {
        let mut acm = ArithmeticCongruenceMonoid::new(a, b).unwrap();
        for n in 0..400u64 {
            if n == 1 && !acm.contains(&1) {
                continue;
            }
            let list = acm.factor(n).clone();
            let single = list.len() == 1 && list[0].len() <= 1;
            assert_eq!(acm.atomic(&n), single, "{} in ({}, {})", n, a, b);
        }
    }
}

#[test]
fn atomic_agrees_with_the_search_for_products() {
    for (a, b) in MONOIDS {
        let mut acm = ArithmeticCongruenceMonoid::new(a, b).unwrap();
        for n in 2..400u64 {
            assert_eq!(acm.atomic(&n), is_atom_by_search(acm.a(), acm.b(), n));
        }
    }
}

#[test]
fn factor_gives_the_same_list_again() {
    for (a, b) in MONOIDS {
        let mut acm = ArithmeticCongruenceMonoid::new(a, b).unwrap();
        let mut fresh = ArithmeticCongruenceMonoid::new(a, b).unwrap();
        for n in (0..300u64).rev() {
            let first = acm.factor(n).clone();
            let second = acm.factor(n).clone();
            assert_eq!(first, second);
            assert_eq!(acm.factor(n / 2), fresh.factor(n / 2));
            assert_eq!(&first, acm.factor(n));
        }
    }
}

#[test]
fn contains_depends_on_the_residue_alone() {
    for (a, b) in MONOIDS {
        let mut acm = ArithmeticCongruenceMonoid::new(a, b).unwrap();
        let before: Vec<bool> = (0..200u64).map(|n| acm.contains(&n)).collect();
        for n in 0..200u64 {
            assert_eq!(acm.contains(&n), n % u64::from(b) == u64::from(a % b));
            assert_eq!(acm.contains(&n), acm.contains(&(n + 7 * u64::from(b))));
        }
        acm.factor(180);
        acm.atomic(&77);
        let after: Vec<bool> = (0..200u64).rev().map(|n| acm.contains(&n)).rev().collect();
        assert_eq!(before, after);
    }
}

#[test]
fn divisors_are_the_dividing_numbers() {
    for n in 1..500u64 {
        let mut found = divisors(n);
        found.sort();
        let expected: Vec<u64> = (1..=n).filter(|d| n % d == 0).collect();
        assert_eq!(found, expected);
    }
}

#[test]
fn element_divisors_are_the_dividing_elements() {
    for (a, b) in MONOIDS {
        let acm = ArithmeticCongruenceMonoid::new(a, b).unwrap();
        for n in 1..300u64 {
            let mut found = acm.divisors(n);
            found.sort();
            let expected: Vec<u64> =
                (1..=n).filter(|d| n % d == 0 && acm.contains(d)).collect();
            assert_eq!(found, expected);
        }
    }
}

#[test]
fn nearest_is_the_greatest_element_below() {
    for (a, b) in MONOIDS {
        let acm = ArithmeticCongruenceMonoid::new(a, b).unwrap();
        for s in 0..200u64 {
            let expected = (0..=s).rev().find(|x| x % acm.b() == acm.a()).unwrap_or(acm.a());
            assert_eq!(acm.nearest(s), expected);
        }
    }
}

#[test]
fn index_inverts_ith() {
    for (a, b) in MONOIDS {
        let acm = ArithmeticCongruenceMonoid::new(a, b).unwrap();
        for i in 0..100u64 {
            assert_eq!(acm.index(acm.ith(i)), Some(i));
            assert_eq!(acm.ith(i), acm.a() + acm.b() * i);
        }
        for n in 0..200u64 {
            match acm.index(n) {
                Some(i) => assert_eq!(acm.ith(i), n),
                None => assert!(n % acm.b() != acm.a()),
            }
        }
    }
}
