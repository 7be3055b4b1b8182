use acm::factorize::factorize;

#[test]
fn factorize_of_2() {
    assert_eq!(factorize(2), Ok(vec![(2, 1)]));
}

#[test]
fn factorize_of_4() {
    assert_eq!(factorize(4), Ok(vec![(2, 2)]));
}

#[test]
fn factorize_of_5() {
    assert_eq!(factorize(5), Ok(vec![(5, 1)]));
}

#[test]
fn factorize_of_12() {
    assert_eq!(factorize(12), Ok(vec![(2, 2), (3, 1)]));
}

#[test]
fn factorize_of_60() {
    assert_eq!(factorize(60), Ok(vec![(2, 2), (3, 1), (5, 1)]));
}

#[test]
fn factorize_of_420() {
    assert_eq!(factorize(420), Ok(vec![(2, 2), (3, 1), (5, 1), (7, 1)]));
}
