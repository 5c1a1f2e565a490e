use algograph::number::divisors;
use algograph::number::gcd;
use algograph::number::lcm;

#[test]
fn gcd_test() {
    assert_eq!(gcd(4, 6), 2);
    assert_eq!(gcd(5, 10), 5);
    assert_eq!(gcd(12, 16), 4);
    assert_eq!(gcd(111, 185), 37);
}

#[test]
fn lcm_test() {
    assert_eq!(lcm(4, 6), 12);
    assert_eq!(lcm(5, 10), 10);
    assert_eq!(lcm(12, 16), 48);
    assert_eq!(lcm(111, 185), 555);
}

#[test]
fn divisors_test() {
    let mut divs = divisors(4);
    divs.sort();
    assert_eq!(divs, vec![1, 2, 4]);

    let mut divs = divisors(12);
    divs.sort();
    assert_eq!(divs, vec![1, 2, 3, 4, 6, 12]);

    let mut divs = divisors(25);
    divs.sort();
    assert_eq!(divs, vec![1, 5, 25]);

    let mut divs = divisors(31);
    divs.sort();
    assert_eq!(divs, vec![1, 31]);
}

#[test]
fn gcd_with_zero() {
    assert_eq!(gcd(0, 7), 7);
    assert_eq!(gcd(7, 0), 7);
    assert_eq!(gcd(0, 0), 0);
}

#[test]
fn lcm_with_zero_side() {
    assert_eq!(lcm(0, 9), 0);
    assert_eq!(lcm(9, 0), 0);
}

#[test]
fn divisors_edge_cases() {
    assert_eq!(divisors(0), Vec::<usize>::new());
    assert_eq!(divisors(1), vec![1]);
    let mut divs = divisors(2);
    divs.sort();
    assert_eq!(divs, vec![1, 2]);
}
