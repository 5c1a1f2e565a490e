use std::collections::HashMap;

use algograph::prime::factors_osa_k;
use algograph::prime::factors_trial_division;
use algograph::prime::primes;
use algograph::prime::sieve_of_eratosthenes;

#[test]
fn sieve_of_eratosthenes_test() {
    assert_eq!(
        sieve_of_eratosthenes(10),
        vec![false, false, true, true, false, true, false, true, false, false, false]
    );
}

#[test]
fn primes_test() {
    assert_eq!(primes(10), vec![2, 3, 5, 7]);
}

#[test]
fn factors_trial_division_test() {
    assert_eq!(factors_trial_division(60), vec![(2, 2), (3, 1), (5, 1)]);
}

#[test]
fn factors_osa_k_test() {
    let mut fac = HashMap::new();
    fac.insert(2, 2);
    fac.insert(3, 1);
    fac.insert(5, 1);
    assert_eq!(factors_osa_k(60), fac);
}

#[test]
fn sieve_smallest_inputs() {
    assert_eq!(sieve_of_eratosthenes(1), vec![false, false]);
    assert_eq!(sieve_of_eratosthenes(2), vec![false, false, true]);
}

#[test]
fn factors_of_one_and_primes() {
    assert_eq!(factors_trial_division(1), Vec::<(usize, usize)>::new());
    assert_eq!(factors_trial_division(13), vec![(13, 1)]);
    assert_eq!(factors_trial_division(1024), vec![(2, 10)]);
}

#[test]
fn factors_osa_k_edge_cases() {
    assert_eq!(factors_osa_k(0), HashMap::new());
    assert_eq!(factors_osa_k(1), HashMap::new());
    let mut expected = HashMap::new();
    expected.insert(97, 1);
    assert_eq!(factors_osa_k(97), expected);
}
