use algo_exercises::goldbach::{goldbach_conjecture, is_prime_u64};

#[test]
fn goldbach_first_two_counterexamples() {
    assert_eq!(goldbach_conjecture(), "5777,5993");
}

#[test]
fn trial_division_primes() {
    let primes: Vec<u64> = (0u64..60).filter(|&n| is_prime_u64(n)).collect();
    assert_eq!(primes, vec![2, 3, 5, 7, 11, 13, 17, 19, 23, 29, 31, 37, 41, 43, 47, 53, 59]);
    assert!(is_prime_u64(5777 - 2) == false);
    assert!(!is_prime_u64(5777));
    assert!(is_prime_u64(1_000_003));
    assert!(!is_prime_u64(1_000_003 * 3));
}
