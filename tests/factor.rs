use algo_exercises::factor::{find_max_prime_factor, prime_factors, FactorError};
use algo_exercises::modular::{gcd, mod_pow, mulmod};
use algo_exercises::primality::{miller_rabin, passes_witness, split_pow2};
use algo_exercises::rho::{pollard_rho, pollard_rho_from};

fn trial_prime(n: u128) -> bool {
    if n < 2 {
        return false;
    }
    let mut d: u128 = 2;
    while d * d <= n {
        if n % d == 0 {
            return false;
        }
        d += 1;
    }
    true
}

#[test]
fn largest_factor_of_two() {
    assert_eq!(find_max_prime_factor(2), Ok(2));
}

#[test]
fn largest_factor_of_hundred() {
    assert_eq!(find_max_prime_factor(100), Ok(5));
}

#[test]
fn largest_factor_of_13195() {
    assert_eq!(find_max_prime_factor(13195), Ok(29));
}

#[test]
fn largest_factor_of_600851475143() {
    assert_eq!(find_max_prime_factor(600851475143), Ok(6857));
}

#[test]
fn largest_factor_of_one_is_an_error() {
    assert_eq!(find_max_prime_factor(1), Err(FactorError::EmptyFactorization));
    assert_eq!(find_max_prime_factor(0), Err(FactorError::EmptyFactorization));
}

#[test]
fn largest_factor_of_a_large_prime_is_itself() {
    assert_eq!(find_max_prime_factor(999999999989), Ok(999999999989));
}

#[test]
fn largest_factor_of_two_large_primes() {
    let p: u128 = 1000003;
    let q: u128 = 999999999989;
    assert_eq!(find_max_prime_factor(p * q), Ok(q));
}

#[test]
fn factors_multiply_back() {
    for n in [2u128, 3, 4, 12, 97, 1001, 13195, 65536, 999983 * 3, 600851475143, 1000003 * 1000033] {
        let fs = prime_factors(n, 20).unwrap();
        let product: u128 = fs.iter().product();
        assert_eq!(product, n);
        for f in fs {
            assert!(trial_prime(f));
        }
    }
}

#[test]
fn factors_in_discovery_order() {
    assert_eq!(prime_factors(100, 20), Ok(vec![2, 2, 5, 5]));
}

#[test]
fn miller_rabin_agrees_with_trial_division() {
    for n in 0u128..10000 {
        assert_eq!(miller_rabin(n, 10), trial_prime(n), "n = {}", n);
    }
}

#[test]
fn miller_rabin_small_cases() {
    assert!(!miller_rabin(0, 5));
    assert!(!miller_rabin(1, 5));
    assert!(miller_rabin(2, 5));
    assert!(miller_rabin(3, 5));
    assert!(!miller_rabin(4, 5));
    assert!(!miller_rabin(25, 5));
}

#[test]
fn witness_rounds() {
    // 2047 = 23 * 89 is a strong pseudoprime to base 2 but not to base 3.
    assert!(passes_witness(2047, 2));
    assert!(!passes_witness(2047, 3));
    assert!(passes_witness(97, 5));
    assert_eq!(split_pow2(96), (3, 5));
}

#[test]
fn modpow_values() {
    assert_eq!(mod_pow(7, 0, 13), 1);
    assert_eq!(mod_pow(7, 5, 1), 0);
    assert_eq!(mod_pow(2, 10, 1000), 24);
    assert_eq!(mod_pow(3, 200, 1000000007), mod_pow(9, 100, 1000000007));
    assert_eq!(mod_pow(10, 3, 7), 6);
}

#[test]
fn mulmod_does_not_overflow() {
    let m: u128 = u128::MAX - 158;
    let a: u128 = u128::MAX - 200;
    assert_eq!(mulmod(a, a, m), 42 * 42);
    assert_eq!(mulmod(6, 7, 10), 2);
}

#[test]
fn gcd_values() {
    assert_eq!(gcd(12, 0), 12);
    assert_eq!(gcd(0, 12), 12);
    assert_eq!(gcd(12, 18), 6);
    assert_eq!(gcd(18, 12), 6);
    assert_eq!(gcd(17, 5), 1);
}

#[test]
fn rho_from_fixed_seed() {
    // 8051 = 83 * 97; from x = 2, c = 1 the first nontrivial gcd is 97.
    assert_eq!(pollard_rho_from(8051, 2, 1, 100), Some(97));
    assert_eq!(pollard_rho_from(8051, 2, 1, 2), None);
}

#[test]
fn rho_even_and_small() {
    assert_eq!(pollard_rho(1), None);
    assert_eq!(pollard_rho(10), Some(2));
    let n: u128 = 1000003 * 1000033;
    let mut found = None;
    for _ in 0..10 {
        if let Some(d) = pollard_rho(n) {
            found = Some(d);
            break;
        }
    }
    let d = found.unwrap();
    assert!(d == 1000003 || d == 1000033);
}
