use std::collections::HashMap;

use num_bigint::BigUint;

use factorize::factorization::prime_factors;
use factorize::parse::parse_natural;
use factorize::FactorError;

fn big(v: u64) -> BigUint {
    BigUint::from(v)
}

fn factor_map(n: &BigUint) -> HashMap<BigUint, u32> {
    let entries = prime_factors(n).expect("factorization should converge");
    let mut map = HashMap::new();
    for (factor, exponent) in entries {
        let previous = map.insert(factor, exponent);
        assert!(previous.is_none(), "factor listed twice");
    }
    map
}

fn is_prime_by_trial(n: &BigUint) -> bool {
    if *n < big(2) {
        return false;
    }
    let mut d = big(2);
    while &d * &d <= *n {
        if n % &d == BigUint::from(0u64) {
            return false;
        }
        d += 1u64;
    }
    true
}

fn check_decomposition(n: &BigUint) {
    let map = factor_map(n);
    let mut product = big(1);
    for (factor, exponent) in &map {
        assert!(*exponent >= 1, "exponent must be positive for {}", n);
        assert!(is_prime_by_trial(factor), "non-prime factor for {}", n);
        assert!(
            n % factor == BigUint::from(0u64),
            "factor does not divide {}",
            n
        );
        product *= factor.pow(*exponent);
    }
    assert_eq!(&product, n, "product of prime powers must rebuild the input");
}

#[test]
fn factors_of_one_is_empty() {
    let map = factor_map(&big(1));
    assert!(map.is_empty());
}

#[test]
fn factors_of_two() {
    let map = factor_map(&big(2));
    assert_eq!(map.len(), 1);
    assert_eq!(map[&big(2)], 1);
}

#[test]
fn factors_of_twelve() {
    let map = factor_map(&big(12));
    assert_eq!(map.len(), 2);
    assert_eq!(map[&big(2)], 2);
    assert_eq!(map[&big(3)], 1);
}

#[test]
fn factors_of_31500() {
    let map = factor_map(&big(31500));
    assert_eq!(map.len(), 4);
    assert_eq!(map[&big(2)], 2);
    assert_eq!(map[&big(3)], 2);
    assert_eq!(map[&big(5)], 3);
    assert_eq!(map[&big(7)], 1);
}

#[test]
fn factors_of_large_prime_single_entry() {
    let p = big(1_000_000_007);
    let map = factor_map(&p);
    assert_eq!(map.len(), 1);
    assert_eq!(map[&p], 1);
}

#[test]
fn factors_of_prime_power() {
    let map = factor_map(&big(1024));
    assert_eq!(map.len(), 1);
    assert_eq!(map[&big(2)], 10);
}

#[test]
fn factors_of_product_of_close_large_primes() {
    // 3 * 1000003 * 1000033: after the 3 is stripped, the residual is a
    // semiprime of two close primes that only the rho search can split.
    let n = &big(3) * &big(1_000_003) * &big(1_000_033);
    let map = factor_map(&n);
    assert_eq!(map.len(), 3);
    assert_eq!(map[&big(3)], 1);
    assert_eq!(map[&big(1_000_003)], 1);
    assert_eq!(map[&big(1_000_033)], 1);
}

#[test]
fn round_trip_primality_and_minimality_up_to_600() {
    for v in 1u64..=600 {
        check_decomposition(&big(v));
    }
}

#[test]
fn round_trip_on_assorted_larger_inputs() {
    for v in [
        9_699_690u64,   // product of the primes up to 23
        123_456_789,
        999_999_937,    // prime
        2_147_483_647,  // Mersenne prime
        600_851_475_143,
        1_000_036_000_099, // semiprime of two close primes
    ] {
        check_decomposition(&big(v));
    }
}

#[test]
fn parse_then_factor() {
    let n = parse_natural("31500").expect("valid decimal");
    assert_eq!(n, big(31500));
    check_decomposition(&n);
}

#[test]
fn invalid_input_is_reported() {
    assert_eq!(parse_natural(""), Err(FactorError::InvalidInput));
    assert_eq!(parse_natural("abc"), Err(FactorError::InvalidInput));
    assert_eq!(parse_natural("12x"), Err(FactorError::InvalidInput));
    assert_eq!(parse_natural("-5"), Err(FactorError::InvalidInput));
    assert_eq!(parse_natural("+"), Err(FactorError::InvalidInput));
    assert_eq!(parse_natural("++1"), Err(FactorError::InvalidInput));
    assert_eq!(parse_natural("_1"), Err(FactorError::InvalidInput));
}

#[test]
fn accepted_decimal_forms() {
    assert_eq!(parse_natural("0").unwrap(), big(0));
    assert_eq!(parse_natural("+123").unwrap(), big(123));
    assert_eq!(parse_natural("1_000").unwrap(), big(1000));
    assert_eq!(parse_natural("00042").unwrap(), big(42));
}
