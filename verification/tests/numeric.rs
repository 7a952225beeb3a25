use num_bigint::BigUint;

use factorize::primality::{is_prime, trial_division};
use factorize::rho::pollards_rho;
use factorize::roots::sqrt;
use factorize::FactorError;

fn big(v: u64) -> BigUint {
    BigUint::from(v)
}

#[test]
fn sqrt_small_values() {
    assert_eq!(sqrt(&big(0)), big(0));
    assert_eq!(sqrt(&big(1)), big(1));
    assert_eq!(sqrt(&big(2)), big(1));
    assert_eq!(sqrt(&big(3)), big(1));
    assert_eq!(sqrt(&big(4)), big(2));
    assert_eq!(sqrt(&big(10)), big(3));
    assert_eq!(sqrt(&big(99)), big(9));
    assert_eq!(sqrt(&big(100)), big(10));
}

#[test]
fn sqrt_brackets_the_input_up_to_2000() {
    for v in 0u64..=2000 {
        let n = big(v);
        let r = sqrt(&n);
        assert!(&r * &r <= n, "sqrt({}) overshoots", v);
        let next = &r + 1u64;
        assert!(n < &next * &next, "sqrt({}) undershoots", v);
    }
}

#[test]
fn sqrt_of_large_square_is_exact() {
    let billion = big(1_000_000_000);
    let square = &billion * &billion;
    assert_eq!(sqrt(&square), billion);
    assert_eq!(sqrt(&(&square - 1u64)), &billion - 1u64);
    assert_eq!(sqrt(&(&square + 1u64)), billion);
}

#[test]
fn primality_matches_a_sieve_up_to_10000() {
    let bound: usize = 10000;
    let mut composite = vec![false; bound + 1];
    for i in 2..=bound {
        if !composite[i] {
            let mut j: usize = i * i;
            while j <= bound {
                composite[j] = true;
                j += i;
            }
        }
    }
    for v in 0..=bound {
        let expected = v >= 2 && !composite[v];
        assert_eq!(
            is_prime(&big(v as u64)),
            expected,
            "primality disagrees with the sieve at {}",
            v
        );
    }
}

#[test]
fn primality_of_larger_numbers() {
    assert!(is_prime(&big(1_000_000_007)));
    assert!(is_prime(&big(2_147_483_647)));
    assert!(!is_prime(&big(1_000_000_007u64 * 3)));
    assert!(!is_prime(&(&big(1_000_003) * &big(1_000_033))));
}

#[test]
fn trial_division_finds_smallest_factor() {
    assert_eq!(trial_division(&big(91), &big(9)), Some(big(7)));
    assert_eq!(trial_division(&big(12), &big(10)), Some(big(2)));
    assert_eq!(trial_division(&big(45), &big(10)), Some(big(3)));
    assert_eq!(trial_division(&big(97), &big(9)), None);
    assert_eq!(trial_division(&big(5), &big(1)), None);
}

#[test]
fn pollards_rho_returns_a_nontrivial_factor() {
    let n = big(10403); // 101 * 103
    let d = pollards_rho(&n, 2, 1, 1_000_000).expect("rho should split 10403");
    assert!(d > big(1) && d < n);
    assert_eq!(&n % &d, big(0));
}

#[test]
fn pollards_rho_signals_non_convergence_on_a_prime() {
    // No nontrivial factor exists, so the bounded search must give up.
    let result = pollards_rho(&big(101), 2, 1, 50);
    assert_eq!(result, Err(FactorError::NonConvergence));
}
