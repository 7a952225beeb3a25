//! Pollard's rho: randomized search for a nontrivial factor of a composite
//! number by tortoise-and-hare cycle detection.
use vstd::prelude::*;
use num_bigint::BigUint;
use crate::FactorError;
use crate::arith::{divides, lemma_divides_bound, lemma_gcd_divides};
use crate::bigint::{nat_of, big_from_u64, big_one, big_clone, big_add, big_sub, big_mul, big_mod, big_gcd, big_eq, big_lt};

verus! {

/// One step of the iteration polynomial `z * z + c` modulo `n`.
fn rho_step(z: &BigUint, c: &BigUint, n: &BigUint) -> (r: BigUint)
    requires
        nat_of(*n) >= 1,
    ensures
        nat_of(r) == (nat_of(*z) * nat_of(*z) + nat_of(*c)) % nat_of(*n),
{
    big_mod(&big_add(&big_mul(z, z), c), n)
}

/// Searches for a nontrivial factor of `n` with the polynomial constant `c`
/// and starting point `start`, giving up once `iteration_limit` rounds have
/// passed or the trajectory collapses; on collapse or exhaustion the caller
/// is expected to retry with different parameters.
pub fn pollards_rho(n: &BigUint, start: u64, c: u64, iteration_limit: u64) -> (r: Result<
    BigUint,
    FactorError,
>)
    requires
        nat_of(*n) >= 2,
    ensures
        r matches Ok(d) ==> 1 < nat_of(d) < nat_of(*n) && divides(nat_of(d), nat_of(*n)),
        r matches Err(e) ==> e == FactorError::NonConvergence,
{
    let cbig = big_from_u64(c);
    let one = big_one();
    let mut x = big_mod(&big_from_u64(start), n);
    let mut y = big_clone(&x);
    let mut count: u64 = 0;
    while count < iteration_limit
        invariant
            nat_of(*n) >= 2,
            nat_of(one) == 1,
        decreases iteration_limit - count,
    {
        x = rho_step(&x, &cbig, n);
        let y_mid = rho_step(&y, &cbig, n);
        y = rho_step(&y_mid, &cbig, n);
        let diff = if big_lt(&x, &y) {
            big_sub(&y, &x)
        } else {
            big_sub(&x, &y)
        };
        let d = big_gcd(&diff, n);
        if !big_eq(&d, &one) {
            if big_eq(&d, n) {
                return Err(FactorError::NonConvergence);
            }
            proof {
                lemma_gcd_divides(nat_of(diff), nat_of(*n));
                lemma_divides_bound(nat_of(d), nat_of(*n));
            }
            return Ok(d);
        }
        count = count + 1;
    }
    Err(FactorError::NonConvergence)
}

} // verus!
