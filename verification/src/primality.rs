//! Trial division and the deterministic square-root-bounded primality test.
use vstd::prelude::*;
use num_bigint::BigUint;
use crate::arith::{divides, is_prime_spec, lemma_composite_has_small_divisor, lemma_divides_transitive};
use crate::bigint::{nat_of, big_from_u64, big_one, big_add, big_mod, big_is_zero, big_le, big_lt, big_eq, big_is_even};
use crate::roots::sqrt;

verus! {

/// Smallest divisor of `n` in `[2, limit]`, scanning upward; `None` when no
/// number in that range divides `n`.
pub fn trial_division(n: &BigUint, limit: &BigUint) -> (r: Option<BigUint>)
    ensures
        r matches Some(f) ==> 2 <= nat_of(f) <= nat_of(*limit) && divides(nat_of(f), nat_of(*n))
            && (forall|j: nat| 2 <= j < nat_of(f) ==> !divides(j, nat_of(*n))),
        r is None ==> forall|j: nat| 2 <= j <= nat_of(*limit) ==> !divides(j, nat_of(*n)),
{
    let one = big_one();
    let mut i = big_from_u64(2);
    while big_le(&i, limit)
        invariant
            nat_of(i) >= 2,
            nat_of(one) == 1,
            forall|j: nat| 2 <= j < nat_of(i) ==> !divides(j, nat_of(*n)),
        decreases nat_of(*limit) + 1 - nat_of(i),
    {
        if big_is_zero(&big_mod(n, &i)) {
            return Some(i);
        }
        i = big_add(&i, &one);
    }
    None
}

/// Deterministic primality test: handles 0, 1, 2 and even numbers directly,
/// then scans odd candidates up to the floor square root.
pub fn is_prime(n: &BigUint) -> (r: bool)
    ensures
        r == is_prime_spec(nat_of(*n)),
{
    let one = big_one();
    if big_le(n, &one) {
        return false;
    }
    let two = big_from_u64(2);
    if big_eq(n, &two) {
        return true;
    }
    if big_is_even(n) {
        proof {
            assert(divides(2, nat_of(*n)));
        }
        return false;
    }
    let s = sqrt(n);
    let limit = big_add(&s, &one);
    let mut i = big_from_u64(3);
    while big_lt(&i, &limit)
        invariant
            nat_of(i) >= 3,
            nat_of(i) % 2 == 1,
            nat_of(*n) >= 3,
            nat_of(*n) % 2 == 1,
            nat_of(two) == 2,
            nat_of(limit) == nat_of(s) + 1,
            nat_of(s) * nat_of(s) <= nat_of(*n),
            nat_of(*n) < (nat_of(s) + 1) * (nat_of(s) + 1),
            forall|j: nat| 3 <= j < nat_of(i) && j % 2 == 1 ==> !divides(j, nat_of(*n)),
        decreases nat_of(limit) + 1 - nat_of(i),
    {
        if big_is_zero(&big_mod(n, &i)) {
            proof {
                assert(nat_of(s) < nat_of(*n)) by (nonlinear_arith)
                    requires
                        nat_of(s) * nat_of(s) <= nat_of(*n),
                        nat_of(*n) >= 3,
                ;
                assert(divides(nat_of(i), nat_of(*n)));
            }
            return false;
        }
        i = big_add(&i, &two);
    }
    proof {
        let nn = nat_of(*n);
        if !is_prime_spec(nn) {
            lemma_composite_has_small_divisor(nn);
            let d = choose|d: nat| 2 <= d && d * d <= nn && divides(d, nn);
            assert(d <= nat_of(s)) by (nonlinear_arith)
                requires
                    d * d <= nn,
                    nn < (nat_of(s) + 1) * (nat_of(s) + 1),
            ;
            if d % 2 == 0 {
                assert(divides(2, d));
                lemma_divides_transitive(2, d, nn);
            } else {
                assert(3 <= d < nat_of(i) && d % 2 == 1);
            }
        }
    }
    true
}

/// The primality predicate agrees with exhaustive trial division: a number
/// of at least 2 is prime exactly when no candidate in `[2, n)` divides it.
pub proof fn lemma_prime_iff_trial_division(n: nat)
    requires
        n >= 2,
    ensures
        is_prime_spec(n) <==> (forall|d: nat| 2 <= d < n ==> !divides(d, n)),
{
}

} // verus!
