//! The factorization orchestrator: strips small factors by trial division,
//! then alternates a primality check with Pollard's rho until the residual
//! is exhausted, accumulating the prime power decomposition.
use vstd::prelude::*;
use num_bigint::BigUint;
use vstd::arithmetic::div_mod::lemma_mod_self_0;
use vstd::arithmetic::div_mod::lemma_small_mod;
use crate::FactorError;
use crate::arith::{
    divides, is_prime_spec, pow_nat, lemma_divides_split, lemma_mul_divides,
    lemma_divides_transitive, lemma_divides_bound, lemma_smallest_divisor_is_prime,
    lemma_pow_nat_pos, lemma_pow_nat_base_le, lemma_pow_nat_exp_le,
    lemma_prime_power_split_unique, lemma_composite_has_small_divisor,
};
use crate::bigint::{nat_of, big_one, big_clone, big_mod, big_div, big_is_zero, big_eq};
use crate::primality::{is_prime, trial_division};
use crate::rho::pollards_rho;
use crate::roots::sqrt;

verus! {

/// Iteration budget of one Pollard's rho attempt.
pub const RHO_ITERATION_LIMIT: u64 = 10_000_000;

/// Number of rho attempts, each with a fresh polynomial constant and
/// starting point, before the search is abandoned.
pub const RHO_RETRIES: u64 = 24;

/// The product of `factor ^ exponent` over the entries of a factor list.
pub open spec fn product_of(s: Seq<(BigUint, u32)>) -> nat
    decreases s.len(),
{
    if s.len() == 0 {
        1
    } else {
        product_of(s.drop_last()) * pow_nat(nat_of(s.last().0), s.last().1 as nat)
    }
}

/// What a completed factorization of `n` promises: the entries multiply
/// back to `n` exactly, every base is prime, every exponent is positive,
/// every base divides `n`, and no base repeats.
pub open spec fn factorization_ok(s: Seq<(BigUint, u32)>, n: nat) -> bool {
    &&& product_of(s) == n
    &&& forall|k: int| 0 <= k < s.len() ==> is_prime_spec(nat_of(#[trigger] s[k].0))
    &&& forall|k: int| 0 <= k < s.len() ==> (#[trigger] s[k].1) >= 1
    &&& forall|k: int| 0 <= k < s.len() ==> divides(nat_of(#[trigger] s[k].0), n)
    &&& forall|k1: int, k2: int|
        0 <= k1 < k2 < s.len() ==> nat_of(#[trigger] s[k1].0) != nat_of(#[trigger] s[k2].0)
}

/// The inputs that trial division alone decomposes: stripping every copy of
/// the least divisor leaves a residual that is 1 or prime, so the
/// randomized factor search is never consulted.
pub open spec fn trial_division_suffices(n: nat) -> bool {
    exists|p: nat, k: nat, m: nat|
        #![trigger pow_nat(p, k), divides(p, m)]
        {
            &&& 2 <= p
            &&& divides(p, n)
            &&& (forall|j: nat| 2 <= j < p ==> !divides(j, n))
            &&& m >= 1
            &&& !divides(p, m)
            &&& n == pow_nat(p, k) * m
            &&& (m == 1 || is_prime_spec(m))
        }
}

/// Appending an entry multiplies the product by that entry's prime power.
proof fn lemma_product_push(s: Seq<(BigUint, u32)>, p: (BigUint, u32))
    ensures
        product_of(s.push(p)) == product_of(s) * pow_nat(nat_of(p.0), p.1 as nat),
{
    assert(s.push(p).drop_last() =~= s);
    assert(s.push(p).last() == p);
}

/// Divides the residual by `f` until it no longer divides evenly, returning
/// the reduced residual together with how many copies of `f` came out.
fn strip_factor(n: &BigUint, f: &BigUint) -> (r: (BigUint, u32))
    requires
        nat_of(*f) >= 2,
        nat_of(*n) >= 1,
        nat_of(*n) < pow_nat(2, u32::MAX as nat),
    ensures
        nat_of(r.0) * pow_nat(nat_of(*f), r.1 as nat) == nat_of(*n),
        nat_of(r.0) >= 1,
        !divides(nat_of(*f), nat_of(r.0)),
        divides(nat_of(*f), nat_of(*n)) ==> r.1 >= 1,
{
    let mut cur = big_clone(n);
    let mut count: u32 = 0;
    proof {
        assert(pow_nat(nat_of(*f), 0) == 1);
    }
    while big_is_zero(&big_mod(&cur, f))
        invariant
            nat_of(*f) >= 2,
            nat_of(cur) >= 1,
            nat_of(cur) * pow_nat(nat_of(*f), count as nat) == nat_of(*n),
            nat_of(*n) < pow_nat(2, u32::MAX as nat),
            count == 0 ==> nat_of(cur) == nat_of(*n),
        decreases nat_of(cur),
    {
        let fv: Ghost<nat> = Ghost(nat_of(*f));
        let cv: Ghost<nat> = Ghost(nat_of(cur));
        proof {
            lemma_divides_split(fv@, cv@);
            let k = cv@ / fv@;
            assert(1 <= k && k < cv@) by (nonlinear_arith)
                requires
                    cv@ == k * fv@,
                    fv@ >= 2,
                    cv@ >= 1,
            ;
            assert(pow_nat(fv@, (count + 1) as nat) == fv@ * pow_nat(fv@, count as nat));
            assert(k * pow_nat(fv@, (count + 1) as nat) == nat_of(*n)) by (nonlinear_arith)
                requires
                    cv@ == k * fv@,
                    cv@ * pow_nat(fv@, count as nat) == nat_of(*n),
                    pow_nat(fv@, (count + 1) as nat) == fv@ * pow_nat(fv@, count as nat),
            ;
            assert(pow_nat(fv@, (count + 1) as nat) <= nat_of(*n)) by (nonlinear_arith)
                requires
                    k >= 1,
                    k * pow_nat(fv@, (count + 1) as nat) == nat_of(*n),
            ;
            lemma_pow_nat_base_le(2, fv@, (count + 1) as nat);
            if count + 1 >= u32::MAX {
                lemma_pow_nat_exp_le(2, u32::MAX as nat, (count + 1) as nat);
            }
        }
        cur = big_div(&cur, f);
        count = count + 1;
    }
    (cur, count)
}

/// Repeated Pollard's rho attempts on `n`, varying the starting point and
/// the polynomial constant on each retry.
fn rho_retry(n: &BigUint) -> (r: Result<BigUint, FactorError>)
    requires
        nat_of(*n) >= 2,
    ensures
        r matches Ok(d) ==> 1 < nat_of(d) < nat_of(*n) && divides(nat_of(d), nat_of(*n)),
        r matches Err(e) ==> e == FactorError::NonConvergence,
{
    let mut c: u64 = 1;
    while c <= RHO_RETRIES
        invariant
            nat_of(*n) >= 2,
            1 <= c <= RHO_RETRIES + 1,
        decreases RHO_RETRIES + 1 - c,
    {
        match pollards_rho(n, c + 1, c, RHO_ITERATION_LIMIT) {
            Ok(d) => {
                return Ok(d);
            },
            Err(_) => {},
        }
        c = c + 1;
    }
    Err(FactorError::NonConvergence)
}

/// Reduces a composite residual to one of its prime factors by applying
/// Pollard's rho to whatever composite factor the previous round produced.
fn find_prime_factor(n: &BigUint) -> (r: Result<BigUint, FactorError>)
    requires
        nat_of(*n) >= 2,
        !is_prime_spec(nat_of(*n)),
    ensures
        r matches Ok(g) ==> is_prime_spec(nat_of(g)) && divides(nat_of(g), nat_of(*n)) && 1
            < nat_of(g) < nat_of(*n),
        r matches Err(e) ==> e == FactorError::NonConvergence,
{
    let mut cur = big_clone(n);
    proof {
        lemma_mod_self_0(nat_of(*n) as int);
    }
    loop
        invariant
            nat_of(cur) >= 2,
            !is_prime_spec(nat_of(cur)),
            divides(nat_of(cur), nat_of(*n)),
            nat_of(cur) <= nat_of(*n),
            nat_of(*n) >= 2,
        decreases nat_of(cur),
    {
        match rho_retry(&cur) {
            Err(_) => {
                return Err(FactorError::NonConvergence);
            },
            Ok(g) => {
                proof {
                    lemma_divides_transitive(nat_of(g), nat_of(cur), nat_of(*n));
                }
                if is_prime(&g) {
                    return Ok(g);
                }
                cur = g;
            },
        }
    }
}

/// Full prime power decomposition of `n`: trial division strips the least
/// prime factor, then each remaining prime factor of the residual is found
/// by the primality short-circuit or by Pollard's rho.
pub fn prime_factors(n: &BigUint) -> (r: Result<Vec<(BigUint, u32)>, FactorError>)
    requires
        nat_of(*n) >= 1,
        nat_of(*n) < pow_nat(2, u32::MAX as nat),
    ensures
        r matches Ok(v) ==> factorization_ok(v@, nat_of(*n)),
        nat_of(*n) == 1 || is_prime_spec(nat_of(*n)) || trial_division_suffices(nat_of(*n))
            ==> r is Ok,
        r matches Err(e) ==> e == FactorError::NonConvergence,
{
    let nv: Ghost<nat> = Ghost(nat_of(*n));
    let mut factors: Vec<(BigUint, u32)> = Vec::new();
    let mut current = big_clone(n);
    let one = big_one();
    let sqrt_limit = sqrt(&current);
    match trial_division(&current, &sqrt_limit) {
        Some(f) => {
            proof {
                lemma_divides_bound(nat_of(f), nv@);
            }
            let stripped = strip_factor(&current, &f);
            proof {
                lemma_smallest_divisor_is_prime(nv@, nat_of(f));
                lemma_product_push(factors@, (f, stripped.1));
                lemma_pow_nat_pos(nat_of(f), stripped.1 as nat);
                assert((1 * pow_nat(nat_of(f), stripped.1 as nat)) * nat_of(stripped.0) == nv@)
                    by (nonlinear_arith)
                    requires
                        nat_of(stripped.0) * pow_nat(nat_of(f), stripped.1 as nat) == nv@,
                ;
                if trial_division_suffices(nv@) {
                    let (p, k, m) = choose|p: nat, k: nat, m: nat|
                        #![trigger pow_nat(p, k), divides(p, m)]
                        {
                            &&& 2 <= p
                            &&& divides(p, nv@)
                            &&& (forall|j: nat| 2 <= j < p ==> !divides(j, nv@))
                            &&& m >= 1
                            &&& !divides(p, m)
                            &&& nv@ == pow_nat(p, k) * m
                            &&& (m == 1 || is_prime_spec(m))
                        };
                    if p < nat_of(f) {
                        assert(!divides(p, nv@));
                    }
                    if nat_of(f) < p {
                        assert(!divides(nat_of(f), nv@));
                    }
                    assert(pow_nat(p, stripped.1 as nat) * nat_of(stripped.0) == nv@)
                        by (nonlinear_arith)
                        requires
                            p == nat_of(f),
                            nat_of(stripped.0) * pow_nat(nat_of(f), stripped.1 as nat) == nv@,
                    ;
                    lemma_prime_power_split_unique(p, k, m, stripped.1 as nat, nat_of(stripped.0));
                    assert(nat_of(stripped.0) == m);
                }
            }
            factors.push((f, stripped.1));
            current = stripped.0;
        },
        None => {
            proof {
                if nv@ >= 2 && !is_prime_spec(nv@) {
                    lemma_composite_has_small_divisor(nv@);
                    let d = choose|d: nat| 2 <= d && d * d <= nv@ && divides(d, nv@);
                    assert(d <= nat_of(sqrt_limit)) by (nonlinear_arith)
                        requires
                            d * d <= nv@,
                            nv@ < (nat_of(sqrt_limit) + 1) * (nat_of(sqrt_limit) + 1),
                    ;
                    assert(!divides(d, nv@));
                }
            }
        },
    }
    while !big_eq(&current, &one)
        invariant
            nat_of(one) == 1,
            nat_of(current) >= 1,
            nv@ == nat_of(*n),
            nv@ >= 1,
            nv@ < pow_nat(2, u32::MAX as nat),
            product_of(factors@) >= 1,
            product_of(factors@) * nat_of(current) == nv@,
            forall|k: int|
                0 <= k < factors@.len() ==> is_prime_spec(nat_of(#[trigger] factors@[k].0)),
            forall|k: int| 0 <= k < factors@.len() ==> (#[trigger] factors@[k].1) >= 1,
            forall|k: int|
                0 <= k < factors@.len() ==> divides(nat_of(#[trigger] factors@[k].0), nv@),
            forall|k: int|
                0 <= k < factors@.len() ==> !divides(
                    nat_of(#[trigger] factors@[k].0),
                    nat_of(current),
                ),
            forall|k1: int, k2: int|
                0 <= k1 < k2 < factors@.len() ==> nat_of(#[trigger] factors@[k1].0) != nat_of(
                    #[trigger] factors@[k2].0,
                ),
            trial_division_suffices(nv@) ==> (nat_of(current) == 1 || is_prime_spec(
                nat_of(current),
            )),
        decreases nat_of(current),
    {
        let ghost pre = factors@;
        let ghost cv = nat_of(current);
        if is_prime(&current) {
            let cur_clone = big_clone(&current);
            proof {
                lemma_product_push(pre, (cur_clone, 1u32));
                assert(pow_nat(cv, 0) == 1);
                assert(pow_nat(cv, 1) == cv * pow_nat(cv, 0));
                assert(pow_nat(cv, 1) == cv);
                lemma_mul_divides(product_of(pre), cv);
                lemma_mod_self_0(cv as int);
                assert forall|k: int| 0 <= k < pre.len() implies nat_of(pre[k].0) != cv by {
                    if nat_of(pre[k].0) == cv {
                        assert(divides(nat_of(pre[k].0), cv));
                    }
                }
                assert forall|k: int| 0 <= k < pre.len() implies !divides(nat_of(pre[k].0), 1nat)
                    by {
                    lemma_small_mod(1nat, nat_of(pre[k].0));
                }
                lemma_small_mod(1nat, cv);
            }
            factors.push((cur_clone, 1));
            current = big_one();
        } else {
            match find_prime_factor(&current) {
                Err(_) => {
                    proof {
                        lemma_mul_divides(product_of(pre), cv);
                        lemma_divides_bound(cv, nv@);
                        if nv@ == 1 {
                            assert(false);
                        }
                        if is_prime_spec(nv@) {
                            assert(1 < cv < nv@ ==> !divides(cv, nv@));
                            assert(false);
                        }
                        if trial_division_suffices(nv@) {
                            assert(false);
                        }
                    }
                    return Err(FactorError::NonConvergence);
                },
                Ok(g) => {
                    proof {
                        assert(nat_of(current) <= nv@) by (nonlinear_arith)
                            requires
                                product_of(pre) >= 1,
                                product_of(pre) * nat_of(current) == nv@,
                        ;
                    }
                    let stripped = strip_factor(&current, &g);
                    let next = stripped.0;
                    let count = stripped.1;
                    proof {
                        let gv = nat_of(g);
                        let xv = nat_of(next);
                        lemma_product_push(pre, (g, count));
                        lemma_pow_nat_pos(gv, count as nat);
                        assert((product_of(pre) * pow_nat(gv, count as nat)) * xv == nv@
                            && product_of(pre) * pow_nat(gv, count as nat) >= 1)
                            by (nonlinear_arith)
                            requires
                                product_of(pre) * cv == nv@,
                                xv * pow_nat(gv, count as nat) == cv,
                                product_of(pre) >= 1,
                                pow_nat(gv, count as nat) >= 1,
                        ;
                        // the residual shrinks: at least one copy of g came out
                        assert(divides(gv, cv));
                        assert(count >= 1);
                        assert(pow_nat(gv, count as nat) >= 2) by {
                            assert(pow_nat(gv, 0) == 1);
                            assert(pow_nat(gv, 1) == gv * pow_nat(gv, 0));
                            lemma_pow_nat_exp_le(gv, 1, count as nat);
                        }
                        assert(xv < cv) by (nonlinear_arith)
                            requires
                                xv * pow_nat(gv, count as nat) == cv,
                                pow_nat(gv, count as nat) >= 2,
                                xv >= 1,
                        ;
                        // g divides the original input
                        lemma_mul_divides(product_of(pre), cv);
                        lemma_divides_transitive(gv, cv, nv@);
                        // the new residual divides the old one
                        lemma_mul_divides(pow_nat(gv, count as nat), xv);
                        assert(xv * pow_nat(gv, count as nat) == pow_nat(gv, count as nat) * xv)
                            by (nonlinear_arith);
                        assert(divides(xv, cv));
                        assert forall|k: int| 0 <= k < pre.len() implies !divides(
                            nat_of(pre[k].0),
                            xv,
                        ) by {
                            if divides(nat_of(pre[k].0), xv) {
                                lemma_divides_transitive(nat_of(pre[k].0), xv, cv);
                            }
                        }
                        assert forall|k: int| 0 <= k < pre.len() implies nat_of(pre[k].0) != gv
                            by {
                            if nat_of(pre[k].0) == gv {
                                assert(divides(gv, cv));
                            }
                        }
                    }
                    factors.push((g, count));
                    current = next;
                },
            }
        }
    }
    proof {
        assert(nat_of(current) == 1);
        assert(product_of(factors@) == nv@);
        assert(forall|k: int|
            0 <= k < factors@.len() ==> is_prime_spec(nat_of(#[trigger] factors@[k].0)));
        assert(forall|k: int| 0 <= k < factors@.len() ==> (#[trigger] factors@[k].1) >= 1);
        assert(forall|k: int|
            0 <= k < factors@.len() ==> divides(nat_of(#[trigger] factors@[k].0), nv@));
        assert(forall|k1: int, k2: int|
            0 <= k1 < k2 < factors@.len() ==> nat_of(#[trigger] factors@[k1].0) != nat_of(
                #[trigger] factors@[k2].0,
            ));
        assert(factorization_ok(factors@, nv@));
    }
    Ok(factors)
}

} // verus!
