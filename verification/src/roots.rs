//! Floor square root of an arbitrary-precision natural by Newton's method.
use vstd::prelude::*;
use num_bigint::BigUint;
use vstd::arithmetic::div_mod::lemma_fundamental_div_mod;
use crate::bigint::{nat_of, big_from_u64, big_clone, big_one, big_add, big_div, big_half, big_lt, big_eq};

verus! {

/// One Newton step from `x` never lands below the floor square root:
/// the result still bounds `n` from above once incremented and squared.
proof fn lemma_newton_step_upper(n: nat, x: nat)
    requires
        x >= 1,
    ensures
        n < ((n / x + x) / 2 + 1) * ((n / x + x) / 2 + 1),
{
    let q: nat = n / x;
    let m: nat = (q + x) / 2;
    lemma_fundamental_div_mod(n as int, x as int);
    lemma_fundamental_div_mod((q + x) as int, 2);
    assert(n < (m + 1) * (m + 1)) by (nonlinear_arith)
        requires
            x >= 1,
            n == x * q + n % x,
            n % x < x,
            q + x == 2 * m + (q + x) % 2,
            (q + x) % 2 < 2,
    ;
}

/// While the iterate still overshoots the root, a Newton step strictly
/// shrinks it.
proof fn lemma_newton_step_decreases(n: nat, x: nat)
    requires
        x >= 1,
        x * x > n,
    ensures
        (n / x + x) / 2 < x,
{
    let q: nat = n / x;
    let m: nat = (q + x) / 2;
    lemma_fundamental_div_mod(n as int, x as int);
    lemma_fundamental_div_mod((q + x) as int, 2);
    assert(m < x) by (nonlinear_arith)
        requires
            x >= 1,
            n == x * q + n % x,
            n % x < x,
            x * x > n,
            q + x == 2 * m + (q + x) % 2,
            (q + x) % 2 < 2,
    ;
}

/// Floor square root: the largest natural `r` with `r * r <= n`.
pub fn sqrt(n: &BigUint) -> (r: BigUint)
    ensures
        nat_of(r) * nat_of(r) <= nat_of(*n),
        nat_of(*n) < (nat_of(r) + 1) * (nat_of(r) + 1),
{
    let two = big_from_u64(2);
    if big_lt(n, &two) {
        let r = big_clone(n);
        proof {
            assert(nat_of(r) * nat_of(r) <= nat_of(*n) && nat_of(*n) < (nat_of(r) + 1) * (
            nat_of(r) + 1)) by (nonlinear_arith)
                requires
                    nat_of(r) == nat_of(*n),
                    nat_of(*n) < 2,
            ;
        }
        return r;
    }
    if big_eq(n, &two) {
        let r = big_one();
        proof {
            assert(nat_of(*n) < (nat_of(r) + 1) * (nat_of(r) + 1)) by (nonlinear_arith)
                requires
                    nat_of(r) == 1,
                    nat_of(*n) == 2,
            ;
        }
        return r;
    }
    let mut x0 = big_clone(n);
    let mut x1 = big_add(&big_half(n), &big_one());
    proof {
        lemma_fundamental_div_mod(nat_of(*n) as int, 2);
        assert(nat_of(*n) < (nat_of(x1) + 1) * (nat_of(x1) + 1)) by (nonlinear_arith)
            requires
                nat_of(x1) == nat_of(*n) / 2 + 1,
                nat_of(*n) == 2 * (nat_of(*n) / 2) + nat_of(*n) % 2,
                nat_of(*n) % 2 < 2,
        ;
        assert(nat_of(x0) < (nat_of(x0) + 1) * (nat_of(x0) + 1)) by (nonlinear_arith);
    }
    while big_lt(&x1, &x0)
        invariant
            nat_of(*n) >= 3,
            nat_of(x0) >= 1,
            nat_of(x1) >= 1,
            nat_of(*n) < (nat_of(x0) + 1) * (nat_of(x0) + 1),
            nat_of(*n) < (nat_of(x1) + 1) * (nat_of(x1) + 1),
            nat_of(x1) >= nat_of(x0) ==> nat_of(x0) * nat_of(x0) <= nat_of(*n),
        decreases nat_of(x0),
    {
        x0 = x1;
        let quot = big_div(n, &x0);
        x1 = big_half(&big_add(&quot, &x0));
        proof {
            let nn = nat_of(*n);
            let x = nat_of(x0);
            let m = nat_of(x1);
            lemma_newton_step_upper(nn, x);
            if x * x > nn {
                lemma_newton_step_decreases(nn, x);
            }
            lemma_fundamental_div_mod((nn / x + x) as int, 2);
            lemma_fundamental_div_mod(nn as int, x as int);
            assert(m >= 1) by (nonlinear_arith)
                requires
                    x >= 1,
                    nn >= 3,
                    nn == x * (nn / x) + nn % x,
                    nn % x < x,
                    nn / x + x == 2 * m + (nn / x + x) % 2,
                    (nn / x + x) % 2 < 2,
            ;
        }
    }
    x0
}

} // verus!
