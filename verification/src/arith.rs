//! Mathematical vocabulary shared by every contract in the crate:
//! divisibility, natural-number powers, greatest common divisors and
//! primality, together with the lemmas the algorithms rest on.
use vstd::prelude::*;
use vstd::arithmetic::div_mod::lemma_fundamental_div_mod;
use vstd::arithmetic::div_mod::lemma_mod_multiples_basic;
use vstd::arithmetic::div_mod::lemma_mod_self_0;

verus! {

/// `d` evenly divides `n`.
pub open spec fn divides(d: nat, n: nat) -> bool {
    d >= 1 && n % d == 0
}

/// `b` raised to the power `e` over the naturals.
pub open spec fn pow_nat(b: nat, e: nat) -> nat
    decreases e,
{
    if e == 0 {
        1
    } else {
        b * pow_nat(b, (e - 1) as nat)
    }
}

/// Greatest common divisor by Euclid's recurrence.
pub open spec fn gcd_nat(a: nat, b: nat) -> nat
    decreases b,
{
    if b == 0 {
        a
    } else {
        gcd_nat(b, a % b)
    }
}

/// A prime has no divisor strictly between 1 and itself.
pub open spec fn is_prime_spec(n: nat) -> bool {
    n >= 2 && forall|d: nat| 1 < d < n ==> !divides(d, n)
}

/// A divisor of `n` splits `n` into a product of naturals.
pub proof fn lemma_divides_split(d: nat, n: nat)
    requires
        divides(d, n),
    ensures
        n == (n / d) * d,
{
    lemma_fundamental_div_mod(n as int, d as int);
}

/// A multiple of `d` is divided evenly by `d`.
pub proof fn lemma_mul_divides(k: nat, d: nat)
    requires
        d >= 1,
    ensures
        divides(d, k * d),
{
    lemma_mod_multiples_basic(k as int, d as int);
}

/// Divisibility is transitive.
pub proof fn lemma_divides_transitive(a: nat, b: nat, c: nat)
    requires
        divides(a, b),
        divides(b, c),
    ensures
        divides(a, c),
{
    lemma_divides_split(a, b);
    lemma_divides_split(b, c);
    let kb: nat = b / a;
    let kc: nat = c / b;
    assert(c == (kc * kb) * a) by (nonlinear_arith)
        requires
            b == kb * a,
            c == kc * b,
    ;
    lemma_mul_divides(kc * kb, a);
}

/// A divisor of a positive number lies between 1 and that number.
pub proof fn lemma_divides_bound(d: nat, n: nat)
    requires
        divides(d, n),
        n >= 1,
    ensures
        1 <= d <= n,
{
    lemma_divides_split(d, n);
    let k: nat = n / d;
    assert(k >= 1 && k * d >= d) by (nonlinear_arith)
        requires
            n == k * d,
            n >= 1,
            d >= 1,
    ;
}

/// A common divisor of `b` and of `a % b` also divides `a`.
proof fn lemma_divides_mod_back(g: nat, a: nat, b: nat)
    requires
        b >= 1,
        divides(g, b),
        divides(g, a % b),
    ensures
        divides(g, a),
{
    lemma_fundamental_div_mod(a as int, b as int);
    lemma_divides_split(g, b);
    lemma_divides_split(g, a % b);
    let q: nat = a / b;
    let kb: nat = b / g;
    let kr: nat = (a % b) / g;
    assert(a == (q * kb + kr) * g) by (nonlinear_arith)
        requires
            a == b * q + a % b,
            b == kb * g,
            a % b == kr * g,
    ;
    lemma_mul_divides(q * kb + kr, g);
}

/// Euclid's gcd divides both of its arguments and is positive.
pub proof fn lemma_gcd_divides(a: nat, b: nat)
    requires
        b >= 1,
    ensures
        gcd_nat(a, b) >= 1,
        divides(gcd_nat(a, b), a),
        divides(gcd_nat(a, b), b),
    decreases b,
{
    let r: nat = a % b;
    if r == 0 {
        assert(gcd_nat(a, b) == gcd_nat(b, 0));
        lemma_mod_self_0(b as int);
    } else {
        lemma_gcd_divides(b, r);
        lemma_divides_mod_back(gcd_nat(b, r), a, b);
    }
}

/// Every number with some proper divisor has one no larger than its
/// square root.
pub proof fn lemma_composite_has_small_divisor(n: nat)
    requires
        n >= 2,
        !is_prime_spec(n),
    ensures
        exists|d: nat| 2 <= d && d * d <= n && divides(d, n),
{
    let d0 = choose|d: nat| 1 < d < n && divides(d, n);
    lemma_divides_split(d0, n);
    let e: nat = n / d0;
    assert(e >= 2) by (nonlinear_arith)
        requires
            n == e * d0,
            1 < d0 < n,
    ;
    if d0 * d0 <= n {
        assert(2 <= d0 && d0 * d0 <= n && divides(d0, n));
    } else {
        assert(e * e <= n && n == d0 * e) by (nonlinear_arith)
            requires
                n == e * d0,
                d0 * d0 > n,
                e >= 2,
                d0 >= 2,
    ;
        lemma_mul_divides(d0, e);
        assert(2 <= e && e * e <= n && divides(e, n));
    }
}

/// The least divisor (other than 1) of any number is prime.
pub proof fn lemma_smallest_divisor_is_prime(n: nat, d: nat)
    requires
        n >= 2,
        d >= 2,
        divides(d, n),
        forall|j: nat| 2 <= j < d ==> !divides(j, n),
    ensures
        is_prime_spec(d),
{
    assert forall|e: nat| 1 < e < d implies !divides(e, d) by {
        if divides(e, d) {
            lemma_divides_transitive(e, d, n);
        }
    }
}

/// Splitting a number into a power of `p` times a residual that `p` does
/// not divide is unique.
pub proof fn lemma_prime_power_split_unique(p: nat, k1: nat, m1: nat, k2: nat, m2: nat)
    requires
        p >= 2,
        m1 >= 1,
        m2 >= 1,
        pow_nat(p, k1) * m1 == pow_nat(p, k2) * m2,
        !divides(p, m1),
        !divides(p, m2),
    ensures
        k1 == k2,
        m1 == m2,
    decreases k1,
{
    if k1 == 0 && k2 == 0 {
        assert(pow_nat(p, 0) == 1);
    } else if k1 == 0 {
        assert(pow_nat(p, 0) == 1);
        assert(pow_nat(p, k2) == p * pow_nat(p, (k2 - 1) as nat));
        let w = pow_nat(p, (k2 - 1) as nat) * m2;
        assert(m1 == w * p) by (nonlinear_arith)
            requires
                1 * m1 == (p * pow_nat(p, (k2 - 1) as nat)) * m2,
                w == pow_nat(p, (k2 - 1) as nat) * m2,
        ;
        lemma_mul_divides(w, p);
    } else if k2 == 0 {
        assert(pow_nat(p, 0) == 1);
        assert(pow_nat(p, k1) == p * pow_nat(p, (k1 - 1) as nat));
        let w = pow_nat(p, (k1 - 1) as nat) * m1;
        assert(m2 == w * p) by (nonlinear_arith)
            requires
                (p * pow_nat(p, (k1 - 1) as nat)) * m1 == 1 * m2,
                w == pow_nat(p, (k1 - 1) as nat) * m1,
        ;
        lemma_mul_divides(w, p);
    } else {
        assert(pow_nat(p, k1) == p * pow_nat(p, (k1 - 1) as nat));
        assert(pow_nat(p, k2) == p * pow_nat(p, (k2 - 1) as nat));
        assert(pow_nat(p, (k1 - 1) as nat) * m1 == pow_nat(p, (k2 - 1) as nat) * m2)
            by (nonlinear_arith)
            requires
                p >= 1,
                (p * pow_nat(p, (k1 - 1) as nat)) * m1 == (p * pow_nat(p, (k2 - 1) as nat))
                    * m2,
        ;
        lemma_prime_power_split_unique(p, (k1 - 1) as nat, m1, (k2 - 1) as nat, m2);
    }
}

/// A positive base raised to any power stays positive.
pub proof fn lemma_pow_nat_pos(b: nat, e: nat)
    requires
        b >= 1,
    ensures
        pow_nat(b, e) >= 1,
    decreases e,
{
    if e > 0 {
        lemma_pow_nat_pos(b, (e - 1) as nat);
        assert(b * pow_nat(b, (e - 1) as nat) >= 1) by (nonlinear_arith)
            requires
                b >= 1,
                pow_nat(b, (e - 1) as nat) >= 1,
        ;
    }
}

/// Powers are monotone in the base.
pub proof fn lemma_pow_nat_base_le(a: nat, b: nat, e: nat)
    requires
        1 <= a <= b,
    ensures
        pow_nat(a, e) <= pow_nat(b, e),
    decreases e,
{
    if e > 0 {
        lemma_pow_nat_base_le(a, b, (e - 1) as nat);
        lemma_pow_nat_pos(a, (e - 1) as nat);
        assert(a * pow_nat(a, (e - 1) as nat) <= b * pow_nat(b, (e - 1) as nat))
            by (nonlinear_arith)
            requires
                1 <= a <= b,
                1 <= pow_nat(a, (e - 1) as nat) <= pow_nat(b, (e - 1) as nat),
        ;
    }
}

/// Powers of a positive base grow with the exponent.
pub proof fn lemma_pow_nat_exp_le(b: nat, e1: nat, e2: nat)
    requires
        b >= 1,
        e1 <= e2,
    ensures
        pow_nat(b, e1) <= pow_nat(b, e2),
    decreases e2,
{
    if e1 < e2 {
        lemma_pow_nat_exp_le(b, e1, (e2 - 1) as nat);
        lemma_pow_nat_pos(b, (e2 - 1) as nat);
        assert(pow_nat(b, e2) == b * pow_nat(b, (e2 - 1) as nat));
        assert(pow_nat(b, (e2 - 1) as nat) <= b * pow_nat(b, (e2 - 1) as nat))
            by (nonlinear_arith)
            requires
                b >= 1,
                pow_nat(b, (e2 - 1) as nat) >= 1,
        ;
    }
}

} // verus!
