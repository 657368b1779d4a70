//! Arithmetic on residues modulo a plaintext modulus.
//!
//! The spec functions work on mathematical integers and always return the
//! canonical residue in `[0, p)`; the executable functions compute the same
//! values on `u64` without overflow.

use vstd::arithmetic::div_mod::*;
use vstd::arithmetic::mul::*;
use vstd::arithmetic::power::*;
use vstd::prelude::*;

verus! {

/// `p` has no divisor strictly between 1 and itself.
pub open spec fn is_prime(p: int) -> bool {
    &&& p >= 2
    &&& forall|d: int| 2 <= d < p ==> #[trigger] (p % d) != 0
}

/// Sum of two integers, reduced modulo `p`.
pub open spec fn add_mod(a: int, b: int, p: int) -> int {
    (a + b) % p
}

/// Difference of two integers, reduced modulo `p`.
pub open spec fn sub_mod(a: int, b: int, p: int) -> int {
    (a - b) % p
}

/// Additive inverse of an integer, reduced modulo `p`.
pub open spec fn neg_mod(a: int, p: int) -> int {
    (-a) % p
}

/// Product of two integers, reduced modulo `p`.
pub open spec fn mul_mod(a: int, b: int, p: int) -> int {
    (a * b) % p
}

/// `x` raised to the power `e`, reduced modulo `p`.
pub open spec fn pow_mod(x: int, e: nat, p: int) -> int {
    pow(x, e) % p
}

/// One more factor: `x^(e+1) = x * x^e` modulo `p`.
pub proof fn lemma_pow_mod_step(x: int, e: nat, p: int)
    requires
        p > 0,
    ensures
        pow_mod(x, e + 1, p) == mul_mod(x, pow_mod(x, e, p), p),
        pow_mod(x, 0, p) == 1int % p,
        pow_mod(x, 1, p) == x % p,
{
    reveal_with_fuel(pow, 2);
    assert(pow(x, e + 1) == x * pow(x, e)) by {
        reveal(pow);
    }
    lemma_mul_mod_noop_right(x, pow(x, e), p);
    assert(pow(x, 1) == x) by {
        lemma_pow1(x);
    }
}

/// Exponents add under multiplication: `x^a * x^b = x^(a+b)` modulo `p`.
pub proof fn lemma_pow_mod_adds(x: int, a: nat, b: nat, p: int)
    requires
        p > 0,
    ensures
        mul_mod(pow_mod(x, a, p), pow_mod(x, b, p), p) == pow_mod(x, a + b, p),
{
    lemma_pow_adds(x, a, b);
    lemma_mul_mod_noop(pow(x, a), pow(x, b), p);
}

/// Powers of powers: `(x^a)^b = x^(a*b)` modulo `p`.
pub proof fn lemma_pow_mod_multiplies(x: int, a: nat, b: nat, p: int)
    requires
        p > 0,
    ensures
        pow_mod(pow_mod(x, a, p), b, p) == pow_mod(x, a * b, p),
{
    lemma_pow_mod_noop(pow(x, a), b, p);
    lemma_pow_multiplies(x, a, b);
}

/// The base of a power may be reduced first.
pub proof fn lemma_pow_mod_base(x: int, e: nat, p: int)
    requires
        p > 0,
    ensures
        pow_mod(x % p, e, p) == pow_mod(x, e, p),
{
    lemma_pow_mod_noop(x, e, p);
}

/// `(a + b) mod p` for residues or any other `u64` values.
pub fn add_residues(a: u64, b: u64, p: u64) -> (r: u64)
    requires
        p > 0,
    ensures
        r == add_mod(a as int, b as int, p as int),
        r < p,
{
    let wide: u128 = a as u128 + b as u128;
    let r: u128 = wide % (p as u128);
    r as u64
}

/// `(a - b) mod p`; the result is the canonical residue even when `a < b`.
pub fn sub_residues(a: u64, b: u64, p: u64) -> (r: u64)
    requires
        p > 0,
    ensures
        r == sub_mod(a as int, b as int, p as int),
        r < p,
{
    let ra: u64 = a % p;
    let rb: u64 = b % p;
    proof {
        lemma_sub_mod_noop(a as int, b as int, p as int);
    }
    if ra >= rb {
        let r: u64 = ra - rb;
        proof {
            lemma_small_mod(r as nat, p as nat);
        }
        r
    } else {
        let r: u64 = p - (rb - ra);
        proof {
            lemma_mod_add_multiples_vanish(ra as int - rb as int, p as int);
            lemma_small_mod(r as nat, p as nat);
        }
        r
    }
}

/// `(-a) mod p`.
pub fn negate_residue(a: u64, p: u64) -> (r: u64)
    requires
        p > 0,
    ensures
        r == neg_mod(a as int, p as int),
        r < p,
{
    sub_residues(0, a, p)
}

/// `(a * b) mod p`, computed through a 128-bit product.
pub fn mul_residues(a: u64, b: u64, p: u64) -> (r: u64)
    requires
        p > 0,
    ensures
        r == mul_mod(a as int, b as int, p as int),
        r < p,
{
    assert(a as int * b as int <= 0xffff_ffff_ffff_ffff * 0xffff_ffff_ffff_ffff)
        by (nonlinear_arith)
        requires
            0 <= a as int <= 0xffff_ffff_ffff_ffff,
            0 <= b as int <= 0xffff_ffff_ffff_ffff,
    ;
    assert(0 <= a as int * b as int) by (nonlinear_arith)
        requires
            0 <= a as int,
            0 <= b as int,
    ;
    let wide: u128 = (a as u128) * (b as u128);
    let r: u128 = wide % (p as u128);
    r as u64
}

/// `base^exponent mod p` by repeated squaring.
pub fn pow_residue(base: u64, exponent: u64, p: u64) -> (r: u64)
    requires
        p > 0,
    ensures
        r == pow_mod(base as int, exponent as nat, p as int),
        r < p,
{
    let mut result: u64 = 1 % p;
    let mut square: u64 = base % p;
    let mut remaining: u64 = exponent;
    proof {
        lemma_pow_mod_step(base as int, 0, p as int);
        lemma_pow_mod_step(square as int, 0, p as int);
        lemma_pow_mod_base(base as int, exponent as nat, p as int);
        let full = pow(square as int, exponent as nat);
        lemma_mul_mod_noop(1, full, p as int);
        assert(1 * full == full);
    }
    while remaining > 0
        invariant
            p > 0,
            result < p,
            square < p,
            mul_mod(result as int, pow_mod(square as int, remaining as nat, p as int), p as int)
                == pow_mod(base as int, exponent as nat, p as int),
        decreases remaining,
    {
        let ghost old_result = result as int;
        let ghost old_square = square as int;
        let ghost old_remaining = remaining as nat;
        let ghost pi = p as int;
        let half: u64 = remaining / 2;
        if remaining % 2 == 1 {
            result = mul_residues(result, square, p);
        }
        square = mul_residues(square, square, p);
        remaining = half;
        proof {
            // square^old_remaining = (square^2)^half * square^(old_remaining % 2)
            let s2 = pow(old_square, 2);
            assert(s2 == old_square * old_square) by {
                lemma_square_is_pow2(old_square);
            }
            lemma_pow_multiplies(old_square, 2, half as nat);
            lemma_pow_mod_noop(s2, half as nat, pi);
            assert(pow_mod(square as int, half as nat, pi) == pow(old_square, (2 * half) as nat)
                % pi);
            if old_remaining % 2 == 1 {
                assert(old_remaining == 2 * half + 1);
                lemma_pow_mod_step(old_square, (2 * half) as nat, pi);
                let t = pow(old_square, (2 * half) as nat);
                // result * (x * t % p) % p == (result * x % p) * (t % p) % p
                lemma_mul_mod_noop_right(old_result, old_square * (t % pi), pi);
                lemma_mul_mod_noop_right(old_square, t, pi);
                lemma_mul_mod_noop_right(old_result, old_square * t, pi);
                lemma_mul_is_associative(old_result, old_square, t);
                lemma_mul_mod_noop_general(old_result * old_square, t, pi);
            } else {
                assert(old_remaining == 2 * half);
            }
        }
    }
    proof {
        lemma_pow_mod_step(square as int, 0, p as int);
        if p == 1 {
        } else {
            lemma_small_mod(1, p as nat);
            assert(result as int * 1 == result as int);
            lemma_small_mod(result as nat, p as nat);
        }
    }
    result
}

/// Decides primality by trial division up to the square root.
pub fn is_prime_modulus(p: u64) -> (prime: bool)
    ensures
        prime == is_prime(p as int),
{
    if p < 2 {
        return false;
    }
    let mut d: u64 = 2;
    while d <= p / d
        invariant
            2 <= d <= p,
            forall|k: int| 2 <= k < d ==> #[trigger] (p as int % k) != 0,
        decreases p - d,
    {
        if p % d == 0 {
            assert(d < p) by (nonlinear_arith)
                requires
                    2 <= d,
                    d <= p / d,
                    p >= 2,
            ;
            return false;
        }
        assert(d < p) by (nonlinear_arith)
            requires
                2 <= d,
                d <= p / d,
                p >= 2,
        ;
        d += 1;
    }
    proof {
        let pi = p as int;
        let di = d as int;
        assert forall|k: int| 2 <= k < pi implies #[trigger] (pi % k) != 0 by {
            if k >= di && pi % k == 0 {
                let q = pi / k;
                lemma_fundamental_div_mod(pi, k);
                assert(pi == k * q);
                // q < d, for otherwise p >= d * d
                assert(di > pi / di);
                lemma_fundamental_div_mod(pi, di);
                assert(q >= 2 && q < di && pi % q == 0) by (nonlinear_arith)
                    requires
                        pi == k * q,
                        2 <= k < pi,
                        k >= di,
                        di >= 2,
                        di > pi / di,
                        pi == di * (pi / di) + pi % di,
                        0 <= pi % di < di,
                {
                    assert(q >= 2);
                    assert(q < di);
                    assert(pi == q * k + 0);
                }
                lemma_fundamental_div_mod_converse_mod(pi, q, k, 0);
            }
        }
    }
    true
}

} // verus!
