//! Coefficients of the comparison polynomial for a prime plaintext modulus.
//!
//! For an odd prime `p` the indicator of "negative" on the residues of the
//! signed range `(-p/2, p/2)` is the polynomial
//! `((p + 1) / 2) * z^(p - 1) + z * g(z^2)`, where the coefficient of `x^j`
//! in `g` is the sum of `a^(p - 2 - 2j)` over `a = 1, ..., (p - 1) / 2`.

use crate::circuit::{residues, CircuitError};
use crate::field::{add_residues, is_prime, is_prime_modulus, pow_residue};
use vstd::arithmetic::div_mod::lemma_add_mod_noop;
use vstd::arithmetic::div_mod::lemma_small_mod;
use vstd::arithmetic::power::pow;
use vstd::prelude::*;

verus! {

/// `1^e + 2^e + ... + n^e`.
pub open spec fn power_sum(n: nat, e: nat) -> int
    decreases n,
{
    if n == 0 {
        0
    } else {
        power_sum((n - 1) as nat, e) + pow(n as int, e)
    }
}

/// The coefficient of `x^j` in `g`, as a residue modulo `p`.
pub open spec fn lt_coefficient(p: int, j: int) -> int {
    power_sum(((p - 1) / 2) as nat, (p - 2 - 2 * j) as nat) % p
}

/// All `(p - 1) / 2` coefficients of `g`, lowest degree first.
pub open spec fn lt_coefficients(p: int) -> Seq<int> {
    Seq::new(((p - 1) / 2) as nat, |j: int| lt_coefficient(p, j))
}

/// Derives the coefficients of the comparison polynomial for the prime `t`.
///
/// Fails, without computing anything, when `t` is not prime.
pub fn compute_lt_coefficients(t: u64) -> (made: Result<Vec<u64>, CircuitError>)
    ensures
        made is Ok <==> is_prime(t as int),
        made matches Err(e) ==> e == CircuitError::ModulusNotPrime,
        made matches Ok(alpha_vec) ==> residues(alpha_vec@) == lt_coefficients(t as int),
{
    if !is_prime_modulus(t) {
        return Err(CircuitError::ModulusNotPrime);
    }
    let half: u64 = (t - 1) / 2;
    let mut alpha_vec: Vec<u64> = Vec::new();
    let mut j: u64 = 0;
    while j < half
        invariant
            t >= 2,
            half == (t - 1) / 2,
            j <= half,
            alpha_vec@.len() == j,
            forall|k: int|
                0 <= k < j ==> #[trigger] alpha_vec@[k] as int == lt_coefficient(t as int, k),
        decreases half - j,
    {
        let exponent: u64 = t - 2 - 2 * j;
        let mut alpha: u64 = 0;
        let mut a: u64 = 1;
        while a <= half
            invariant
                t >= 2,
                half == (t - 1) / 2,
                1 <= a <= half + 1,
                alpha < t,
                alpha as int == power_sum((a - 1) as nat, exponent as nat) % (t as int),
            decreases half + 1 - a,
        {
            let term: u64 = pow_residue(a, exponent, t);
            proof {
                lemma_add_mod_noop(
                    power_sum((a - 1) as nat, exponent as nat),
                    pow(a as int, exponent as nat),
                    t as int,
                );
                lemma_small_mod(alpha as nat, t as nat);
                lemma_small_mod(term as nat, t as nat);
            }
            alpha = add_residues(alpha, term, t);
            a += 1;
        }
        alpha_vec.push(alpha);
        j += 1;
    }
    assert(residues(alpha_vec@) =~= lt_coefficients(t as int));
    Ok(alpha_vec)
}

} // verus!
