//! Why the comparison polynomial is the indicator of the negative half of
//! the signed range.
//!
//! For an odd prime `p` with `h = (p - 1) / 2`, and `z` in `[-h, h]`, the sum
//! over `a = 1, ..., h` of the odd-degree part of
//! `a^(p-1) + a^(p-2) z + ... + z^(p-1)` counts, up to the factor 2, the `a`
//! that equal `-z` minus those that equal `z`. Together with the leading
//! term this makes twice the polynomial's value 2 for negative `z` and 0
//! otherwise.

use crate::coefficients::{lt_coefficient, lt_coefficients, power_sum};
use crate::field::is_prime;
use crate::less_than::{less_than_value, lt_poly};
use crate::number_theory::{
    geometric, lemma_cancel, lemma_fermat, lemma_geometric_indicator, lemma_only_zero,
    lemma_pow_next,
};
use crate::polynomial::{lemma_span_mod, poly_eval, span};
use vstd::arithmetic::div_mod::{
    lemma_add_mod_noop, lemma_mul_mod_noop_general, lemma_small_mod, lemma_sub_mod_noop,
};
use vstd::arithmetic::mul::{lemma_mul_is_commutative, lemma_mul_is_distributive_add};
use vstd::arithmetic::power::{lemma_pow0, pow};
use vstd::prelude::*;

verus! {

/// The terms of odd degree in `z`: the sum over `j < n` of
/// `a^(p - 2 - 2j) * z^(2j + 1)`.
pub open spec fn odd_part(a: int, z: int, p: int, n: nat) -> int
    decreases n,
{
    if n == 0 {
        0
    } else {
        odd_part(a, z, p, (n - 1) as nat) + pow(a, (p - 2 * n) as nat) * pow(
            z,
            (2 * n - 1) as nat,
        )
    }
}

/// The terms of even degree in `z`: the sum over `j < n` of
/// `a^(p - 1 - 2j) * z^(2j)`.
pub open spec fn even_part(a: int, z: int, p: int, n: nat) -> int
    decreases n,
{
    if n == 0 {
        0
    } else {
        even_part(a, z, p, (n - 1) as nat) + pow(a, (p + 1 - 2 * n) as nat) * pow(
            z,
            (2 * n - 2) as nat,
        )
    }
}

/// The first `2m` terms of the full sum split into even and odd degrees.
proof fn lemma_split_by_parity(a: int, z: int, p: int, m: nat)
    requires
        2 * m <= p - 1,
    ensures
        geometric(a, z, (p - 1) as nat, 2 * m) == even_part(a, z, p, m) + odd_part(a, z, p, m),
    decreases m,
{
    if m > 0 {
        let top = (p - 1) as nat;
        lemma_split_by_parity(a, z, p, (m - 1) as nat);
        let n1 = (2 * m - 1) as nat;
        let n2 = (2 * m - 2) as nat;
        assert(geometric(a, z, top, 2 * m) == geometric(a, z, top, n1) + pow(z, n1) * pow(
            a,
            (top - n1) as nat,
        ));
        assert(geometric(a, z, top, n1) == geometric(a, z, top, n2) + pow(z, n2) * pow(
            a,
            (top - n2) as nat,
        ));
        lemma_mul_is_commutative(pow(z, n1), pow(a, (top - n1) as nat));
        lemma_mul_is_commutative(pow(z, n2), pow(a, (top - n2) as nat));
    }
}

/// Even powers do not see the sign; odd powers carry it.
proof fn lemma_pow_negated(z: int, j: nat)
    ensures
        pow(-z, 2 * j) == pow(z, 2 * j),
        pow(-z, 2 * j + 1) == -pow(z, 2 * j + 1),
    decreases j,
{
    if j == 0 {
        lemma_pow0(z);
        lemma_pow0(-z);
        vstd::arithmetic::power::lemma_pow1(z);
        vstd::arithmetic::power::lemma_pow1(-z);
    } else {
        lemma_pow_negated(z, (j - 1) as nat);
        let e = (2 * j - 1) as nat;
        lemma_pow_next(z, e);
        lemma_pow_next(-z, e);
        lemma_pow_next(z, 2 * j);
        lemma_pow_next(-z, 2 * j);
        let x = pow(z, e);
        assert((-z) * (-x) == z * x) by (nonlinear_arith);
        let y = pow(z, 2 * j);
        assert((-z) * y == -(z * y)) by (nonlinear_arith);
    }
}

/// Negating `z` keeps the even part and negates the odd part.
proof fn lemma_parts_negated(a: int, z: int, p: int, n: nat)
    requires
        2 * n <= p + 1,
    ensures
        even_part(a, -z, p, n) == even_part(a, z, p, n),
        2 * n <= p ==> odd_part(a, -z, p, n) == -odd_part(a, z, p, n),
    decreases n,
{
    if n > 0 {
        lemma_parts_negated(a, z, p, (n - 1) as nat);
        lemma_pow_negated(z, (n - 1) as nat);
        let c = pow(a, (p - 2 * n) as nat);
        let x = pow(z, (2 * n - 1) as nat);
        assert(c * (-x) == -(c * x)) by (nonlinear_arith);
    }
}

/// Twice the odd part is the full sum at `z` minus the full sum at `-z`.
pub proof fn lemma_twice_odd_part(a: int, z: int, p: int)
    requires
        p >= 3,
        p % 2 == 1,
    ensures
        2 * odd_part(a, z, p, ((p - 1) / 2) as nat) == geometric(
            a,
            z,
            (p - 1) as nat,
            p as nat,
        ) - geometric(a, -z, (p - 1) as nat, p as nat),
{
    let h = ((p - 1) / 2) as nat;
    let top = (p - 1) as nat;
    lemma_split_by_parity(a, z, p, h);
    lemma_split_by_parity(a, -z, p, h);
    lemma_parts_negated(a, z, p, h);
    lemma_pow_negated(z, h);
    assert(geometric(a, z, top, p as nat) == geometric(a, z, top, 2 * h) + pow(z, 2 * h) * pow(
        a,
        (top - 2 * h) as nat,
    ));
    assert(geometric(a, -z, top, p as nat) == geometric(a, -z, top, 2 * h) + pow(-z, 2 * h)
        * pow(a, (top - 2 * h) as nat));
}

/// The odd parts for `a = 1, ..., m`, added up.
pub open spec fn odd_total(m: nat, z: int, p: int, n: nat) -> int
    decreases m,
{
    if m == 0 {
        0
    } else {
        odd_total((m - 1) as nat, z, p, n) + odd_part(m as int, z, p, n)
    }
}

/// The polynomial in `z` whose coefficient of `z^(2j + 1)` is the power sum
/// `1^e + ... + m^e` with `e = p - 2 - 2j`, cut after `n` terms.
pub open spec fn weighted(m: nat, z: int, p: int, n: nat) -> int
    decreases n,
{
    if n == 0 {
        0
    } else {
        weighted(m, z, p, (n - 1) as nat) + power_sum(m, (p - 2 * n) as nat) * pow(
            z,
            (2 * n - 1) as nat,
        )
    }
}

/// Raising the upper end of the power sums by one adds one odd part.
proof fn lemma_weighted_step(m: nat, z: int, p: int, n: nat)
    requires
        m >= 1,
    ensures
        weighted(m, z, p, n) == weighted((m - 1) as nat, z, p, n) + odd_part(m as int, z, p, n),
    decreases n,
{
    if n > 0 {
        lemma_weighted_step(m, z, p, (n - 1) as nat);
        let e = (p - 2 * n) as nat;
        let x = pow(z, (2 * n - 1) as nat);
        lemma_mul_is_distributive_add(x, power_sum((m - 1) as nat, e), pow(m as int, e));
        lemma_mul_is_commutative(x, power_sum((m - 1) as nat, e));
        lemma_mul_is_commutative(x, pow(m as int, e));
        lemma_mul_is_commutative(x, power_sum(m, e));
    }
}

/// Summing over the exponents first or over the bases first gives the same.
pub proof fn lemma_weighted_is_odd_total(m: nat, z: int, p: int, n: nat)
    ensures
        weighted(m, z, p, n) == odd_total(m, z, p, n),
    decreases m,
{
    if m == 0 {
        lemma_weighted_zero(z, p, n);
    } else {
        lemma_weighted_is_odd_total((m - 1) as nat, z, p, n);
        lemma_weighted_step(m, z, p, n);
    }
}

/// Empty power sums give the zero polynomial.
proof fn lemma_weighted_zero(z: int, p: int, n: nat)
    ensures
        weighted(0, z, p, n) == 0,
    decreases n,
{
    if n > 0 {
        lemma_weighted_zero(z, p, (n - 1) as nat);
        assert(power_sum(0, (p - 2 * n) as nat) == 0);
        assert(0 * pow(z, (2 * n - 1) as nat) == 0);
    }
}

/// `z` times the square to the `j` is `z` to the `2j + 1`.
proof fn lemma_odd_power(z: int, j: nat)
    ensures
        z * pow(z * z, j) == pow(z, 2 * j + 1),
{
    vstd::arithmetic::power::lemma_square_is_pow2(z);
    vstd::arithmetic::power::lemma_pow_multiplies(z, 2, j);
    lemma_pow_next(z, 2 * j);
}

/// `z * g(z^2)` with the reduced coefficients is, modulo `p`, the polynomial
/// with the power sums themselves as coefficients.
proof fn lemma_poly_is_weighted(z: int, p: int, n: nat)
    requires
        p >= 3,
        n <= (p - 1) / 2,
    ensures
        (z * span(lt_coefficients(p), z * z, 0, n)) % p == weighted(
            ((p - 1) / 2) as nat,
            z,
            p,
            n,
        ) % p,
    decreases n,
{
    let c = lt_coefficients(p);
    let h = ((p - 1) / 2) as nat;
    if n == 0 {
        assert(z * 0 == 0);
    } else {
        let j = (n - 1) as nat;
        lemma_poly_is_weighted(z, p, j);
        let reduced = c[j as int];
        let full = power_sum(h, (p - 2 * n) as nat);
        assert(reduced == lt_coefficient(p, j as int));
        assert(reduced == full % p);
        let zz = pow(z * z, j);
        let odd = pow(z, (2 * n - 1) as nat);
        lemma_odd_power(z, j);
        let before = span(c, z * z, 0, j);
        // z * (before + reduced * zz) == z * before + reduced * odd
        assert(z * (before + reduced * zz) == z * before + reduced * odd) by (nonlinear_arith)
            requires
                z * zz == odd,
        ;
        lemma_mul_mod_noop_general(full, odd, p);
        lemma_add_mod_noop(z * before, reduced * odd, p);
        lemma_add_mod_noop(weighted(h, z, p, j), full * odd, p);
    }
}

/// What twice the odd parts for `a = 1, ..., m` count: whether `-z` is
/// among the `a`, minus whether `z` is.
pub open spec fn sign_count(m: int, z: int) -> int {
    if 1 <= -z <= m {
        1
    } else if 1 <= z <= m {
        -1
    } else {
        0
    }
}

/// Twice the odd parts, added up over `a = 1, ..., m`, count to
/// `sign_count` modulo `p`.
proof fn lemma_odd_total_counts(m: nat, z: int, p: int)
    requires
        is_prime(p),
        p >= 3,
        m <= (p - 1) / 2,
        -((p - 1) / 2) <= z <= (p - 1) / 2,
    ensures
        (2 * odd_total(m, z, p, ((p - 1) / 2) as nat)) % p == sign_count(m as int, z) % p,
    decreases m,
{
    let h = ((p - 1) / 2) as nat;
    assert(p % 2 == 1) by {
        assert(p % 2 != 0);
    }
    if m > 0 {
        let less = (m - 1) as nat;
        lemma_odd_total_counts(less, z, p);
        lemma_twice_odd_part(m as int, z, p);
        lemma_geometric_indicator(p, m as int, z);
        lemma_geometric_indicator(p, m as int, -z);
        lemma_only_zero(m - z, p);
        lemma_only_zero(m + z, p);
        let gz = geometric(m as int, z, (p - 1) as nat, p as nat);
        let gn = geometric(m as int, -z, (p - 1) as nat, p as nat);
        let before = 2 * odd_total(less, z, p, h);
        assert(2 * odd_total(m, z, p, h) == before + (gz - gn));
        let step: int = if m == -z {
            1
        } else if m == z {
            -1
        } else {
            0
        };
        assert(m - (-z) == m + z);
        lemma_sub_mod_noop(gz, gn, p);
        assert((gz - gn) % p == step % p) by {
            if m == -z {
                assert(gz % p == 1 && gn % p == 0);
            } else if m == z {
                assert(gz % p == 0 && gn % p == 1);
            } else {
                assert(gz % p == 1 && gn % p == 1);
            }
        }
        lemma_add_mod_noop(before, gz - gn, p);
        lemma_add_mod_noop(sign_count(less as int, z), step, p);
        assert(sign_count(m as int, z) == sign_count(less as int, z) + step);
    }
}

/// Twice the leading term is 0 for a multiple of `p` and 1 otherwise.
proof fn lemma_leading_term(z: int, p: int)
    requires
        is_prime(p),
        p >= 3,
    ensures
        ((p + 1) * pow(z, (p - 1) as nat)) % p == if z % p == 0 {
            0int
        } else {
            1int
        },
{
    let top = pow(z, (p - 1) as nat);
    lemma_mul_mod_noop_general(p + 1, top, p);
    vstd::arithmetic::div_mod::lemma_mod_add_multiples_vanish(1 - p, p);
    assert((p + 1) % p == 1) by {
        vstd::arithmetic::div_mod::lemma_mod_add_multiples_vanish(1, p);
        lemma_small_mod(1, p as nat);
    }
    lemma_small_mod(1, p as nat);
    lemma_small_mod(0, p as nat);
    if z % p == 0 {
        vstd::arithmetic::power::lemma_pow_mod_noop(z, (p - 1) as nat, p);
        vstd::arithmetic::power::lemma0_pow((p - 1) as nat);
        assert(1 * 0 == 0);
    } else {
        lemma_fermat(p, z);
        assert(1 * 1 == 1);
    }
}

/// The comparison polynomial with the derived coefficients is the indicator
/// of the negative numbers on the signed range.
pub proof fn lemma_lt_poly_indicator(p: int, z: int)
    requires
        is_prime(p),
        p >= 3,
        -((p - 1) / 2) <= z <= (p - 1) / 2,
    ensures
        lt_poly(z, lt_coefficients(p), p) == if z < 0 {
            1int
        } else {
            0int
        },
{
    let c = lt_coefficients(p);
    let h = ((p - 1) / 2) as nat;
    assert(p % 2 == 1) by {
        assert(p % 2 != 0);
    }
    let half = (p + 1) / 2;
    let top = pow(z, (p - 1) as nat);
    let poly = z * poly_eval(c, z * z);
    let inner = half * top + poly;
    let v = lt_poly(z, c, p);
    assert(v == inner % p);
    let t: int = if z < 0 {
        1
    } else {
        0
    };
    // twice the inner value, term by term
    lemma_leading_term(z, p);
    lemma_poly_is_weighted(z, p, h);
    lemma_weighted_is_odd_total(h, z, p, h);
    lemma_odd_total_counts(h, z, p);
    lemma_only_zero(z, p);
    let lead: int = if z == 0 {
        0
    } else {
        1
    };
    let count = sign_count(h as int, z);
    assert(2 * inner == (p + 1) * top + 2 * poly) by (nonlinear_arith)
        requires
            inner == half * top + poly,
            2 * half == p + 1,
    ;
    assert((2 * poly) % p == count % p) by {
        lemma_mul_mod_noop_general(2, poly, p);
        lemma_mul_mod_noop_general(2, odd_total(h, z, p, h), p);
    }
    lemma_add_mod_noop((p + 1) * top, 2 * poly, p);
    lemma_add_mod_noop(lead, count, p);
    lemma_small_mod(lead as nat, p as nat);
    assert((2 * inner) % p == (lead + count) % p);
    assert(lead + count == 2 * t);
    lemma_mul_mod_noop_general(2, inner, p);
    assert((2 * v) % p == (2 * t) % p);
    lemma_small_mod(2, p as nat);
    lemma_cancel(p, 2, v, t);
    lemma_small_mod(t as nat, p as nat);
    lemma_small_mod(v as nat, p as nat);
}

/// The value of the comparison polynomial depends on `z` only modulo `p`.
pub proof fn lemma_lt_poly_congruent(z: int, c: Seq<int>, p: int)
    requires
        p > 0,
    ensures
        lt_poly(z % p, c, p) == lt_poly(z, c, p),
{
    let r = z % p;
    let half = (p + 1) / 2;
    vstd::arithmetic::power::lemma_pow_mod_noop(z, (p - 1) as nat, p);
    lemma_mul_mod_noop_general(half, pow(r, (p - 1) as nat), p);
    lemma_mul_mod_noop_general(half, pow(z, (p - 1) as nat), p);
    vstd::arithmetic::div_mod::lemma_mul_mod_noop(z, z, p);
    lemma_span_mod(c, r * r, 0, c.len(), p);
    lemma_span_mod(c, z * z, 0, c.len(), p);
    lemma_mul_mod_noop_general(r, poly_eval(c, r * r), p);
    lemma_mul_mod_noop_general(z, poly_eval(c, z * z), p);
    vstd::arithmetic::div_mod::lemma_mod_twice(z, p);
    lemma_add_mod_noop(half * pow(r, (p - 1) as nat), r * poly_eval(c, r * r), p);
    lemma_add_mod_noop(half * pow(z, (p - 1) as nat), z * poly_eval(c, z * z), p);
}

/// The comparison decides `x < y`.
///
/// For an odd prime `p` with the coefficients derived for it, and signed
/// integers `x` and `y` of the range `[-(p-1)/2, (p-1)/2]` whose difference
/// lies in that range too, the comparison of their residues puts out 1 if
/// `x < y` and 0 otherwise, in particular 0 for `x = y`.
pub proof fn lemma_less_than_decides(p: int, x: int, y: int)
    requires
        is_prime(p),
        p >= 3,
        -((p - 1) / 2) <= x <= (p - 1) / 2,
        -((p - 1) / 2) <= y <= (p - 1) / 2,
        -((p - 1) / 2) <= x - y <= (p - 1) / 2,
    ensures
        less_than_value(x % p, y % p, lt_coefficients(p), p) == if x < y {
            1int
        } else {
            0int
        },
{
    lemma_sub_mod_noop(x, y, p);
    lemma_lt_poly_congruent(x - y, lt_coefficients(p), p);
    lemma_lt_poly_indicator(p, x - y);
}

} // verus!
