//! Polynomials with residue coefficients, cut into blocks for baby-step /
//! giant-step evaluation.

use vstd::arithmetic::div_mod::{
    lemma_add_mod_noop, lemma_mul_mod_noop, lemma_mul_mod_noop_general,
};
use vstd::arithmetic::mul::{
    lemma_mul_is_associative, lemma_mul_is_commutative, lemma_mul_is_distributive_add,
};
use vstd::arithmetic::power::{lemma_pow0, lemma_pow_adds, lemma_pow_mod_noop, pow};
use vstd::prelude::*;

verus! {

/// The coefficient of degree `e`, zero outside the stored range.
pub open spec fn coefficient_at(c: Seq<int>, e: int) -> int {
    if 0 <= e < c.len() {
        c[e]
    } else {
        0
    }
}

/// `c[base] + c[base + 1] * x + ... + c[base + n - 1] * x^(n - 1)`.
pub open spec fn span(c: Seq<int>, x: int, base: int, n: nat) -> int
    decreases n,
{
    if n == 0 {
        0
    } else {
        span(c, x, base, (n - 1) as nat) + coefficient_at(c, base + n - 1) * pow(x, (n - 1) as nat)
    }
}

/// The value at `x` of the polynomial with coefficients `c`.
pub open spec fn poly_eval(c: Seq<int>, x: int) -> int {
    span(c, x, 0, c.len())
}

/// The blocks `0, ..., count - 1` of width `m`, each weighted by the power
/// of `x^m` that belongs to it.
pub open spec fn blocks(c: Seq<int>, x: int, m: nat, count: nat) -> int
    decreases count,
{
    if count == 0 {
        0
    } else {
        blocks(c, x, m, (count - 1) as nat) + span(c, x, m * (count - 1), m) * pow(
            x,
            m * ((count - 1) as nat),
        )
    }
}

/// A span splits into a first part and a shifted second part.
pub proof fn lemma_span_split(c: Seq<int>, x: int, base: int, n: nat, more: nat)
    ensures
        span(c, x, base, n + more) == span(c, x, base, n) + pow(x, n) * span(
            c,
            x,
            base + n,
            more,
        ),
    decreases more,
{
    if more == 0 {
        assert(pow(x, n) * 0 == 0);
    } else {
        let less = (more - 1) as nat;
        lemma_span_split(c, x, base, n, less);
        let k = coefficient_at(c, base + n + more - 1);
        lemma_pow_adds(x, n, less);
        // pow(x, n) * (S + k * pow(x, less)) == pow(x, n) * S + k * pow(x, n + less)
        lemma_mul_is_distributive_add(pow(x, n), span(c, x, base + n, less), k * pow(x, less));
        lemma_mul_is_associative(pow(x, n), k, pow(x, less));
        lemma_mul_is_commutative(pow(x, n), k);
        lemma_mul_is_associative(k, pow(x, n), pow(x, less));
    }
}

/// Coefficients outside the stored range add nothing.
pub proof fn lemma_span_beyond(c: Seq<int>, x: int, n: nat)
    requires
        n >= c.len(),
    ensures
        span(c, x, 0, n) == poly_eval(c, x),
    decreases n,
{
    if n > c.len() {
        lemma_span_beyond(c, x, (n - 1) as nat);
        assert(coefficient_at(c, n - 1) * pow(x, (n - 1) as nat) == 0);
    }
}

/// The weighted blocks add up to the polynomial itself.
pub proof fn lemma_blocks_flatten(c: Seq<int>, x: int, m: nat, count: nat)
    ensures
        blocks(c, x, m, count) == span(c, x, 0, m * count),
    decreases count,
{
    if count == 0 {
        assert(m * 0 == 0);
    } else {
        let before = (count - 1) as nat;
        lemma_blocks_flatten(c, x, m, before);
        lemma_span_split(c, x, 0, m * before, m);
        assert(m * before + m == m * count) by (nonlinear_arith)
            requires
                before + 1 == count,
        ;
        lemma_mul_is_commutative(span(c, x, (m * before) as int, m), pow(x, m * before));
    }
}

/// The value of a span modulo `p` depends on `x` only modulo `p`.
pub proof fn lemma_span_mod(c: Seq<int>, x: int, base: int, n: nat, p: int)
    requires
        p > 0,
    ensures
        span(c, x % p, base, n) % p == span(c, x, base, n) % p,
    decreases n,
{
    if n > 0 {
        let less = (n - 1) as nat;
        lemma_span_mod(c, x, base, less, p);
        let k = coefficient_at(c, base + n - 1);
        lemma_pow_mod_noop(x, less, p);
        lemma_mul_mod_noop_general(k, pow(x % p, less), p);
        lemma_mul_mod_noop_general(k, pow(x, less), p);
        lemma_add_mod_noop(span(c, x % p, base, less), k * pow(x % p, less), p);
        lemma_add_mod_noop(span(c, x, base, less), k * pow(x, less), p);
    }
}

/// Adding one more term to a running sum of residues.
///
/// If `acc` is the residue of `total` and `power` the residue of `x^r`, then
/// `acc + power * k` reduced is the residue of `total + k * x^r`.
pub proof fn lemma_accumulate_term(
    acc: int,
    total: int,
    power: int,
    x: int,
    r: nat,
    k: int,
    p: int,
)
    requires
        p > 0,
        acc == total % p,
        power == pow(x, r) % p,
    ensures
        (acc + (power * k) % p) % p == (total + k * pow(x, r)) % p,
{
    lemma_mul_mod_noop_general(pow(x, r), k, p);
    lemma_mul_is_commutative(pow(x, r), k);
    lemma_add_mod_noop(total, k * pow(x, r), p);
}

/// Adding one more weighted block to a running sum of residues.
pub proof fn lemma_accumulate_block(
    acc: int,
    total: int,
    block: int,
    sum: int,
    weight: int,
    w: int,
    p: int,
)
    requires
        p > 0,
        acc == total % p,
        block == sum % p,
        weight == w % p,
    ensures
        (acc + (block * weight) % p) % p == (total + sum * w) % p,
{
    lemma_mul_mod_noop(sum, w, p);
    lemma_add_mod_noop(total, sum * w, p);
}

/// The first term of a span is its constant.
pub proof fn lemma_span_one(c: Seq<int>, x: int, base: int)
    ensures
        span(c, x, base, 1) == coefficient_at(c, base),
        span(c, x, base, 0) == 0,
{
    reveal_with_fuel(span, 2);
    lemma_pow0(x);
}

} // verus!
