//! Facts about residues modulo a prime: no zero divisors, Fermat's little
//! theorem, and the sum `a^(n-1) + a^(n-2) z + ... + z^(n-1)`.

use crate::field::is_prime;
use vstd::arithmetic::div_mod::{
    lemma_add_mod_noop, lemma_fundamental_div_mod, lemma_mod_multiples_basic, lemma_mul_mod_noop,
    lemma_mul_mod_noop_general, lemma_small_mod, lemma_sub_mod_noop,
};
use vstd::arithmetic::mul::{
    lemma_mul_is_associative, lemma_mul_is_commutative, lemma_mul_is_distributive_sub,
};
use vstd::arithmetic::power::{lemma_pow0, lemma_pow1, lemma_pow_adds, lemma_pow_mod_noop, pow};
use vstd::prelude::*;

verus! {

/// `x` is a multiple of `p` exactly if its residue is zero.
pub proof fn lemma_multiple(x: int, k: int, p: int)
    requires
        p > 0,
        x == k * p,
    ensures
        x % p == 0,
{
    lemma_mod_multiples_basic(k, p);
}

/// A number strictly between `-p` and `p` is a multiple of `p` only if it
/// is zero.
pub proof fn lemma_only_zero(d: int, p: int)
    requires
        p > 0,
        -p < d < p,
    ensures
        d % p == 0 <==> d == 0,
{
    if d > 0 {
        lemma_small_mod(d as nat, p as nat);
    } else if d < 0 {
        vstd::arithmetic::div_mod::lemma_mod_add_multiples_vanish(d, p);
        lemma_small_mod((d + p) as nat, p as nat);
    } else {
        lemma_small_mod(0, p as nat);
    }
}

/// A prime that divides a product of a number between 0 and itself with `b`
/// divides `b`.
proof fn lemma_euclid_small(p: int, a: int, b: int)
    requires
        is_prime(p),
        0 < a < p,
        (a * b) % p == 0,
    ensures
        b % p == 0,
    decreases a,
{
    if a == 1 {
        assert(a * b == b) by (nonlinear_arith)
            requires
                a == 1,
        ;
    } else {
        let q = p / a;
        let r = p % a;
        lemma_fundamental_div_mod(p, a);
        assert(p % a != 0);
        let k = (a * b) / p;
        lemma_fundamental_div_mod(a * b, p);
        assert(a * b == p * k);
        // r * b = p * b - q * (a * b) = p * (b - q * k)
        assert(r * b == (b - q * k) * p) by (nonlinear_arith)
            requires
                p == a * q + r,
                a * b == p * k,
        ;
        lemma_multiple(r * b, b - q * k, p);
        lemma_euclid_small(p, r, b);
    }
}

/// A prime that divides a product divides one of the factors.
pub proof fn lemma_prime_divides_product(p: int, a: int, b: int)
    requires
        is_prime(p),
        (a * b) % p == 0,
    ensures
        a % p == 0 || b % p == 0,
{
    if a % p != 0 {
        lemma_mul_mod_noop_general(a, b, p);
        lemma_euclid_small(p, a % p, b);
    }
}

/// Modulo a prime, a factor that is not zero can be cancelled.
pub proof fn lemma_cancel(p: int, a: int, b: int, c: int)
    requires
        is_prime(p),
        a % p != 0,
        (a * b) % p == (a * c) % p,
    ensures
        b % p == c % p,
{
    vstd::arithmetic::div_mod::lemma_mod_equivalence(a * b, a * c, p);
    lemma_mul_is_distributive_sub(a, b, c);
    lemma_prime_divides_product(p, a, b - c);
    vstd::arithmetic::div_mod::lemma_mod_equivalence(b, c, p);
}

/// The product of all entries of `s`.
pub open spec fn product(s: Seq<int>) -> int
    decreases s.len(),
{
    if s.len() == 0 {
        1
    } else {
        product(s.drop_last()) * s.last()
    }
}

/// `1 * 2 * ... * n`.
pub open spec fn factorial(n: nat) -> int
    decreases n,
{
    if n == 0 {
        1
    } else {
        n * factorial((n - 1) as nat)
    }
}

/// No value occurs twice in `s`.
pub open spec fn injective(s: Seq<int>) -> bool {
    forall|i: int, j: int| 0 <= i < j < s.len() ==> s[i] != s[j]
}

/// Every entry of `s` lies in `[lo, hi]`.
pub open spec fn within(s: Seq<int>, lo: int, hi: int) -> bool {
    forall|i: int| 0 <= i < s.len() ==> lo <= #[trigger] s[i] <= hi
}

/// `s` with every entry above `x` lowered by one.
pub open spec fn closed_up(s: Seq<int>, x: int, n: nat) -> Seq<int> {
    Seq::new(
        n,
        |i: int|
            if s[i] > x {
                s[i] - 1
            } else {
                s[i]
            },
    )
}

/// Distinct values from `[1, m]` are at most `m` many.
pub proof fn lemma_pigeonhole(s: Seq<int>, m: int)
    requires
        injective(s),
        within(s, 1, m),
        m >= 0,
    ensures
        s.len() <= m,
    decreases s.len(),
{
    if s.len() > 0 {
        let x = s.last();
        assert(1 <= s[s.len() - 1] <= m);
        let t = closed_up(s, x, (s.len() - 1) as nat);
        assert forall|i: int| 0 <= i < t.len() implies 1 <= #[trigger] t[i] <= m - 1 by {
            assert(1 <= s[i] <= m);
            assert(s[i] != s[s.len() - 1]);
        }
        assert forall|i: int, j: int| 0 <= i < j < t.len() implies t[i] != t[j] by {
            assert(s[i] != s[j]);
            assert(s[i] != s[s.len() - 1]);
            assert(s[j] != s[s.len() - 1]);
        }
        lemma_pigeonhole(t, m - 1);
    }
}

/// `n` distinct values from `[1, n]` take every value in `[1, n]`.
pub proof fn lemma_surjective(s: Seq<int>, v: int)
    requires
        injective(s),
        within(s, 1, s.len() as int),
        1 <= v <= s.len(),
    ensures
        exists|j: int| 0 <= j < s.len() && s[j] == v,
{
    if forall|j: int| 0 <= j < s.len() ==> s[j] != v {
        let t = closed_up(s, v, s.len());
        assert forall|i: int| 0 <= i < t.len() implies 1 <= #[trigger] t[i] <= s.len() - 1 by {
            assert(1 <= s[i] <= s.len());
            assert(s[i] != v);
        }
        assert forall|i: int, j: int| 0 <= i < j < t.len() implies t[i] != t[j] by {
            assert(s[i] != s[j]);
            assert(s[i] != v);
            assert(s[j] != v);
        }
        lemma_pigeonhole(t, s.len() - 1);
    }
}

/// Taking one entry out of a product.
pub proof fn lemma_product_remove(s: Seq<int>, j: int)
    requires
        0 <= j < s.len(),
    ensures
        product(s) == s[j] * product(s.remove(j)),
    decreases s.len(),
{
    let rest = s.remove(j);
    if j == s.len() - 1 {
        assert(rest =~= s.drop_last());
        lemma_mul_is_commutative(product(s.drop_last()), s.last());
    } else {
        let front = s.drop_last();
        lemma_product_remove(front, j);
        assert(rest.drop_last() =~= front.remove(j));
        assert(rest.last() == s.last());
        lemma_mul_is_associative(s[j], product(front.remove(j)), s.last());
    }
}

/// The product of `n` distinct values from `[1, n]` is `n!`.
pub proof fn lemma_permutation_product(s: Seq<int>)
    requires
        injective(s),
        within(s, 1, s.len() as int),
    ensures
        product(s) == factorial(s.len()),
    decreases s.len(),
{
    let n = s.len() as int;
    if n > 0 {
        lemma_surjective(s, n);
        let j = choose|j: int| 0 <= j < s.len() && s[j] == n;
        let rest = s.remove(j);
        assert forall|i: int| 0 <= i < rest.len() implies 1 <= #[trigger] rest[i] <= n - 1 by {
            let k = if i < j {
                i
            } else {
                i + 1
            };
            assert(rest[i] == s[k]);
            assert(1 <= s[k] <= n);
            if k < j {
                assert(s[k] != s[j]);
            } else {
                assert(s[j] != s[k]);
            }
        }
        assert forall|a: int, b: int| 0 <= a < b < rest.len() implies rest[a] != rest[b] by {
            let ka = if a < j {
                a
            } else {
                a + 1
            };
            let kb = if b < j {
                b
            } else {
                b + 1
            };
            assert(s[ka] != s[kb]);
        }
        lemma_permutation_product(rest);
        lemma_product_remove(s, j);
    }
}

/// The multiples `a, 2a, ..., na` as residues modulo `p`.
pub open spec fn multiples(a: int, p: int, n: nat) -> Seq<int> {
    Seq::new(n, |i: int| (a * (i + 1)) % p)
}

/// The product of the first `n` multiples of `a` is `a^n * n!` modulo `p`.
proof fn lemma_multiples_product(a: int, p: int, n: nat)
    requires
        p > 0,
    ensures
        product(multiples(a, p, n)) % p == (pow(a, n) * factorial(n)) % p,
    decreases n,
{
    if n == 0 {
        lemma_pow0(a);
        assert(pow(a, 0) * factorial(0) == 1);
    } else {
        let less = (n - 1) as nat;
        lemma_multiples_product(a, p, less);
        let s = multiples(a, p, n);
        assert(s.drop_last() =~= multiples(a, p, less));
        let front = product(multiples(a, p, less));
        let scaled = pow(a, less) * factorial(less);
        // (front * (a n % p)) % p == (scaled * (a n)) % p
        lemma_mul_mod_noop_general(front, a * n, p);
        lemma_mul_mod_noop_general(scaled, a * n, p);
        lemma_mul_mod_noop_general(front, s.last(), p);
        assert(pow(a, n) == a * pow(a, less)) by {
            vstd::arithmetic::power::lemma_pow1(a);
            lemma_pow_adds(a, 1, less);
        }
        assert(scaled * (a * n) == pow(a, n) * factorial(n)) by (nonlinear_arith)
            requires
                scaled == pow(a, less) * factorial(less),
                pow(a, n) == a * pow(a, less),
                factorial(n) == n * factorial(less),
        ;
    }
}

/// Below a prime, no factorial is a multiple of it.
proof fn lemma_factorial_coprime(p: int, n: nat)
    requires
        is_prime(p),
        n < p,
    ensures
        factorial(n) % p != 0,
    decreases n,
{
    if n == 0 {
        lemma_small_mod(1, p as nat);
    } else {
        lemma_factorial_coprime(p, (n - 1) as nat);
        lemma_small_mod(n, p as nat);
        if factorial(n) % p == 0 {
            lemma_prime_divides_product(p, n as int, factorial((n - 1) as nat));
        }
    }
}

/// Fermat's little theorem: `a^(p-1)` is 1 modulo a prime `p` that does not
/// divide `a`.
pub proof fn lemma_fermat(p: int, a: int)
    requires
        is_prime(p),
        a % p != 0,
    ensures
        pow(a, (p - 1) as nat) % p == 1,
{
    let n = (p - 1) as nat;
    let s = multiples(a, p, n);
    assert forall|i: int| 0 <= i < s.len() implies 1 <= #[trigger] s[i] <= n by {
        lemma_small_mod((i + 1) as nat, p as nat);
        if (a * (i + 1)) % p == 0 {
            lemma_prime_divides_product(p, a, i + 1);
        }
    }
    assert forall|i: int, j: int| 0 <= i < j < s.len() implies s[i] != s[j] by {
        if s[i] == s[j] {
            lemma_cancel(p, a, i + 1, j + 1);
            lemma_small_mod((i + 1) as nat, p as nat);
            lemma_small_mod((j + 1) as nat, p as nat);
        }
    }
    lemma_permutation_product(s);
    lemma_multiples_product(a, p, n);
    lemma_factorial_coprime(p, n);
    let f = factorial(n);
    let top = pow(a, n);
    assert(f * 1 == f);
    lemma_mul_is_commutative(top, f);
    lemma_cancel(p, f, top, 1);
    lemma_small_mod(1, p as nat);
}

/// `a^p` and `a` are the same modulo a prime `p`.
pub proof fn lemma_fermat_all(p: int, a: int)
    requires
        is_prime(p),
    ensures
        pow(a, p as nat) % p == a % p,
{
    let top = pow(a, (p - 1) as nat);
    assert(pow(a, p as nat) == a * top) by {
        lemma_pow1(a);
        lemma_pow_adds(a, 1, (p - 1) as nat);
    }
    lemma_mul_mod_noop_general(a, top, p);
    if a % p == 0 {
        assert((a % p) * top == 0);
        lemma_small_mod(0, p as nat);
    } else {
        lemma_fermat(p, a);
        assert(a * 1 == a);
    }
}

/// The first `n` terms of `a^top + z * a^(top-1) + z^2 * a^(top-2) + ...`.
pub open spec fn geometric(a: int, z: int, top: nat, n: nat) -> int
    decreases n,
{
    if n == 0 {
        0
    } else {
        geometric(a, z, top, (n - 1) as nat) + pow(z, (n - 1) as nat) * pow(
            a,
            (top - (n - 1)) as nat,
        )
    }
}

/// One more factor of a power.
pub proof fn lemma_pow_next(x: int, e: nat)
    ensures
        pow(x, e + 1) == x * pow(x, e),
{
    lemma_pow1(x);
    lemma_pow_adds(x, 1, e);
}

/// The sum telescopes when multiplied by `a - z`.
pub proof fn lemma_geometric_telescopes(a: int, z: int, top: nat, n: nat)
    requires
        n <= top + 1,
    ensures
        (a - z) * geometric(a, z, top, n) == pow(a, top + 1) - pow(z, n) * pow(
            a,
            (top + 1 - n) as nat,
        ),
    decreases n,
{
    if n == 0 {
        lemma_pow0(z);
        assert(pow(z, 0) * pow(a, top + 1) == pow(a, top + 1)) by (nonlinear_arith)
            requires
                pow(z, 0) == 1,
        ;
        assert((a - z) * 0 == 0);
    } else {
        let less = (n - 1) as nat;
        lemma_geometric_telescopes(a, z, top, less);
        let zl = pow(z, less);
        let al = pow(a, (top + 1 - n) as nat);
        lemma_pow_next(z, less);
        lemma_pow_next(a, (top + 1 - n) as nat);
        let g = geometric(a, z, top, less);
        assert((a - z) * (g + zl * al) == pow(a, top + 1) - pow(z, n) * al) by (nonlinear_arith)
            requires
                (a - z) * g == pow(a, top + 1) - zl * pow(a, (top + 2 - n) as nat),
                pow(a, (top + 2 - n) as nat) == a * al,
                pow(z, n) == z * zl,
        ;
    }
}

/// With `z = a` every term is `a^top`.
pub proof fn lemma_geometric_equal(a: int, top: nat, n: nat)
    requires
        n <= top + 1,
    ensures
        geometric(a, a, top, n) == n * pow(a, top),
    decreases n,
{
    if n > 0 {
        let less = (n - 1) as nat;
        lemma_geometric_equal(a, top, less);
        lemma_pow_adds(a, less, (top - less) as nat);
        assert(less * pow(a, top) + pow(a, top) == n * pow(a, top)) by (nonlinear_arith)
            requires
                less + 1 == n,
        ;
    } else {
        assert(0 * pow(a, top) == 0);
    }
}

/// The sum modulo `p` depends on `a` and `z` only modulo `p`.
pub proof fn lemma_geometric_congruent(a: int, b: int, z: int, y: int, top: nat, n: nat, p: int)
    requires
        p > 0,
        a % p == b % p,
        z % p == y % p,
        n <= top + 1,
    ensures
        geometric(a, z, top, n) % p == geometric(b, y, top, n) % p,
    decreases n,
{
    if n > 0 {
        let less = (n - 1) as nat;
        let e = (top - less) as nat;
        lemma_geometric_congruent(a, b, z, y, top, less, p);
        lemma_pow_mod_noop(z, less, p);
        lemma_pow_mod_noop(y, less, p);
        lemma_pow_mod_noop(a, e, p);
        lemma_pow_mod_noop(b, e, p);
        lemma_mul_mod_noop(pow(z, less), pow(a, e), p);
        lemma_mul_mod_noop(pow(y, less), pow(b, e), p);
        lemma_add_mod_noop(geometric(a, z, top, less), pow(z, less) * pow(a, e), p);
        lemma_add_mod_noop(geometric(b, y, top, less), pow(y, less) * pow(b, e), p);
    }
}

/// Modulo a prime `p`, the full sum of `p` terms is 0 if `a` and `z` are
/// the same residue, and 1 otherwise.
pub proof fn lemma_geometric_indicator(p: int, a: int, z: int)
    requires
        is_prime(p),
    ensures
        geometric(a, z, (p - 1) as nat, p as nat) % p == if (a - z) % p == 0 {
            0int
        } else {
            1int
        },
{
    let top = (p - 1) as nat;
    let g = geometric(a, z, top, p as nat);
    if (a - z) % p == 0 {
        vstd::arithmetic::div_mod::lemma_mod_equivalence(a, z, p);
        lemma_geometric_congruent(a, a, z, a, top, p as nat, p);
        lemma_geometric_equal(a, top, p as nat);
        lemma_mul_is_commutative(p, pow(a, top));
        lemma_multiple(p * pow(a, top), pow(a, top), p);
    } else {
        lemma_geometric_telescopes(a, z, top, p as nat);
        lemma_pow0(a);
        assert(pow(z, p as nat) * pow(a, 0) == pow(z, p as nat)) by (nonlinear_arith)
            requires
                pow(a, 0) == 1,
        ;
        lemma_fermat_all(p, a);
        lemma_fermat_all(p, z);
        lemma_sub_mod_noop(pow(a, p as nat), pow(z, p as nat), p);
        lemma_sub_mod_noop(a, z, p);
        assert(((a - z) * g) % p == (a - z) % p);
        assert((a - z) * 1 == a - z);
        lemma_cancel(p, a - z, g, 1);
        lemma_small_mod(1, p as nat);
    }
}

} // verus!
