//! Why ranking by pairwise comparison and selecting by rank sorts.
//!
//! Candidate `m` goes before candidate `k` if it is larger, or equal and
//! earlier. The number of candidates that go before `k` is its rank; the
//! ranks of `n` candidates are the numbers `0, ..., n - 1`, each once, and a
//! smaller rank never belongs to a smaller candidate.

use crate::coefficients::lt_coefficients;
use crate::field::{is_prime, pow_mod};
use crate::indicator::lemma_less_than_decides;
use crate::number_theory::{
    closed_up, geometric, lemma_fermat, lemma_geometric_indicator, lemma_only_zero,
    lemma_surjective,
};
use crate::sort::{
    lower, rank_match, rank_powers, rank_sum, rank_value, select_sum, sorted_value, upper,
};
use vstd::arithmetic::div_mod::{
    lemma_add_mod_noop, lemma_mul_mod_noop_general, lemma_small_mod, lemma_sub_mod_noop_right,
};
use vstd::arithmetic::power::{lemma_pow0, pow};
use vstd::prelude::*;

verus! {

/// The partial sums of the selector agree, modulo `p`, with those of
/// `r^(p-1) + i r^(p-2) + ...`.
proof fn lemma_rank_sum_is_geometric(r: int, i: int, p: int, n: nat)
    requires
        p >= 2,
        n <= p - 1,
    ensures
        rank_sum(rank_powers(r, p), i, n) % p == geometric(r, i, (p - 1) as nat, n) % p,
    decreases n,
{
    if n > 0 {
        let less = (n - 1) as nat;
        lemma_rank_sum_is_geometric(r, i, p, less);
        let powers = rank_powers(r, p);
        let entry = powers[powers.len() - n];
        let e = (p - n) as nat;
        assert(entry == pow_mod(r, e, p));
        let scale = pow(i, less);
        lemma_mul_mod_noop_general(scale, pow(r, e), p);
        lemma_add_mod_noop(rank_sum(powers, i, less), scale * entry, p);
        lemma_add_mod_noop(geometric(r, i, (p - 1) as nat, less), scale * pow(r, e), p);
    }
}

/// The selector's indicator is 1 if the rank is the target and 0
/// otherwise.
pub proof fn lemma_rank_match_indicator(p: int, r: int, i: int)
    requires
        is_prime(p),
        0 <= r < p,
        0 <= i < p,
    ensures
        rank_match(rank_powers(r, p), i, p) == if r == i {
            1int
        } else {
            0int
        },
{
    let powers = rank_powers(r, p);
    let top = (p - 1) as nat;
    let last: int = if i != 0 {
        1
    } else {
        0
    };
    let partial = rank_sum(powers, i, top);
    lemma_rank_sum_is_geometric(r, i, p, top);
    lemma_geometric_indicator(p, r, i);
    lemma_only_zero(r - i, p);
    // the last term of the full sum is i^(p-1)
    let g = geometric(r, i, top, p as nat);
    lemma_pow0(r);
    assert(g == geometric(r, i, top, top) + pow(i, top) * pow(r, 0));
    assert(pow(i, top) * pow(r, 0) == pow(i, top)) by (nonlinear_arith)
        requires
            pow(r, 0) == 1,
    ;
    lemma_small_mod(1, p as nat);
    lemma_small_mod(0, p as nat);
    assert(pow(i, top) % p == last) by {
        if i != 0 {
            lemma_small_mod(i as nat, p as nat);
            lemma_fermat(p, i);
        } else {
            vstd::arithmetic::power::lemma0_pow(top);
        }
    }
    lemma_add_mod_noop(partial, last, p);
    lemma_add_mod_noop(geometric(r, i, top, top), pow(i, top), p);
    assert((partial + last) % p == g % p);
    lemma_sub_mod_noop_right(1, partial + last, p);
}

/// Candidate `m` goes before candidate `k` in descending order: it is
/// larger, or equal and earlier.
pub open spec fn beats(xs: Seq<int>, m: int, k: int) -> bool {
    xs[m] > xs[k] || (xs[m] == xs[k] && m < k)
}

/// The number of candidates below `end` that go before `k`.
pub open spec fn count_before(xs: Seq<int>, k: int, end: int) -> int
    decreases end,
{
    if end <= 0 {
        0
    } else {
        count_before(xs, k, end - 1) + if beats(xs, end - 1, k) {
            1int
        } else {
            0int
        }
    }
}

/// The rank of candidate `k`: how many candidates go before it.
pub open spec fn true_rank(xs: Seq<int>, k: int) -> int {
    count_before(xs, k, xs.len() as int)
}

/// A count of candidates is between 0 and the number counted over, and
/// stays below it once the candidate itself has been passed.
proof fn lemma_count_bounds(xs: Seq<int>, k: int, end: int)
    requires
        0 <= end,
    ensures
        0 <= count_before(xs, k, end) <= end,
        0 <= k < end ==> count_before(xs, k, end) <= end - 1,
    decreases end,
{
    if end > 0 {
        lemma_count_bounds(xs, k, end - 1);
    }
}

/// A candidate that goes before another has the smaller rank.
proof fn lemma_count_monotone(xs: Seq<int>, k: int, l: int, end: int)
    requires
        0 <= k < xs.len(),
        0 <= l < xs.len(),
        0 <= end <= xs.len(),
        beats(xs, k, l),
    ensures
        count_before(xs, k, end) <= count_before(xs, l, end),
        end > k ==> count_before(xs, k, end) + 1 <= count_before(xs, l, end),
    decreases end,
{
    if end > 0 {
        lemma_count_monotone(xs, k, l, end - 1);
    }
}

/// Different candidates have different ranks.
pub proof fn lemma_ranks_distinct(xs: Seq<int>, k: int, l: int)
    requires
        0 <= k < xs.len(),
        0 <= l < xs.len(),
        k != l,
    ensures
        true_rank(xs, k) != true_rank(xs, l),
        beats(xs, k, l) <==> true_rank(xs, k) < true_rank(xs, l),
{
    if beats(xs, k, l) {
        lemma_count_monotone(xs, k, l, xs.len() as int);
    } else {
        assert(beats(xs, l, k));
        lemma_count_monotone(xs, l, k, xs.len() as int);
    }
}

/// The plaintexts `xs` can be compared with each other: each lies in the
/// signed range `[-(p-1)/2, (p-1)/2]`, and so does every difference of two.
pub open spec fn comparable(xs: Seq<int>, p: int) -> bool {
    &&& forall|k: int|
        0 <= k < xs.len() ==> -((p - 1) / 2) <= #[trigger] xs[k] <= (p - 1) / 2
    &&& forall|a: int, b: int|
        0 <= a < xs.len() && 0 <= b < xs.len() ==> -((p - 1) / 2) <= #[trigger] xs[a]
            - #[trigger] xs[b] <= (p - 1) / 2
}

/// The residues modulo `p` of the plaintexts `xs`.
pub open spec fn residues_of(xs: Seq<int>, p: int) -> Seq<int> {
    Seq::new(xs.len(), |k: int| xs[k] % p)
}

/// The outcomes of the comparisons with earlier candidates count those that
/// go before `k`.
proof fn lemma_lower_counts(p: int, xs: Seq<int>, k: int, count: int)
    requires
        is_prime(p),
        p >= 3,
        comparable(xs, p),
        0 <= count <= k < xs.len(),
    ensures
        lower(residues_of(xs, p), lt_coefficients(p), k, count, p) == count_before(xs, k, count),
    decreases count,
{
    if count > 0 {
        let a = count - 1;
        lemma_lower_counts(p, xs, k, a);
        assert(-((p - 1) / 2) <= xs[a] - xs[k] <= (p - 1) / 2);
        lemma_less_than_decides(p, xs[a], xs[k]);
        lemma_small_mod(1, p as nat);
        lemma_small_mod(0, p as nat);
        vstd::arithmetic::div_mod::lemma_mod_add_multiples_vanish(-1, p);
        lemma_small_mod((p - 1) as nat, p as nat);
        vstd::arithmetic::div_mod::lemma_mod_self_0(p);
    }
}

/// The outcomes of the comparisons with later candidates count those that
/// go before `k`.
proof fn lemma_upper_counts(p: int, xs: Seq<int>, k: int, end: int)
    requires
        is_prime(p),
        p >= 3,
        comparable(xs, p),
        0 <= k < end <= xs.len(),
    ensures
        upper(residues_of(xs, p), lt_coefficients(p), k, end, p) == count_before(xs, k, end)
            - count_before(xs, k, k + 1),
    decreases end,
{
    if end > k + 1 {
        let b = end - 1;
        lemma_upper_counts(p, xs, k, b);
        assert(-((p - 1) / 2) <= xs[k] - xs[b] <= (p - 1) / 2);
        lemma_less_than_decides(p, xs[k], xs[b]);
    }
}

/// The rank that the circuit adds up is the number of candidates that go
/// before.
pub proof fn lemma_rank_value_counts(p: int, xs: Seq<int>, k: int)
    requires
        is_prime(p),
        p >= 3,
        comparable(xs, p),
        xs.len() <= p,
        0 <= k < xs.len(),
    ensures
        rank_value(residues_of(xs, p), lt_coefficients(p), k, p) == true_rank(xs, k),
        0 <= true_rank(xs, k) < xs.len(),
{
    lemma_lower_counts(p, xs, k, k);
    lemma_upper_counts(p, xs, k, xs.len() as int);
    lemma_count_bounds(xs, k, xs.len() as int);
    assert(count_before(xs, k, k + 1) == count_before(xs, k, k));
    lemma_small_mod(true_rank(xs, k) as nat, p as nat);
}

/// The ranks shifted into `[1, n]`.
pub open spec fn shifted_ranks(xs: Seq<int>) -> Seq<int> {
    Seq::new(xs.len(), |k: int| true_rank(xs, k) + 1)
}

/// Every number below the number of candidates is the rank of a candidate.
pub proof fn lemma_rank_taken(xs: Seq<int>, i: int)
    requires
        0 <= i < xs.len(),
    ensures
        exists|j: int| 0 <= j < xs.len() && true_rank(xs, j) == i,
{
    let s = shifted_ranks(xs);
    assert forall|k: int| 0 <= k < s.len() implies 1 <= #[trigger] s[k] <= s.len() by {
        lemma_count_bounds(xs, k, xs.len() as int);
    }
    assert forall|k: int, l: int| 0 <= k < l < s.len() implies s[k] != s[l] by {
        lemma_ranks_distinct(xs, k, l);
    }
    lemma_surjective(s, i + 1);
    let j = choose|j: int| 0 <= j < s.len() && s[j] == i + 1;
    assert(true_rank(xs, j) == i);
}

/// The candidate whose rank is `i`.
pub open spec fn place(xs: Seq<int>, i: int) -> int {
    choose|j: int| 0 <= j < xs.len() && true_rank(xs, j) == i
}

/// The selection over the first `m` candidates is the candidate of rank
/// `i` if it is among them, and 0 otherwise.
proof fn lemma_select_sum_picks(p: int, xs: Seq<int>, i: int, m: nat)
    requires
        is_prime(p),
        p >= 3,
        comparable(xs, p),
        xs.len() <= p,
        0 <= i < xs.len(),
        m <= xs.len(),
    ensures
        select_sum(residues_of(xs, p), lt_coefficients(p), i, p, m) == if place(xs, i) < m {
            residues_of(xs, p)[place(xs, i)]
        } else {
            0
        },
    decreases m,
{
    lemma_rank_taken(xs, i);
    let w = place(xs, i);
    assert(0 <= w < xs.len() && true_rank(xs, w) == i);
    if m > 0 {
        let j = (m - 1) as int;
        lemma_select_sum_picks(p, xs, i, (m - 1) as nat);
        lemma_rank_value_counts(p, xs, j);
        lemma_rank_match_indicator(p, true_rank(xs, j), i);
        let vals = residues_of(xs, p);
        let hit = rank_match(rank_powers(true_rank(xs, j), p), i, p);
        if j == w {
            assert(hit == 1);
            assert(hit * vals[j] == vals[j]) by (nonlinear_arith)
                requires
                    hit == 1,
            ;
        } else {
            lemma_ranks_distinct(xs, j, w);
            assert(hit == 0);
            assert(hit * vals[j] == 0) by (nonlinear_arith)
                requires
                    hit == 0,
            ;
        }
    }
}

/// Sorting puts out the candidates in descending order.
///
/// Let `p` be an odd prime, `xs` at most `p` signed plaintexts that can be
/// compared with each other, and let the circuit run on their residues with
/// the coefficients derived for `p`. Then the output at position `i` is the
/// residue of the candidate `place(xs, i)`, whose rank is `i`; different
/// positions take different candidates; and of two positions the earlier
/// one never holds the smaller plaintext.
pub proof fn lemma_sort_descending(p: int, xs: Seq<int>)
    requires
        is_prime(p),
        p >= 3,
        comparable(xs, p),
        xs.len() <= p,
    ensures
        forall|i: int|
            0 <= i < xs.len() ==> 0 <= #[trigger] place(xs, i) < xs.len() && true_rank(
                xs,
                place(xs, i),
            ) == i,
        forall|i: int|
            0 <= i < xs.len() ==> #[trigger] sorted_value(
                residues_of(xs, p),
                lt_coefficients(p),
                i,
                p,
            ) == xs[place(xs, i)] % p,
        forall|i: int, j: int|
            0 <= i < j < xs.len() ==> #[trigger] place(xs, i) != #[trigger] place(xs, j),
        forall|i: int, j: int|
            0 <= i < j < xs.len() ==> xs[#[trigger] place(xs, i)] >= xs[#[trigger] place(xs, j)],
{
    assert forall|i: int| 0 <= i < xs.len() implies 0 <= #[trigger] place(xs, i) < xs.len()
        && true_rank(xs, place(xs, i)) == i by {
        lemma_rank_taken(xs, i);
    }
    assert forall|i: int| 0 <= i < xs.len() implies #[trigger] sorted_value(
        residues_of(xs, p),
        lt_coefficients(p),
        i,
        p,
    ) == xs[place(xs, i)] % p by {
        lemma_select_sum_picks(p, xs, i, xs.len());
        vstd::arithmetic::div_mod::lemma_mod_twice(xs[place(xs, i)], p);
    }
    assert forall|i: int, j: int| 0 <= i < j < xs.len() implies xs[#[trigger] place(xs, i)]
        >= xs[#[trigger] place(xs, j)] && place(xs, i) != place(xs, j) by {
        let a = place(xs, i);
        let b = place(xs, j);
        lemma_ranks_distinct(xs, a, b);
    }
}

/// The ranks that the circuit adds up are the numbers `0, ..., n - 1`, each
/// once.
///
/// For an odd prime `p` and at most `p` plaintexts that can be compared with
/// each other, every rank lies below the number of candidates, different
/// candidates have different ranks, and every number below the number of
/// candidates is the rank of a candidate. So every position that sorting
/// selects for is the rank of exactly one candidate.
pub proof fn lemma_ranks_permute(p: int, xs: Seq<int>)
    requires
        is_prime(p),
        p >= 3,
        comparable(xs, p),
        xs.len() <= p,
    ensures
        forall|k: int|
            0 <= k < xs.len() ==> 0 <= #[trigger] rank_value(
                residues_of(xs, p),
                lt_coefficients(p),
                k,
                p,
            ) < xs.len(),
        forall|k: int, l: int|
            0 <= k < l < xs.len() ==> #[trigger] rank_value(
                residues_of(xs, p),
                lt_coefficients(p),
                k,
                p,
            ) != #[trigger] rank_value(residues_of(xs, p), lt_coefficients(p), l, p),
        forall|i: int|
            0 <= i < xs.len() ==> rank_value(
                residues_of(xs, p),
                lt_coefficients(p),
                #[trigger] place(xs, i),
                p,
            ) == i && 0 <= place(xs, i) < xs.len(),
{
    assert forall|k: int| 0 <= k < xs.len() implies 0 <= #[trigger] rank_value(
        residues_of(xs, p),
        lt_coefficients(p),
        k,
        p,
    ) < xs.len() by {
        lemma_rank_value_counts(p, xs, k);
    }
    assert forall|k: int, l: int| 0 <= k < l < xs.len() implies #[trigger] rank_value(
        residues_of(xs, p),
        lt_coefficients(p),
        k,
        p,
    ) != #[trigger] rank_value(residues_of(xs, p), lt_coefficients(p), l, p) by {
        lemma_rank_value_counts(p, xs, k);
        lemma_rank_value_counts(p, xs, l);
        lemma_ranks_distinct(xs, k, l);
    }
    assert forall|i: int| 0 <= i < xs.len() implies rank_value(
        residues_of(xs, p),
        lt_coefficients(p),
        #[trigger] place(xs, i),
        p,
    ) == i && 0 <= place(xs, i) < xs.len() by {
        lemma_rank_taken(xs, i);
        lemma_rank_value_counts(p, xs, place(xs, i));
    }
}

/// All outputs of the sorting circuit for the plaintexts `vals`, first
/// position first.
pub open spec fn sorted_values(vals: Seq<int>, c: Seq<int>, p: int) -> Seq<int> {
    Seq::new(vals.len(), |i: int| sorted_value(vals, c, i, p))
}

/// The candidates in the order of their ranks.
pub open spec fn places(xs: Seq<int>) -> Seq<int> {
    Seq::new(xs.len(), |i: int| place(xs, i))
}

/// A sequence read through a one-to-one choice of its own positions holds
/// the same values as often as the sequence itself.
pub proof fn lemma_rearranged(out: Seq<int>, vals: Seq<int>, order: Seq<int>)
    requires
        out.len() == vals.len(),
        order.len() == vals.len(),
        forall|i: int| 0 <= i < order.len() ==> 0 <= #[trigger] order[i] < vals.len(),
        forall|i: int, j: int| 0 <= i < j < order.len() ==> order[i] != order[j],
        forall|i: int| 0 <= i < out.len() ==> #[trigger] out[i] == vals[order[i]],
    ensures
        out.to_multiset() =~= vals.to_multiset(),
    decreases vals.len(),
{
    broadcast use vstd::seq_lib::group_to_multiset_ensures;

    let n = vals.len() as int;
    if n == 0 {
        assert(out =~= vals);
    } else {
        let j = order[n - 1];
        let front = out.drop_last();
        let rest = vals.remove(j);
        let shifted = closed_up(order, j, (n - 1) as nat);
        assert forall|i: int| 0 <= i < shifted.len() implies 0 <= #[trigger] shifted[i]
            < rest.len() by {
            assert(0 <= order[i] < n);
            assert(order[i] != order[n - 1]);
        }
        assert forall|a: int, b: int| 0 <= a < b < shifted.len() implies shifted[a]
            != shifted[b] by {
            assert(order[a] != order[b]);
            assert(order[a] != order[n - 1]);
            assert(order[b] != order[n - 1]);
        }
        assert forall|i: int| 0 <= i < front.len() implies #[trigger] front[i]
            == rest[shifted[i]] by {
            assert(out[i] == vals[order[i]]);
            assert(order[i] != order[n - 1]);
        }
        lemma_rearranged(front, rest, shifted);
        assert(out =~= front.push(out[n - 1]));
        assert(out[n - 1] == vals[j]);
        assert(vals.contains(vals[j]));
        assert(vals.to_multiset().count(vals[j]) > 0);
        assert(rest.to_multiset() =~= vals.to_multiset().remove(vals[j]));
        assert(vals.to_multiset().remove(vals[j]).insert(vals[j]) =~= vals.to_multiset());
    }
}

/// Sorting puts out exactly what was put in.
///
/// For an odd prime `p` and at most `p` signed plaintexts that can be
/// compared with each other, the outputs of the sorting circuit hold every
/// residue as often as the inputs do.
pub proof fn lemma_sort_permutes(p: int, xs: Seq<int>)
    requires
        is_prime(p),
        p >= 3,
        comparable(xs, p),
        xs.len() <= p,
    ensures
        sorted_values(residues_of(xs, p), lt_coefficients(p), p).to_multiset() =~= residues_of(
            xs,
            p,
        ).to_multiset(),
{
    lemma_sort_descending(p, xs);
    let vals = residues_of(xs, p);
    let out = sorted_values(vals, lt_coefficients(p), p);
    let order = places(xs);
    assert forall|i: int| 0 <= i < out.len() implies #[trigger] out[i] == vals[order[i]] by {
        assert(sorted_value(vals, lt_coefficients(p), i, p) == xs[place(xs, i)] % p);
    }
    assert forall|i: int, j: int| 0 <= i < j < order.len() implies order[i] != order[j] by {
        assert(place(xs, i) != place(xs, j));
    }
    assert forall|i: int| 0 <= i < order.len() implies 0 <= #[trigger] order[i] < vals.len() by {
        assert(0 <= place(xs, i) < xs.len());
    }
    lemma_rearranged(out, vals, order);
}

} // verus!
