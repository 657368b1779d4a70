//! Sorting encrypted integers in descending order without looking at them.
//!
//! Every pair of inputs is compared once; the outcomes add up to each
//! input's rank, the number of inputs that go before it. For every output
//! position the input whose rank equals the position is then selected by an
//! equality indicator, evaluated on the powers of the ranks.

use crate::circuit::{
    all_at_base, all_in_form, disciplined, forms, fresh, multiplications, ready, residues,
    Circuit, CircuitError, Form, Representation, Step, Wire,
};
use crate::less_than::{
    comparison_multiplications, holds_powers, less_than_value, to_evaluation,
    univariate_less_than,
};
use crate::powers::{fresh_entries, powers_of_x};
use crate::field::{add_mod, lemma_pow_mod_step, mul_mod, mul_residues, neg_mod, pow_mod};
use crate::polynomial::lemma_accumulate_term;
use vstd::arithmetic::div_mod::{
    lemma_add_mod_noop, lemma_small_mod, lemma_sub_mod_noop_right,
};
use vstd::arithmetic::mul::lemma_mul_is_commutative;
use vstd::arithmetic::power::{lemma0_pow, lemma_pow0, pow};
use vstd::prelude::*;

verus! {

/// The residues that the wires of `table` carry in `regs`.
pub open spec fn table_values(regs: Seq<int>, table: Seq<Wire>) -> Seq<int> {
    Seq::new(table.len(), |e: int| regs[table[e] as int])
}

/// `sum over k < n of i^k * powers[len - 1 - k]`: when `powers` holds
/// `r^1, ..., r^len`, these are the first `n` terms of
/// `r^len + i * r^(len - 1) + i^2 * r^(len - 2) + ...`.
pub open spec fn rank_sum(powers: Seq<int>, i: int, n: nat) -> int
    decreases n,
{
    if n == 0 {
        0
    } else {
        rank_sum(powers, i, (n - 1) as nat) + pow(i, (n - 1) as nat) * powers[powers.len() - n]
    }
}

/// The indicator that the selector computes from the powers of a rank and
/// the target rank `i`: one minus the full sum, whose last term is 1 unless
/// `i` is 0.
pub open spec fn rank_match(powers: Seq<int>, i: int, p: int) -> int {
    (1 - (rank_sum(powers, i, powers.len()) + if i != 0 {
        1int
    } else {
        0int
    })) % p
}

/// The candidates `0, ..., n - 1`, each weighted by its indicator.
pub open spec fn selection(
    regs: Seq<int>,
    tables: Seq<Vec<Wire>>,
    candidates: Seq<Wire>,
    i: int,
    p: int,
    n: nat,
) -> int
    decreases n,
{
    if n == 0 {
        0
    } else {
        selection(regs, tables, candidates, i, p, (n - 1) as nat) + rank_match(
            table_values(regs, tables[n - 1]@),
            i,
            p,
        ) * regs[candidates[n - 1] as int]
    }
}

/// Every entry of every table exists and carries a ciphertext in `form`.
pub open spec fn tables_in_form(
    held: Seq<Form>,
    tables: Seq<Vec<Wire>>,
    width: int,
    form: Form,
) -> bool {
    forall|j: int, e: int|
        0 <= j < tables.len() && 0 <= e < width ==> (#[trigger] tables[j]@[e]) < held.len()
            && held[tables[j]@[e] as int] == form
}

/// The running sums sit on the `sums.len()` consecutive wires from `first`
/// on, above every wire of the rank tables.
pub open spec fn sums_placed(
    sums: Seq<Wire>,
    tables: Seq<Vec<Wire>>,
    first: int,
    width: int,
    wires: int,
) -> bool {
    &&& sums.len() == tables.len()
    &&& first + sums.len() <= wires
    &&& forall|j: int| 0 <= j < sums.len() ==> #[trigger] sums[j] == first + j
    &&& forall|j: int| 0 <= j < tables.len() ==> (#[trigger] tables[j])@.len() == width
    &&& forall|j: int, e: int|
        0 <= j < tables.len() && 0 <= e < width ==> (#[trigger] tables[j]@[e]) < first
}

/// Adds `scalar` times entry `e` of its rank table to every running sum.
fn add_terms(
    circuit: &mut Circuit,
    sums: &Vec<Wire>,
    ht_powers: &[Vec<Wire>],
    e: usize,
    scalar: u64,
    Ghost(first): Ghost<int>,
    Ghost(width): Ghost<int>,
    Ghost(acc_of): Ghost<spec_fn(Seq<int>, int) -> int>,
)
    requires
        old(circuit).wf(),
        sums_placed(sums@, ht_powers@, first, width, old(circuit).spec_wires()),
        e < width,
        first >= 0,
        forall|inputs: Seq<int>, j: int|
            0 <= j < sums@.len() ==> (#[trigger] old(circuit).values(inputs))[#[trigger] sums@[j]
                as int] == acc_of(inputs, j),
    ensures
        final(circuit).wf(),
        final(circuit).keeps(*old(circuit), first),
        final(circuit).spec_inputs() == old(circuit).spec_inputs(),
        final(circuit).spec_wires() >= old(circuit).spec_wires(),
        multiplications(final(circuit)@) == multiplications(old(circuit)@),
        final(circuit).continues(*old(circuit)),
        disciplined(old(circuit)@) && all_in_form(forms(old(circuit)@), sums@, ready())
            && tables_in_form(forms(old(circuit)@), ht_powers@, width, ready()) ==> disciplined(
            final(circuit)@,
        ),
        forall|inputs: Seq<int>, j: int|
            0 <= j < sums@.len() ==> (#[trigger] final(circuit).values(inputs))[#[trigger] sums@[j]
                as int] == add_mod(
                acc_of(inputs, j),
                mul_mod(
                    old(circuit).values(inputs)[ht_powers@[j]@[e as int] as int],
                    scalar as int,
                    old(circuit).spec_modulus(),
                ),
                old(circuit).spec_modulus(),
            ),
{
    let ghost start = *circuit;
    proof {
        start.lemma_continues_itself();
    }
    let ghost p = start.spec_modulus();
    let ghost tidy = disciplined(start@) && all_in_form(forms(start@), sums@, ready())
        && tables_in_form(forms(start@), ht_powers@, width, ready());
    let n: usize = sums.len();
    let mut j: usize = 0;
    proof {
        start.lemma_forms_shape();
    }
    while j < n
        invariant
            j <= n,
            n == sums@.len(),
            p == start.spec_modulus(),
            e < width,
            first >= 0,
            circuit.continues(start),
            forms(start@).len() == start.spec_wires(),
            tidy == (disciplined(start@) && all_in_form(forms(start@), sums@, ready())
                && tables_in_form(forms(start@), ht_powers@, width, ready())),
            tidy ==> disciplined(circuit@),
            start.wf(),
            circuit.wf(),
            circuit.keeps(start, first),
            circuit.spec_inputs() == start.spec_inputs(),
            circuit.spec_wires() >= start.spec_wires(),
            multiplications(circuit@) == multiplications(start@),
            sums_placed(sums@, ht_powers@, first, width, start.spec_wires()),
            forall|inputs: Seq<int>, k: int|
                0 <= k < j ==> (#[trigger] circuit.values(inputs))[#[trigger] sums@[k] as int]
                    == add_mod(
                    acc_of(inputs, k),
                    mul_mod(start.values(inputs)[ht_powers@[k]@[e as int] as int], scalar as int, p),
                    p,
                ),
            forall|inputs: Seq<int>, k: int|
                j <= k < n ==> (#[trigger] circuit.values(inputs))[#[trigger] sums@[k] as int]
                    == acc_of(inputs, k),
        decreases n - j,
    {
        let ghost mid = *circuit;
        assert(ht_powers@[j as int]@.len() == width);
        assert(ht_powers@[j as int]@[e as int] < first);
        let source: Wire = ht_powers[j][e];
        let target: Wire = sums[j];
        let term: Wire = circuit.multiply_plain(source, scalar);
        let ghost mid2 = *circuit;
        circuit.add_assign(target, term);
        proof {
            mid2.lemma_continues_step(mid, Step::MultiplyPlain { source, scalar }, start);
            circuit.lemma_continues_step(mid2, Step::AddAssign { target, source: term }, start);
            if tidy {
                assert(forms(start@)[ht_powers@[j as int]@[e as int] as int] == ready());
                assert(forms(start@)[sums@[j as int] as int] == ready());
                assert(forms(mid@)[source as int] == ready());
                assert(forms(mid@)[target as int] == ready());
            }
            mid2.lemma_appended_keeps(mid, Step::MultiplyPlain { source, scalar });
            circuit.lemma_appended_keeps(mid2, Step::AddAssign { target, source: term });
            mid2.lemma_keeps_below(mid, mid.spec_wires(), first);
            circuit.lemma_keeps_below(mid2, target as int, first);
            circuit.lemma_keeps_transitive(mid2, mid, first);
            circuit.lemma_keeps_transitive(mid, start, first);
            assert forall|inputs: Seq<int>, k: int| 0 <= k < j + 1 implies (
            #[trigger] circuit.values(inputs))[#[trigger] sums@[k] as int] == add_mod(
                acc_of(inputs, k),
                mul_mod(start.values(inputs)[ht_powers@[k]@[e as int] as int], scalar as int, p),
                p,
            ) by {
                assert(mid.values(inputs).len() == mid.spec_wires());
                assert(mid2.values(inputs).len() == mid2.spec_wires());
                if k == j {
                    assert(mid.values(inputs)[sums@[k] as int] == acc_of(inputs, k));
                    assert(mid.values(inputs)[source as int] == start.values(inputs)[source as int]);
                } else {
                    assert(mid.values(inputs)[sums@[k] as int] == add_mod(
                        acc_of(inputs, k),
                        mul_mod(
                            start.values(inputs)[ht_powers@[k]@[e as int] as int],
                            scalar as int,
                            p,
                        ),
                        p,
                    ));
                }
            }
            assert forall|inputs: Seq<int>, k: int| j + 1 <= k < n implies (
            #[trigger] circuit.values(inputs))[#[trigger] sums@[k] as int] == acc_of(
                inputs,
                k,
            ) by {
                assert(mid.values(inputs).len() == mid.spec_wires());
                assert(mid2.values(inputs).len() == mid2.spec_wires());
                assert(mid.values(inputs)[sums@[k] as int] == acc_of(inputs, k));
            }
        }
        j += 1;
    }
}

/// Starts one running sum per candidate with a copy of the last entry of
/// its rank table.
fn seed_sums(circuit: &mut Circuit, ht_powers: &[Vec<Wire>], width: usize) -> (sums: Vec<Wire>)
    requires
        old(circuit).wf(),
        width >= 1,
        forall|j: int| 0 <= j < ht_powers@.len() ==> (#[trigger] ht_powers@[j])@.len() == width,
        forall|j: int, e: int|
            0 <= j < ht_powers@.len() && 0 <= e < width ==> (#[trigger] ht_powers@[j]@[e]) < old(
                circuit,
            ).spec_wires(),
    ensures
        final(circuit).wf(),
        final(circuit).keeps(*old(circuit), old(circuit).spec_wires()),
        final(circuit).spec_inputs() == old(circuit).spec_inputs(),
        final(circuit).spec_wires() == old(circuit).spec_wires() + ht_powers@.len(),
        multiplications(final(circuit)@) == multiplications(old(circuit)@),
        final(circuit).continues(*old(circuit)),
        disciplined(old(circuit)@) ==> disciplined(final(circuit)@),
        forall|j: int|
            0 <= j < sums@.len() ==> (#[trigger] sums@[j]) < forms(final(circuit)@).len() && forms(
                final(circuit)@,
            )[sums@[j] as int] == forms(old(circuit)@)[ht_powers@[j]@[width - 1] as int],
        sums_placed(
            sums@,
            ht_powers@,
            old(circuit).spec_wires(),
            width as int,
            final(circuit).spec_wires(),
        ),
        forall|inputs: Seq<int>, j: int|
            0 <= j < sums@.len() ==> (#[trigger] final(circuit).values(inputs))[#[trigger] sums@[j]
                as int] == old(circuit).values(inputs)[ht_powers@[j]@[width - 1] as int],
{
    let ghost start = *circuit;
    proof {
        start.lemma_continues_itself();
    }
    let n: usize = ht_powers.len();
    let mut sums: Vec<Wire> = Vec::new();
    let mut j: usize = 0;
    proof {
        start.lemma_forms_shape();
    }
    while j < n
        invariant
            j <= n,
            n == ht_powers@.len(),
            width >= 1,
            start.wf(),
            circuit.wf(),
            circuit.keeps(start, start.spec_wires()),
            circuit.spec_inputs() == start.spec_inputs(),
            circuit.spec_wires() == start.spec_wires() + j,
            multiplications(circuit@) == multiplications(start@),
            circuit.continues(start),
            forms(start@).len() == start.spec_wires(),
            disciplined(start@) ==> disciplined(circuit@),
            forall|k: int|
                0 <= k < j ==> (#[trigger] sums@[k]) < forms(circuit@).len() && forms(
                    circuit@,
                )[sums@[k] as int] == forms(start@)[ht_powers@[k]@[width - 1] as int],
            sums@.len() == j,
            forall|k: int| 0 <= k < j ==> #[trigger] sums@[k] == start.spec_wires() + k,
            forall|k: int| 0 <= k < n ==> (#[trigger] ht_powers@[k])@.len() == width,
            forall|k: int, e: int|
                0 <= k < n && 0 <= e < width ==> (#[trigger] ht_powers@[k]@[e])
                    < start.spec_wires(),
            forall|inputs: Seq<int>, k: int|
                0 <= k < j ==> (#[trigger] circuit.values(inputs))[#[trigger] sums@[k] as int]
                    == start.values(inputs)[ht_powers@[k]@[width - 1] as int],
        decreases n - j,
    {
        let ghost mid = *circuit;
        let ghost before = sums@;
        assert(ht_powers@[j as int]@.len() == width);
        assert(ht_powers@[j as int]@[width - 1] < start.spec_wires());
        let source: Wire = ht_powers[j][width - 1];
        let copy: Wire = circuit.duplicate(source);
        sums.push(copy);
        proof {
            circuit.lemma_continues_step(mid, Step::Duplicate { source }, start);
            assert forall|k: int| 0 <= k < j + 1 implies (#[trigger] sums@[k]) < forms(
                circuit@,
            ).len() && forms(circuit@)[sums@[k] as int] == forms(
                start@,
            )[ht_powers@[k]@[width - 1] as int] by {
                if k < j {
                    assert(before[k] == sums@[k]);
                    assert(forms(mid@)[before[k] as int] == forms(
                        start@,
                    )[ht_powers@[k]@[width - 1] as int]);
                } else {
                    assert(forms(mid@)[source as int] == forms(start@)[source as int]);
                }
            }
            circuit.lemma_appended_keeps(mid, Step::Duplicate { source });
            circuit.lemma_keeps_below(mid, mid.spec_wires(), start.spec_wires());
            circuit.lemma_keeps_transitive(mid, start, start.spec_wires());
            assert forall|inputs: Seq<int>, k: int| 0 <= k < j + 1 implies (
            #[trigger] circuit.values(inputs))[#[trigger] sums@[k] as int] == start.values(
                inputs,
            )[ht_powers@[k]@[width - 1] as int] by {
                assert(mid.values(inputs).len() == mid.spec_wires());
                if k == j {
                    assert(mid.values(inputs)[source as int] == start.values(inputs)[source as int]);
                } else {
                    assert(before[k] == sums@[k]);
                    assert(mid.values(inputs)[before[k] as int] == start.values(
                        inputs,
                    )[ht_powers@[k]@[width - 1] as int]);
                }
            }
        }
        j += 1;
    }
    sums
}

/// Adds the constant 1 to every running sum.
fn add_one_to_all(
    circuit: &mut Circuit,
    sums: &Vec<Wire>,
    Ghost(first): Ghost<int>,
    Ghost(acc_of): Ghost<spec_fn(Seq<int>, int) -> int>,
)
    requires
        old(circuit).wf(),
        first >= 0,
        first + sums@.len() <= old(circuit).spec_wires(),
        forall|j: int| 0 <= j < sums@.len() ==> #[trigger] sums@[j] == first + j,
        forall|inputs: Seq<int>, j: int|
            0 <= j < sums@.len() ==> (#[trigger] old(circuit).values(inputs))[#[trigger] sums@[j]
                as int] == acc_of(inputs, j),
    ensures
        final(circuit).wf(),
        final(circuit).keeps(*old(circuit), first),
        final(circuit).spec_inputs() == old(circuit).spec_inputs(),
        final(circuit).spec_wires() == old(circuit).spec_wires(),
        multiplications(final(circuit)@) == multiplications(old(circuit)@),
        final(circuit).continues(*old(circuit)),
        disciplined(old(circuit)@) && all_in_form(forms(old(circuit)@), sums@, ready())
            ==> disciplined(final(circuit)@),
        forall|inputs: Seq<int>, j: int|
            0 <= j < sums@.len() ==> (#[trigger] final(circuit).values(inputs))[#[trigger] sums@[j]
                as int] == add_mod(acc_of(inputs, j), 1, old(circuit).spec_modulus()),
{
    let ghost start = *circuit;
    proof {
        start.lemma_continues_itself();
    }
    let ghost p = start.spec_modulus();
    let n: usize = sums.len();
    let mut j: usize = 0;
    proof {
        start.lemma_forms_shape();
    }
    while j < n
        invariant
            j <= n,
            n == sums@.len(),
            p == start.spec_modulus(),
            first >= 0,
            first + n <= start.spec_wires(),
            start.wf(),
            circuit.wf(),
            circuit.keeps(start, first),
            circuit.spec_inputs() == start.spec_inputs(),
            circuit.spec_wires() == start.spec_wires(),
            multiplications(circuit@) == multiplications(start@),
            circuit.continues(start),
            forms(start@).len() == start.spec_wires(),
            disciplined(start@) && all_in_form(forms(start@), sums@, ready()) ==> disciplined(
                circuit@,
            ),
            forall|k: int| 0 <= k < n ==> #[trigger] sums@[k] == first + k,
            forall|inputs: Seq<int>, k: int|
                0 <= k < j ==> (#[trigger] circuit.values(inputs))[#[trigger] sums@[k] as int]
                    == add_mod(acc_of(inputs, k), 1, p),
            forall|inputs: Seq<int>, k: int|
                j <= k < n ==> (#[trigger] circuit.values(inputs))[#[trigger] sums@[k] as int]
                    == acc_of(inputs, k),
        decreases n - j,
    {
        let ghost mid = *circuit;
        let target: Wire = sums[j];
        circuit.add_plain_assign(target, 1, Representation::Evaluation);
        proof {
            circuit.lemma_continues_step(
                mid,
                Step::AddPlainAssign { target, scalar: 1, form: Representation::Evaluation },
                start,
            );
            if disciplined(start@) && all_in_form(forms(start@), sums@, ready()) {
                assert(forms(start@)[sums@[j as int] as int] == ready());
                assert(forms(mid@)[target as int] == ready());
            }
            circuit.lemma_appended_keeps(
                mid,
                Step::AddPlainAssign { target, scalar: 1, form: Representation::Evaluation },
            );
            circuit.lemma_keeps_below(mid, target as int, first);
            circuit.lemma_keeps_transitive(mid, start, first);
            assert forall|inputs: Seq<int>, k: int| 0 <= k < j + 1 implies (
            #[trigger] circuit.values(inputs))[#[trigger] sums@[k] as int] == add_mod(
                acc_of(inputs, k),
                1,
                p,
            ) by {
                assert(mid.values(inputs).len() == mid.spec_wires());
                if k == j {
                    assert(mid.values(inputs)[sums@[k] as int] == acc_of(inputs, k));
                } else {
                    assert(mid.values(inputs)[sums@[k] as int] == add_mod(acc_of(inputs, k), 1, p));
                }
            }
            assert forall|inputs: Seq<int>, k: int| j + 1 <= k < n implies (
            #[trigger] circuit.values(inputs))[#[trigger] sums@[k] as int] == acc_of(
                inputs,
                k,
            ) by {
                assert(mid.values(inputs).len() == mid.spec_wires());
                assert(mid.values(inputs)[sums@[k] as int] == acc_of(inputs, k));
            }
        }
        j += 1;
    }
}

/// Replaces every running sum `s` by `1 - s`.
fn complement_all(
    circuit: &mut Circuit,
    sums: &Vec<Wire>,
    Ghost(first): Ghost<int>,
    Ghost(acc_of): Ghost<spec_fn(Seq<int>, int) -> int>,
)
    requires
        old(circuit).wf(),
        first >= 0,
        first + sums@.len() <= old(circuit).spec_wires(),
        forall|j: int| 0 <= j < sums@.len() ==> #[trigger] sums@[j] == first + j,
        forall|inputs: Seq<int>, j: int|
            0 <= j < sums@.len() ==> (#[trigger] old(circuit).values(inputs))[#[trigger] sums@[j]
                as int] == acc_of(inputs, j),
    ensures
        final(circuit).wf(),
        final(circuit).keeps(*old(circuit), first),
        final(circuit).spec_inputs() == old(circuit).spec_inputs(),
        final(circuit).spec_wires() == old(circuit).spec_wires(),
        multiplications(final(circuit)@) == multiplications(old(circuit)@),
        final(circuit).continues(*old(circuit)),
        disciplined(old(circuit)@) && all_in_form(forms(old(circuit)@), sums@, ready())
            ==> disciplined(final(circuit)@),
        forall|inputs: Seq<int>, j: int|
            0 <= j < sums@.len() ==> (#[trigger] final(circuit).values(inputs))[#[trigger] sums@[j]
                as int] == add_mod(
                neg_mod(acc_of(inputs, j), old(circuit).spec_modulus()),
                1,
                old(circuit).spec_modulus(),
            ),
{
    let ghost start = *circuit;
    proof {
        start.lemma_continues_itself();
    }
    let ghost p = start.spec_modulus();
    let n: usize = sums.len();
    let mut j: usize = 0;
    proof {
        start.lemma_forms_shape();
    }
    while j < n
        invariant
            j <= n,
            n == sums@.len(),
            p == start.spec_modulus(),
            first >= 0,
            first + n <= start.spec_wires(),
            start.wf(),
            circuit.wf(),
            circuit.keeps(start, first),
            circuit.spec_inputs() == start.spec_inputs(),
            circuit.spec_wires() == start.spec_wires(),
            multiplications(circuit@) == multiplications(start@),
            circuit.continues(start),
            forms(start@).len() == start.spec_wires(),
            disciplined(start@) && all_in_form(forms(start@), sums@, ready()) ==> disciplined(
                circuit@,
            ),
            forall|k: int| 0 <= k < n ==> #[trigger] sums@[k] == first + k,
            forall|inputs: Seq<int>, k: int|
                0 <= k < j ==> (#[trigger] circuit.values(inputs))[#[trigger] sums@[k] as int]
                    == add_mod(neg_mod(acc_of(inputs, k), p), 1, p),
            forall|inputs: Seq<int>, k: int|
                j <= k < n ==> (#[trigger] circuit.values(inputs))[#[trigger] sums@[k] as int]
                    == acc_of(inputs, k),
        decreases n - j,
    {
        let ghost mid = *circuit;
        let target: Wire = sums[j];
        circuit.negate_assign(target);
        let ghost mid2 = *circuit;
        circuit.add_plain_assign(target, 1, Representation::Evaluation);
        proof {
            mid2.lemma_continues_step(mid, Step::NegateAssign { target }, start);
            circuit.lemma_continues_step(
                mid2,
                Step::AddPlainAssign { target, scalar: 1, form: Representation::Evaluation },
                start,
            );
            if disciplined(start@) && all_in_form(forms(start@), sums@, ready()) {
                assert(forms(start@)[sums@[j as int] as int] == ready());
                assert(forms(mid@)[target as int] == ready());
                assert(forms(mid2@)[target as int] == ready());
            }
            mid2.lemma_appended_keeps(mid, Step::NegateAssign { target });
            circuit.lemma_appended_keeps(
                mid2,
                Step::AddPlainAssign { target, scalar: 1, form: Representation::Evaluation },
            );
            mid2.lemma_keeps_below(mid, target as int, first);
            circuit.lemma_keeps_below(mid2, target as int, first);
            circuit.lemma_keeps_transitive(mid2, mid, first);
            circuit.lemma_keeps_transitive(mid, start, first);
            assert forall|inputs: Seq<int>, k: int| 0 <= k < j + 1 implies (
            #[trigger] circuit.values(inputs))[#[trigger] sums@[k] as int] == add_mod(
                neg_mod(acc_of(inputs, k), p),
                1,
                p,
            ) by {
                assert(mid.values(inputs).len() == mid.spec_wires());
                assert(mid2.values(inputs).len() == mid2.spec_wires());
                if k == j {
                    assert(mid.values(inputs)[sums@[k] as int] == acc_of(inputs, k));
                } else {
                    assert(mid.values(inputs)[sums@[k] as int] == add_mod(
                        neg_mod(acc_of(inputs, k), p),
                        1,
                        p,
                    ));
                }
            }
            assert forall|inputs: Seq<int>, k: int| j + 1 <= k < n implies (
            #[trigger] circuit.values(inputs))[#[trigger] sums@[k] as int] == acc_of(
                inputs,
                k,
            ) by {
                assert(mid.values(inputs).len() == mid.spec_wires());
                assert(mid2.values(inputs).len() == mid2.spec_wires());
                assert(mid.values(inputs)[sums@[k] as int] == acc_of(inputs, k));
            }
        }
        j += 1;
    }
}

/// `sum over j < n of regs[left[j]] * regs[right[j]]`.
pub open spec fn dot(regs: Seq<int>, left: Seq<Wire>, right: Seq<Wire>, n: nat) -> int
    decreases n,
{
    if n == 0 {
        0
    } else {
        dot(regs, left, right, (n - 1) as nat) + regs[left[n - 1] as int] * regs[right[n - 1]
            as int]
    }
}

/// One more term of a rank sum, added to its residue.
proof fn lemma_rank_step(powers: Seq<int>, i: int, k: nat, p: int, acc: int, scalar: int)
    requires
        p > 0,
        k < powers.len(),
        acc == rank_sum(powers, i, k) % p,
        scalar == pow_mod(i, k, p),
    ensures
        add_mod(acc, mul_mod(powers[powers.len() - 1 - k], scalar, p), p) == rank_sum(
            powers,
            i,
            k + 1,
        ) % p,
{
    let entry = powers[powers.len() - 1 - k];
    lemma_accumulate_term(acc, rank_sum(powers, i, k), scalar, i, k, entry, p);
    lemma_mul_is_commutative(scalar, entry);
    lemma_mul_is_commutative(entry, pow(i, k));
}

/// With the target rank 0 every term but the first vanishes.
proof fn lemma_rank_sum_zero(powers: Seq<int>, k: nat)
    requires
        1 <= k <= powers.len(),
    ensures
        rank_sum(powers, 0, k) == rank_sum(powers, 0, 1),
    decreases k,
{
    if k > 1 {
        lemma_rank_sum_zero(powers, (k - 1) as nat);
        lemma0_pow((k - 1) as nat);
        assert(pow(0, (k - 1) as nat) * powers[powers.len() - k] == 0);
    }
}

/// From the residue of the full rank sum to the indicator.
proof fn lemma_rank_finish(powers: Seq<int>, i: int, p: int, acc: int)
    requires
        p > 0,
        acc == rank_sum(powers, i, powers.len()) % p,
    ensures
        i != 0 ==> add_mod(neg_mod(add_mod(acc, 1, p), p), 1, p) == rank_match(powers, i, p),
        i == 0 ==> add_mod(neg_mod(acc, p), 1, p) == rank_match(powers, i, p),
{
    let full = rank_sum(powers, i, powers.len());
    if i != 0 {
        vstd::arithmetic::div_mod::lemma_add_mod_noop_right(1, full, p);
        assert(add_mod(acc, 1, p) == (full + 1) % p);
        lemma_sub_mod_noop_right(0, full + 1, p);
        vstd::arithmetic::div_mod::lemma_add_mod_noop_right(1, -(full + 1), p);
    } else {
        lemma_sub_mod_noop_right(0, full, p);
        vstd::arithmetic::div_mod::lemma_add_mod_noop_right(1, -full, p);
    }
}

/// Sums that carry the indicators, and candidates that carry what they
/// carried before, give the selection.
proof fn lemma_dot_is_selection(
    regs: Seq<int>,
    before: Seq<int>,
    sums: Seq<Wire>,
    tables: Seq<Vec<Wire>>,
    candidates: Seq<Wire>,
    i: int,
    p: int,
    n: nat,
)
    requires
        n <= sums.len(),
        n <= candidates.len(),
        n <= tables.len(),
        forall|j: int|
            0 <= j < n ==> regs[#[trigger] sums[j] as int] == rank_match(
                table_values(before, tables[j]@),
                i,
                p,
            ),
        forall|j: int|
            0 <= j < n ==> regs[#[trigger] candidates[j] as int] == before[candidates[j] as int],
    ensures
        dot(regs, sums, candidates, n) == selection(before, tables, candidates, i, p, n),
    decreases n,
{
    if n > 0 {
        lemma_dot_is_selection(regs, before, sums, tables, candidates, i, p, (n - 1) as nat);
        assert(regs[sums[n - 1] as int] == rank_match(
            table_values(before, tables[n - 1]@),
            i,
            p,
        ));
        assert(regs[candidates[n - 1] as int] == before[candidates[n - 1] as int]);
    }
}

/// Records the sum of the products of each running sum with its candidate
/// and brings it back to base size.
fn gather(circuit: &mut Circuit, sums: &Vec<Wire>, values: &[Wire]) -> (res: Wire)
    requires
        old(circuit).wf(),
        sums@.len() == values@.len(),
        values@.len() >= 1,
        forall|j: int| 0 <= j < sums@.len() ==> #[trigger] sums@[j] < old(circuit).spec_wires(),
        forall|j: int| 0 <= j < values@.len() ==> #[trigger] values@[j] < old(circuit).spec_wires(),
    ensures
        final(circuit).wf(),
        final(circuit).keeps(*old(circuit), old(circuit).spec_wires()),
        final(circuit).spec_inputs() == old(circuit).spec_inputs(),
        old(circuit).spec_wires() <= res < final(circuit).spec_wires(),
        multiplications(final(circuit)@) == multiplications(old(circuit)@) + values@.len(),
        final(circuit).continues(*old(circuit)),
        disciplined(old(circuit)@) && all_at_base(forms(old(circuit)@), sums@) && all_in_form(
            forms(old(circuit)@),
            values@,
            fresh(),
        ) ==> disciplined(final(circuit)@) && forms(final(circuit)@)[res as int] == fresh(),
        forall|inputs: Seq<int>|
            (#[trigger] final(circuit).values(inputs))[res as int] == dot(
                old(circuit).values(inputs),
                sums@,
                values@,
                values@.len(),
            ) % old(circuit).spec_modulus(),
{
    let ghost start = *circuit;
    proof {
        start.lemma_continues_itself();
    }
    let ghost p = start.spec_modulus();
    let ghost tidy = disciplined(start@) && all_at_base(forms(start@), sums@) && all_in_form(
        forms(start@),
        values@,
        fresh(),
    );
    let n: usize = values.len();
    let sum_all: Wire = circuit.multiply_lazy(sums[0], values[0]);
    proof {
        start.lemma_forms_shape();
        start.lemma_continues_itself();
        circuit.lemma_continues_step(
            start,
            Step::MultiplyLazy { left: sums@[0], right: values@[0] },
            start,
        );
        if tidy {
            assert(forms(start@)[sums@[0] as int].size is Base);
            assert(forms(start@)[values@[0] as int] == fresh());
        }
        circuit.lemma_appended_keeps(
            start,
            Step::MultiplyLazy { left: sums@[0], right: values@[0] },
        );
        assert forall|inputs: Seq<int>|
            (#[trigger] circuit.values(inputs))[sum_all as int] == dot(
                start.values(inputs),
                sums@,
                values@,
                1,
            ) % p by {
            reveal_with_fuel(dot, 2);
        }
    }
    let mut j: usize = 1;
    while j < n
        invariant
            1 <= j <= n,
            n == values@.len(),
            n == sums@.len(),
            p == start.spec_modulus(),
            start.wf(),
            circuit.wf(),
            circuit.keeps(start, start.spec_wires()),
            circuit.spec_inputs() == start.spec_inputs(),
            sum_all == start.spec_wires(),
            sum_all < circuit.spec_wires(),
            multiplications(circuit@) == multiplications(start@) + j,
            circuit.continues(start),
            forms(start@).len() == start.spec_wires(),
            tidy == (disciplined(start@) && all_at_base(forms(start@), sums@) && all_in_form(
                forms(start@),
                values@,
                fresh(),
            )),
            tidy ==> disciplined(circuit@) && forms(circuit@)[sum_all as int]
                == crate::circuit::pending(),
            forall|k: int| 0 <= k < n ==> #[trigger] sums@[k] < start.spec_wires(),
            forall|k: int| 0 <= k < n ==> #[trigger] values@[k] < start.spec_wires(),
            forall|inputs: Seq<int>|
                (#[trigger] circuit.values(inputs))[sum_all as int] == dot(
                    start.values(inputs),
                    sums@,
                    values@,
                    j as nat,
                ) % p,
        decreases n - j,
    {
        let ghost mid = *circuit;
        let left: Wire = sums[j];
        let right: Wire = values[j];
        let product: Wire = circuit.multiply_lazy(left, right);
        let ghost mid2 = *circuit;
        circuit.add_assign(sum_all, product);
        proof {
            mid2.lemma_continues_step(mid, Step::MultiplyLazy { left, right }, start);
            circuit.lemma_continues_step(
                mid2,
                Step::AddAssign { target: sum_all, source: product },
                start,
            );
            if tidy {
                assert(forms(start@)[sums@[j as int] as int].size is Base);
                assert(forms(start@)[values@[j as int] as int] == fresh());
                assert(forms(mid@)[left as int].size is Base);
                assert(forms(mid@)[right as int] == fresh());
            }
            mid2.lemma_appended_keeps(mid, Step::MultiplyLazy { left, right });
            circuit.lemma_appended_keeps(mid2, Step::AddAssign { target: sum_all, source: product });
            mid2.lemma_keeps_below(mid, mid.spec_wires(), start.spec_wires());
            circuit.lemma_keeps_transitive(mid2, mid, start.spec_wires());
            circuit.lemma_keeps_transitive(mid, start, start.spec_wires());
            assert forall|inputs: Seq<int>|
                (#[trigger] circuit.values(inputs))[sum_all as int] == dot(
                    start.values(inputs),
                    sums@,
                    values@,
                    (j + 1) as nat,
                ) % p by {
                assert(mid.values(inputs).len() == mid.spec_wires());
                assert(mid2.values(inputs).len() == mid2.spec_wires());
                let a = start.values(inputs)[left as int];
                let b = start.values(inputs)[right as int];
                assert(mid.values(inputs)[left as int] == a);
                assert(mid.values(inputs)[right as int] == b);
                let total = dot(start.values(inputs), sums@, values@, j as nat);
                assert(mid.values(inputs)[sum_all as int] == total % p);
                lemma_add_mod_noop(total, a * b, p);
                vstd::arithmetic::div_mod::lemma_mod_twice(a * b, p);
                vstd::arithmetic::div_mod::lemma_mod_twice(total, p);
            }
        }
        j += 1;
    }
    let ghost mid = *circuit;
    let res: Wire = circuit.normalize(sum_all);
    proof {
        circuit.lemma_continues_step(mid, Step::Normalize { source: sum_all }, start);
        circuit.lemma_appended_keeps(mid, Step::Normalize { source: sum_all });
        circuit.lemma_keeps_below(mid, mid.spec_wires(), start.spec_wires());
        circuit.lemma_keeps_transitive(mid, start, start.spec_wires());
        assert forall|inputs: Seq<int>|
            (#[trigger] circuit.values(inputs))[res as int] == dot(
                start.values(inputs),
                sums@,
                values@,
                n as nat,
            ) % p by {
            assert(mid.values(inputs).len() == mid.spec_wires());
            assert(mid.values(inputs)[sum_all as int] == dot(
                start.values(inputs),
                sums@,
                values@,
                n as nat,
            ) % p);
        }
    }
    res
}

/// Records the selection of the candidate whose rank is `i`.
///
/// `ht_powers[j]` carries the powers `1, ..., p - 1` of the rank of
/// candidate `values[j]`. For each candidate the sum
/// `r^(p-1) + i * r^(p-2) + ... + i^(p-2) * r + [i != 0]` is built term by
/// term, the first by a copy, the last by a plaintext addition, the others by
/// plaintext multiplications with a running power of `i` (none at all when
/// `i` is 0). One minus that sum is the candidate's indicator; the result is
/// the sum of the candidates times their indicators.
pub fn sort_equality_subroutine(
    circuit: &mut Circuit,
    i: usize,
    ht_powers: &[Vec<Wire>],
    values: &[Wire],
) -> (wire: Wire)
    requires
        old(circuit).wf(),
        values@.len() >= 1,
        ht_powers@.len() == values@.len(),
        forall|j: int|
            0 <= j < ht_powers@.len() ==> (#[trigger] ht_powers@[j])@.len() == old(
                circuit,
            ).spec_modulus() - 1,
        forall|j: int, e: int|
            0 <= j < ht_powers@.len() && 0 <= e < old(circuit).spec_modulus() - 1 ==> (
            #[trigger] ht_powers@[j]@[e]) < old(circuit).spec_wires(),
        forall|j: int| 0 <= j < values@.len() ==> #[trigger] values@[j] < old(circuit).spec_wires(),
    ensures
        final(circuit).wf(),
        final(circuit).keeps(*old(circuit), old(circuit).spec_wires()),
        final(circuit).spec_inputs() == old(circuit).spec_inputs(),
        old(circuit).spec_wires() <= wire < final(circuit).spec_wires(),
        multiplications(final(circuit)@) == multiplications(old(circuit)@) + values@.len(),
        final(circuit).continues(*old(circuit)),
        disciplined(old(circuit)@) && tables_in_form(
            forms(old(circuit)@),
            ht_powers@,
            old(circuit).spec_modulus() - 1,
            ready(),
        ) && all_in_form(forms(old(circuit)@), values@, fresh()) ==> disciplined(
            final(circuit)@,
        ) && forms(final(circuit)@)[wire as int] == fresh(),
        forall|inputs: Seq<int>|
            (#[trigger] final(circuit).values(inputs))[wire as int] == selection(
                old(circuit).values(inputs),
                ht_powers@,
                values@,
                i as int,
                old(circuit).spec_modulus(),
                values@.len(),
            ) % old(circuit).spec_modulus(),
{
    let ghost start = *circuit;
    proof {
        start.lemma_continues_itself();
    }
    let ghost pi = start.spec_modulus();
    let ghost first = start.spec_wires();
    let ghost powers_of = |inputs: Seq<int>, j: int|
        table_values(start.values(inputs), ht_powers@[j]@);
    let p: u64 = circuit.modulus();
    let n: usize = values.len();
    assert(ht_powers@[0]@.len() == pi - 1);
    let width: usize = ht_powers[0].len();
    let ghost tidy = disciplined(start@) && tables_in_form(
        forms(start@),
        ht_powers@,
        pi - 1,
        ready(),
    ) && all_in_form(forms(start@), values@, fresh());
    let sums: Vec<Wire> = seed_sums(circuit, ht_powers, width);
    let mut i_pow_k: u64 = (i as u64) % p;
    let mut k: usize = 1;
    proof {
        start.lemma_forms_shape();
        if tidy {
            assert(all_in_form(forms(circuit@), sums@, ready())) by {
                assert forall|j: int| 0 <= j < sums@.len() implies (#[trigger] sums@[j]) < forms(
                    circuit@,
                ).len() && forms(circuit@)[sums@[j] as int] == ready() by {
                    assert(forms(start@)[ht_powers@[j]@[width - 1] as int] == ready());
                }
            }
        }
        lemma_pow_mod_step(i as int, 0, pi);
        assert forall|inputs: Seq<int>, j: int| 0 <= j < n implies (#[trigger] circuit.values(
            inputs,
        ))[#[trigger] sums@[j] as int] == rank_sum(powers_of(inputs, j), i as int, 1) % pi by {
            let t = powers_of(inputs, j);
            start.lemma_values_shape(inputs);
            assert(ht_powers@[j]@.len() == width);
            assert(ht_powers@[j]@[width - 1] < first);
            assert(t[width - 1] == start.values(inputs)[ht_powers@[j]@[width - 1] as int]);
            reveal_with_fuel(rank_sum, 2);
            lemma_pow0(i as int);
            let unit = pow(i as int, 0);
            let last = t[width - 1];
            assert(unit * last == last) by (nonlinear_arith)
                requires
                    unit == 1,
            ;
            assert(rank_sum(t, i as int, 1) == last);
            lemma_small_mod(last as nat, pi as nat);
        }
    }
    while k < width
        invariant
            1 <= k <= width,
            width == pi - 1,
            n == values@.len(),
            p == pi,
            pi == start.spec_modulus(),
            first == start.spec_wires(),
            powers_of == (|inputs: Seq<int>, j: int|
                table_values(start.values(inputs), ht_powers@[j]@)),
            i_pow_k == pow_mod(i as int, k as nat, pi),
            start.wf(),
            circuit.wf(),
            circuit.keeps(start, first),
            circuit.spec_inputs() == start.spec_inputs(),
            multiplications(circuit@) == multiplications(start@),
            circuit.continues(start),
            forms(start@).len() == start.spec_wires(),
            tidy == (disciplined(start@) && tables_in_form(
                forms(start@),
                ht_powers@,
                pi - 1,
                ready(),
            ) && all_in_form(forms(start@), values@, fresh())),
            tidy ==> disciplined(circuit@) && all_in_form(forms(circuit@), sums@, ready()),
            sums_placed(sums@, ht_powers@, first, width as int, circuit.spec_wires()),
            ht_powers@.len() == n,
            forall|inputs: Seq<int>, j: int|
                0 <= j < n ==> (#[trigger] circuit.values(inputs))[#[trigger] sums@[j] as int]
                    == rank_sum(powers_of(inputs, j), i as int, k as nat) % pi,
        decreases width - k,
    {
        let ghost mid = *circuit;
        let ghost acc_of = |inputs: Seq<int>, j: int|
            rank_sum(powers_of(inputs, j), i as int, k as nat) % pi;
        proof {
            if tidy {
                assert(tables_in_form(forms(mid@), ht_powers@, width as int, ready())) by {
                    assert forall|j: int, e: int|
                        0 <= j < ht_powers@.len() && 0 <= e < width implies (
                    #[trigger] ht_powers@[j]@[e]) < forms(mid@).len() && forms(
                        mid@,
                    )[ht_powers@[j]@[e] as int] == ready() by {
                        assert(forms(start@)[ht_powers@[j]@[e] as int] == ready());
                    }
                }
            }
        }
        if i != 0 {
            add_terms(
                circuit,
                &sums,
                ht_powers,
                width - 1 - k,
                i_pow_k,
                Ghost(first),
                Ghost(width as int),
                Ghost(acc_of),
            );
            proof {
                circuit.lemma_continues_transitive(mid, start);
                if tidy {
                    circuit.lemma_all_in_form_kept(mid, sums@, ready());
                }
                circuit.lemma_keeps_transitive(mid, start, first);
                assert forall|inputs: Seq<int>, j: int| 0 <= j < n implies (
                #[trigger] circuit.values(inputs))[#[trigger] sums@[j] as int] == rank_sum(
                    powers_of(inputs, j),
                    i as int,
                    (k + 1) as nat,
                ) % pi by {
                    let t = powers_of(inputs, j);
                    let e = width - 1 - k;
                    assert(ht_powers@[j]@.len() == width);
                    let source = ht_powers@[j]@[e];
                    assert(source < first);
                    assert(mid.values(inputs)[source as int] == start.values(inputs)[source as int]);
                    assert(t[e] == start.values(inputs)[source as int]);
                    lemma_rank_step(t, i as int, k as nat, pi, acc_of(inputs, j), i_pow_k as int);
                }
            }
        } else {
            proof {
                assert forall|inputs: Seq<int>, j: int| 0 <= j < n implies (
                #[trigger] circuit.values(inputs))[#[trigger] sums@[j] as int] == rank_sum(
                    powers_of(inputs, j),
                    i as int,
                    (k + 1) as nat,
                ) % pi by {
                    let t = powers_of(inputs, j);
                    assert(ht_powers@[j]@.len() == width);
                    lemma_rank_sum_zero(t, k as nat);
                    lemma_rank_sum_zero(t, (k + 1) as nat);
                }
            }
        }
        proof {
            lemma_pow_mod_step(i as int, k as nat, pi);
            lemma_mul_is_commutative(i as int, i_pow_k as int);
        }
        i_pow_k = mul_residues(i_pow_k, i as u64, p);
        k += 1;
    }
    let ghost after_terms = *circuit;
    let ghost full_of = |inputs: Seq<int>, j: int|
        rank_sum(powers_of(inputs, j), i as int, width as nat) % pi;
    let ghost plus_of = |inputs: Seq<int>, j: int| add_mod(full_of(inputs, j), 1, pi);
    if i != 0 {
        add_one_to_all(circuit, &sums, Ghost(first), Ghost(full_of));
        let ghost with_last = *circuit;
        proof {
            if tidy {
                with_last.lemma_all_in_form_kept(after_terms, sums@, ready());
            }
        }
        complement_all(circuit, &sums, Ghost(first), Ghost(plus_of));
        proof {
            with_last.lemma_keeps_transitive(after_terms, start, first);
            circuit.lemma_keeps_transitive(with_last, start, first);
            with_last.lemma_continues_transitive(after_terms, start);
            circuit.lemma_continues_transitive(with_last, start);
            if tidy {
                circuit.lemma_all_in_form_kept(with_last, sums@, ready());
            }
        }
    } else {
        complement_all(circuit, &sums, Ghost(first), Ghost(full_of));
        proof {
            circuit.lemma_keeps_transitive(after_terms, start, first);
            circuit.lemma_continues_transitive(after_terms, start);
            if tidy {
                circuit.lemma_all_in_form_kept(after_terms, sums@, ready());
            }
        }
    }
    let ghost settled = *circuit;
    proof {
        if tidy {
            settled.lemma_all_in_form_kept(start, values@, fresh());
            assert(all_at_base(forms(settled@), sums@)) by {
                assert forall|j: int| 0 <= j < sums@.len() implies (#[trigger] sums@[j]) < forms(
                    settled@,
                ).len() && forms(settled@)[sums@[j] as int].size is Base by {
                    assert(forms(settled@)[sums@[j] as int] == ready());
                }
            }
        }
    }
    let res: Wire = gather(circuit, &sums, values);
    proof {
        circuit.lemma_keeps_below(settled, settled.spec_wires(), first);
        circuit.lemma_keeps_transitive(settled, start, first);
        circuit.lemma_continues_transitive(settled, start);
        assert forall|inputs: Seq<int>|
            (#[trigger] circuit.values(inputs))[res as int] == selection(
                start.values(inputs),
                ht_powers@,
                values@,
                i as int,
                pi,
                n as nat,
            ) % pi by {
            assert forall|j: int| 0 <= j < n implies settled.values(inputs)[#[trigger] sums@[j]
                as int] == rank_match(
                table_values(start.values(inputs), ht_powers@[j]@),
                i as int,
                pi,
            ) by {
                let t = powers_of(inputs, j);
                assert(ht_powers@[j]@.len() == width);
                lemma_rank_finish(t, i as int, pi, full_of(inputs, j));
                if i != 0 {
                    assert(settled.values(inputs)[sums@[j] as int] == add_mod(
                        neg_mod(plus_of(inputs, j), pi),
                        1,
                        pi,
                    ));
                } else {
                    assert(settled.values(inputs)[sums@[j] as int] == add_mod(
                        neg_mod(full_of(inputs, j), pi),
                        1,
                        pi,
                    ));
                }
            }
            assert forall|j: int| 0 <= j < n implies settled.values(inputs)[#[trigger] values@[j]
                as int] == start.values(inputs)[values@[j] as int] by {}
            lemma_dot_is_selection(
                settled.values(inputs),
                start.values(inputs),
                sums@,
                ht_powers@,
                values@,
                i as int,
                pi,
                n as nat,
            );
        }
    }
    res
}

/// What one minus the comparison puts out: the outcome of `x >= y`.
pub open spec fn not_less_than_value(x: int, y: int, c: Seq<int>, p: int) -> int {
    add_mod(neg_mod(less_than_value(x, y, c, p), p), 1, p)
}

/// The outcomes of "candidate `a` is not less than candidate `k`" for
/// `a < count`, added up.
pub open spec fn lower(vals: Seq<int>, c: Seq<int>, k: int, count: int, p: int) -> int
    decreases count,
{
    if count <= 0 {
        0
    } else {
        lower(vals, c, k, count - 1, p) + not_less_than_value(vals[count - 1], vals[k], c, p)
    }
}

/// The outcomes of "candidate `k` is less than candidate `b`" for
/// `k < b < end`, added up.
pub open spec fn upper(vals: Seq<int>, c: Seq<int>, k: int, end: int, p: int) -> int
    decreases end - k,
{
    if end <= k + 1 {
        0
    } else {
        upper(vals, c, k, end - 1, p) + less_than_value(vals[k], vals[end - 1], c, p)
    }
}

/// The rank of candidate `k`: the number of candidates that go before it in
/// descending order, earlier ones winning ties, as a residue.
pub open spec fn rank_value(vals: Seq<int>, c: Seq<int>, k: int, p: int) -> int {
    (lower(vals, c, k, k, p) + upper(vals, c, k, vals.len() as int, p)) % p
}

/// How many earlier candidates `k` has been compared with, when the pairs
/// `(a, b)` with `a < i`, and the pairs `(i, b)` with `b < j`, are done.
pub open spec fn lower_done(k: int, i: int, j: int) -> int {
    if k <= i {
        k
    } else if k < j {
        i + 1
    } else {
        i
    }
}

/// One past the last later candidate that `k` has been compared with.
pub open spec fn upper_done(k: int, i: int, j: int, n: int) -> int {
    if k < i {
        n
    } else if k == i {
        j
    } else {
        k + 1
    }
}

/// The part of the rank of `k` that has been added up so far.
pub open spec fn partial_rank(vals: Seq<int>, c: Seq<int>, k: int, i: int, j: int, p: int) -> int {
    lower(vals, c, k, lower_done(k, i, j), p) + upper(
        vals,
        c,
        k,
        upper_done(k, i, j, vals.len() as int),
        p,
    )
}

/// Candidate `k` has taken part in a comparison.
pub open spec fn touched(k: int, i: int, j: int, n: int) -> bool {
    lower_done(k, i, j) > 0 || upper_done(k, i, j, n) > k + 1
}

/// Every accumulator that exists carries the partial rank of its candidate,
/// and exists exactly if its candidate has taken part in a comparison.
pub open spec fn ranks_hold(
    regs: Seq<int>,
    ht: Seq<Option<Wire>>,
    vals: Seq<int>,
    c: Seq<int>,
    i: int,
    j: int,
    p: int,
) -> bool {
    forall|k: int|
        0 <= k < ht.len() ==> match #[trigger] ht[k] {
            Some(w) => touched(k, i, j, ht.len() as int) && w < regs.len() && regs[w as int]
                == partial_rank(vals, c, k, i, j, p) % p,
            None => !touched(k, i, j, ht.len() as int),
        }
}

/// The accumulators that exist are distinct wires created since `first`.
pub open spec fn ranks_placed(ht: Seq<Option<Wire>>, first: int, wires: int) -> bool {
    &&& forall|k: int|
        0 <= k < ht.len() && (#[trigger] ht[k]) is Some ==> first <= ht[k].unwrap() < wires
    &&& forall|k: int, l: int|
        0 <= k < l < ht.len() && (#[trigger] ht[k]) is Some && (#[trigger] ht[l]) is Some
            ==> ht[k].unwrap() != ht[l].unwrap()
}

/// Adds `term` to accumulator `k`, or makes `term` the accumulator if there
/// is none yet.
fn accumulate(circuit: &mut Circuit, ht: &mut Vec<Option<Wire>>, k: usize, term: Wire)
    requires
        old(circuit).wf(),
        k < old(ht)@.len(),
        term < old(circuit).spec_wires(),
        old(ht)@[k as int] matches Some(w) ==> w < old(circuit).spec_wires(),
    ensures
        final(circuit).wf(),
        final(circuit).spec_wires() == old(circuit).spec_wires(),
        final(circuit).spec_inputs() == old(circuit).spec_inputs(),
        final(circuit).spec_modulus() == old(circuit).spec_modulus(),
        multiplications(final(circuit)@) == multiplications(old(circuit)@),
        forms(final(circuit)@) =~= forms(old(circuit)@),
        final(circuit).continues(*old(circuit)),
        disciplined(old(circuit)@) && (old(ht)@[k as int] matches Some(w) ==> forms(
            old(circuit)@,
        )[w as int] == forms(old(circuit)@)[term as int]) ==> disciplined(final(circuit)@),
        old(ht)@[k as int] is None ==> final(ht)@ == old(ht)@.update(k as int, Some(term)) && (
        forall|inputs: Seq<int>| #[trigger]
            final(circuit).values(inputs) == old(circuit).values(inputs)),
        old(ht)@[k as int] matches Some(w) ==> final(ht)@ == old(ht)@ && (forall|inputs: Seq<int>|
         #[trigger]
            final(circuit).values(inputs) == old(circuit).values(inputs).update(
                w as int,
                add_mod(
                    old(circuit).values(inputs)[w as int],
                    old(circuit).values(inputs)[term as int],
                    old(circuit).spec_modulus(),
                ),
            )),
{
    let ghost start = *circuit;
    proof {
        start.lemma_continues_itself();
    }
    proof {
        start.lemma_continues_itself();
    }
    match ht[k] {
        Some(w) => {
            circuit.add_assign(w, term);
            proof {
                circuit.lemma_continues_step(
                    start,
                    Step::AddAssign { target: w, source: term },
                    start,
                );
            }
        },
        None => {
            ht.set(k, Some(term));
        },
    }
}

/// The effect of one comparison on the accumulators.
///
/// After the pair `(i, j)` the accumulator of `i` has gained the outcome of
/// `i < j` and the accumulator of `j` the outcome of `i >= j`; no other
/// accumulator has changed.
proof fn lemma_pair_step(
    before: Seq<int>,
    after: Seq<int>,
    ht_before: Seq<Option<Wire>>,
    ht_after: Seq<Option<Wire>>,
    vals: Seq<int>,
    c: Seq<int>,
    i: int,
    j: int,
    p: int,
    lt: Wire,
    om: Wire,
)
    requires
        p > 0,
        0 <= i < j < vals.len(),
        ht_before.len() == vals.len(),
        ht_after.len() == vals.len(),
        ranks_hold(before, ht_before, vals, c, i, j, p),
        before.len() <= lt < after.len(),
        before.len() <= om < after.len(),
        lt != om,
        forall|k: int|
            0 <= k < vals.len() && k != i && k != j ==> #[trigger] ht_after[k] == ht_before[k],
        forall|k: int|
            0 <= k < vals.len() && k != i && k != j && (#[trigger] ht_before[k]) is Some
                ==> after[ht_before[k].unwrap() as int] == before[ht_before[k].unwrap() as int],
        ht_before[i] matches Some(w) ==> ht_after[i] == Some(w) && after[w as int] == add_mod(
            before[w as int],
            less_than_value(vals[i], vals[j], c, p),
            p,
        ),
        ht_before[i] is None ==> ht_after[i] == Some(lt) && after[lt as int] == less_than_value(
            vals[i],
            vals[j],
            c,
            p,
        ),
        ht_before[j] matches Some(w) ==> ht_after[j] == Some(w) && after[w as int] == add_mod(
            before[w as int],
            not_less_than_value(vals[i], vals[j], c, p),
            p,
        ),
        ht_before[j] is None ==> ht_after[j] == Some(om) && after[om as int]
            == not_less_than_value(vals[i], vals[j], c, p),
    ensures
        ranks_hold(after, ht_after, vals, c, i, j + 1, p),
{
    let n = vals.len() as int;
    let ltv = less_than_value(vals[i], vals[j], c, p);
    let omv = not_less_than_value(vals[i], vals[j], c, p);
    assert(0 <= ltv < p && 0 <= omv < p);
    assert forall|k: int| 0 <= k < ht_after.len() implies match #[trigger] ht_after[k] {
        Some(w) => touched(k, i, j + 1, n) && w < after.len() && after[w as int] == partial_rank(
            vals,
            c,
            k,
            i,
            j + 1,
            p,
        ) % p,
        None => !touched(k, i, j + 1, n),
    } by {
        let old_part = partial_rank(vals, c, k, i, j, p);
        assert(match ht_before[k] {
            Some(w) => touched(k, i, j, n) && w < before.len() && before[w as int] == old_part
                % p,
            None => !touched(k, i, j, n),
        });
        if k == i {
            assert(partial_rank(vals, c, k, i, j + 1, p) == old_part + ltv);
            if ht_before[i] is None {
                assert(old_part == 0);
                lemma_small_mod(ltv as nat, p as nat);
            } else {
                vstd::arithmetic::div_mod::lemma_add_mod_noop(old_part, ltv, p);
                lemma_small_mod(ltv as nat, p as nat);
            }
        } else if k == j {
            assert(partial_rank(vals, c, k, i, j + 1, p) == old_part + omv);
            if ht_before[j] is None {
                assert(old_part == 0);
                lemma_small_mod(omv as nat, p as nat);
            } else {
                vstd::arithmetic::div_mod::lemma_add_mod_noop(old_part, omv, p);
                lemma_small_mod(omv as nat, p as nat);
            }
        } else {
            assert(ht_after[k] == ht_before[k]);
        }
    }
}

/// Records the comparison of the candidates `i` and `j` and adds its outcome
/// to the accumulator of `i` and one minus its outcome to that of `j`.
fn compare_pair(
    circuit: &mut Circuit,
    values: &[Wire],
    coefficients: &[u64],
    ht: &mut Vec<Option<Wire>>,
    i: usize,
    j: usize,
    Ghost(start): Ghost<Circuit>,
)
    requires
        old(circuit).wf(),
        old(circuit).keeps(start, start.spec_wires()),
        old(circuit).continues(start),
        old(circuit).spec_inputs() == start.spec_inputs(),
        start.wf(),
        start.spec_modulus() > 2,
        coefficients@.len() == (start.spec_modulus() - 1) / 2,
        i < j < values@.len(),
        old(ht)@.len() == values@.len(),
        forall|k: int| 0 <= k < values@.len() ==> #[trigger] values@[k] < start.spec_wires(),
        ranks_placed(old(ht)@, start.spec_wires(), old(circuit).spec_wires()),
        forall|inputs: Seq<int>| #[trigger]
            ranks_hold(
                old(circuit).values(inputs),
                old(ht)@,
                table_values(start.values(inputs), values@),
                residues(coefficients@),
                i as int,
                j as int,
                start.spec_modulus(),
            ),
    ensures
        final(circuit).wf(),
        final(circuit).keeps(start, start.spec_wires()),
        final(circuit).spec_inputs() == start.spec_inputs(),
        final(ht)@.len() == values@.len(),
        ranks_placed(final(ht)@, start.spec_wires(), final(circuit).spec_wires()),
        multiplications(final(circuit)@) == multiplications(old(circuit)@)
            + comparison_multiplications(start.spec_modulus()),
        final(circuit).continues(start),
        disciplined(old(circuit)@) && all_in_form(forms(start@), values@, fresh())
            && fresh_entries(forms(old(circuit)@), old(ht)@) ==> disciplined(final(circuit)@)
            && fresh_entries(forms(final(circuit)@), final(ht)@),
        forall|inputs: Seq<int>| #[trigger]
            ranks_hold(
                final(circuit).values(inputs),
                final(ht)@,
                table_values(start.values(inputs), values@),
                residues(coefficients@),
                i as int,
                j + 1,
                start.spec_modulus(),
            ),
{
    let ghost a = *circuit;
    let ghost ht_a = ht@;
    let ghost p = start.spec_modulus();
    let ghost c = residues(coefficients@);
    let ghost first = start.spec_wires();
    let ghost tidy = disciplined(a@) && all_in_form(forms(start@), values@, fresh())
        && fresh_entries(forms(a@), ht_a);
    proof {
        start.lemma_forms_shape();
        a.lemma_forms_shape();
        if tidy {
            assert(forms(start@)[values@[i as int] as int] == fresh());
            assert(forms(start@)[values@[j as int] as int] == fresh());
            assert(forms(a@)[values@[i as int] as int] == fresh());
            assert(forms(a@)[values@[j as int] as int] == fresh());
        }
    }
    let lt: Wire = univariate_less_than(circuit, values[i], values[j], coefficients).unwrap();
    let ghost b = *circuit;
    let one_minus_lt: Wire = circuit.negate(lt);
    let ghost c1 = *circuit;
    circuit.add_plain_assign(one_minus_lt, 1, Representation::Coefficient);
    let ghost d = *circuit;
    proof {
        assert(ht_a[i as int] matches Some(w) ==> w < d.spec_wires());
        assert(ht_a[j as int] matches Some(w) ==> w < d.spec_wires());
        b.lemma_forms_shape();
        c1.lemma_continues_step(b, Step::Negate { source: lt }, a);
        d.lemma_continues_step(
            c1,
            Step::AddPlainAssign {
                target: one_minus_lt,
                scalar: 1,
                form: Representation::Coefficient,
            },
            a,
        );
        start.lemma_forms_shape();
        if tidy {
            assert(forms(b@)[lt as int] == fresh());
            assert(forms(d@)[lt as int] == fresh());
            assert(forms(d@)[one_minus_lt as int] == fresh());
            assert(ht_a[i as int] matches Some(w) ==> forms(d@)[w as int] == fresh()) by {
                if ht_a[i as int] is Some {
                    assert(forms(a@)[ht_a[i as int].unwrap() as int] == fresh());
                }
            }
            assert(ht_a[j as int] matches Some(w) ==> forms(d@)[w as int] == fresh()) by {
                if ht_a[j as int] is Some {
                    assert(forms(a@)[ht_a[j as int].unwrap() as int] == fresh());
                }
            }
        }
    }
    accumulate(circuit, ht, i, lt);
    let ghost e = *circuit;
    let ghost ht_e = ht@;
    proof {
        assert(ht_e[j as int] == ht_a[j as int]);
    }
    accumulate(circuit, ht, j, one_minus_lt);
    proof {
        let ht_f = ht@;
        b.lemma_continues_transitive(a, start);
        c1.lemma_continues_step(b, Step::Negate { source: lt }, start);
        d.lemma_continues_step(
            c1,
            Step::AddPlainAssign {
                target: one_minus_lt,
                scalar: 1,
                form: Representation::Coefficient,
            },
            start,
        );
        e.lemma_continues_transitive(d, start);
        circuit.lemma_continues_transitive(e, start);
        if tidy {
            assert forall|k: int| 0 <= k < ht_f.len() && (#[trigger] ht_f[k]) is Some implies
                ht_f[k].unwrap() < forms(circuit@).len() && forms(
                circuit@,
            )[ht_f[k].unwrap() as int] == fresh() by {
                if k != i && k != j {
                    assert(ht_a[k] is Some);
                    assert(forms(a@)[ht_a[k].unwrap() as int] == fresh());
                    assert(forms(d@)[ht_a[k].unwrap() as int] == forms(
                        a@,
                    )[ht_a[k].unwrap() as int]);
                } else if k == i {
                    if ht_a[i as int] is Some {
                        assert(forms(a@)[ht_a[k].unwrap() as int] == fresh());
                    }
                } else {
                    if ht_a[j as int] is Some {
                        assert(forms(a@)[ht_a[k].unwrap() as int] == fresh());
                    }
                }
            }
        }
        // wires of `start` are kept
        assert forall|inputs: Seq<int>, w: int| 0 <= w < first implies (#[trigger] circuit.values(
            inputs,
        ))[w] == #[trigger] start.values(inputs)[w] by {
            a.lemma_values_shape(inputs);
            b.lemma_values_shape(inputs);
            c1.lemma_values_shape(inputs);
            d.lemma_values_shape(inputs);
            e.lemma_values_shape(inputs);
            assert(a.values(inputs)[w] == start.values(inputs)[w]);
            assert(b.values(inputs)[w] == a.values(inputs)[w]);
        }
        assert(ranks_placed(ht_f, first, circuit.spec_wires())) by {
            assert forall|k: int, l: int|
                0 <= k < l < ht_f.len() && (#[trigger] ht_f[k]) is Some && (#[trigger] ht_f[l])
                    is Some implies ht_f[k].unwrap() != ht_f[l].unwrap() by {
                if k != i && k != j {
                    assert(ht_a[k] is Some);
                }
                if l != i && l != j {
                    assert(ht_a[l] is Some);
                }
                if ht_a[k] is Some && ht_a[l] is Some {
                    assert(ht_a[k].unwrap() != ht_a[l].unwrap());
                }
            }
            assert forall|k: int| 0 <= k < ht_f.len() && (#[trigger] ht_f[k]) is Some implies first
                <= ht_f[k].unwrap() < circuit.spec_wires() by {
                if k != i && k != j {
                    assert(ht_a[k] is Some);
                }
            }
        }
        assert forall|inputs: Seq<int>| #[trigger]
            ranks_hold(
                circuit.values(inputs),
                ht_f,
                table_values(start.values(inputs), values@),
                c,
                i as int,
                j + 1,
                p,
            ) by {
            let vals = table_values(start.values(inputs), values@);
            a.lemma_values_shape(inputs);
            b.lemma_values_shape(inputs);
            c1.lemma_values_shape(inputs);
            d.lemma_values_shape(inputs);
            e.lemma_values_shape(inputs);
            circuit.lemma_values_shape(inputs);
            let ra = a.values(inputs);
            let rb = b.values(inputs);
            let rd = d.values(inputs);
            let re = e.values(inputs);
            let rf = circuit.values(inputs);
            assert(ra[values@[i as int] as int] == start.values(inputs)[values@[i as int] as int]);
            assert(ra[values@[j as int] as int] == start.values(inputs)[values@[j as int] as int]);
            let ltv = less_than_value(vals[i as int], vals[j as int], c, p);
            let omv = not_less_than_value(vals[i as int], vals[j as int], c, p);
            assert(rb[lt as int] == ltv);
            assert(rd[lt as int] == ltv);
            assert(rd[one_minus_lt as int] == omv);
            assert(ranks_hold(ra, ht_a, vals, c, i as int, j as int, p));
            assert forall|k: int| 0 <= k < ht_a.len() && (#[trigger] ht_a[k]) is Some implies
                rd[ht_a[k].unwrap() as int] == ra[ht_a[k].unwrap() as int] by {
                assert(rb[ht_a[k].unwrap() as int] == ra[ht_a[k].unwrap() as int]);
            }
            if ht_a[i as int] is Some && ht_a[j as int] is Some {
                assert(ht_a[i as int].unwrap() != ht_a[j as int].unwrap());
            }
            assert forall|k: int|
                0 <= k < vals.len() && k != i && k != j && (#[trigger] ht_a[k]) is Some implies
                    rf[ht_a[k].unwrap() as int] == ra[ht_a[k].unwrap() as int] by {
                if ht_a[i as int] is Some {
                    assert(ht_a[i as int].unwrap() != ht_a[k].unwrap());
                }
                if ht_a[j as int] is Some {
                    assert(ht_a[j as int].unwrap() != ht_a[k].unwrap());
                }
            }
            lemma_pair_step(
                ra,
                rf,
                ht_a,
                ht_f,
                vals,
                c,
                i as int,
                j as int,
                p,
                lt,
                one_minus_lt,
            );
        }
    }
}

/// The number of pairs among `n` candidates.
pub open spec fn pairs(n: int) -> int {
    n * (n - 1) / 2
}

/// Records the comparison of every pair of candidates and returns, for each
/// candidate, the wire that carries its rank.
fn rank_all(circuit: &mut Circuit, values: &[Wire], coefficients: &[u64]) -> (ranks: Vec<Wire>)
    requires
        old(circuit).wf(),
        old(circuit).spec_modulus() > 2,
        coefficients@.len() == (old(circuit).spec_modulus() - 1) / 2,
        values@.len() >= 2,
        forall|k: int| 0 <= k < values@.len() ==> #[trigger] values@[k] < old(circuit).spec_wires(),
    ensures
        final(circuit).wf(),
        final(circuit).keeps(*old(circuit), old(circuit).spec_wires()),
        final(circuit).spec_inputs() == old(circuit).spec_inputs(),
        ranks@.len() == values@.len(),
        multiplications(final(circuit)@) == multiplications(old(circuit)@) + pairs(
            values@.len() as int,
        ) * comparison_multiplications(old(circuit).spec_modulus()),
        final(circuit).continues(*old(circuit)),
        disciplined(old(circuit)@) && all_in_form(forms(old(circuit)@), values@, fresh())
            ==> disciplined(final(circuit)@) && all_in_form(forms(final(circuit)@), ranks@, fresh()),
        forall|k: int|
            0 <= k < ranks@.len() ==> old(circuit).spec_wires() <= #[trigger] ranks@[k]
                < final(circuit).spec_wires(),
        forall|inputs: Seq<int>, k: int|
            0 <= k < ranks@.len() ==> (#[trigger] final(circuit).values(inputs))[#[trigger] ranks@[k]
                as int] == rank_value(
                table_values(old(circuit).values(inputs), values@),
                residues(coefficients@),
                k,
                old(circuit).spec_modulus(),
            ),
{
    let ghost start = *circuit;
    proof {
        start.lemma_continues_itself();
    }
    let ghost p = start.spec_modulus();
    let ghost c = residues(coefficients@);
    let n: usize = values.len();
    let mut ht: Vec<Option<Wire>> = Vec::new();
    while ht.len() < n
        invariant
            ht@.len() <= n,
            forall|k: int| 0 <= k < ht@.len() ==> #[trigger] ht@[k] is None,
        decreases n - ht@.len(),
    {
        ht.push(None);
    }
    let ghost cost = comparison_multiplications(p);
    let ghost done: int = 0;
    let ghost tidy = disciplined(start@) && all_in_form(forms(start@), values@, fresh());
    let mut i: usize = 0;
    assert(0 * cost == 0);
    while i < n
        invariant
            i <= n,
            n == values@.len(),
            n >= 2,
            ht@.len() == n,
            circuit.continues(start),
            tidy == (disciplined(start@) && all_in_form(forms(start@), values@, fresh())),
            tidy ==> disciplined(circuit@) && fresh_entries(forms(circuit@), ht@),
            cost == comparison_multiplications(p),
            multiplications(circuit@) == multiplications(start@) + done * cost,
            2 * done == i * (2 * n - i - 1),
            p == start.spec_modulus(),
            p > 2,
            c == residues(coefficients@),
            coefficients@.len() == (p - 1) / 2,
            start.wf(),
            circuit.wf(),
            circuit.keeps(start, start.spec_wires()),
            circuit.spec_inputs() == start.spec_inputs(),
            forall|k: int| 0 <= k < n ==> #[trigger] values@[k] < start.spec_wires(),
            ranks_placed(ht@, start.spec_wires(), circuit.spec_wires()),
            forall|inputs: Seq<int>| #[trigger]
                ranks_hold(
                    circuit.values(inputs),
                    ht@,
                    table_values(start.values(inputs), values@),
                    c,
                    i as int,
                    i + 1,
                    p,
                ),
        decreases n - i,
    {
        let mut j: usize = i + 1;
        while j < n
            invariant
                i < j <= n,
                n == values@.len(),
                ht@.len() == n,
                circuit.continues(start),
                tidy == (disciplined(start@) && all_in_form(forms(start@), values@, fresh())),
                tidy ==> disciplined(circuit@) && fresh_entries(forms(circuit@), ht@),
                cost == comparison_multiplications(p),
                multiplications(circuit@) == multiplications(start@) + done * cost,
                2 * done == i * (2 * n - i - 1) + 2 * (j - i - 1),
                p == start.spec_modulus(),
                p > 2,
                c == residues(coefficients@),
                coefficients@.len() == (p - 1) / 2,
                start.wf(),
                circuit.wf(),
                circuit.keeps(start, start.spec_wires()),
                circuit.spec_inputs() == start.spec_inputs(),
                forall|k: int| 0 <= k < n ==> #[trigger] values@[k] < start.spec_wires(),
                ranks_placed(ht@, start.spec_wires(), circuit.spec_wires()),
                forall|inputs: Seq<int>| #[trigger]
                    ranks_hold(
                        circuit.values(inputs),
                        ht@,
                        table_values(start.values(inputs), values@),
                        c,
                        i as int,
                        j as int,
                        p,
                    ),
            decreases n - j,
        {
            compare_pair(circuit, values, coefficients, &mut ht, i, j, Ghost(start));
            proof {
                assert((done + 1) * cost == done * cost + cost) by (nonlinear_arith);
                done = done + 1;
            }
            j += 1;
        }
        assert((i + 1) * (2 * n - (i + 1) - 1) == i * (2 * n - i - 1) + 2 * (n - i - 1))
            by (nonlinear_arith);
        proof {
            assert forall|inputs: Seq<int>| #[trigger]
                ranks_hold(
                    circuit.values(inputs),
                    ht@,
                    table_values(start.values(inputs), values@),
                    c,
                    i + 1,
                    i + 2,
                    p,
                ) by {
                let vals = table_values(start.values(inputs), values@);
                assert(ranks_hold(circuit.values(inputs), ht@, vals, c, i as int, n as int, p));
                assert forall|k: int| 0 <= k < n implies lower_done(k, i as int, n as int)
                    == lower_done(k, i + 1, i + 2) && upper_done(k, i as int, n as int, n as int)
                    == upper_done(k, i + 1, i + 2, n as int) by {}
                assert forall|k: int| 0 <= k < ht@.len() implies match #[trigger] ht@[k] {
                    Some(w) => touched(k, i + 1, i + 2, n as int) && w < circuit.values(
                        inputs,
                    ).len() && circuit.values(inputs)[w as int] == partial_rank(
                        vals,
                        c,
                        k,
                        i + 1,
                        i + 2,
                        p,
                    ) % p,
                    None => !touched(k, i + 1, i + 2, n as int),
                } by {
                    assert(lower_done(k, i as int, n as int) == lower_done(k, i + 1, i + 2));
                    assert(upper_done(k, i as int, n as int, n as int) == upper_done(
                        k,
                        i + 1,
                        i + 2,
                        n as int,
                    ));
                }
            }
        }
        i += 1;
    }
    let mut ranks: Vec<Wire> = Vec::new();
    let mut k: usize = 0;
    proof {
        assert(done == pairs(n as int)) by (nonlinear_arith)
            requires
                2 * done == n * (2 * n - n - 1),
        ;
        assert forall|l: int| 0 <= l < n implies #[trigger] ht@[l] is Some by {
            assert(ranks_hold(
                circuit.values(Seq::empty()),
                ht@,
                table_values(start.values(Seq::empty()), values@),
                c,
                n as int,
                n + 1,
                p,
            ));
            assert(touched(l, n as int, n + 1, n as int));
        }
    }
    while k < n
        invariant
            k <= n,
            ht@.len() == n,
            ranks@.len() == k,
            forall|l: int| 0 <= l < n ==> #[trigger] ht@[l] is Some,
            forall|l: int| 0 <= l < k ==> #[trigger] ranks@[l] == ht@[l].unwrap(),
        decreases n - k,
    {
        ranks.push(ht[k].unwrap());
        k += 1;
    }
    proof {
        if tidy {
            assert forall|l: int| 0 <= l < ranks@.len() implies (#[trigger] ranks@[l]) < forms(
                circuit@,
            ).len() && forms(circuit@)[ranks@[l] as int] == fresh() by {
                assert(ht@[l] is Some);
            }
        }
        assert forall|inputs: Seq<int>, l: int| 0 <= l < n implies (#[trigger] circuit.values(
            inputs,
        ))[#[trigger] ranks@[l] as int] == rank_value(
            table_values(start.values(inputs), values@),
            c,
            l,
            p,
        ) by {
            let vals = table_values(start.values(inputs), values@);
            assert(ranks_hold(circuit.values(inputs), ht@, vals, c, n as int, n + 1, p));
            assert(ht@[l] is Some);
        }
    }
    ranks
}

/// The powers `1, ..., p - 1` of the rank `r`, as residues.
pub open spec fn rank_powers(r: int, p: int) -> Seq<int> {
    Seq::new((p - 1) as nat, |e: int| pow_mod(r, (e + 1) as nat, p))
}

/// The candidates `0, ..., n - 1`, each weighted by the indicator that its
/// rank is `i`.
pub open spec fn select_sum(vals: Seq<int>, c: Seq<int>, i: int, p: int, n: nat) -> int
    decreases n,
{
    if n == 0 {
        0
    } else {
        select_sum(vals, c, i, p, (n - 1) as nat) + rank_match(
            rank_powers(rank_value(vals, c, n - 1, p), p),
            i,
            p,
        ) * vals[n - 1]
    }
}

/// What the sorting circuit puts out at position `i` for the plaintexts
/// `vals`.
pub open spec fn sorted_value(vals: Seq<int>, c: Seq<int>, i: int, p: int) -> int {
    select_sum(vals, c, i, p, vals.len()) % p
}

/// A selection over tables that carry the powers of the ranks is the
/// selection by rank.
proof fn lemma_selection_by_rank(
    regs: Seq<int>,
    tables: Seq<Vec<Wire>>,
    candidates: Seq<Wire>,
    vals: Seq<int>,
    c: Seq<int>,
    i: int,
    p: int,
    n: nat,
)
    requires
        n <= tables.len(),
        n <= candidates.len(),
        n <= vals.len(),
        forall|j: int|
            0 <= j < n ==> table_values(regs, (#[trigger] tables[j])@) == rank_powers(
                rank_value(vals, c, j, p),
                p,
            ),
        forall|j: int| 0 <= j < n ==> regs[#[trigger] candidates[j] as int] == vals[j],
    ensures
        selection(regs, tables, candidates, i, p, n) == select_sum(vals, c, i, p, n),
    decreases n,
{
    if n > 0 {
        lemma_selection_by_rank(regs, tables, candidates, vals, c, i, p, (n - 1) as nat);
        assert(table_values(regs, tables[n - 1]@) == rank_powers(
            rank_value(vals, c, n - 1, p),
            p,
        ));
        assert(regs[candidates[n - 1] as int] == vals[n - 1]);
    }
}

/// Records, for every rank, the table of its powers `1, ..., width`, each
/// table re-encoded for multiplication by plaintexts.
fn rank_tables(circuit: &mut Circuit, ranks: &Vec<Wire>, width: usize) -> (tables: Vec<Vec<Wire>>)
    requires
        old(circuit).wf(),
        width >= 1,
        forall|k: int| 0 <= k < ranks@.len() ==> #[trigger] ranks@[k] < old(circuit).spec_wires(),
    ensures
        final(circuit).wf(),
        final(circuit).keeps(*old(circuit), old(circuit).spec_wires()),
        final(circuit).spec_inputs() == old(circuit).spec_inputs(),
        tables@.len() == ranks@.len(),
        multiplications(final(circuit)@) == multiplications(old(circuit)@) + ranks@.len() * (
        width - 1),
        final(circuit).continues(*old(circuit)),
        disciplined(old(circuit)@) && all_in_form(forms(old(circuit)@), ranks@, fresh())
            ==> disciplined(final(circuit)@) && tables_in_form(
            forms(final(circuit)@),
            tables@,
            width as int,
            ready(),
        ),
        forall|k: int| 0 <= k < tables@.len() ==> (#[trigger] tables@[k])@.len() == width,
        forall|k: int, e: int|
            0 <= k < tables@.len() && 0 <= e < width ==> (#[trigger] tables@[k]@[e])
                < final(circuit).spec_wires(),
        forall|inputs: Seq<int>, k: int|
            0 <= k < tables@.len() ==> #[trigger] holds_powers(
                final(circuit).values(inputs),
                tables@[k]@,
                old(circuit).values(inputs)[ranks@[k] as int],
                old(circuit).spec_modulus(),
            ),
{
    let ghost start = *circuit;
    proof {
        start.lemma_continues_itself();
    }
    let ghost p = start.spec_modulus();
    let n: usize = ranks.len();
    let ghost tidy = disciplined(start@) && all_in_form(forms(start@), ranks@, fresh());
    let mut tables: Vec<Vec<Wire>> = Vec::new();
    let mut k: usize = 0;
    assert(0 * (width - 1) == 0);
    proof {
        start.lemma_forms_shape();
    }
    while k < n
        invariant
            k <= n,
            n == ranks@.len(),
            width >= 1,
            circuit.continues(start),
            forms(start@).len() == start.spec_wires(),
            tidy == (disciplined(start@) && all_in_form(forms(start@), ranks@, fresh())),
            tidy ==> disciplined(circuit@) && tables_in_form(
                forms(circuit@),
                tables@,
                width as int,
                ready(),
            ),
            multiplications(circuit@) == multiplications(start@) + k * (width - 1),
            p == start.spec_modulus(),
            start.wf(),
            circuit.wf(),
            circuit.keeps(start, start.spec_wires()),
            circuit.spec_inputs() == start.spec_inputs(),
            tables@.len() == k,
            forall|l: int| 0 <= l < n ==> #[trigger] ranks@[l] < start.spec_wires(),
            forall|l: int| 0 <= l < k ==> (#[trigger] tables@[l])@.len() == width,
            forall|l: int, e: int|
                0 <= l < k && 0 <= e < width ==> (#[trigger] tables@[l]@[e]) < circuit.spec_wires(),
            forall|inputs: Seq<int>, l: int|
                0 <= l < k ==> #[trigger] holds_powers(
                    circuit.values(inputs),
                    tables@[l]@,
                    start.values(inputs)[ranks@[l] as int],
                    p,
                ),
        decreases n - k,
    {
        let ghost mid = *circuit;
        let ghost done = tables@;
        let powers: Vec<Wire> = powers_of_x(circuit, ranks[k], width).unwrap();
        let ghost mid2 = *circuit;
        to_evaluation(
            circuit,
            &powers,
            Ghost(mid.spec_wires()),
            Ghost(mid.spec_wires() + width),
        );
        tables.push(powers);
        assert((k + 1) * (width - 1) == k * (width - 1) + (width - 1)) by (nonlinear_arith);
        proof {
            mid.lemma_forms_shape();
            mid2.lemma_forms_shape();
            assert(circuit.continues(start)) by {
                mid2.lemma_continues_transitive(mid, start);
                circuit.lemma_extends_transitive(mid2, start);
                assert forall|w: int| 0 <= w < forms(start@).len() implies #[trigger] forms(
                    circuit@,
                )[w] == forms(start@)[w] by {
                    assert(forms(mid@)[w] == forms(start@)[w]);
                    assert(forms(mid2@)[w] == forms(mid@)[w]);
                }
            }
            if tidy {
                assert(forms(start@)[ranks@[k as int] as int] == fresh());
                assert(forms(mid@)[ranks@[k as int] as int] == fresh());
                let latest = tables@[k as int]@;
                assert(all_at_base(forms(mid2@), latest)) by {
                    assert forall|r: int| 0 <= r < latest.len() implies (#[trigger] latest[r])
                        < forms(mid2@).len() && forms(mid2@)[latest[r] as int].size is Base by {
                        assert(forms(mid2@)[latest[r] as int] == fresh());
                    }
                }
                assert forall|l: int, e: int| 0 <= l < k + 1 && 0 <= e < width implies (
                #[trigger] tables@[l]@[e]) < forms(circuit@).len() && forms(
                    circuit@,
                )[tables@[l]@[e] as int] == ready() by {
                    if l < k {
                        assert(tables@[l] == done[l]);
                        assert(done[l]@[e] < mid.spec_wires());
                        assert(forms(mid@)[done[l]@[e] as int] == ready());
                        assert(forms(mid2@)[done[l]@[e] as int] == forms(
                            mid@,
                        )[done[l]@[e] as int]);
                    } else {
                        assert(forms(circuit@)[latest[e] as int] == ready());
                    }
                }
            }
            circuit.lemma_keeps_below(mid2, mid2.spec_wires(), mid.spec_wires());
            circuit.lemma_keeps_transitive(mid2, mid, mid.spec_wires());
            circuit.lemma_keeps_below(mid, mid.spec_wires(), start.spec_wires());
            circuit.lemma_keeps_transitive(mid, start, start.spec_wires());
            assert forall|l: int, e: int| 0 <= l < k + 1 && 0 <= e < width implies (
            #[trigger] tables@[l]@[e]) < circuit.spec_wires() by {
                if l < k {
                    assert(tables@[l] == done[l]);
                    assert(done[l]@[e] < mid.spec_wires());
                }
            }
            assert forall|inputs: Seq<int>, l: int| 0 <= l < k + 1 implies #[trigger] holds_powers(
                circuit.values(inputs),
                tables@[l]@,
                start.values(inputs)[ranks@[l] as int],
                p,
            ) by {
                circuit.lemma_values_shape(inputs);
                let table = tables@[l]@;
                let seed = start.values(inputs)[ranks@[l] as int];
                if l < k {
                    assert(tables@[l] == done[l]);
                    assert(holds_powers(mid.values(inputs), done[l]@, seed, p));
                    assert forall|r: int| 0 <= r < table.len() implies (#[trigger] table[r])
                        < circuit.values(inputs).len() && circuit.values(inputs)[table[r] as int]
                        == pow_mod(seed, (r + 1) as nat, p) by {
                        assert(done[l]@[r] < mid.spec_wires());
                        assert(circuit.values(inputs)[table[r] as int] == mid.values(
                            inputs,
                        )[table[r] as int]);
                    }
                } else {
                    assert(mid.values(inputs)[ranks@[l] as int] == seed);
                    assert forall|r: int| 0 <= r < table.len() implies (#[trigger] table[r])
                        < circuit.values(inputs).len() && circuit.values(inputs)[table[r] as int]
                        == pow_mod(seed, (r + 1) as nat, p) by {
                        assert(mid2.values(inputs)[table[r] as int] == pow_mod(
                            mid.values(inputs)[ranks@[l] as int],
                            (r + 1) as nat,
                            p,
                        ));
                    }
                }
            }
        }
        k += 1;
    }
    tables
}

/// The number of multiplications of two ciphertexts that sorting `n >= 2`
/// candidates takes modulo `p`: one comparison per pair, `p - 2` for the
/// powers of every rank, and one per candidate and output position.
pub open spec fn sort_multiplications(n: int, p: int) -> int {
    pairs(n) * comparison_multiplications(p) + n * (p - 2) + n * n
}

/// Records the sorting of the ciphertexts on `values` into descending order
/// and returns the wires of the outputs, largest first.
///
/// Fewer than two inputs are returned as they are, and nothing is recorded.
/// Otherwise every pair `(i, j)` with `i < j` is compared once, the outcome
/// added to the rank of `i` and one minus the outcome to the rank of `j`;
/// the table of the powers `1, ..., p - 1` of every rank is built and
/// re-encoded for multiplication by plaintexts; and every output position
/// selects the input of that rank. The coefficients and the modulus are
/// checked as for a single comparison, before anything is recorded.
///
/// On at most `p` plaintexts that can be compared with each other the
/// outputs are the inputs in descending order: see `lemma_sort_descending`
/// and `lemma_sort_permutes`.
pub fn sort(circuit: &mut Circuit, values: &[Wire], coefficients: &[u64]) -> (made: Result<
    Vec<Wire>,
    CircuitError,
>)
    requires
        old(circuit).wf(),
        old(circuit).spec_modulus() - 1 <= usize::MAX,
        forall|k: int| 0 <= k < values@.len() ==> #[trigger] values@[k] < old(circuit).spec_wires(),
    ensures
        final(circuit).wf(),
        final(circuit).keeps(*old(circuit), old(circuit).spec_wires()),
        final(circuit).spec_inputs() == old(circuit).spec_inputs(),
        final(circuit).continues(*old(circuit)),
        disciplined(old(circuit)@) && all_in_form(forms(old(circuit)@), values@, fresh())
            ==> disciplined(final(circuit)@) && (made matches Ok(sorted) ==> all_in_form(
            forms(final(circuit)@),
            sorted@,
            fresh(),
        )),
        made is Err <==> values@.len() >= 2 && (old(circuit).spec_modulus() == 2
            || coefficients@.len() != (old(circuit).spec_modulus() - 1) / 2),
        made matches Err(e) ==> {
            &&& final(circuit)@ == old(circuit)@
            &&& e == if old(circuit).spec_modulus() == 2 {
                CircuitError::ModulusTooSmall
            } else {
                CircuitError::ModulusMismatch
            }
        },
        made matches Ok(sorted) ==> {
            &&& sorted@.len() == values@.len()
            &&& values@.len() <= 1 ==> sorted@ == values@ && final(circuit)@ == old(circuit)@
            &&& values@.len() >= 2 ==> multiplications(final(circuit)@) == multiplications(
                old(circuit)@,
            ) + sort_multiplications(values@.len() as int, old(circuit).spec_modulus())
            &&& values@.len() >= 2 ==> forall|i: int|
                0 <= i < sorted@.len() ==> old(circuit).spec_wires() <= #[trigger] sorted@[i]
                    < final(circuit).spec_wires()
            &&& values@.len() >= 2 ==> forall|inputs: Seq<int>, i: int|
                0 <= i < sorted@.len() ==> (#[trigger] final(circuit).values(
                    inputs,
                ))[#[trigger] sorted@[i] as int] == sorted_value(
                    table_values(old(circuit).values(inputs), values@),
                    residues(coefficients@),
                    i,
                    old(circuit).spec_modulus(),
                )
        },
{
    let ghost start = *circuit;
    proof {
        start.lemma_continues_itself();
    }
    let ghost pi = start.spec_modulus();
    let ghost c = residues(coefficients@);
    let ghost vals_of = |inputs: Seq<int>| table_values(start.values(inputs), values@);
    let ghost tidy = disciplined(start@) && all_in_form(forms(start@), values@, fresh());
    let n: usize = values.len();
    let mut sorted: Vec<Wire> = Vec::new();
    if n <= 1 {
        if n == 1 {
            sorted.push(values[0]);
        }
        assert(sorted@ =~= values@);
        return Ok(sorted);
    }
    let p: u64 = circuit.modulus();
    if p == 2 {
        return Err(CircuitError::ModulusTooSmall);
    }
    if coefficients.len() as u64 != (p - 1) / 2 {
        return Err(CircuitError::ModulusMismatch);
    }
    let ranks: Vec<Wire> = rank_all(circuit, values, coefficients);
    let ghost ranked = *circuit;
    let width: usize = (p - 1) as usize;
    let tables: Vec<Vec<Wire>> = rank_tables(circuit, &ranks, width);
    let ghost tabled = *circuit;
    proof {
        tabled.lemma_keeps_below(ranked, ranked.spec_wires(), start.spec_wires());
        tabled.lemma_keeps_transitive(ranked, start, start.spec_wires());
        tabled.lemma_continues_transitive(ranked, start);
        tabled.lemma_continues_itself();
        tabled.lemma_forms_shape();
        if tidy {
            tabled.lemma_all_in_form_kept(start, values@, fresh());
        }
    }
    let mut i: usize = 0;
    assert(0 * n == 0);
    while i < n
        invariant
            i <= n,
            n == values@.len(),
            n >= 2,
            width == pi - 1,
            multiplications(circuit@) == multiplications(tabled@) + i * n,
            multiplications(tabled@) == multiplications(start@) + pairs(n as int)
                * comparison_multiplications(pi) + n * (pi - 2),
            circuit.continues(tabled),
            tabled.continues(start),
            forms(tabled@).len() == tabled.spec_wires(),
            tidy == (disciplined(start@) && all_in_form(forms(start@), values@, fresh())),
            tidy ==> disciplined(circuit@) && tables_in_form(
                forms(tabled@),
                tables@,
                width as int,
                ready(),
            ) && all_in_form(forms(tabled@), values@, fresh()) && all_in_form(
                forms(circuit@),
                sorted@,
                fresh(),
            ),
            pi == start.spec_modulus(),
            c == residues(coefficients@),
            vals_of == (|inputs: Seq<int>| table_values(start.values(inputs), values@)),
            start.wf(),
            tabled.wf(),
            ranked.wf(),
            circuit.wf(),
            circuit.keeps(tabled, tabled.spec_wires()),
            tabled.keeps(start, start.spec_wires()),
            tabled.keeps(ranked, ranked.spec_wires()),
            circuit.spec_inputs() == start.spec_inputs(),
            sorted@.len() == i,
            tables@.len() == n,
            ranks@.len() == n,
            forall|k: int| 0 <= k < n ==> #[trigger] values@[k] < start.spec_wires(),
            forall|k: int| 0 <= k < n ==> #[trigger] ranks@[k] < ranked.spec_wires(),
            forall|k: int| 0 <= k < n ==> (#[trigger] tables@[k])@.len() == width,
            forall|k: int, e: int|
                0 <= k < n && 0 <= e < width ==> (#[trigger] tables@[k]@[e]) < tabled.spec_wires(),
            forall|inputs: Seq<int>, k: int|
                0 <= k < n ==> #[trigger] holds_powers(
                    tabled.values(inputs),
                    tables@[k]@,
                    ranked.values(inputs)[ranks@[k] as int],
                    pi,
                ),
            forall|inputs: Seq<int>, k: int|
                0 <= k < n ==> (#[trigger] ranked.values(inputs))[#[trigger] ranks@[k] as int]
                    == rank_value(vals_of(inputs), c, k, pi),
            forall|l: int|
                0 <= l < i ==> start.spec_wires() <= #[trigger] sorted@[l] < circuit.spec_wires(),
            forall|inputs: Seq<int>, l: int|
                0 <= l < i ==> (#[trigger] circuit.values(inputs))[#[trigger] sorted@[l] as int]
                    == sorted_value(vals_of(inputs), c, l, pi),
        decreases n - i,
    {
        let ghost mid = *circuit;
        let ghost done = sorted@;
        proof {
            mid.lemma_forms_shape();
            if tidy {
                mid.lemma_all_in_form_kept(tabled, values@, fresh());
                assert(tables_in_form(forms(mid@), tables@, pi - 1, ready())) by {
                    assert forall|j: int, e: int|
                        0 <= j < tables@.len() && 0 <= e < pi - 1 implies (
                    #[trigger] tables@[j]@[e]) < forms(mid@).len() && forms(
                        mid@,
                    )[tables@[j]@[e] as int] == ready() by {
                        assert(forms(tabled@)[tables@[j]@[e] as int] == ready());
                    }
                }
            }
        }
        let wire: Wire = sort_equality_subroutine(circuit, i, tables.as_slice(), values);
        sorted.push(wire);
        assert((i + 1) * n == i * n + n) by (nonlinear_arith);
        proof {
            circuit.lemma_continues_transitive(mid, tabled);
            circuit.lemma_forms_shape();
            if tidy {
                assert forall|l: int| 0 <= l < sorted@.len() implies (#[trigger] sorted@[l])
                    < forms(circuit@).len() && forms(circuit@)[sorted@[l] as int] == fresh() by {
                    if l < i {
                        assert(sorted@[l] == done[l]);
                        assert(done[l] < mid.spec_wires());
                        assert(forms(mid@)[done[l] as int] == fresh());
                        assert(forms(circuit@)[done[l] as int] == forms(mid@)[done[l] as int]);
                    } else {
                        assert(sorted@[l] == wire);
                    }
                }
            }
            circuit.lemma_keeps_below(mid, mid.spec_wires(), tabled.spec_wires());
            circuit.lemma_keeps_transitive(mid, tabled, tabled.spec_wires());
            assert forall|inputs: Seq<int>, l: int| 0 <= l < i + 1 implies (
            #[trigger] circuit.values(inputs))[#[trigger] sorted@[l] as int] == sorted_value(
                vals_of(inputs),
                c,
                l,
                pi,
            ) by {
                if l < i {
                    assert(sorted@[l] == done[l]);
                    assert(mid.values(inputs)[done[l] as int] == sorted_value(
                        vals_of(inputs),
                        c,
                        l,
                        pi,
                    ));
                } else {
                    let regs = mid.values(inputs);
                    let vals = vals_of(inputs);
                    assert forall|j: int| 0 <= j < n implies table_values(
                        regs,
                        (#[trigger] tables@[j])@,
                    ) == rank_powers(rank_value(vals, c, j, pi), pi) by {
                        let table = tables@[j]@;
                        let r = ranked.values(inputs)[ranks@[j] as int];
                        assert(r == rank_value(vals, c, j, pi));
                        assert(holds_powers(tabled.values(inputs), table, r, pi));
                        assert forall|e: int| 0 <= e < width implies table_values(regs, table)[e]
                            == rank_powers(r, pi)[e] by {
                            assert(table[e] < tabled.spec_wires());
                            assert(regs[table[e] as int] == tabled.values(inputs)[table[e] as int]);
                        }
                        assert(table_values(regs, table) =~= rank_powers(r, pi));
                    }
                    assert forall|j: int| 0 <= j < n implies regs[#[trigger] values@[j] as int]
                        == vals[j] by {
                        assert(regs[values@[j] as int] == tabled.values(inputs)[values@[j] as int]);
                        assert(tabled.values(inputs)[values@[j] as int] == start.values(
                            inputs,
                        )[values@[j] as int]);
                    }
                    lemma_selection_by_rank(
                        regs,
                        tables@,
                        values@,
                        vals,
                        c,
                        i as int,
                        pi,
                        n as nat,
                    );
                }
            }
        }
        i += 1;
    }
    proof {
        circuit.lemma_keeps_below(tabled, tabled.spec_wires(), start.spec_wires());
        circuit.lemma_keeps_transitive(tabled, start, start.spec_wires());
        circuit.lemma_continues_transitive(tabled, start);
    }
    Ok(sorted)
}

} // verus!
