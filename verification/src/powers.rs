//! All powers of an encrypted value up to a bound, by a shared
//! square-and-multiply schedule.
//!
//! Every power is produced by exactly one multiplication of two powers that
//! were produced before it, and the two factors of a power are fixed by its
//! exponent alone: a power of two is the square of the power of half its
//! exponent, and any other exponent splits into its leading binary digit and
//! the rest.

use crate::circuit::{
    disciplined, forms, fresh, multiplications, Circuit, CircuitError, Step, Wire,
};
use crate::field::{lemma_pow_mod_adds, mul_mod, pow_mod};
use vstd::prelude::*;

verus! {

/// `n` is a power of two.
pub open spec fn is_power_of_two(n: nat) -> bool
    decreases n,
{
    n == 1 || (n >= 2 && n % 2 == 0 && is_power_of_two(n / 2))
}

/// The largest power of two that does not exceed `d` (1 for `d = 0`).
pub open spec fn leading_bit(d: nat) -> nat
    decreases d,
{
    if d <= 1 {
        1
    } else {
        2 * leading_bit(d / 2)
    }
}

/// Exponent of the first factor of the power `d >= 2`.
pub open spec fn left_part(d: nat) -> nat {
    if d == leading_bit(d) {
        d / 2
    } else {
        (d - leading_bit(d)) as nat
    }
}

/// Exponent of the second factor of the power `d >= 2`.
pub open spec fn right_part(d: nat) -> nat {
    if d == leading_bit(d) {
        d / 2
    } else {
        leading_bit(d)
    }
}

/// A power of two is the leading bit of every number from itself up to, but
/// not including, its double.
pub proof fn lemma_leading_bit(b: nat, a: nat)
    requires
        is_power_of_two(b),
        a < b,
    ensures
        leading_bit(a + b) == b,
    decreases b,
{
    if b >= 2 {
        lemma_leading_bit(b / 2, a / 2);
        assert((a + b) / 2 == a / 2 + b / 2);
    }
}

/// The two factors of a power have positive exponents that add up to it, and
/// the leading bit is a power of two.
pub proof fn lemma_parts(d: nat)
    requires
        d >= 2,
    ensures
        1 <= left_part(d) < d,
        1 <= right_part(d) < d,
        left_part(d) + right_part(d) == d,
        leading_bit(d) <= d < 2 * leading_bit(d),
        is_power_of_two(leading_bit(d)),
    decreases d,
{
    if d >= 4 {
        lemma_parts(d / 2);
    } else {
        reveal_with_fuel(leading_bit, 3);
        reveal_with_fuel(is_power_of_two, 3);
    }
}

/// The number of binary digits of `d` after the leading one.
pub open spec fn digits_below_leading(d: nat) -> nat
    decreases d,
{
    if d <= 1 {
        0
    } else {
        1 + digits_below_leading(d / 2)
    }
}

/// The number of multiplications on the longest chain from the seed to the
/// power `d`, when every power is the product of its two parts.
pub open spec fn depth_of_power(d: nat) -> nat
    decreases d,
{
    if d <= 1 {
        0
    } else if 1 <= left_part(d) < d && 1 <= right_part(d) < d {
        let left = depth_of_power(left_part(d));
        let right = depth_of_power(right_part(d));
        1 + if left >= right {
            left
        } else {
            right
        }
    } else {
        0
    }
}

/// The leading bit has as many digits below its leading one as the number
/// itself, and a number below a power of two has fewer than that power.
proof fn lemma_digits(d: nat)
    requires
        d >= 1,
    ensures
        digits_below_leading(leading_bit(d)) == digits_below_leading(d),
        leading_bit(leading_bit(d)) == leading_bit(d),
        forall|e: nat|
            1 <= e < leading_bit(d) ==> #[trigger] digits_below_leading(e) < digits_below_leading(
                d,
            ),
    decreases d,
{
    if d >= 2 {
        lemma_digits(d / 2);
        assert(leading_bit(d) / 2 == leading_bit(d / 2));
        assert forall|e: nat| 1 <= e < leading_bit(d) implies #[trigger] digits_below_leading(e)
            < digits_below_leading(d) by {
            if e >= 2 {
                assert(1 <= e / 2 < leading_bit(d / 2));
                assert(digits_below_leading(e / 2) < digits_below_leading(d / 2));
            }
        }
    }
}

/// The schedule keeps the chains of multiplications short.
///
/// Every power `d` is reached from the seed by at most one multiplication
/// more than `d` has binary digits after its leading one, and a power of two
/// by exactly that many.
pub proof fn lemma_depth_of_power(d: nat)
    requires
        d >= 1,
    ensures
        depth_of_power(d) <= digits_below_leading(d) + 1,
        d == leading_bit(d) ==> depth_of_power(d) == digits_below_leading(d),
    decreases d,
{
    if d >= 2 {
        lemma_parts(d);
        lemma_digits(d);
        let top = leading_bit(d);
        lemma_depth_of_power(left_part(d));
        lemma_depth_of_power(right_part(d));
        if d == top {
            assert(left_part(d) == d / 2);
            lemma_digits(d / 2);
            assert(leading_bit(d / 2) == d / 2);
        } else {
            let rest = (d - top) as nat;
            assert(rest < top);
            assert(digits_below_leading(rest) < digits_below_leading(d));
            lemma_digits(top);
            assert(leading_bit(top) == top);
            assert(depth_of_power(top) == digits_below_leading(top));
        }
    }
}

/// How a finished table of powers sits in a circuit.
///
/// `table[k]` is the wire of the power `k + 1`. The table occupies the
/// `table.len()` wires from `first_wire` on, created by the steps from
/// `first_step` on: one copy of the seed `x`, then one multiplication per
/// further power, whose factors are the powers `left_part` and `right_part`
/// of its exponent.
pub open spec fn power_table(
    steps: Seq<Step>,
    table: Seq<Wire>,
    x: Wire,
    first_wire: int,
    first_step: int,
) -> bool {
    &&& table.len() >= 1
    &&& steps.len() == first_step + table.len()
    &&& table[0] == first_wire
    &&& steps[first_step] == (Step::Duplicate { source: x })
    &&& forall|k: int|
        0 <= k < table.len() ==> first_wire <= #[trigger] table[k] < first_wire + table.len()
    &&& forall|j: int, k: int|
        0 <= j < k < table.len() ==> #[trigger] table[j] != #[trigger] table[k]
    &&& forall|d: int|
        2 <= d <= table.len() ==> #[trigger] made_by_product(
            steps,
            table,
            first_wire,
            first_step,
            d,
        )
}

/// The wire of the power `d` was created by the multiplication of the two
/// parts of `d`.
pub open spec fn made_by_product(
    steps: Seq<Step>,
    table: Seq<Wire>,
    first_wire: int,
    first_step: int,
    d: int,
) -> bool {
    steps[first_step + table[d - 1] - first_wire] == (Step::Multiply {
        left: table[left_part(d as nat) - 1],
        right: table[right_part(d as nat) - 1],
    })
}

/// Number of filled entries of a partly built table.
pub open spec fn filled(table: Seq<Option<Wire>>) -> nat
    decreases table.len(),
{
    if table.len() == 0 {
        0
    } else {
        filled(table.drop_last()) + if table.last() is Some {
            1nat
        } else {
            0nat
        }
    }
}

/// Filling an empty entry raises the count by one.
proof fn lemma_filled_update(table: Seq<Option<Wire>>, k: int, w: Wire)
    requires
        0 <= k < table.len(),
        table[k] is None,
    ensures
        filled(table.update(k, Some(w))) == filled(table) + 1,
    decreases table.len(),
{
    let after = table.update(k, Some(w));
    if k == table.len() - 1 {
        assert(after.drop_last() =~= table.drop_last());
    } else {
        assert(after.drop_last() =~= table.drop_last().update(k, Some(w)));
        lemma_filled_update(table.drop_last(), k, w);
    }
}

/// The count never exceeds the length and reaches it only when every entry
/// is filled.
proof fn lemma_filled_bound(table: Seq<Option<Wire>>)
    ensures
        filled(table) <= table.len(),
        (forall|k: int| 0 <= k < table.len() ==> #[trigger] table[k] is Some) ==> filled(table)
            == table.len(),
        (forall|k: int| 0 <= k < table.len() ==> #[trigger] table[k] is None) ==> filled(table)
            == 0,
    decreases table.len(),
{
    if table.len() > 0 {
        lemma_filled_bound(table.drop_last());
        assert(forall|k: int|
            0 <= k < table.drop_last().len() ==> table.drop_last()[k] == table[k]);
    }
}

/// What holds of a partly built table at every point of the schedule.
///
/// The filled entries are distinct wires among those created since
/// `first_wire`; entry 0 is the copy of the seed; every other filled entry
/// was created by the multiplication of the two parts of its exponent, both
/// filled.
pub open spec fn partial_table(
    steps: Seq<Step>,
    table: Seq<Option<Wire>>,
    x: Wire,
    first_wire: int,
    first_step: int,
) -> bool {
    &&& table.len() >= 1
    &&& steps.len() == first_step + filled(table)
    &&& table[0] == Some(first_wire as usize)
    &&& steps[first_step] == (Step::Duplicate { source: x })
    &&& forall|k: int|
        0 <= k < table.len() && (#[trigger] table[k]) is Some ==> first_wire <= table[k].unwrap()
            < first_wire + filled(table)
    &&& forall|j: int, k: int|
        0 <= j < k < table.len() && (#[trigger] table[j]) is Some && (#[trigger] table[k]) is Some
            ==> table[j].unwrap() != table[k].unwrap()
    &&& forall|d: int|
        2 <= d <= table.len() && table[d - 1] is Some ==> #[trigger] filled_by_product(
            steps,
            table,
            first_wire,
            first_step,
            d,
        )
}

/// The filled entry for the power `d` was created by the multiplication of
/// the two parts of `d`, both filled.
pub open spec fn filled_by_product(
    steps: Seq<Step>,
    table: Seq<Option<Wire>>,
    first_wire: int,
    first_step: int,
    d: int,
) -> bool {
    &&& table[left_part(d as nat) - 1] is Some
    &&& table[right_part(d as nat) - 1] is Some
    &&& steps[first_step + table[d - 1].unwrap() - first_wire] == (Step::Multiply {
        left: table[left_part(d as nat) - 1].unwrap(),
        right: table[right_part(d as nat) - 1].unwrap(),
    })
}

/// Recording the product of two filled powers as the power of the summed
/// exponent keeps the table's structure.
proof fn lemma_partial_table_product(
    steps: Seq<Step>,
    table: Seq<Option<Wire>>,
    x: Wire,
    first_wire: int,
    first_step: int,
    a: int,
    b: int,
    wire: Wire,
)
    requires
        partial_table(steps, table, x, first_wire, first_step),
        first_step >= 0,
        1 <= a,
        1 <= b,
        a + b <= table.len(),
        table[a - 1] is Some,
        table[b - 1] is Some,
        table[a + b - 1] is None,
        left_part((a + b) as nat) == a,
        right_part((a + b) as nat) == b,
        wire == first_wire + filled(table),
    ensures
        partial_table(
            steps.push(
                Step::Multiply { left: table[a - 1].unwrap(), right: table[b - 1].unwrap() },
            ),
            table.update(a + b - 1, Some(wire)),
            x,
            first_wire,
            first_step,
        ),
        filled(table.update(a + b - 1, Some(wire))) == filled(table) + 1,
{
    let step = Step::Multiply { left: table[a - 1].unwrap(), right: table[b - 1].unwrap() };
    let grown = steps.push(step);
    let after = table.update(a + b - 1, Some(wire));
    lemma_filled_update(table, a + b - 1, wire);
    lemma_filled_bound(table);
    assert(table[0] is Some);
    assert(filled(table) >= 1) by {
        if filled(table) == 0 {
            assert(first_wire <= table[0].unwrap() < first_wire + 0);
        }
    }
    assert forall|d: int| 2 <= d <= after.len() && after[d - 1] is Some implies #[trigger]
        filled_by_product(grown, after, first_wire, first_step, d) by {
        lemma_parts(d as nat);
        if d != a + b {
            assert(table[d - 1] is Some);
            assert(filled_by_product(steps, table, first_wire, first_step, d));
            assert(first_wire <= table[d - 1].unwrap() < first_wire + filled(table));
        }
    }
    assert forall|j: int, k: int|
        0 <= j < k < after.len() && (#[trigger] after[j]) is Some && (#[trigger] after[k])
            is Some implies after[j].unwrap() != after[k].unwrap() by {
        if j != a + b - 1 {
            assert(table[j] is Some);
        }
        if k != a + b - 1 {
            assert(table[k] is Some);
        }
    }
    assert forall|k: int| 0 <= k < after.len() && (#[trigger] after[k]) is Some implies first_wire
        <= after[k].unwrap() < first_wire + filled(after) by {
        if k != a + b - 1 {
            assert(table[k] is Some);
        }
    }
}

/// The filled entries hold the powers of `seed` that they stand for.
pub open spec fn powers_hold(regs: Seq<int>, table: Seq<Option<Wire>>, seed: int, p: int) -> bool {
    forall|d: int|
        1 <= d <= table.len() && (#[trigger] table[d - 1]) is Some ==> {
            &&& table[d - 1].unwrap() < regs.len()
            &&& regs[table[d - 1].unwrap() as int] == pow_mod(seed, d as nat, p)
        }
}

/// Multiplying two filled powers fills the power of the summed exponent.
proof fn lemma_powers_hold_product(
    regs: Seq<int>,
    table: Seq<Option<Wire>>,
    seed: int,
    p: int,
    a: int,
    b: int,
)
    requires
        p > 0,
        powers_hold(regs, table, seed, p),
        1 <= a,
        1 <= b,
        a + b <= table.len(),
        table[a - 1] is Some,
        table[b - 1] is Some,
        regs.len() <= usize::MAX,
    ensures
        powers_hold(
            regs.push(
                mul_mod(
                    regs[table[a - 1].unwrap() as int],
                    regs[table[b - 1].unwrap() as int],
                    p,
                ),
            ),
            table.update(a + b - 1, Some(regs.len() as usize)),
            seed,
            p,
        ),
{
    lemma_pow_mod_adds(seed, a as nat, b as nat, p);
    let after = table.update(a + b - 1, Some(regs.len() as usize));
    let grown = regs.push(
        mul_mod(regs[table[a - 1].unwrap() as int], regs[table[b - 1].unwrap() as int], p),
    );
    assert forall|d: int| 1 <= d <= after.len() && (#[trigger] after[d - 1]) is Some implies {
        &&& after[d - 1].unwrap() < grown.len()
        &&& grown[after[d - 1].unwrap() as int] == pow_mod(seed, d as nat, p)
    } by {
        if d != a + b {
            assert(table[d - 1] is Some);
        }
    }
}

/// Every filled entry is a fresh-form ciphertext.
pub open spec fn fresh_entries(held: Seq<crate::circuit::Form>, table: Seq<Option<Wire>>) -> bool {
    forall|d: int|
        0 <= d < table.len() && (#[trigger] table[d]) is Some ==> table[d].unwrap() < held.len()
            && held[table[d].unwrap() as int] == fresh()
}

/// Everything that holds while the table for the seed `x` of `start` is
/// being built in `circuit`.
pub open spec fn building(
    circuit: Circuit,
    table: Seq<Option<Wire>>,
    start: Circuit,
    x: Wire,
) -> bool {
    &&& circuit.wf()
    &&& start.wf()
    &&& x < start.spec_wires()
    &&& circuit.keeps(start, start.spec_wires())
    &&& circuit.spec_inputs() == start.spec_inputs()
    &&& circuit.spec_wires() == start.spec_wires() + filled(table)
    &&& multiplications(circuit@) + 1 == multiplications(start@) + filled(table)
    &&& circuit.continues(start)
    &&& disciplined(start@) && forms(start@)[x as int] == fresh() ==> disciplined(circuit@)
        && fresh_entries(forms(circuit@), table)
    &&& partial_table(circuit@, table, x, start.spec_wires(), start@.len() as int)
    &&& forall|inputs: Seq<int>| #[trigger]
        powers_hold(
            circuit.values(inputs),
            table,
            start.values(inputs)[x as int],
            start.spec_modulus(),
        )
}

/// Records the multiplication of the powers `a` and `b` and enters its wire
/// as the power `a + b`.
fn fill_product(
    circuit: &mut Circuit,
    table: &mut Vec<Option<Wire>>,
    a: usize,
    b: usize,
    Ghost(start): Ghost<Circuit>,
    Ghost(x): Ghost<Wire>,
)
    requires
        building(*old(circuit), old(table)@, start, x),
        1 <= a,
        1 <= b,
        a + b <= old(table)@.len(),
        old(table)@[a - 1] is Some,
        old(table)@[b - 1] is Some,
        old(table)@[a + b - 1] is None,
        left_part((a + b) as nat) == a,
        right_part((a + b) as nat) == b,
    ensures
        building(*final(circuit), final(table)@, start, x),
        final(table)@.len() == old(table)@.len(),
        final(table)@[a + b - 1] is Some,
        forall|k: int|
            0 <= k < old(table)@.len() && old(table)@[k] is Some ==> #[trigger] final(table)@[k]
                is Some,
{
    let ghost mid = *circuit;
    let ghost before = table@;
    let ghost p = start.spec_modulus();
    let entries: usize = table.len();
    let left: Wire = table[a - 1].unwrap();
    let right: Wire = table[b - 1].unwrap();
    let wire: Wire = circuit.multiply(left, right);
    table.set(a + b - 1, Some(wire));
    proof {
        let after = table@;
        lemma_partial_table_product(
            mid@,
            before,
            x,
            start.spec_wires(),
            start@.len() as int,
            a as int,
            b as int,
            wire,
        );
        assert forall|inputs: Seq<int>| #[trigger]
            powers_hold(circuit.values(inputs), after, start.values(inputs)[x as int], p) by {
            assert(powers_hold(mid.values(inputs), before, start.values(inputs)[x as int], p));
            lemma_powers_hold_product(
                mid.values(inputs),
                before,
                start.values(inputs)[x as int],
                p,
                a as int,
                b as int,
            );
        }
        assert forall|inputs: Seq<int>, w: int| 0 <= w < start.spec_wires() implies (
        #[trigger] circuit.values(inputs))[w] == #[trigger] start.values(inputs)[w] by {
            assert(mid.values(inputs)[w] == start.values(inputs)[w]);
        }
        circuit.lemma_continues_step(mid, Step::Multiply { left, right }, start);
        if disciplined(start@) && forms(start@)[x as int] == fresh() {
            assert(fresh_entries(forms(mid@), before));
            assert(before[a - 1] is Some && before[b - 1] is Some);
            assert forall|d: int| 0 <= d < after.len() && (#[trigger] after[d]) is Some implies
                after[d].unwrap() < forms(circuit@).len() && forms(
                circuit@,
            )[after[d].unwrap() as int] == fresh() by {
                if d != a + b - 1 {
                    assert(before[d] is Some);
                }
            }
        }
    }
}

/// Records the computation of `x^1, ..., x^max` and returns their wires in
/// that order.
///
/// The target exponents are visited from `max` down to 2. Each is read from
/// its lowest binary digit up, doubling a running power of two and adding it
/// to a running remainder on every set digit; a power that an earlier target
/// already produced is not produced again.
pub fn powers_of_x(circuit: &mut Circuit, x: Wire, max: usize) -> (made: Result<
    Vec<Wire>,
    CircuitError,
>)
    requires
        old(circuit).wf(),
        x < old(circuit).spec_wires(),
    ensures
        final(circuit).wf(),
        final(circuit).keeps(*old(circuit), old(circuit).spec_wires()),
        final(circuit).spec_inputs() == old(circuit).spec_inputs(),
        made is Err <==> max == 0,
        made matches Err(e) ==> e == CircuitError::EmptyPowerTable && final(circuit)@ == old(
            circuit,
        )@ && final(circuit).spec_wires() == old(circuit).spec_wires(),
        final(circuit).continues(*old(circuit)),
        made matches Ok(table) ==> {
            &&& table@.len() == max
            &&& final(circuit).spec_wires() == old(circuit).spec_wires() + max
            &&& multiplications(final(circuit)@) == multiplications(old(circuit)@) + max - 1
            &&& disciplined(old(circuit)@) && forms(old(circuit)@)[x as int] == fresh()
                ==> disciplined(final(circuit)@) && forall|k: int|
                0 <= k < max ==> forms(final(circuit)@)[#[trigger] table@[k] as int] == fresh()
            &&& power_table(
                final(circuit)@,
                table@,
                x,
                old(circuit).spec_wires(),
                old(circuit)@.len() as int,
            )
            &&& forall|inputs: Seq<int>, k: int|
                0 <= k < max ==> (#[trigger] final(circuit).values(inputs))[#[trigger] table@[k]
                    as int] == pow_mod(
                    old(circuit).values(inputs)[x as int],
                    (k + 1) as nat,
                    old(circuit).spec_modulus(),
                )
        },
{
    let ghost start = *circuit;
    proof {
        start.lemma_continues_itself();
    }
    let ghost p = start.spec_modulus();
    if max == 0 {
        proof {
            start.lemma_continues_itself();
        }
        return Err(CircuitError::EmptyPowerTable);
    }
    let mut table: Vec<Option<Wire>> = Vec::new();
    while table.len() < max
        invariant
            table@.len() <= max,
            forall|k: int| 0 <= k < table@.len() ==> #[trigger] table@[k] is None,
        decreases max - table@.len(),
    {
        table.push(None);
    }
    let seed: Wire = circuit.duplicate(x);
    proof {
        lemma_filled_bound(table@);
        lemma_filled_update(table@, 0, seed);
    }
    table.set(0, Some(seed));
    proof {
        start.lemma_continues_itself();
        circuit.lemma_continues_step(start, Step::Duplicate { source: x }, start);
        if disciplined(start@) && forms(start@)[x as int] == fresh() {
            assert(fresh_entries(forms(circuit@), table@));
        }
        assert forall|inputs: Seq<int>| #[trigger]
            powers_hold(circuit.values(inputs), table@, start.values(inputs)[x as int], p) by {
            crate::circuit::lemma_run_shape(start@, inputs, p);
            crate::field::lemma_pow_mod_step(start.values(inputs)[x as int], 0, p);
            vstd::arithmetic::div_mod::lemma_small_mod(
                start.values(inputs)[x as int] as nat,
                p as nat,
            );
        }
    }
    let mut i: usize = max;
    while i >= 2
        invariant
            1 <= i <= max,
            table@.len() == max,
            building(*circuit, table@, start, x),
            forall|d: int| i < d <= max ==> #[trigger] table@[d - 1] is Some,
        decreases i,
    {
        let mut exp: usize = i;
        let mut base_deg: usize = 1;
        let mut res_deg: usize = 0;
        assert(is_power_of_two(1));
        while exp > 0
            invariant
                2 <= i <= max,
                table@.len() == max,
                building(*circuit, table@, start, x),
                forall|d: int| i < d <= max ==> #[trigger] table@[d - 1] is Some,
                i == exp * base_deg + res_deg,
                is_power_of_two(base_deg as nat),
                1 <= base_deg <= i,
                exp > 0 ==> res_deg < base_deg,
                res_deg <= i,
                table@[base_deg - 1] is Some,
                res_deg > 0 ==> table@[res_deg - 1] is Some,
            decreases exp,
        {
            let ghost old_exp = exp;
            let ghost old_base = base_deg;
            let ghost old_res = res_deg;
            assert(old_exp * old_base >= old_base) by (nonlinear_arith)
                requires
                    old_exp >= 1,
                    old_base >= 0,
            ;
            if exp % 2 == 1 {
                let p_res_deg: usize = res_deg;
                res_deg = res_deg + base_deg;
                if res_deg != base_deg && table[res_deg - 1].is_none() {
                    proof {
                        lemma_leading_bit(base_deg as nat, p_res_deg as nat);
                    }
                    fill_product(circuit, &mut table, p_res_deg, base_deg, Ghost(start), Ghost(x));
                }
            }
            exp = exp / 2;
            let ghost bit: int = if old_exp % 2 == 1 {
                1
            } else {
                0
            };
            assert(i == exp * (2 * old_base) + res_deg && (exp > 0 ==> 2 * old_base <= i))
                by (nonlinear_arith)
                requires
                    i == old_exp * old_base + old_res,
                    old_exp == 2 * exp + bit,
                    res_deg == old_res + bit * old_base,
                    0 <= bit <= 1,
                    exp >= 0,
                    old_base >= 1,
                    old_res >= 0,
            ;
            if exp != 0 {
                let p_base_deg: usize = base_deg;
                base_deg = base_deg * 2;
                assert(i == exp * base_deg + res_deg) by (nonlinear_arith)
                    requires
                        base_deg == 2 * old_base,
                        i == exp * (2 * old_base) + res_deg,
                ;
                if table[base_deg - 1].is_none() {
                    proof {
                        lemma_leading_bit(base_deg as nat, 0);
                    }
                    fill_product(
                        circuit,
                        &mut table,
                        p_base_deg,
                        p_base_deg,
                        Ghost(start),
                        Ghost(x),
                    );
                }
            } else {
                assert(exp * base_deg == 0) by (nonlinear_arith)
                    requires
                        exp == 0,
                ;
            }
        }
        assert(exp * base_deg == 0) by (nonlinear_arith)
            requires
                exp == 0,
        ;
        i = i - 1;
    }
    let mut wires: Vec<Wire> = Vec::new();
    let mut k: usize = 0;
    proof {
        assert forall|j: int| 0 <= j < max implies #[trigger] table@[j] is Some by {
            if j >= 1 {
                assert(table@[(j + 1) - 1] is Some);
            }
        }
        lemma_filled_bound(table@);
    }
    while k < max
        invariant
            k <= max,
            table@.len() == max,
            wires@.len() == k,
            forall|j: int| 0 <= j < max ==> #[trigger] table@[j] is Some,
            forall|j: int| 0 <= j < k ==> #[trigger] wires@[j] == table@[j].unwrap(),
        decreases max - k,
    {
        wires.push(table[k].unwrap());
        k += 1;
    }
    proof {
        let first_wire = start.spec_wires();
        let first_step = start@.len() as int;
        assert forall|d: int| 2 <= d <= wires@.len() implies #[trigger] made_by_product(
            circuit@,
            wires@,
            first_wire,
            first_step,
            d,
        ) by {
            lemma_parts(d as nat);
            assert(table@[d - 1] is Some);
            assert(filled_by_product(circuit@, table@, first_wire, first_step, d));
        }
        if disciplined(start@) && forms(start@)[x as int] == fresh() {
            assert(fresh_entries(forms(circuit@), table@));
            assert forall|k: int| 0 <= k < max implies forms(circuit@)[#[trigger] wires@[k]
                as int] == fresh() by {
                assert(table@[k] is Some);
            }
        }
        assert forall|inputs: Seq<int>, k: int| 0 <= k < max implies (
        #[trigger] circuit.values(inputs))[#[trigger] wires@[k] as int] == pow_mod(
            start.values(inputs)[x as int],
            (k + 1) as nat,
            p,
        ) by {
            assert(powers_hold(circuit.values(inputs), table@, start.values(inputs)[x as int], p));
            assert(table@[(k + 1) - 1] is Some);
        }
    }
    Ok(wires)
}

} // verus!
