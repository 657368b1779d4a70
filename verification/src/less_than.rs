//! The comparison `x < y` on encrypted integers of a signed range.
//!
//! With `z = x - y`, the result is the value of the polynomial
//! `((p + 1) / 2) * z^(p - 1) + z * g(z^2)` at `z`, where `g` is given by its
//! coefficients. The powers of `z^2` are taken in baby steps `1, ..., m` and
//! giant steps `m, 2m, ...`, so that the number of ciphertext
//! multiplications grows with the square root of the modulus.

use crate::circuit::{
    all_at_base, all_in_form, disciplined, forms, fresh, multiplications, pending, ready, residues,
    Circuit, CircuitError, Representation, Step, Wire,
};
use crate::field::{
    add_mod, lemma_pow_mod_adds, lemma_pow_mod_base, lemma_pow_mod_multiplies, mul_mod, pow_mod,
    sub_mod,
};
use crate::polynomial::{
    blocks, coefficient_at, lemma_accumulate_block, lemma_accumulate_term, lemma_blocks_flatten,
    lemma_span_beyond, lemma_span_mod, lemma_span_one, poly_eval, span,
};
use crate::powers::powers_of_x;
use vstd::arithmetic::div_mod::{lemma_add_mod_noop, lemma_small_mod};
use vstd::arithmetic::power::pow;
use vstd::prelude::*;

verus! {

/// The value of the comparison polynomial with coefficients `c` at `z`,
/// modulo `p`.
pub open spec fn lt_poly(z: int, c: Seq<int>, p: int) -> int {
    (((p + 1) / 2) * pow(z, (p - 1) as nat) + z * poly_eval(c, z * z)) % p
}

/// What the comparison circuit puts out for the plaintexts `x` and `y`.
pub open spec fn less_than_value(x: int, y: int, c: Seq<int>, p: int) -> int {
    lt_poly(sub_mod(x, y, p), c, p)
}

/// The wires of `table` carry the powers `1, 2, ...` of `seed`.
pub open spec fn holds_powers(regs: Seq<int>, table: Seq<Wire>, seed: int, p: int) -> bool {
    forall|r: int|
        0 <= r < table.len() ==> (#[trigger] table[r]) < regs.len() && regs[table[r] as int]
            == pow_mod(seed, (r + 1) as nat, p)
}

/// `m` is the largest number whose square does not exceed `half`.
pub open spec fn is_root(m: int, half: int) -> bool {
    m >= 0 && m * m <= half < (m + 1) * (m + 1)
}

/// The largest number whose square does not exceed `half`.
pub open spec fn root(half: int) -> int {
    choose|m: int| is_root(m, half)
}

/// There is only one such number.
pub proof fn lemma_root_unique(m: int, half: int)
    requires
        is_root(m, half),
    ensures
        root(half) == m,
{
    let r = root(half);
    assert(is_root(r, half));
    assert(r == m) by (nonlinear_arith)
        requires
            r >= 0,
            m >= 0,
            r * r <= half < (r + 1) * (r + 1),
            m * m <= half < (m + 1) * (m + 1),
    ;
}

/// The number of multiplications of two ciphertexts that one comparison
/// takes modulo `p`: with `h = (p - 1) / 2`, `m` the root of `h` and
/// `q = (h - 1) / m`, one for the square, `m - 1` for the baby steps, `q - 1`
/// for the giant steps, one for the leading power, `q` for the blocks, and
/// one for the last product.
pub open spec fn comparison_multiplications(p: int) -> int {
    let h = (p - 1) / 2;
    let m = root(h);
    let q = (h - 1) / m;
    m + q + 2 + if q >= 1 {
        q - 1
    } else {
        0
    }
}

/// The largest `m` with `m * m <= half`: the number of baby steps.
pub fn baby_steps(half: u64) -> (m: u64)
    ensures
        m * m <= half < (m + 1) * (m + 1),
        m == root(half as int),
{
    let mut m: u64 = 0;
    while m < half && m + 1 <= half / (m + 1)
        invariant
            m * m <= half,
        decreases half - m,
    {
        assert((m + 1) * (m + 1) <= half) by (nonlinear_arith)
            requires
                m as int + 1 <= (half as int) / (m as int + 1),
                m >= 0,
                half >= 0,
        ;
        m = m + 1;
    }
    assert(half < (m + 1) * (m + 1)) by (nonlinear_arith)
        requires
            !(m < half && m as int + 1 <= (half as int) / (m as int + 1)),
            m * m <= half,
            m >= 0,
            half >= 0,
    ;
    proof {
        lemma_root_unique(m as int, half as int);
    }
    m
}

/// Re-encodes every wire of `wires` for multiplication by plaintexts.
pub(crate) fn to_evaluation(
    circuit: &mut Circuit,
    wires: &Vec<Wire>,
    Ghost(low): Ghost<int>,
    Ghost(high): Ghost<int>,
)
    requires
        old(circuit).wf(),
        forall|k: int| 0 <= k < wires@.len() ==> #[trigger] wires@[k] < old(circuit).spec_wires(),
        forall|k: int| 0 <= k < wires@.len() ==> low <= #[trigger] wires@[k] < high,
    ensures
        final(circuit).wf(),
        final(circuit).keeps(*old(circuit), old(circuit).spec_wires()),
        final(circuit).spec_wires() == old(circuit).spec_wires(),
        final(circuit).spec_inputs() == old(circuit).spec_inputs(),
        final(circuit).spec_modulus() == old(circuit).spec_modulus(),
        multiplications(final(circuit)@) == multiplications(old(circuit)@),
        forall|inputs: Seq<int>| #[trigger]
            final(circuit).values(inputs) == old(circuit).values(inputs),
        final(circuit).extends(*old(circuit)),
        forms(final(circuit)@).len() == forms(old(circuit)@).len(),
        all_in_form(forms(final(circuit)@), wires@, ready()),
        forall|w: int|
            0 <= w < forms(old(circuit)@).len() && !(low <= w < high) ==> #[trigger] forms(
                final(circuit)@,
            )[w] == forms(old(circuit)@)[w],
        disciplined(old(circuit)@) && all_at_base(forms(old(circuit)@), wires@) ==> disciplined(
            final(circuit)@,
        ),
{
    let ghost start = *circuit;
    proof {
        start.lemma_continues_itself();
    }
    let ghost tidy = disciplined(start@) && all_at_base(forms(start@), wires@);
    let mut k: usize = 0;
    proof {
        start.lemma_forms_shape();
        start.lemma_continues_itself();
    }
    while k < wires.len()
        invariant
            k <= wires@.len(),
            circuit.wf(),
            circuit.extends(start),
            circuit.spec_wires() == start.spec_wires(),
            circuit.spec_inputs() == start.spec_inputs(),
            circuit.spec_modulus() == start.spec_modulus(),
            multiplications(circuit@) == multiplications(start@),
            forall|j: int| 0 <= j < wires@.len() ==> #[trigger] wires@[j] < start.spec_wires(),
            forall|j: int| 0 <= j < wires@.len() ==> low <= #[trigger] wires@[j] < high,
            forall|inputs: Seq<int>| #[trigger] circuit.values(inputs) == start.values(inputs),
            forms(circuit@).len() == forms(start@).len(),
            forms(start@).len() == start.spec_wires(),
            forall|j: int| 0 <= j < k ==> forms(circuit@)[#[trigger] wires@[j] as int] == ready(),
            forall|w: int|
                0 <= w < forms(start@).len() && !(low <= w < high) ==> #[trigger] forms(
                    circuit@,
                )[w] == forms(start@)[w],
            tidy ==> disciplined(circuit@) && all_at_base(forms(circuit@), wires@),
        decreases wires@.len() - k,
    {
        let ghost mid = *circuit;
        circuit.change_representation(wires[k], Representation::Evaluation);
        proof {
            circuit.lemma_extends_step(
                mid,
                Step::ChangeRepresentation {
                    target: wires@[k as int],
                    form: Representation::Evaluation,
                },
                start,
            );
            assert forall|inputs: Seq<int>| #[trigger]
                circuit.values(inputs) == start.values(inputs) by {
                assert(mid.values(inputs) == start.values(inputs));
                assert(circuit.values(inputs) =~= mid.values(inputs));
            }
            assert forall|j: int| 0 <= j < k + 1 implies forms(circuit@)[#[trigger] wires@[j]
                as int] == ready() by {
                if j < k {
                    assert(forms(mid@)[wires@[j] as int] == ready());
                }
            }
            assert forall|w: int|
                0 <= w < forms(start@).len() && !(low <= w < high) implies #[trigger] forms(
                circuit@,
            )[w] == forms(start@)[w] by {
                assert(forms(mid@)[w] == forms(start@)[w]);
            }
            if tidy {
                assert(forms(mid@)[wires@[k as int] as int].size is Base);
                assert forall|j: int| 0 <= j < wires@.len() implies (#[trigger] wires@[j])
                    < forms(circuit@).len() && forms(circuit@)[wires@[j] as int].size is Base by {
                    assert(forms(mid@)[wires@[j] as int].size is Base);
                }
            }
        }
        k += 1;
    }
}

/// Records the sum of the block of `m_powers.len()` coefficients that starts
/// at `base`: `c[base] + c[base + 1] * X + c[base + 2] * X^2 + ...`, where
/// `m_powers` carries the powers of `X`.
///
/// Coefficients past the end of `coefficients` are left out. The constant
/// term is added as a plaintext; every other term is a plaintext
/// multiplication of a power. A block without any such term starts from
/// zero times `X`, so that there is a ciphertext to add the constant to.
fn block_sum(
    circuit: &mut Circuit,
    m_powers: &Vec<Wire>,
    coefficients: &[u64],
    base: usize,
    Ghost(seed): Ghost<Wire>,
) -> (sum: Wire)
    requires
        old(circuit).wf(),
        m_powers@.len() >= 1,
        seed < old(circuit).spec_wires(),
        forall|r: int|
            0 <= r < m_powers@.len() ==> #[trigger] m_powers@[r] < old(circuit).spec_wires(),
        forall|inputs: Seq<int>| #[trigger]
            holds_powers(
                old(circuit).values(inputs),
                m_powers@,
                old(circuit).values(inputs)[seed as int],
                old(circuit).spec_modulus(),
            ),
    ensures
        final(circuit).wf(),
        final(circuit).keeps(*old(circuit), old(circuit).spec_wires()),
        final(circuit).spec_inputs() == old(circuit).spec_inputs(),
        sum == old(circuit).spec_wires(),
        final(circuit).spec_wires() > old(circuit).spec_wires(),
        multiplications(final(circuit)@) == multiplications(old(circuit)@),
        final(circuit).continues(*old(circuit)),
        disciplined(old(circuit)@) && all_in_form(forms(old(circuit)@), m_powers@, ready())
            ==> disciplined(final(circuit)@) && forms(final(circuit)@)[sum as int] == ready(),
        forall|inputs: Seq<int>|
            (#[trigger] final(circuit).values(inputs))[sum as int] == span(
                residues(coefficients@),
                old(circuit).values(inputs)[seed as int],
                base as int,
                m_powers@.len(),
            ) % old(circuit).spec_modulus(),
{
    let ghost start = *circuit;
    proof {
        start.lemma_continues_itself();
    }
    let ghost p = start.spec_modulus();
    let ghost c = residues(coefficients@);
    let m: usize = m_powers.len();
    let len: usize = coefficients.len();
    let first: u64 = if m >= 2 && base < len && 1 < len - base {
        coefficients[base + 1]
    } else {
        0
    };
    let ghost tidy = disciplined(start@) && all_in_form(forms(start@), m_powers@, ready());
    let sum: Wire = circuit.multiply_plain(m_powers[0], first);
    let mut r: usize = if m >= 2 {
        2
    } else {
        1
    };
    proof {
        start.lemma_continues_itself();
        circuit.lemma_continues_step(
            start,
            Step::MultiplyPlain { source: m_powers@[0], scalar: first },
            start,
        );
        if tidy {
            assert(forms(start@)[m_powers@[0] as int] == ready());
        }
        assert forall|inputs: Seq<int>|
            (#[trigger] circuit.values(inputs))[sum as int] == (span(
                c,
                start.values(inputs)[seed as int],
                base as int,
                r as nat,
            ) - coefficient_at(c, base as int)) % p by {
            let x = start.values(inputs)[seed as int];
            assert(holds_powers(start.values(inputs), m_powers@, x, p));
            assert(m_powers@[0] < start.values(inputs).len());
            lemma_span_one(c, x, base as int);
            let pw = start.values(inputs)[m_powers@[0] as int];
            assert(pw == pow_mod(x, 1, p));
            assert(circuit.values(inputs)[sum as int] == mul_mod(pw, first as int, p));
            lemma_small_mod(0, p as nat);
            if m >= 2 {
                assert(span(c, x, base as int, 2) == span(c, x, base as int, 1) + coefficient_at(
                    c,
                    base + 1,
                ) * pow(x, 1));
                assert(first as int == coefficient_at(c, base + 1));
                lemma_accumulate_term(0, 0, pw, x, 1, first as int, p);
                vstd::arithmetic::div_mod::lemma_mod_twice(pw * (first as int), p);
            } else {
                assert(pw * 0 == 0);
            }
        }
    }
    while r < m
        invariant
            1 <= r <= m,
            m == m_powers@.len(),
            len == coefficients@.len(),
            c == residues(coefficients@),
            p == start.spec_modulus(),
            start.wf(),
            circuit.wf(),
            circuit.keeps(start, start.spec_wires()),
            circuit.spec_inputs() == start.spec_inputs(),
            sum == start.spec_wires(),
            circuit.spec_wires() > start.spec_wires(),
            multiplications(circuit@) == multiplications(start@),
            circuit.continues(start),
            forms(start@).len() == start.spec_wires(),
            tidy == (disciplined(start@) && all_in_form(forms(start@), m_powers@, ready())),
            tidy ==> disciplined(circuit@) && forms(circuit@)[sum as int] == ready(),
            seed < start.spec_wires(),
            forall|k: int| 0 <= k < m ==> #[trigger] m_powers@[k] < start.spec_wires(),
            forall|inputs: Seq<int>| #[trigger]
                holds_powers(
                    start.values(inputs),
                    m_powers@,
                    start.values(inputs)[seed as int],
                    p,
                ),
            forall|inputs: Seq<int>|
                (#[trigger] circuit.values(inputs))[sum as int] == (span(
                    c,
                    start.values(inputs)[seed as int],
                    base as int,
                    r as nat,
                ) - coefficient_at(c, base as int)) % p,
        decreases m - r,
    {
        let ghost mid = *circuit;
        if base < len && r < len - base {
            let alpha: u64 = coefficients[base + r];
            let term: Wire = circuit.multiply_plain(m_powers[r - 1], alpha);
            let ghost mid2 = *circuit;
            circuit.add_assign(sum, term);
            proof {
                mid2.lemma_continues_step(
                    mid,
                    Step::MultiplyPlain { source: m_powers@[r - 1], scalar: alpha },
                    start,
                );
                circuit.lemma_continues_step(
                    mid2,
                    Step::AddAssign { target: sum, source: term },
                    start,
                );
                if tidy {
                    assert(forms(start@)[m_powers@[r - 1] as int] == ready());
                    assert(forms(mid@)[m_powers@[r - 1] as int] == ready());
                }
                assert forall|inputs: Seq<int>, w: int| 0 <= w < start.spec_wires() implies (
                #[trigger] circuit.values(inputs))[w] == #[trigger] start.values(inputs)[w] by {
                    assert(mid.values(inputs)[w] == start.values(inputs)[w]);
                    assert(mid2.values(inputs)[w] == mid.values(inputs)[w]);
                }
                assert forall|inputs: Seq<int>|
                    (#[trigger] circuit.values(inputs))[sum as int] == (span(
                        c,
                        start.values(inputs)[seed as int],
                        base as int,
                        (r + 1) as nat,
                    ) - coefficient_at(c, base as int)) % p by {
                    let x = start.values(inputs)[seed as int];
                    assert(holds_powers(start.values(inputs), m_powers@, x, p));
                    let pw = m_powers@[r - 1];
                    assert(mid.values(inputs)[pw as int] == start.values(inputs)[pw as int]);
                    assert(mid.values(inputs)[pw as int] == pow_mod(x, r as nat, p));
                    let total = span(c, x, base as int, r as nat) - coefficient_at(c, base as int);
                    assert(mid.values(inputs)[sum as int] == total % p);
                    assert(alpha as int == coefficient_at(c, base + r));
                    lemma_accumulate_term(
                        mid.values(inputs)[sum as int],
                        total,
                        pow_mod(x, r as nat, p),
                        x,
                        r as nat,
                        alpha as int,
                        p,
                    );
                    assert(mid2.values(inputs) == mid.values(inputs).push(
                        mul_mod(mid.values(inputs)[pw as int], alpha as int, p),
                    ));
                }
            }
        } else {
            proof {
                assert forall|inputs: Seq<int>|
                    (#[trigger] circuit.values(inputs))[sum as int] == (span(
                        c,
                        start.values(inputs)[seed as int],
                        base as int,
                        (r + 1) as nat,
                    ) - coefficient_at(c, base as int)) % p by {
                    let x = start.values(inputs)[seed as int];
                    let k = coefficient_at(c, base + r);
                    let xr = pow(x, r as nat);
                    assert(k * xr == 0) by (nonlinear_arith)
                        requires
                            k == 0,
                    ;
                }
            }
        }
        r += 1;
    }
    let ghost mid = *circuit;
    if base < len {
        circuit.add_plain_assign(sum, coefficients[base], Representation::Evaluation);
        proof {
            circuit.lemma_continues_step(
                mid,
                Step::AddPlainAssign {
                    target: sum,
                    scalar: coefficients@[base as int],
                    form: Representation::Evaluation,
                },
                start,
            );
            assert forall|inputs: Seq<int>, w: int| 0 <= w < start.spec_wires() implies (
            #[trigger] circuit.values(inputs))[w] == #[trigger] start.values(inputs)[w] by {
                assert(mid.values(inputs)[w] == start.values(inputs)[w]);
            }
            assert forall|inputs: Seq<int>|
                (#[trigger] circuit.values(inputs))[sum as int] == span(
                    c,
                    start.values(inputs)[seed as int],
                    base as int,
                    m as nat,
                ) % p by {
                let x = start.values(inputs)[seed as int];
                let k = coefficients@[base as int] as int;
                assert(k == coefficient_at(c, base as int));
                let total = span(c, x, base as int, m as nat) - k;
                assert(mid.values(inputs)[sum as int] == total % p);
                vstd::arithmetic::div_mod::lemma_add_mod_noop_right(k, total, p);
            }
        }
    } else {
        proof {
            assert(coefficient_at(c, base as int) == 0);
        }
    }
    sum
}

/// Powers that a circuit held at `start` are still held by a continuation
/// that keeps the wires of `start`.
proof fn lemma_holds_powers_kept(
    circuit: Circuit,
    start: Circuit,
    table: Seq<Wire>,
    seed_of: spec_fn(Seq<int>) -> int,
)
    requires
        circuit.wf(),
        circuit.keeps(start, start.spec_wires()),
        forall|r: int| 0 <= r < table.len() ==> #[trigger] table[r] < start.spec_wires(),
        forall|inputs: Seq<int>| #[trigger]
            holds_powers(start.values(inputs), table, seed_of(inputs), start.spec_modulus()),
    ensures
        forall|inputs: Seq<int>| #[trigger]
            holds_powers(circuit.values(inputs), table, seed_of(inputs), start.spec_modulus()),
{
    assert forall|inputs: Seq<int>| #[trigger]
        holds_powers(circuit.values(inputs), table, seed_of(inputs), start.spec_modulus()) by {
        circuit.lemma_values_shape(inputs);
        assert(holds_powers(start.values(inputs), table, seed_of(inputs), start.spec_modulus()));
        assert forall|r: int| 0 <= r < table.len() implies (#[trigger] table[r])
            < circuit.values(inputs).len() && circuit.values(inputs)[table[r] as int] == pow_mod(
            seed_of(inputs),
            (r + 1) as nat,
            start.spec_modulus(),
        ) by {
            assert(circuit.values(inputs)[table[r] as int] == start.values(inputs)[table[r] as int]);
        }
    }
}

/// Records the evaluation of the polynomial with the given coefficients at
/// `X`, block by block.
///
/// `m_powers` carries `X^1, ..., X^m` and `k_powers` carries
/// `(X^m)^1, ..., (X^m)^q`. Block 0 stands alone; each later block is
/// multiplied lazily by its power of `X^m` and added to a running sum, which
/// is brought back to base size once, before block 0 is added.
fn giant_steps(
    circuit: &mut Circuit,
    m_powers: &Vec<Wire>,
    k_powers: &Vec<Wire>,
    coefficients: &[u64],
    Ghost(seed): Ghost<Wire>,
) -> (g: Wire)
    requires
        old(circuit).wf(),
        m_powers@.len() >= 1,
        coefficients@.len() <= m_powers@.len() * (k_powers@.len() + 1),
        m_powers@.len() * k_powers@.len() < coefficients@.len(),
        seed < old(circuit).spec_wires(),
        forall|r: int|
            0 <= r < m_powers@.len() ==> #[trigger] m_powers@[r] < old(circuit).spec_wires(),
        forall|r: int|
            0 <= r < k_powers@.len() ==> #[trigger] k_powers@[r] < old(circuit).spec_wires(),
        forall|inputs: Seq<int>| #[trigger]
            holds_powers(
                old(circuit).values(inputs),
                m_powers@,
                old(circuit).values(inputs)[seed as int],
                old(circuit).spec_modulus(),
            ),
        forall|inputs: Seq<int>| #[trigger]
            holds_powers(
                old(circuit).values(inputs),
                k_powers@,
                pow_mod(
                    old(circuit).values(inputs)[seed as int],
                    m_powers@.len(),
                    old(circuit).spec_modulus(),
                ),
                old(circuit).spec_modulus(),
            ),
    ensures
        final(circuit).wf(),
        final(circuit).keeps(*old(circuit), old(circuit).spec_wires()),
        final(circuit).spec_inputs() == old(circuit).spec_inputs(),
        old(circuit).spec_wires() <= g < final(circuit).spec_wires(),
        multiplications(final(circuit)@) == multiplications(old(circuit)@) + k_powers@.len(),
        final(circuit).continues(*old(circuit)),
        disciplined(old(circuit)@) && all_in_form(forms(old(circuit)@), m_powers@, ready())
            && all_in_form(forms(old(circuit)@), k_powers@, fresh()) ==> disciplined(
            final(circuit)@,
        ) && forms(final(circuit)@)[g as int] == fresh(),
        forall|inputs: Seq<int>|
            (#[trigger] final(circuit).values(inputs))[g as int] == poly_eval(
                residues(coefficients@),
                old(circuit).values(inputs)[seed as int],
            ) % old(circuit).spec_modulus(),
{
    let ghost start = *circuit;
    proof {
        start.lemma_continues_itself();
    }
    let ghost p = start.spec_modulus();
    let ghost c = residues(coefficients@);
    let ghost seed_of = |inputs: Seq<int>| start.values(inputs)[seed as int];
    let ghost weight_of = |inputs: Seq<int>|
        pow_mod(start.values(inputs)[seed as int], m_powers@.len(), p);
    let m: usize = m_powers.len();
    let q: usize = k_powers.len();
    let len: usize = coefficients.len();
    let ghost tidy = disciplined(start@) && all_in_form(forms(start@), m_powers@, ready())
        && all_in_form(forms(start@), k_powers@, fresh());
    proof {
        start.lemma_forms_shape();
    }
    let leftover: Wire = block_sum(circuit, m_powers, coefficients, 0, Ghost(seed));
    let ghost after_block = *circuit;
    circuit.change_representation(leftover, Representation::Coefficient);
    proof {
        circuit.lemma_continues_step(
            after_block,
            Step::ChangeRepresentation { target: leftover, form: Representation::Coefficient },
            start,
        );
        circuit.lemma_appended_keeps(
            after_block,
            Step::ChangeRepresentation { target: leftover, form: Representation::Coefficient },
        );
        circuit.lemma_keeps_below(after_block, leftover as int, start.spec_wires());
        circuit.lemma_keeps_transitive(after_block, start, start.spec_wires());
        assert forall|inputs: Seq<int>|
            (#[trigger] circuit.values(inputs))[leftover as int] == span(
                c,
                seed_of(inputs),
                0,
                m as nat,
            ) % p by {
            assert(after_block.values(inputs)[leftover as int] == span(
                c,
                seed_of(inputs),
                0,
                m as nat,
            ) % p);
        }
    }
    if q == 0 {
        proof {
            assert forall|inputs: Seq<int>|
                (#[trigger] circuit.values(inputs))[leftover as int] == poly_eval(
                    c,
                    start.values(inputs)[seed as int],
                ) % p by {
                assert(m * 1 == m) by (nonlinear_arith);
                lemma_span_beyond(c, seed_of(inputs), m as nat);
            }
        }
        return leftover;
    }
    assert(m <= m * q) by (nonlinear_arith)
        requires
            q >= 1,
            m >= 0,
    ;
    let ghost before_first = *circuit;
    proof {
        lemma_holds_powers_kept(*circuit, start, m_powers@, seed_of);
        lemma_holds_powers_kept(*circuit, start, k_powers@, weight_of);
        if tidy {
            circuit.lemma_all_in_form_kept(start, m_powers@, ready());
        }
    }
    let first: Wire = block_sum(circuit, m_powers, coefficients, m, Ghost(seed));
    let ghost after_first = *circuit;
    let sum_k: Wire = circuit.multiply_lazy(first, k_powers[0]);
    let mut k: usize = 2;
    let mut base: usize = m;
    proof {
        let step = Step::MultiplyLazy { left: first, right: k_powers@[0] };
        after_first.lemma_continues_transitive(before_first, start);
        circuit.lemma_continues_step(after_first, step, start);
        if tidy {
            after_first.lemma_all_in_form_kept(start, k_powers@, fresh());
            assert(forms(after_first@)[k_powers@[0] as int] == fresh());
            assert(forms(before_first@)[leftover as int] == fresh());
            assert(forms(after_first@)[leftover as int] == forms(before_first@)[leftover as int]);
        }
        circuit.lemma_appended_keeps(after_first, step);
        after_first.lemma_keeps_transitive(before_first, start, start.spec_wires());
        circuit.lemma_keeps_below(after_first, after_first.spec_wires(), start.spec_wires());
        circuit.lemma_keeps_transitive(after_first, start, start.spec_wires());
        circuit.lemma_keeps_below(after_first, after_first.spec_wires(), leftover + 1);
        after_first.lemma_keeps_below(before_first, before_first.spec_wires(), leftover + 1);
        circuit.lemma_keeps_transitive(after_first, before_first, leftover + 1);
        assert(m * 1 == m) by (nonlinear_arith);
        assert forall|inputs: Seq<int>|
            (#[trigger] circuit.values(inputs))[sum_k as int] == (blocks(
                c,
                seed_of(inputs),
                m as nat,
                2,
            ) - span(c, seed_of(inputs), 0, m as nat)) % p by {
            let x = seed_of(inputs);
            assert(before_first.values(inputs)[seed as int] == x);
            assert(holds_powers(before_first.values(inputs), k_powers@, weight_of(inputs), p));
            let kp = k_powers@[0];
            assert(after_first.values(inputs)[kp as int] == before_first.values(inputs)[kp as int]);
            lemma_pow_mod_multiplies(x, m as nat, 1, p);
            let block = after_first.values(inputs)[first as int];
            let weight = after_first.values(inputs)[kp as int];
            assert(weight == pow(x, m as nat) % p);
            lemma_accumulate_block(
                0,
                0,
                block,
                span(c, x, m as int, m as nat),
                weight,
                pow(x, m as nat),
                p,
            );
            lemma_small_mod(0, p as nat);
            vstd::arithmetic::div_mod::lemma_mod_twice(block * weight, p);
            reveal_with_fuel(blocks, 3);
            vstd::arithmetic::power::lemma_pow0(x);
            assert(m * 0 == 0) by (nonlinear_arith);
        }
    }
    while k <= q
        invariant
            2 <= k <= q + 1,
            m == m_powers@.len(),
            q == k_powers@.len(),
            m >= 1,
            base == m * (k - 1),
            len == coefficients@.len(),
            m * q < len,
            c == residues(coefficients@),
            p == start.spec_modulus(),
            seed_of == (|inputs: Seq<int>| start.values(inputs)[seed as int]),
            weight_of == (|inputs: Seq<int>|
                pow_mod(start.values(inputs)[seed as int], m_powers@.len(), p)),
            circuit.wf(),
            circuit.keeps(start, start.spec_wires()),
            circuit.keeps(before_first, leftover + 1),
            before_first.keeps(start, start.spec_wires()),
            before_first.spec_wires() > leftover,
            before_first.wf(),
            circuit.spec_inputs() == start.spec_inputs(),
            multiplications(circuit@) == multiplications(start@) + k - 1,
            circuit.continues(start),
            forms(start@).len() == start.spec_wires(),
            tidy == (disciplined(start@) && all_in_form(forms(start@), m_powers@, ready())
                && all_in_form(forms(start@), k_powers@, fresh())),
            tidy ==> disciplined(circuit@) && forms(circuit@)[sum_k as int] == pending() && forms(
                circuit@,
            )[leftover as int] == fresh(),
            seed < start.spec_wires(),
            start.spec_wires() <= leftover < sum_k < circuit.spec_wires(),
            forall|r: int| 0 <= r < m ==> #[trigger] m_powers@[r] < start.spec_wires(),
            forall|r: int| 0 <= r < q ==> #[trigger] k_powers@[r] < start.spec_wires(),
            forall|inputs: Seq<int>| #[trigger]
                holds_powers(start.values(inputs), m_powers@, seed_of(inputs), p),
            forall|inputs: Seq<int>| #[trigger]
                holds_powers(start.values(inputs), k_powers@, weight_of(inputs), p),
            forall|inputs: Seq<int>|
                (#[trigger] circuit.values(inputs))[sum_k as int] == (blocks(
                    c,
                    seed_of(inputs),
                    m as nat,
                    k as nat,
                ) - span(c, seed_of(inputs), 0, m as nat)) % p,
        decreases q + 1 - k,
    {
        assert(m * k <= m * q && m * k == m * (k - 1) + m && q <= m * q) by (nonlinear_arith)
            requires
                k <= q,
                m >= 1,
                q >= 0,
        ;
        base = base + m;
        let ghost mid = *circuit;
        proof {
            lemma_holds_powers_kept(*circuit, start, m_powers@, seed_of);
            if tidy {
                circuit.lemma_all_in_form_kept(start, m_powers@, ready());
            }
        }
        let sum_m: Wire = block_sum(circuit, m_powers, coefficients, base, Ghost(seed));
        let ghost mid2 = *circuit;
        let product: Wire = circuit.multiply_lazy(sum_m, k_powers[k - 1]);
        let ghost mid3 = *circuit;
        circuit.add_assign(sum_k, product);
        proof {
            mid2.lemma_continues_transitive(mid, start);
            mid3.lemma_continues_step(
                mid2,
                Step::MultiplyLazy { left: sum_m, right: k_powers@[k - 1] },
                start,
            );
            circuit.lemma_continues_step(
                mid3,
                Step::AddAssign { target: sum_k, source: product },
                start,
            );
            mid.lemma_forms_shape();
            if tidy {
                mid2.lemma_all_in_form_kept(start, k_powers@, fresh());
                assert(forms(mid2@)[k_powers@[k - 1] as int] == fresh());
                assert(forms(mid2@)[sum_k as int] == forms(mid@)[sum_k as int]);
                assert(forms(mid2@)[leftover as int] == forms(mid@)[leftover as int]);
            }
            mid3.lemma_appended_keeps(
                mid2,
                Step::MultiplyLazy { left: sum_m, right: k_powers@[k - 1] },
            );
            circuit.lemma_appended_keeps(mid3, Step::AddAssign { target: sum_k, source: product });
            // below sum_k nothing changed since `mid`
            mid2.lemma_keeps_below(mid, mid.spec_wires(), sum_k as int);
            mid3.lemma_keeps_below(mid2, mid2.spec_wires(), sum_k as int);
            mid3.lemma_keeps_transitive(mid2, mid, sum_k as int);
            circuit.lemma_keeps_transitive(mid3, mid, sum_k as int);
            circuit.lemma_keeps_below(mid, sum_k as int, start.spec_wires());
            circuit.lemma_keeps_below(mid, sum_k as int, leftover + 1);
            circuit.lemma_keeps_transitive(mid, start, start.spec_wires());
            circuit.lemma_keeps_transitive(mid, before_first, leftover + 1);
            assert forall|inputs: Seq<int>|
                (#[trigger] circuit.values(inputs))[sum_k as int] == (blocks(
                    c,
                    seed_of(inputs),
                    m as nat,
                    (k + 1) as nat,
                ) - span(c, seed_of(inputs), 0, m as nat)) % p by {
                let x = seed_of(inputs);
                assert(mid.values(inputs)[seed as int] == start.values(inputs)[seed as int]);
                assert(holds_powers(start.values(inputs), k_powers@, weight_of(inputs), p));
                let kp = k_powers@[k - 1];
                assert(mid.values(inputs)[kp as int] == start.values(inputs)[kp as int]);
                assert(mid2.values(inputs)[kp as int] == mid.values(inputs)[kp as int]);
                assert(mid2.values(inputs)[sum_k as int] == mid.values(inputs)[sum_k as int]);
                lemma_pow_mod_multiplies(x, m as nat, k as nat, p);
                let total = blocks(c, x, m as nat, k as nat) - span(c, x, 0, m as nat);
                let block = mid2.values(inputs)[sum_m as int];
                let weight = mid2.values(inputs)[kp as int];
                assert(weight == pow(x, (m * k) as nat) % p);
                assert(block == span(c, x, base as int, m as nat) % p);
                lemma_accumulate_block(
                    mid.values(inputs)[sum_k as int],
                    total,
                    block,
                    span(c, x, base as int, m as nat),
                    weight,
                    pow(x, (m * k) as nat),
                    p,
                );
                assert(mid3.values(inputs) == mid2.values(inputs).push(mul_mod(block, weight, p)));
            }
        }
        k += 1;
    }
    let ghost mid = *circuit;
    let g: Wire = circuit.normalize(sum_k);
    let ghost mid2 = *circuit;
    circuit.add_assign(g, leftover);
    proof {
        mid2.lemma_continues_step(mid, Step::Normalize { source: sum_k }, start);
        circuit.lemma_continues_step(mid2, Step::AddAssign { target: g, source: leftover }, start);
        mid2.lemma_appended_keeps(mid, Step::Normalize { source: sum_k });
        circuit.lemma_appended_keeps(mid2, Step::AddAssign { target: g, source: leftover });
        circuit.lemma_keeps_transitive(mid2, mid, mid.spec_wires());
        circuit.lemma_keeps_below(mid, mid.spec_wires(), start.spec_wires());
        circuit.lemma_keeps_transitive(mid, start, start.spec_wires());
        assert forall|inputs: Seq<int>|
            (#[trigger] circuit.values(inputs))[g as int] == poly_eval(
                c,
                start.values(inputs)[seed as int],
            ) % p by {
            let x = seed_of(inputs);
            let total = blocks(c, x, m as nat, (q + 1) as nat) - span(c, x, 0, m as nat);
            assert(mid.values(inputs)[sum_k as int] == total % p);
            assert(mid.values(inputs)[leftover as int] == before_first.values(
                inputs,
            )[leftover as int]);
            assert(before_first.values(inputs)[leftover as int] == span(c, x, 0, m as nat) % p);
            lemma_add_mod_noop(total, span(c, x, 0, m as nat), p);
            lemma_blocks_flatten(c, x, m as nat, (q + 1) as nat);
            lemma_span_beyond(c, x, (m * (q + 1)) as nat);
            assert(mid2.values(inputs) == mid.values(inputs).push(mid.values(inputs)[sum_k as int]));
        }
    }
    g
}

/// The last two additions of the comparison: from the leading power and the
/// value of `g` to the comparison polynomial.
proof fn lemma_lt_poly_assemble(z: int, c: Seq<int>, p: int, lead: int, g: int)
    requires
        p > 2,
        p % 2 == 1,
        lead == pow_mod(mul_mod(z, z, p), ((p - 1) / 2) as nat, p),
        g == poly_eval(c, mul_mod(z, z, p)) % p,
    ensures
        add_mod(mul_mod(lead, (p + 1) / 2, p), mul_mod(g, z, p), p) == lt_poly(z, c, p),
{
    let h = ((p - 1) / 2) as nat;
    let half = (p + 1) / 2;
    // lead is z^(p-1) mod p
    lemma_pow_mod_base(z * z, h, p);
    vstd::arithmetic::power::lemma_square_is_pow2(z);
    vstd::arithmetic::power::lemma_pow_multiplies(z, 2, h);
    assert(pow(z * z, h) == pow(z, (p - 1) as nat));
    let top = pow(z, (p - 1) as nat);
    assert(lead == top % p);
    // g is g(z^2) mod p
    lemma_span_mod(c, z * z, 0, c.len(), p);
    let poly = poly_eval(c, z * z);
    assert(g == poly % p);
    vstd::arithmetic::div_mod::lemma_mul_mod_noop_general(top, half, p);
    vstd::arithmetic::div_mod::lemma_mul_mod_noop_general(poly, z, p);
    vstd::arithmetic::mul::lemma_mul_is_commutative(top, half);
    vstd::arithmetic::mul::lemma_mul_is_commutative(poly, z);
    lemma_add_mod_noop(half * top, z * poly, p);
}

/// A table that `powers_of_x` made holds its powers in every continuation
/// that keeps its wires.
proof fn lemma_table_holds(
    circuit: Circuit,
    made: Circuit,
    table: Seq<Wire>,
    seed_of: spec_fn(Seq<int>) -> int,
)
    requires
        circuit.wf(),
        circuit.keeps(made, made.spec_wires()),
        forall|k: int| 0 <= k < table.len() ==> #[trigger] table[k] < made.spec_wires(),
        forall|inputs: Seq<int>, k: int|
            0 <= k < table.len() ==> (#[trigger] made.values(inputs))[#[trigger] table[k] as int]
                == pow_mod(seed_of(inputs), (k + 1) as nat, made.spec_modulus()),
    ensures
        forall|inputs: Seq<int>| #[trigger]
            holds_powers(circuit.values(inputs), table, seed_of(inputs), made.spec_modulus()),
{
    assert forall|inputs: Seq<int>| #[trigger]
        holds_powers(circuit.values(inputs), table, seed_of(inputs), made.spec_modulus()) by {
        circuit.lemma_values_shape(inputs);
        assert forall|r: int| 0 <= r < table.len() implies (#[trigger] table[r])
            < circuit.values(inputs).len() && circuit.values(inputs)[table[r] as int] == pow_mod(
            seed_of(inputs),
            (r + 1) as nat,
            made.spec_modulus(),
        ) by {
            assert(made.values(inputs)[table[r] as int] == pow_mod(
                seed_of(inputs),
                (r + 1) as nat,
                made.spec_modulus(),
            ));
            assert(circuit.values(inputs)[table[r] as int] == made.values(inputs)[table[r] as int]);
        }
    }
}

/// Records the leading term `((p + 1) / 2) * X^h`, in extended form.
///
/// With `q = k_powers.len()` giant steps, `h = m * q + rest`, and `X^h` is
/// the lazy product of the last giant step and the baby step `rest`. Without
/// giant steps `h` is 1 and `X` itself is the lazy square of `z`.
fn leading_term(
    circuit: &mut Circuit,
    z: Wire,
    m_powers: &Vec<Wire>,
    k_powers: &Vec<Wire>,
    rest: usize,
    Ghost(z_sq): Ghost<Wire>,
) -> (lead: Wire)
    requires
        old(circuit).wf(),
        old(circuit).spec_modulus() % 2 == 1,
        z < old(circuit).spec_wires(),
        z_sq < old(circuit).spec_wires(),
        1 <= rest <= m_powers@.len(),
        k_powers@.len() == 0 ==> rest == 1,
        forall|r: int|
            0 <= r < m_powers@.len() ==> #[trigger] m_powers@[r] < old(circuit).spec_wires(),
        forall|r: int|
            0 <= r < k_powers@.len() ==> #[trigger] k_powers@[r] < old(circuit).spec_wires(),
        forall|inputs: Seq<int>| #[trigger]
            holds_powers(
                old(circuit).values(inputs),
                m_powers@,
                old(circuit).values(inputs)[z_sq as int],
                old(circuit).spec_modulus(),
            ),
        forall|inputs: Seq<int>| #[trigger]
            holds_powers(
                old(circuit).values(inputs),
                k_powers@,
                pow_mod(
                    old(circuit).values(inputs)[z_sq as int],
                    m_powers@.len(),
                    old(circuit).spec_modulus(),
                ),
                old(circuit).spec_modulus(),
            ),
        forall|inputs: Seq<int>|
            (#[trigger] old(circuit).values(inputs))[z_sq as int] == mul_mod(
                old(circuit).values(inputs)[z as int],
                old(circuit).values(inputs)[z as int],
                old(circuit).spec_modulus(),
            ),
    ensures
        final(circuit).wf(),
        final(circuit).keeps(*old(circuit), old(circuit).spec_wires()),
        final(circuit).spec_inputs() == old(circuit).spec_inputs(),
        lead == old(circuit).spec_wires(),
        final(circuit).spec_wires() == old(circuit).spec_wires() + 1,
        multiplications(final(circuit)@) == multiplications(old(circuit)@) + 1,
        final(circuit).continues(*old(circuit)),
        disciplined(old(circuit)@) && all_in_form(forms(old(circuit)@), m_powers@, fresh())
            && all_in_form(forms(old(circuit)@), k_powers@, fresh()) && forms(
            old(circuit)@,
        )[z as int] == fresh() ==> disciplined(final(circuit)@) && forms(
            final(circuit)@,
        )[lead as int] == pending(),
        forall|inputs: Seq<int>|
            (#[trigger] final(circuit).values(inputs))[lead as int] == mul_mod(
                pow_mod(
                    old(circuit).values(inputs)[z_sq as int],
                    (m_powers@.len() * k_powers@.len() + rest) as nat,
                    old(circuit).spec_modulus(),
                ),
                (old(circuit).spec_modulus() + 1) / 2,
                old(circuit).spec_modulus(),
            ),
{
    let ghost start = *circuit;
    proof {
        start.lemma_continues_itself();
    }
    let ghost pi = start.spec_modulus();
    let p: u64 = circuit.modulus();
    let m: usize = m_powers.len();
    let q: usize = k_powers.len();
    let ghost h = (m * q + rest) as nat;
    let lead: Wire = if q >= 1 {
        circuit.multiply_lazy(k_powers[q - 1], m_powers[rest - 1])
    } else {
        circuit.multiply_lazy(z, z)
    };
    let ghost mid = *circuit;
    proof {
        assert forall|inputs: Seq<int>|
            (#[trigger] mid.values(inputs))[lead as int] == pow_mod(
                start.values(inputs)[z_sq as int],
                h,
                pi,
            ) by {
            let big = start.values(inputs)[z_sq as int];
            start.lemma_values_shape(inputs);
            if q >= 1 {
                assert(holds_powers(start.values(inputs), m_powers@, big, pi));
                assert(holds_powers(
                    start.values(inputs),
                    k_powers@,
                    pow_mod(big, m as nat, pi),
                    pi,
                ));
                let kp = k_powers@[q - 1];
                let mp = m_powers@[rest - 1];
                assert(start.values(inputs)[kp as int] == pow_mod(
                    pow_mod(big, m as nat, pi),
                    q as nat,
                    pi,
                ));
                assert(start.values(inputs)[mp as int] == pow_mod(big, rest as nat, pi));
                lemma_pow_mod_multiplies(big, m as nat, q as nat, pi);
                lemma_pow_mod_adds(big, (m * q) as nat, rest as nat, pi);
            } else {
                assert(m * q == 0) by (nonlinear_arith)
                    requires
                        q == 0,
                ;
                crate::field::lemma_pow_mod_step(big, 0, pi);
                lemma_small_mod(big as nat, pi as nat);
            }
        }
    }
    circuit.multiply_plain_assign(lead, p / 2 + 1);
    proof {
        start.lemma_continues_itself();
        mid.lemma_continues_step(
            start,
            if q >= 1 {
                Step::MultiplyLazy { left: k_powers@[q - 1], right: m_powers@[rest - 1] }
            } else {
                Step::MultiplyLazy { left: z, right: z }
            },
            start,
        );
        circuit.lemma_continues_step(
            mid,
            Step::MultiplyPlainAssign { target: lead, scalar: (p / 2 + 1) as u64 },
            start,
        );
        if disciplined(start@) && all_in_form(forms(start@), m_powers@, fresh()) && all_in_form(
            forms(start@),
            k_powers@,
            fresh(),
        ) && forms(start@)[z as int] == fresh() {
            if q >= 1 {
                assert(forms(start@)[k_powers@[q - 1] as int] == fresh());
                assert(forms(start@)[m_powers@[rest - 1] as int] == fresh());
            }
        }
        mid.lemma_appended_keeps(
            start,
            if q >= 1 {
                Step::MultiplyLazy { left: k_powers@[q - 1], right: m_powers@[rest - 1] }
            } else {
                Step::MultiplyLazy { left: z, right: z }
            },
        );
        circuit.lemma_appended_keeps(
            mid,
            Step::MultiplyPlainAssign { target: lead, scalar: (p / 2 + 1) as u64 },
        );
        circuit.lemma_keeps_transitive(mid, start, start.spec_wires());
        assert forall|inputs: Seq<int>|
            (#[trigger] circuit.values(inputs))[lead as int] == mul_mod(
                pow_mod(start.values(inputs)[z_sq as int], h, pi),
                (pi + 1) / 2,
                pi,
            ) by {
            assert(mid.values(inputs)[lead as int] == pow_mod(
                start.values(inputs)[z_sq as int],
                h,
                pi,
            ));
        }
    }
    lead
}

/// Records `lead + g * z` and brings it back to base size.
fn combine(circuit: &mut Circuit, lead: Wire, g: Wire, z: Wire) -> (res: Wire)
    requires
        old(circuit).wf(),
        lead < old(circuit).spec_wires(),
        g < old(circuit).spec_wires(),
        z < old(circuit).spec_wires(),
    ensures
        final(circuit).wf(),
        final(circuit).keeps(*old(circuit), lead as int),
        final(circuit).spec_inputs() == old(circuit).spec_inputs(),
        old(circuit).spec_wires() <= res < final(circuit).spec_wires(),
        multiplications(final(circuit)@) == multiplications(old(circuit)@) + 1,
        final(circuit).continues(*old(circuit)),
        disciplined(old(circuit)@) && forms(old(circuit)@)[lead as int] == pending() && forms(
            old(circuit)@,
        )[g as int].size is Base && forms(old(circuit)@)[z as int] == fresh() ==> disciplined(
            final(circuit)@,
        ) && forms(final(circuit)@)[res as int] == fresh(),
        forall|inputs: Seq<int>|
            (#[trigger] final(circuit).values(inputs))[res as int] == add_mod(
                old(circuit).values(inputs)[lead as int],
                mul_mod(
                    old(circuit).values(inputs)[g as int],
                    old(circuit).values(inputs)[z as int],
                    old(circuit).spec_modulus(),
                ),
                old(circuit).spec_modulus(),
            ),
{
    let ghost start = *circuit;
    proof {
        start.lemma_continues_itself();
    }
    let z_gx: Wire = circuit.multiply_lazy(g, z);
    let ghost mid = *circuit;
    circuit.add_assign(lead, z_gx);
    let ghost mid2 = *circuit;
    let res: Wire = circuit.normalize(lead);
    proof {
        start.lemma_continues_itself();
        mid.lemma_continues_step(start, Step::MultiplyLazy { left: g, right: z }, start);
        mid2.lemma_continues_step(mid, Step::AddAssign { target: lead, source: z_gx }, start);
        circuit.lemma_continues_step(mid2, Step::Normalize { source: lead }, start);
        mid.lemma_appended_keeps(start, Step::MultiplyLazy { left: g, right: z });
        mid2.lemma_appended_keeps(mid, Step::AddAssign { target: lead, source: z_gx });
        circuit.lemma_appended_keeps(mid2, Step::Normalize { source: lead });
        mid.lemma_keeps_below(start, start.spec_wires(), lead as int);
        mid2.lemma_keeps_transitive(mid, start, lead as int);
        circuit.lemma_keeps_below(mid2, mid2.spec_wires(), lead as int);
        circuit.lemma_keeps_transitive(mid2, start, lead as int);
    }
    res
}

/// Records the baby steps `X^1, ..., X^m` and the giant steps
/// `(X^m)^1, ..., (X^m)^q` for the value `X` on `z_sq`.
fn step_tables(circuit: &mut Circuit, z_sq: Wire, m: usize, q: usize) -> (tables: (
    Vec<Wire>,
    Vec<Wire>,
))
    requires
        old(circuit).wf(),
        z_sq < old(circuit).spec_wires(),
        m >= 1,
    ensures
        final(circuit).wf(),
        final(circuit).keeps(*old(circuit), old(circuit).spec_wires()),
        final(circuit).spec_inputs() == old(circuit).spec_inputs(),
        tables.0@.len() == m,
        tables.1@.len() == q,
        multiplications(final(circuit)@) == multiplications(old(circuit)@) + m - 1 + if q >= 1 {
            q - 1
        } else {
            0int
        },
        final(circuit).spec_wires() >= old(circuit).spec_wires() + m,
        forall|r: int|
            0 <= r < m ==> old(circuit).spec_wires() <= #[trigger] tables.0@[r] < old(
                circuit,
            ).spec_wires() + m,
        forall|r: int| 0 <= r < q ==> old(circuit).spec_wires() + m <= #[trigger] tables.1@[r],
        final(circuit).continues(*old(circuit)),
        disciplined(old(circuit)@) && forms(old(circuit)@)[z_sq as int] == fresh() ==> disciplined(
            final(circuit)@,
        ) && all_in_form(forms(final(circuit)@), tables.0@, fresh()) && all_in_form(
            forms(final(circuit)@),
            tables.1@,
            fresh(),
        ),
        forall|r: int| 0 <= r < m ==> #[trigger] tables.0@[r] < final(circuit).spec_wires(),
        forall|r: int| 0 <= r < q ==> #[trigger] tables.1@[r] < final(circuit).spec_wires(),
        forall|inputs: Seq<int>| #[trigger]
            holds_powers(
                final(circuit).values(inputs),
                tables.0@,
                old(circuit).values(inputs)[z_sq as int],
                old(circuit).spec_modulus(),
            ),
        forall|inputs: Seq<int>| #[trigger]
            holds_powers(
                final(circuit).values(inputs),
                tables.1@,
                pow_mod(
                    old(circuit).values(inputs)[z_sq as int],
                    m as nat,
                    old(circuit).spec_modulus(),
                ),
                old(circuit).spec_modulus(),
            ),
{
    let ghost start = *circuit;
    proof {
        start.lemma_continues_itself();
    }
    let ghost p = start.spec_modulus();
    let ghost seed_of = |inputs: Seq<int>| start.values(inputs)[z_sq as int];
    let m_powers: Vec<Wire> = powers_of_x(circuit, z_sq, m).unwrap();
    let ghost mid = *circuit;
    let ghost weight_of = |inputs: Seq<int>| mid.values(inputs)[m_powers@[m - 1] as int];
    let mut k_powers: Vec<Wire> = Vec::new();
    if q >= 1 {
        k_powers = powers_of_x(circuit, m_powers[m - 1], q).unwrap();
    }
    proof {
        circuit.lemma_forms_shape();
        mid.lemma_forms_shape();
        mid.lemma_continues_itself();
        circuit.lemma_continues_transitive(mid, start);
        if disciplined(start@) && forms(start@)[z_sq as int] == fresh() {
            assert(all_in_form(forms(mid@), m_powers@, fresh()));
            circuit.lemma_all_in_form_kept(mid, m_powers@, fresh());
            if q >= 1 {
                assert(forms(mid@)[m_powers@[m - 1] as int] == fresh());
            }
        }
        if q >= 1 {
            circuit.lemma_keeps_below(mid, mid.spec_wires(), start.spec_wires());
            circuit.lemma_keeps_transitive(mid, start, start.spec_wires());
            lemma_table_holds(*circuit, *circuit, k_powers@, weight_of);
        }
        assert(circuit.keeps(mid, mid.spec_wires()));
        assert forall|k: int| 0 <= k < m_powers@.len() implies #[trigger] m_powers@[k]
            < mid.spec_wires() by {}
        assert forall|inputs: Seq<int>, k: int| 0 <= k < m_powers@.len() implies (
        #[trigger] mid.values(inputs))[#[trigger] m_powers@[k] as int] == pow_mod(
            seed_of(inputs),
            (k + 1) as nat,
            mid.spec_modulus(),
        ) by {}
        lemma_table_holds(*circuit, mid, m_powers@, seed_of);
        assert forall|inputs: Seq<int>| #[trigger]
            holds_powers(
                circuit.values(inputs),
                k_powers@,
                pow_mod(start.values(inputs)[z_sq as int], m as nat, p),
                p,
            ) by {
            if q >= 1 {
                assert(holds_powers(circuit.values(inputs), k_powers@, weight_of(inputs), p));
                assert(mid.values(inputs)[m_powers@[m - 1] as int] == pow_mod(
                    seed_of(inputs),
                    m as nat,
                    p,
                ));
            }
        }
    }
    (m_powers, k_powers)
}

/// Records the comparison of the ciphertexts on `x` and `y` and returns the
/// wire of the result.
///
/// The steps, with `h = (p - 1) / 2`, `m` the root of `h` and
/// `q = (h - 1) / m`: the difference `z` and its square `X`; the baby steps
/// `X^1, ..., X^m` and the giant steps `(X^m)^1, ..., (X^m)^q`; the leading
/// term `((p + 1) / 2) * X^h`, a lazy product of the last giant step and the
/// baby step `h - m * q`; the baby steps re-encoded for multiplication by
/// plaintexts; `g(X)` block by block; the lazy product `z * g(X)`, added to
/// the leading term; and the sum brought back to base size.
///
/// `coefficients` are the coefficients of `g`, one per even exponent from 0
/// to `p - 3`. Their number must be `(p - 1) / 2`: a vector derived for
/// another modulus is refused, and so is the modulus 2. On such an error
/// nothing is recorded.
///
/// With the coefficients derived for `p`, the result is 1 if `x < y` and 0
/// otherwise on plaintexts of the signed range whose difference lies in
/// that range: see `lemma_less_than_decides`.
pub fn univariate_less_than(
    circuit: &mut Circuit,
    x: Wire,
    y: Wire,
    coefficients: &[u64],
) -> (made: Result<Wire, CircuitError>)
    requires
        old(circuit).wf(),
        x < old(circuit).spec_wires(),
        y < old(circuit).spec_wires(),
    ensures
        final(circuit).wf(),
        final(circuit).keeps(*old(circuit), old(circuit).spec_wires()),
        final(circuit).spec_inputs() == old(circuit).spec_inputs(),
        made is Err <==> (old(circuit).spec_modulus() == 2 || coefficients@.len() != (old(
            circuit,
        ).spec_modulus() - 1) / 2),
        made matches Err(e) ==> {
            &&& final(circuit)@ == old(circuit)@
            &&& final(circuit).spec_wires() == old(circuit).spec_wires()
            &&& e == if old(circuit).spec_modulus() == 2 {
                CircuitError::ModulusTooSmall
            } else {
                CircuitError::ModulusMismatch
            }
        },
        final(circuit).continues(*old(circuit)),
        disciplined(old(circuit)@) && forms(old(circuit)@)[x as int] == fresh() && forms(
            old(circuit)@,
        )[y as int] == fresh() ==> disciplined(final(circuit)@) && (made matches Ok(wire)
            ==> forms(final(circuit)@)[wire as int] == fresh()),
        made matches Ok(wire) ==> {
            &&& old(circuit).spec_wires() <= wire < final(circuit).spec_wires()
            &&& compares(*final(circuit), *old(circuit), x, y, wire, residues(coefficients@))
            &&& multiplications(final(circuit)@) == multiplications(old(circuit)@)
                + comparison_multiplications(old(circuit).spec_modulus())
        },
{
    let ghost s0 = *circuit;
    proof {
        s0.lemma_continues_itself();
    }
    let ghost c = residues(coefficients@);
    let p: u64 = circuit.modulus();
    let ghost pi = p as int;
    if p == 2 {
        return Err(CircuitError::ModulusTooSmall);
    }
    let half_count: u64 = (p - 1) / 2;
    let len: usize = coefficients.len();
    if len as u64 != half_count {
        return Err(CircuitError::ModulusMismatch);
    }
    assert(pi % 2 == 1 && pi > 2) by {
        assert(pi % 2 != 0);
    }
    let m64: u64 = baby_steps(half_count);
    assert(1 <= m64 <= half_count) by (nonlinear_arith)
        requires
            m64 * m64 <= half_count < (m64 + 1) * (m64 + 1),
            half_count >= 1,
    ;
    let m: usize = m64 as usize;
    let q: usize = (len - 1) / m;
    assert(m * q <= len - 1 < m * q + m && m * (q + 1) == m * q + m) by (nonlinear_arith)
        requires
            q == (len - 1) / (m as int),
            m >= 1,
            len >= 1,
    ;
    let rest: usize = len - m * q;
    assert(q == 0 ==> rest == 1) by (nonlinear_arith)
        requires
            rest == len - m * q,
            m * q <= len - 1 < m * q + m,
            m * m <= len,
            m >= 1,
    ;

    let z: Wire = circuit.subtract(x, y);
    let ghost s1 = *circuit;
    let z_sq: Wire = circuit.multiply(z, z);
    let ghost s2 = *circuit;
    let ghost seed_of = |inputs: Seq<int>| s2.values(inputs)[z_sq as int];
    let ghost weight_of = |inputs: Seq<int>| pow_mod(s2.values(inputs)[z_sq as int], m as nat, pi);
    let ghost tidy = disciplined(s0@) && forms(s0@)[x as int] == fresh() && forms(s0@)[y as int]
        == fresh();
    let (m_powers, k_powers) = step_tables(circuit, z_sq, m, q);
    let ghost s3 = *circuit;
    proof {
        s1.lemma_appended_keeps(s0, Step::Subtract { left: x, right: y });
        s2.lemma_appended_keeps(s1, Step::Multiply { left: z, right: z });
        s1.lemma_continues_step(s0, Step::Subtract { left: x, right: y }, s0);
        s2.lemma_continues_step(s1, Step::Multiply { left: z, right: z }, s0);
        s3.lemma_continues_transitive(s2, s0);
        if tidy {
            assert(forms(s1@)[z as int] == fresh());
            assert(forms(s2@)[z_sq as int] == fresh());
            assert(forms(s2@)[z as int] == fresh());
            assert(forms(s3@)[z as int] == forms(s2@)[z as int]);
        }
        assert forall|inputs: Seq<int>| #[trigger]
            holds_powers(s3.values(inputs), m_powers@, s3.values(inputs)[z_sq as int], pi) by {
            assert(s3.values(inputs)[z_sq as int] == s2.values(inputs)[z_sq as int]);
            assert(holds_powers(s3.values(inputs), m_powers@, seed_of(inputs), pi));
        }
        assert forall|inputs: Seq<int>| #[trigger]
            holds_powers(
                s3.values(inputs),
                k_powers@,
                pow_mod(s3.values(inputs)[z_sq as int], m_powers@.len(), pi),
                pi,
            ) by {
            assert(s3.values(inputs)[z_sq as int] == s2.values(inputs)[z_sq as int]);
            assert(holds_powers(s3.values(inputs), k_powers@, weight_of(inputs), pi));
        }
        assert forall|inputs: Seq<int>|
            (#[trigger] s3.values(inputs))[z_sq as int] == mul_mod(
                s3.values(inputs)[z as int],
                s3.values(inputs)[z as int],
                pi,
            ) by {
            assert(s3.values(inputs)[z_sq as int] == s2.values(inputs)[z_sq as int]);
            assert(s3.values(inputs)[z as int] == s2.values(inputs)[z as int]);
            assert(s1.values(inputs).len() == s1.spec_wires());
        }
    }
    let lead: Wire = leading_term(circuit, z, &m_powers, &k_powers, rest, Ghost(z_sq));
    let ghost s4 = *circuit;
    to_evaluation(circuit, &m_powers, Ghost(s2.spec_wires()), Ghost(s2.spec_wires() + m));
    let ghost s5 = *circuit;
    proof {
        s0.lemma_forms_shape();
        s2.lemma_forms_shape();
        s3.lemma_forms_shape();
        s4.lemma_forms_shape();
        s4.lemma_continues_transitive(s3, s0);
        assert(s5.continues(s0)) by {
            s5.lemma_extends_transitive(s4, s0);
            assert forall|w: int| 0 <= w < forms(s0@).len() implies #[trigger] forms(s5@)[w]
                == forms(s0@)[w] by {
                assert(forms(s4@)[w] == forms(s0@)[w]);
            }
        }
        if tidy {
            s4.lemma_all_in_form_kept(s3, m_powers@, fresh());
            s4.lemma_all_in_form_kept(s3, k_powers@, fresh());
            assert(all_at_base(forms(s4@), m_powers@)) by {
                assert forall|k: int| 0 <= k < m_powers@.len() implies (#[trigger] m_powers@[k])
                    < forms(s4@).len() && forms(s4@)[m_powers@[k] as int].size is Base by {
                    assert(forms(s4@)[m_powers@[k] as int] == fresh());
                }
            }
            assert(all_in_form(forms(s5@), k_powers@, fresh())) by {
                assert forall|k: int| 0 <= k < k_powers@.len() implies (#[trigger] k_powers@[k])
                    < forms(s5@).len() && forms(s5@)[k_powers@[k] as int] == fresh() by {
                    assert(forms(s4@)[k_powers@[k] as int] == fresh());
                }
            }
            assert(forms(s4@)[z as int] == forms(s3@)[z as int]);
            assert(forms(s5@)[z as int] == fresh());
            assert(forms(s5@)[lead as int] == pending());
        }
        s5.lemma_keeps_below(s4, s4.spec_wires(), s3.spec_wires());
        s5.lemma_keeps_transitive(s4, s3, s3.spec_wires());
        lemma_holds_powers_kept(s5, s3, m_powers@, seed_of);
        lemma_holds_powers_kept(s5, s3, k_powers@, weight_of);
        s5.lemma_keeps_below(s3, s3.spec_wires(), s2.spec_wires());
        s5.lemma_keeps_transitive(s3, s2, s2.spec_wires());
        assert forall|inputs: Seq<int>| #[trigger]
            holds_powers(s5.values(inputs), m_powers@, s5.values(inputs)[z_sq as int], pi) by {
            assert(s5.values(inputs)[z_sq as int] == s2.values(inputs)[z_sq as int]);
            assert(holds_powers(s5.values(inputs), m_powers@, seed_of(inputs), pi));
        }
        assert forall|inputs: Seq<int>| #[trigger]
            holds_powers(
                s5.values(inputs),
                k_powers@,
                pow_mod(s5.values(inputs)[z_sq as int], m_powers@.len(), pi),
                pi,
            ) by {
            assert(s5.values(inputs)[z_sq as int] == s2.values(inputs)[z_sq as int]);
            assert(holds_powers(s5.values(inputs), k_powers@, weight_of(inputs), pi));
        }
    }
    let g: Wire = giant_steps(circuit, &m_powers, &k_powers, coefficients, Ghost(z_sq));
    let ghost s6 = *circuit;
    proof {
        s6.lemma_continues_transitive(s5, s0);
        if tidy {
            assert(forms(s6@)[lead as int] == forms(s5@)[lead as int]);
            assert(forms(s6@)[z as int] == forms(s5@)[z as int]);
        }
    }
    let res: Wire = combine(circuit, lead, g, z);
    proof {
        circuit.lemma_continues_transitive(s6, s0);
        let mark = s0.spec_wires();
        s6.lemma_keeps_below(s5, s5.spec_wires(), s2.spec_wires());
        s6.lemma_keeps_transitive(s5, s2, s2.spec_wires());
        s2.lemma_keeps_below(s1, s1.spec_wires(), mark);
        s2.lemma_keeps_transitive(s1, s0, mark);
        s6.lemma_keeps_below(s2, s2.spec_wires(), mark);
        s6.lemma_keeps_transitive(s2, s0, mark);
        circuit.lemma_keeps_below(s6, lead as int, mark);
        circuit.lemma_keeps_transitive(s6, s0, mark);
        assert forall|inputs: Seq<int>|
            (#[trigger] circuit.values(inputs))[res as int] == less_than_value(
                s0.values(inputs)[x as int],
                s0.values(inputs)[y as int],
                c,
                pi,
            ) by {
            let zr = sub_mod(s0.values(inputs)[x as int], s0.values(inputs)[y as int], pi);
            let big = seed_of(inputs);
            assert(s0.values(inputs).len() == s0.spec_wires());
            assert(s1.values(inputs).len() == s1.spec_wires());
            assert(s1.values(inputs)[z as int] == zr);
            assert(s2.values(inputs)[z as int] == zr);
            assert(big == mul_mod(zr, zr, pi));
            assert(s3.values(inputs)[z_sq as int] == big);
            let lead_value = mul_mod(pow_mod(big, len as nat, pi), (pi + 1) / 2, pi);
            assert(s4.values(inputs)[lead as int] == lead_value);
            assert(s5.values(inputs)[lead as int] == s4.values(inputs)[lead as int]);
            assert(s6.values(inputs)[lead as int] == s5.values(inputs)[lead as int]);
            assert(s5.values(inputs)[z_sq as int] == big);
            assert(s6.values(inputs)[g as int] == poly_eval(c, big) % pi);
            assert(s6.values(inputs)[z as int] == s2.values(inputs)[z as int]);
            lemma_lt_poly_assemble(zr, c, pi, pow_mod(big, len as nat, pi), poly_eval(c, big) % pi);
        }
    }
    Ok(res)
}

/// `wire` carries the outcome of the comparison of `x` and `y` as they stood
/// in `before`, with the coefficients `c`.
pub open spec fn compares(
    circuit: Circuit,
    before: Circuit,
    x: Wire,
    y: Wire,
    wire: Wire,
    c: Seq<int>,
) -> bool {
    forall|inputs: Seq<int>|
        (#[trigger] circuit.values(inputs))[wire as int] == less_than_value(
            before.values(inputs)[x as int],
            before.values(inputs)[y as int],
            c,
            before.spec_modulus(),
        )
}

/// Comparing the same plaintexts again gives the same outcome.
///
/// Two comparisons with the same coefficients over the same modulus, in the
/// same circuit or in two, put out the same residue whenever the two
/// plaintexts compared are the same, whatever else the circuits hold and
/// whichever ciphertexts carry the plaintexts.
pub proof fn lemma_less_than_repeats(
    first: Circuit,
    first_before: Circuit,
    first_inputs: Seq<int>,
    x1: Wire,
    y1: Wire,
    out1: Wire,
    second: Circuit,
    second_before: Circuit,
    second_inputs: Seq<int>,
    x2: Wire,
    y2: Wire,
    out2: Wire,
    c: Seq<int>,
)
    requires
        compares(first, first_before, x1, y1, out1, c),
        compares(second, second_before, x2, y2, out2, c),
        first_before.spec_modulus() == second_before.spec_modulus(),
        first_before.values(first_inputs)[x1 as int] == second_before.values(
            second_inputs,
        )[x2 as int],
        first_before.values(first_inputs)[y1 as int] == second_before.values(
            second_inputs,
        )[y2 as int],
    ensures
        first.values(first_inputs)[out1 as int] == second.values(second_inputs)[out2 as int],
{
}

/// A comparison takes about three times the square root of half the modulus
/// in multiplications of two ciphertexts.
pub proof fn lemma_comparison_multiplications_bound(p: int)
    requires
        p >= 3,
    ensures
        is_root(root((p - 1) / 2), (p - 1) / 2),
        comparison_multiplications(p) <= 3 * root((p - 1) / 2) + 3,
{
    let h = (p - 1) / 2;
    lemma_root_exists(h);
    let m = root(h);
    assert(is_root(m, h));
    assert(m >= 1) by (nonlinear_arith)
        requires
            h >= 1,
            m >= 0,
            h < (m + 1) * (m + 1),
    ;
    let q = (h - 1) / m;
    assert(q <= m + 1) by (nonlinear_arith)
        requires
            q == (h - 1) / m,
            m >= 1,
            h < (m + 1) * (m + 1),
            h >= 1,
    ;
    assert(q >= 0) by (nonlinear_arith)
        requires
            q == (h - 1) / m,
            m >= 1,
            h >= 1,
    ;
}

/// Every number from 0 on has a root.
pub proof fn lemma_root_exists(half: int)
    requires
        half >= 0,
    ensures
        is_root(root(half), half),
    decreases half,
{
    if half == 0 {
        assert(is_root(0, 0));
    } else {
        lemma_root_exists(half - 1);
        let m = root(half - 1);
        if (m + 1) * (m + 1) <= half {
            assert(is_root(m + 1, half)) by (nonlinear_arith)
                requires
                    m >= 0,
                    m * m <= half - 1 < (m + 1) * (m + 1),
                    (m + 1) * (m + 1) <= half,
            ;
        } else {
            assert(is_root(m, half));
        }
    }
}

} // verus!
