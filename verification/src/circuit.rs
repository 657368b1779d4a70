//! Straight-line circuits over encrypted values.
//!
//! A [`Circuit`] records, in order, the homomorphic operations that a
//! computation performs on ciphertexts. The record never sees a plaintext or
//! a ciphertext: it is built from wire numbers alone, so the sequence of
//! operations cannot depend on the encrypted data. What a circuit computes
//! is defined on plaintext residues modulo the plaintext modulus, slot by
//! slot, by [`run`].
//!
//! A ciphertext is in one of two representations and at one of two sizes.
//! [`forms`] follows the form of every ciphertext through the steps, and a
//! circuit is [`disciplined`] if every step finds its ciphertexts in a form
//! it can work on: no lazy product is left without being brought back to
//! base size before it is used as a factor, and no plaintext meets a
//! ciphertext in the wrong representation.

use crate::field::{
    add_mod, add_residues, is_prime, is_prime_modulus, mul_mod, mul_residues, neg_mod,
    negate_residue, sub_mod, sub_residues,
};
use vstd::prelude::*;

verus! {

/// Number of a ciphertext held by a circuit, in order of creation.
pub type Wire = usize;

/// The two encodings of a ciphertext polynomial.
#[derive(Clone, Copy, Debug, PartialEq, Eq, Structural)]
pub enum Representation {
    Coefficient,
    Evaluation,
}

/// The two sizes of a ciphertext: the base size, and the extended size of a
/// lazy product that still has to be brought back to base size.
#[derive(Clone, Copy, Debug, PartialEq, Eq, Structural)]
pub enum Size {
    Base,
    Extended,
}

/// The form a ciphertext is in.
#[derive(Clone, Copy, Debug, PartialEq, Eq, Structural)]
pub struct Form {
    pub representation: Representation,
    pub size: Size,
}

/// The form of a fresh ciphertext: coefficient representation, base size.
pub open spec fn fresh() -> Form {
    Form { representation: Representation::Coefficient, size: Size::Base }
}

/// The form for multiplication by plaintexts: evaluation representation,
/// base size.
pub open spec fn ready() -> Form {
    Form { representation: Representation::Evaluation, size: Size::Base }
}

/// The form of a lazy product: evaluation representation, extended size.
pub open spec fn pending() -> Form {
    Form { representation: Representation::Evaluation, size: Size::Extended }
}

/// One homomorphic operation.
///
/// The first group creates a new ciphertext on the next free wire; the
/// second group updates the ciphertext on `target` in place.
#[derive(Clone, Copy, Debug)]
pub enum Step {
    /// A fresh ciphertext supplied by the caller: input number `position`.
    Input { position: usize },
    /// A copy of `source`.
    Duplicate { source: Wire },
    /// `left - right`.
    Subtract { left: Wire, right: Wire },
    /// `-source`.
    Negate { source: Wire },
    /// `left * right`, rescaled and relinearized to base size.
    Multiply { left: Wire, right: Wire },
    /// `left * right`, left in extended form for later accumulation.
    MultiplyLazy { left: Wire, right: Wire },
    /// An accumulated lazy product rescaled and relinearized to base size.
    Normalize { source: Wire },
    /// `source` times the constant `scalar` in every slot.
    MultiplyPlain { source: Wire, scalar: u64 },
    /// `target += source`.
    AddAssign { target: Wire, source: Wire },
    /// `target += scalar` in every slot, the constant encoded for `form`.
    AddPlainAssign { target: Wire, scalar: u64, form: Representation },
    /// `target *= scalar` in every slot, on an extended-form ciphertext.
    MultiplyPlainAssign { target: Wire, scalar: u64 },
    /// `target = -target`.
    NegateAssign { target: Wire },
    /// Re-encodes `target` in `form`; the plaintext is unchanged.
    ChangeRepresentation { target: Wire, form: Representation },
}

impl Step {
    /// Whether the step puts its result on a new wire.
    pub open spec fn allocates(self) -> bool {
        match self {
            Step::Input { .. } => true,
            Step::Duplicate { .. } => true,
            Step::Subtract { .. } => true,
            Step::Negate { .. } => true,
            Step::Multiply { .. } => true,
            Step::MultiplyLazy { .. } => true,
            Step::Normalize { .. } => true,
            Step::MultiplyPlain { .. } => true,
            _ => false,
        }
    }

    /// Whether the step multiplies two ciphertexts.
    pub open spec fn multiplies(self) -> bool {
        self is Multiply || self is MultiplyLazy
    }

    /// The wire an in-place step overwrites.
    pub open spec fn target(self) -> int {
        match self {
            Step::AddAssign { target, .. } => target as int,
            Step::AddPlainAssign { target, .. } => target as int,
            Step::MultiplyPlainAssign { target, .. } => target as int,
            Step::NegateAssign { target } => target as int,
            Step::ChangeRepresentation { target, .. } => target as int,
            _ => 0,
        }
    }

    /// Every wire the step reads or overwrites already exists, and an input
    /// step takes the next input position.
    pub open spec fn admissible(self, wires: int, inputs: int) -> bool {
        match self {
            Step::Input { position } => position == inputs,
            Step::Duplicate { source } => source < wires,
            Step::Subtract { left, right } => left < wires && right < wires,
            Step::Negate { source } => source < wires,
            Step::Multiply { left, right } => left < wires && right < wires,
            Step::MultiplyLazy { left, right } => left < wires && right < wires,
            Step::Normalize { source } => source < wires,
            Step::MultiplyPlain { source, .. } => source < wires,
            Step::AddAssign { target, source } => target < wires && source < wires,
            Step::AddPlainAssign { target, .. } => target < wires,
            Step::MultiplyPlainAssign { target, .. } => target < wires,
            Step::NegateAssign { target } => target < wires,
            Step::ChangeRepresentation { target, .. } => target < wires,
        }
    }

    /// The step finds the ciphertexts it works on in a form it can work on.
    ///
    /// Ciphertexts are multiplied at base size, the second factor of a lazy
    /// product and both factors of any other product in coefficient
    /// representation. A plaintext is multiplied to a ciphertext in
    /// evaluation representation, at the size the step is made for, and
    /// added to one at base size in the representation the plaintext is
    /// encoded for. Two ciphertexts are added in the same form. Only an
    /// extended ciphertext is brought back to base size, and only a
    /// ciphertext at base size is subtracted, negated or re-encoded.
    pub open spec fn fits(self, forms: Seq<Form>) -> bool {
        match self {
            Step::Input { .. } => true,
            Step::Duplicate { .. } => true,
            Step::Subtract { left, right } => forms[left as int].size is Base
                && forms[left as int] == forms[right as int],
            Step::Negate { source } => forms[source as int].size is Base,
            Step::Multiply { left, right } => forms[left as int] == (Form {
                representation: Representation::Coefficient,
                size: Size::Base,
            }) && forms[right as int] == forms[left as int],
            Step::MultiplyLazy { left, right } => forms[left as int].size is Base
                && forms[right as int] == (Form {
                representation: Representation::Coefficient,
                size: Size::Base,
            }),
            Step::Normalize { source } => forms[source as int].size is Extended,
            Step::MultiplyPlain { source, .. } => forms[source as int] == (Form {
                representation: Representation::Evaluation,
                size: Size::Base,
            }),
            Step::AddAssign { target, source } => forms[target as int] == forms[source as int],
            Step::AddPlainAssign { target, form, .. } => forms[target as int] == (Form {
                representation: form,
                size: Size::Base,
            }),
            Step::MultiplyPlainAssign { target, .. } => forms[target as int] == (Form {
                representation: Representation::Evaluation,
                size: Size::Extended,
            }),
            Step::NegateAssign { target } => forms[target as int].size is Base,
            Step::ChangeRepresentation { target, .. } => forms[target as int].size is Base,
        }
    }

    /// The form of the ciphertext that the step makes or leaves behind.
    pub open spec fn form(self, forms: Seq<Form>) -> Form {
        match self {
            Step::Input { .. } => Form {
                representation: Representation::Coefficient,
                size: Size::Base,
            },
            Step::Duplicate { source } => forms[source as int],
            Step::Subtract { left, .. } => forms[left as int],
            Step::Negate { source } => forms[source as int],
            Step::Multiply { .. } => Form {
                representation: Representation::Coefficient,
                size: Size::Base,
            },
            Step::MultiplyLazy { .. } => Form {
                representation: Representation::Evaluation,
                size: Size::Extended,
            },
            Step::Normalize { .. } => Form {
                representation: Representation::Coefficient,
                size: Size::Base,
            },
            Step::MultiplyPlain { source, .. } => forms[source as int],
            Step::AddAssign { target, .. } => forms[target as int],
            Step::AddPlainAssign { target, .. } => forms[target as int],
            Step::MultiplyPlainAssign { target, .. } => forms[target as int],
            Step::NegateAssign { target } => forms[target as int],
            Step::ChangeRepresentation { form, .. } => Form {
                representation: form,
                size: Size::Base,
            },
        }
    }

    /// The forms on all wires after the step.
    pub open spec fn reform(self, forms: Seq<Form>) -> Seq<Form> {
        if self.allocates() {
            forms.push(self.form(forms))
        } else {
            forms.update(self.target(), self.form(forms))
        }
    }

    /// The plaintext residue the step produces, given the residues `regs`
    /// on the existing wires.
    pub open spec fn value(self, regs: Seq<int>, inputs: Seq<int>, p: int) -> int {
        match self {
            Step::Input { position } => if position < inputs.len() {
                inputs[position as int] % p
            } else {
                0
            },
            Step::Duplicate { source } => regs[source as int],
            Step::Subtract { left, right } => sub_mod(regs[left as int], regs[right as int], p),
            Step::Negate { source } => neg_mod(regs[source as int], p),
            Step::Multiply { left, right } => mul_mod(regs[left as int], regs[right as int], p),
            Step::MultiplyLazy { left, right } => mul_mod(
                regs[left as int],
                regs[right as int],
                p,
            ),
            Step::Normalize { source } => regs[source as int],
            Step::MultiplyPlain { source, scalar } => mul_mod(
                regs[source as int],
                scalar as int,
                p,
            ),
            Step::AddAssign { target, source } => add_mod(
                regs[target as int],
                regs[source as int],
                p,
            ),
            Step::AddPlainAssign { target, scalar, .. } => add_mod(
                regs[target as int],
                scalar as int,
                p,
            ),
            Step::MultiplyPlainAssign { target, scalar } => mul_mod(
                regs[target as int],
                scalar as int,
                p,
            ),
            Step::NegateAssign { target } => neg_mod(regs[target as int], p),
            Step::ChangeRepresentation { target, .. } => regs[target as int],
        }
    }

    /// The residues on all wires after the step.
    pub open spec fn apply(self, regs: Seq<int>, inputs: Seq<int>, p: int) -> Seq<int> {
        if self.allocates() {
            regs.push(self.value(regs, inputs, p))
        } else {
            regs.update(self.target(), self.value(regs, inputs, p))
        }
    }
}

/// Number of wires that `steps` create.
pub open spec fn wire_count(steps: Seq<Step>) -> nat
    decreases steps.len(),
{
    if steps.len() == 0 {
        0
    } else if steps.last().allocates() {
        wire_count(steps.drop_last()) + 1
    } else {
        wire_count(steps.drop_last())
    }
}

/// Number of input steps among `steps`.
pub open spec fn input_count(steps: Seq<Step>) -> nat
    decreases steps.len(),
{
    if steps.len() == 0 {
        0
    } else if steps.last() is Input {
        input_count(steps.drop_last()) + 1
    } else {
        input_count(steps.drop_last())
    }
}

/// Number of multiplications of two ciphertexts among `steps`.
pub open spec fn multiplications(steps: Seq<Step>) -> nat
    decreases steps.len(),
{
    if steps.len() == 0 {
        0
    } else if steps.last().multiplies() {
        multiplications(steps.drop_last()) + 1
    } else {
        multiplications(steps.drop_last())
    }
}

/// The forms of the ciphertexts on all wires after `steps`.
pub open spec fn forms(steps: Seq<Step>) -> Seq<Form>
    decreases steps.len(),
{
    if steps.len() == 0 {
        Seq::empty()
    } else {
        steps.last().reform(forms(steps.drop_last()))
    }
}

/// Every step finds its ciphertexts in a form it can work on.
pub open spec fn disciplined(steps: Seq<Step>) -> bool
    decreases steps.len(),
{
    steps.len() == 0 || {
        &&& disciplined(steps.drop_last())
        &&& steps.last().fits(forms(steps.drop_last()))
    }
}

/// Every wire of `wires` exists and carries a ciphertext in `form`.
pub open spec fn all_in_form(held: Seq<Form>, wires: Seq<Wire>, form: Form) -> bool {
    forall|k: int|
        0 <= k < wires.len() ==> (#[trigger] wires[k]) < held.len() && held[wires[k] as int]
            == form
}

/// Every wire of `wires` exists and carries a ciphertext at base size.
pub open spec fn all_at_base(held: Seq<Form>, wires: Seq<Wire>) -> bool {
    forall|k: int|
        0 <= k < wires.len() ==> (#[trigger] wires[k]) < held.len() && held[wires[k] as int].size
            is Base
}

/// Every step only touches wires created before it.
pub open spec fn well_formed(steps: Seq<Step>) -> bool
    decreases steps.len(),
{
    steps.len() == 0 || {
        &&& well_formed(steps.drop_last())
        &&& steps.last().admissible(
            wire_count(steps.drop_last()) as int,
            input_count(steps.drop_last()) as int,
        )
    }
}

/// The plaintext residues on all wires after `steps` ran on `inputs`,
/// modulo `p`.
pub open spec fn run(steps: Seq<Step>, inputs: Seq<int>, p: int) -> Seq<int>
    decreases steps.len(),
{
    if steps.len() == 0 {
        Seq::empty()
    } else {
        steps.last().apply(run(steps.drop_last(), inputs, p), inputs, p)
    }
}

/// Running a circuit extended by one step applies that step last.
pub proof fn lemma_run_push(steps: Seq<Step>, step: Step, inputs: Seq<int>, p: int)
    ensures
        run(steps.push(step), inputs, p) == step.apply(run(steps, inputs, p), inputs, p),
        wire_count(steps.push(step)) == wire_count(steps) + if step.allocates() {
            1nat
        } else {
            0nat
        },
        input_count(steps.push(step)) == input_count(steps) + if step is Input {
            1nat
        } else {
            0nat
        },
        well_formed(steps.push(step)) == (well_formed(steps) && step.admissible(
            wire_count(steps) as int,
            input_count(steps) as int,
        )),
        multiplications(steps.push(step)) == multiplications(steps) + if step.multiplies() {
            1nat
        } else {
            0nat
        },
        forms(steps.push(step)) == step.reform(forms(steps)),
        disciplined(steps.push(step)) == (disciplined(steps) && step.fits(forms(steps))),
{
    assert(steps.push(step).drop_last() =~= steps);
    assert(steps.push(step).last() == step);
}

/// A well-formed circuit holds one residue per wire, each in `[0, p)`.
pub proof fn lemma_run_shape(steps: Seq<Step>, inputs: Seq<int>, p: int)
    requires
        well_formed(steps),
        p > 0,
    ensures
        run(steps, inputs, p).len() == wire_count(steps),
        forms(steps).len() == wire_count(steps),
        input_count(steps) <= wire_count(steps) <= steps.len(),
        forall|w: int| 0 <= w < wire_count(steps) ==> 0 <= #[trigger] run(steps, inputs, p)[w] < p,
    decreases steps.len(),
{
    if steps.len() > 0 {
        let before = steps.drop_last();
        lemma_run_shape(before, inputs, p);
        let regs = run(before, inputs, p);
        let v = steps.last().value(regs, inputs, p);
        assert(0 <= v < p);
    }
}

/// Every prefix of a well-formed sequence of steps is well formed.
pub proof fn lemma_well_formed_prefix(steps: Seq<Step>, n: int)
    requires
        well_formed(steps),
        0 <= n <= steps.len(),
    ensures
        well_formed(steps.take(n)),
    decreases steps.len(),
{
    if n == steps.len() {
        assert(steps.take(n) =~= steps);
    } else {
        assert(steps.take(n) =~= steps.drop_last().take(n));
        lemma_well_formed_prefix(steps.drop_last(), n);
    }
}

/// The entries of `values` as mathematical integers.
pub open spec fn residues(values: Seq<u64>) -> Seq<int> {
    values.map_values(|v: u64| v as int)
}

/// Whether `step` finds its ciphertexts among `held` in a form it can work
/// on.
fn fits_forms(step: Step, held: &Vec<Form>, Ghost(inputs): Ghost<nat>) -> (fits: bool)
    requires
        step.admissible(held@.len() as int, inputs as int),
    ensures
        fits == step.fits(held@),
{
    match step {
        Step::Input { .. } => true,
        Step::Duplicate { .. } => true,
        Step::Subtract { left, right } => is_base(held[left]) && held[left] == held[right],
        Step::Negate { source } => is_base(held[source]),
        Step::Multiply { left, right } => held[left] == form_of(
            Representation::Coefficient,
            Size::Base,
        ) && held[right] == held[left],
        Step::MultiplyLazy { left, right } => is_base(held[left]) && held[right] == form_of(
            Representation::Coefficient,
            Size::Base,
        ),
        Step::Normalize { source } => !is_base(held[source]),
        Step::MultiplyPlain { source, .. } => held[source] == form_of(
            Representation::Evaluation,
            Size::Base,
        ),
        Step::AddAssign { target, source } => held[target] == held[source],
        Step::AddPlainAssign { target, form, .. } => held[target] == form_of(form, Size::Base),
        Step::MultiplyPlainAssign { target, .. } => held[target] == form_of(
            Representation::Evaluation,
            Size::Extended,
        ),
        Step::NegateAssign { target } => is_base(held[target]),
        Step::ChangeRepresentation { target, .. } => is_base(held[target]),
    }
}

/// The form that `step` makes or leaves behind, given the forms `held`.
fn form_after(step: Step, held: &Vec<Form>, Ghost(inputs): Ghost<nat>) -> (form: Form)
    requires
        step.admissible(held@.len() as int, inputs as int),
    ensures
        form == step.form(held@),
{
    match step {
        Step::Input { .. } => form_of(Representation::Coefficient, Size::Base),
        Step::Duplicate { source } => held[source],
        Step::Subtract { left, .. } => held[left],
        Step::Negate { source } => held[source],
        Step::Multiply { .. } => form_of(Representation::Coefficient, Size::Base),
        Step::MultiplyLazy { .. } => form_of(Representation::Evaluation, Size::Extended),
        Step::Normalize { .. } => form_of(Representation::Coefficient, Size::Base),
        Step::MultiplyPlain { source, .. } => held[source],
        Step::AddAssign { target, .. } => held[target],
        Step::AddPlainAssign { target, .. } => held[target],
        Step::MultiplyPlainAssign { target, .. } => held[target],
        Step::NegateAssign { target } => held[target],
        Step::ChangeRepresentation { form, .. } => form_of(form, Size::Base),
    }
}

/// The form with the given representation and size.
fn form_of(representation: Representation, size: Size) -> (form: Form)
    ensures
        form == (Form { representation, size }),
{
    Form { representation, size }
}

/// Whether a form is at base size.
fn is_base(form: Form) -> (base: bool)
    ensures
        base == (form.size is Base),
{
    match form.size {
        Size::Base => true,
        Size::Extended => false,
    }
}

/// The wire that `step` overwrites, if it works in place.
fn overwritten(step: Step) -> (target: Option<Wire>)
    ensures
        target is None <==> step.allocates(),
        target matches Some(wire) ==> wire == step.target(),
{
    match step {
        Step::AddAssign { target, .. } => Some(target),
        Step::AddPlainAssign { target, .. } => Some(target),
        Step::MultiplyPlainAssign { target, .. } => Some(target),
        Step::NegateAssign { target } => Some(target),
        Step::ChangeRepresentation { target, .. } => Some(target),
        _ => None,
    }
}

/// Why a circuit or one of its parts could not be built.
#[derive(Clone, Copy, Debug, PartialEq, Eq, Structural)]
pub enum CircuitError {
    /// The plaintext modulus is not a prime number.
    ModulusNotPrime,
    /// A table of powers was asked for with no entries.
    EmptyPowerTable,
    /// The coefficient vector was not derived for this plaintext modulus.
    ModulusMismatch,
    /// The plaintext modulus is 2, which leaves no signed range to compare in.
    ModulusTooSmall,
    /// A stored sequence of values is not a whole number of 8-byte words.
    MalformedValues,
}

/// A recorded sequence of homomorphic operations over one prime plaintext
/// modulus.
pub struct Circuit {
    modulus: u64,
    steps: Vec<Step>,
    wires: usize,
    inputs: usize,
}

impl View for Circuit {
    type V = Seq<Step>;

    closed spec fn view(&self) -> Seq<Step> {
        self.steps@
    }
}

impl Circuit {
    /// The plaintext modulus.
    pub closed spec fn spec_modulus(&self) -> int {
        self.modulus as int
    }

    /// Number of wires created so far.
    pub closed spec fn spec_wires(&self) -> int {
        self.wires as int
    }

    /// Number of inputs declared so far.
    pub closed spec fn spec_inputs(&self) -> int {
        self.inputs as int
    }

    /// The recorded steps are well formed, the counters agree with them, and
    /// the modulus is prime.
    pub open spec fn wf(&self) -> bool {
        &&& is_prime(self.spec_modulus())
        &&& well_formed(self@)
        &&& self.spec_wires() == wire_count(self@)
        &&& self.spec_inputs() == input_count(self@)
    }

    /// The plaintext residues on all wires when the circuit runs on `inputs`.
    pub open spec fn values(&self, inputs: Seq<int>) -> Seq<int> {
        run(self@, inputs, self.spec_modulus())
    }

    /// `self` continues `earlier`: same modulus, and every wire that existed
    /// in `earlier` and is numbered below `mark` carries the residue it
    /// carried there, on every input.
    pub open spec fn keeps(&self, earlier: Circuit, mark: int) -> bool {
        &&& self.spec_modulus() == earlier.spec_modulus()
        &&& self.spec_wires() >= earlier.spec_wires()
        &&& self.spec_inputs() >= earlier.spec_inputs()
        &&& forall|inputs: Seq<int>, w: int|
            0 <= w < mark && w < earlier.spec_wires() ==> (#[trigger] self.values(inputs))[w]
                == #[trigger] earlier.values(inputs)[w]
    }

    /// The steps of `earlier` are the first steps of `self`.
    pub open spec fn extends(&self, earlier: Circuit) -> bool {
        earlier@.len() <= self@.len() && self@.take(earlier@.len() as int) == earlier@
    }

    /// `self` continues `earlier`: the steps of `earlier` are the first
    /// steps of `self`, and every wire of `earlier` carries a ciphertext in
    /// the form it had there.
    pub open spec fn continues(&self, earlier: Circuit) -> bool {
        &&& self.extends(earlier)
        &&& forms(self@).len() >= forms(earlier@).len()
        &&& forall|w: int|
            0 <= w < forms(earlier@).len() ==> #[trigger] forms(self@)[w] == forms(earlier@)[w]
    }

    /// `self` is `earlier` with `step` recorded after it.
    pub open spec fn appended(&self, earlier: Circuit, step: Step) -> bool {
        &&& self.wf()
        &&& self@ == earlier@.push(step)
        &&& self.spec_modulus() == earlier.spec_modulus()
        &&& self.spec_inputs() == earlier.spec_inputs() + if step is Input {
            1int
        } else {
            0int
        }
        &&& self.spec_wires() == earlier.spec_wires() + if step.allocates() {
            1int
        } else {
            0int
        }
        &&& multiplications(self@) == multiplications(earlier@) + if step.multiplies() {
            1int
        } else {
            0int
        }
        &&& forms(self@) == step.reform(forms(earlier@))
        &&& forms(earlier@).len() == earlier.spec_wires()
        &&& disciplined(self@) == (disciplined(earlier@) && step.fits(forms(earlier@)))
        &&& forall|inputs: Seq<int>| #[trigger]
            self.values(inputs) == step.apply(
                earlier.values(inputs),
                inputs,
                earlier.spec_modulus(),
            )
        &&& forall|inputs: Seq<int>| #[trigger]
            earlier.values(inputs).len() == earlier.spec_wires()
    }

    /// A well-formed circuit carries one residue per wire, each in `[0, p)`.
    pub proof fn lemma_values_shape(&self, inputs: Seq<int>)
        requires
            self.wf(),
        ensures
            self.values(inputs).len() == self.spec_wires(),
            forall|w: int|
                0 <= w < self.spec_wires() ==> 0 <= #[trigger] self.values(inputs)[w]
                    < self.spec_modulus(),
    {
        lemma_run_shape(self@, inputs, self.spec_modulus());
    }

    /// What a continuation of a continuation keeps.
    pub proof fn lemma_keeps_transitive(&self, middle: Circuit, earlier: Circuit, mark: int)
        requires
            self.keeps(middle, mark),
            middle.keeps(earlier, mark),
        ensures
            self.keeps(earlier, mark),
    {
        assert forall|inputs: Seq<int>, w: int|
            0 <= w < mark && w < earlier.spec_wires() implies (#[trigger] self.values(
            inputs,
        ))[w] == #[trigger] earlier.values(inputs)[w] by {
            assert(middle.values(inputs)[w] == earlier.values(inputs)[w]);
            assert(self.values(inputs)[w] == middle.values(inputs)[w]);
        }
    }

    /// A lower mark keeps less.
    pub proof fn lemma_keeps_below(&self, earlier: Circuit, mark: int, lower: int)
        requires
            self.keeps(earlier, mark),
            lower <= mark,
        ensures
            self.keeps(earlier, lower),
    {
    }

    /// One more step keeps every wire below the one it writes.
    pub proof fn lemma_appended_keeps(&self, earlier: Circuit, step: Step)
        requires
            self.appended(earlier, step),
        ensures
            step.allocates() ==> self.keeps(earlier, earlier.spec_wires()),
            !step.allocates() ==> self.keeps(earlier, step.target()),
    {
        assert forall|inputs: Seq<int>, w: int|
            0 <= w < earlier.spec_wires() && (step.allocates() || w < step.target()) implies (
        #[trigger] self.values(inputs))[w] == #[trigger] earlier.values(inputs)[w] by {
            assert(earlier.values(inputs).len() == earlier.spec_wires());
        }
    }

    /// One more step extends what `earlier` extended.
    pub proof fn lemma_extends_step(&self, earlier: Circuit, step: Step, base: Circuit)
        requires
            self.appended(earlier, step),
            earlier.extends(base),
        ensures
            self.extends(base),
    {
        assert(self@.take(base@.len() as int) =~= earlier@.take(base@.len() as int));
    }

    /// What extends an extension extends the first.
    pub proof fn lemma_extends_transitive(&self, middle: Circuit, earlier: Circuit)
        requires
            self.extends(middle),
            middle.extends(earlier),
        ensures
            self.extends(earlier),
    {
        assert(self@.take(earlier@.len() as int) =~= self@.take(middle@.len() as int).take(
            earlier@.len() as int,
        ));
    }

    /// Every circuit continues itself.
    pub proof fn lemma_continues_itself(&self)
        ensures
            self.continues(*self),
    {
        assert(self@.take(self@.len() as int) =~= self@);
    }

    /// One more step that does not re-encode a wire of `base` continues
    /// `base`.
    pub proof fn lemma_continues_step(&self, earlier: Circuit, step: Step, base: Circuit)
        requires
            self.appended(earlier, step),
            earlier.continues(base),
            step.allocates() || (0 <= step.target() < earlier.spec_wires() && (!(step
                is ChangeRepresentation) || step.target() >= forms(base@).len())),
        ensures
            self.continues(base),
    {
        self.lemma_extends_step(earlier, step, base);
        assert forall|w: int| 0 <= w < forms(base@).len() implies #[trigger] forms(self@)[w]
            == forms(base@)[w] by {
            assert(forms(earlier@)[w] == forms(base@)[w]);
        }
    }

    /// A well-formed circuit has one form per wire.
    pub proof fn lemma_forms_shape(&self)
        requires
            self.wf(),
        ensures
            forms(self@).len() == self.spec_wires(),
    {
        lemma_run_shape(self@, Seq::empty(), self.spec_modulus());
    }

    /// What continues a continuation continues the first.
    pub proof fn lemma_continues_transitive(&self, middle: Circuit, earlier: Circuit)
        requires
            self.continues(middle),
            middle.continues(earlier),
        ensures
            self.continues(earlier),
    {
        self.lemma_extends_transitive(middle, earlier);
        assert forall|w: int| 0 <= w < forms(earlier@).len() implies #[trigger] forms(self@)[w]
            == forms(earlier@)[w] by {
            assert(forms(middle@)[w] == forms(earlier@)[w]);
        }
    }

    /// Wires that were in a form are still in it where forms are kept.
    pub proof fn lemma_all_in_form_kept(&self, earlier: Circuit, wires: Seq<Wire>, form: Form)
        requires
            self.continues(earlier),
            all_in_form(forms(earlier@), wires, form),
        ensures
            all_in_form(forms(self@), wires, form),
    {
        assert forall|k: int| 0 <= k < wires.len() implies (#[trigger] wires[k]) < forms(
            self@,
        ).len() && forms(self@)[wires[k] as int] == form by {
            assert(forms(earlier@)[wires[k] as int] == form);
        }
    }

    /// An empty circuit over the prime `modulus`.
    pub fn new(modulus: u64) -> (made: Result<Circuit, CircuitError>)
        ensures
            made is Ok <==> is_prime(modulus as int),
            made matches Ok(circuit) ==> {
                &&& circuit.wf()
                &&& circuit@ == Seq::<Step>::empty()
                &&& circuit.spec_modulus() == modulus
                &&& circuit.spec_wires() == 0
                &&& circuit.spec_inputs() == 0
            },
            made matches Err(e) ==> e == CircuitError::ModulusNotPrime,
    {
        if is_prime_modulus(modulus) {
            Ok(Circuit { modulus, steps: Vec::new(), wires: 0, inputs: 0 })
        } else {
            Err(CircuitError::ModulusNotPrime)
        }
    }

    /// The plaintext modulus.
    pub fn modulus(&self) -> (p: u64)
        ensures
            p == self.spec_modulus(),
    {
        self.modulus
    }

    /// Number of wires created so far.
    pub fn wires(&self) -> (n: usize)
        ensures
            n == self.spec_wires(),
    {
        self.wires
    }

    /// Number of inputs declared so far.
    pub fn inputs(&self) -> (n: usize)
        ensures
            n == self.spec_inputs(),
    {
        self.inputs
    }

    /// Number of recorded steps.
    pub fn len(&self) -> (n: usize)
        ensures
            n == self@.len(),
    {
        self.steps.len()
    }

    /// Number of recorded multiplications of two ciphertexts.
    pub fn count_multiplications(&self) -> (n: usize)
        ensures
            n == multiplications(self@),
    {
        let mut n: usize = 0;
        let mut i: usize = 0;
        assert(self@.take(0) =~= Seq::<Step>::empty());
        while i < self.steps.len()
            invariant
                i <= self@.len(),
                n <= i,
                n == multiplications(self@.take(i as int)),
            decreases self@.len() - i,
        {
            proof {
                assert(self@.take(i + 1) =~= self@.take(i as int).push(self@[i as int]));
                lemma_run_push(self@.take(i as int), self@[i as int], Seq::empty(), 1);
            }
            match self.steps[i] {
                Step::Multiply { .. } => {
                    n = n + 1;
                },
                Step::MultiplyLazy { .. } => {
                    n = n + 1;
                },
                _ => {},
            }
            i += 1;
        }
        assert(self@.take(i as int) =~= self@);
        n
    }

    /// Checks that every recorded step finds its ciphertexts in a form it
    /// can work on.
    pub fn is_disciplined(&self) -> (ok: bool)
        requires
            self.wf(),
        ensures
            ok == disciplined(self@),
    {
        let mut held: Vec<Form> = Vec::new();
        let mut ok: bool = true;
        let mut i: usize = 0;
        assert(self@.take(0) =~= Seq::<Step>::empty());
        while i < self.steps.len()
            invariant
                i <= self@.len(),
                self.wf(),
                held@ == forms(self@.take(i as int)),
                held@.len() == wire_count(self@.take(i as int)),
                ok == disciplined(self@.take(i as int)),
            decreases self@.len() - i,
        {
            let step: Step = self.steps[i];
            proof {
                assert(self@.take(i + 1).drop_last() =~= self@.take(i as int));
                assert(self@.take(i + 1).last() == step);
                lemma_well_formed_prefix(self@, i + 1);
            }
            let ghost declared = input_count(self@.take(i as int));
            let fits: bool = fits_forms(step, &held, Ghost(declared));
            let form: Form = form_after(step, &held, Ghost(declared));
            match overwritten(step) {
                Some(target) => {
                    held.set(target, form);
                },
                None => {
                    held.push(form);
                },
            }
            ok = ok && fits;
            i += 1;
        }
        assert(self@.take(i as int) =~= self@);
        ok
    }

    /// The `index`-th recorded step.
    pub fn step(&self, index: usize) -> (step: Step)
        requires
            index < self@.len(),
        ensures
            step == self@[index as int],
    {
        self.steps[index]
    }

    /// Runs the circuit on plaintext residues, one per declared input, and
    /// returns the residue on every wire. Missing inputs count as zero.
    pub fn evaluate(&self, inputs: &[u64]) -> (regs: Vec<u64>)
        requires
            self.wf(),
        ensures
            regs@.len() == self.spec_wires(),
            residues(regs@) == self.values(residues(inputs@)),
    {
        let p: u64 = self.modulus;
        let mut regs: Vec<u64> = Vec::new();
        let mut i: usize = 0;
        assert(self@.take(0) =~= Seq::<Step>::empty());
        while i < self.steps.len()
            invariant
                i <= self@.len(),
                self.wf(),
                p == self.modulus,
                regs@.len() == wire_count(self@.take(i as int)),
                residues(regs@) =~= run(self@.take(i as int), residues(inputs@), p as int),
            decreases self@.len() - i,
        {
            let step: Step = self.steps[i];
            let ghost before = self@.take(i as int);
            let ghost old_regs = regs@;
            proof {
                assert(self@.take(i + 1) =~= before.push(step));
                lemma_well_formed_prefix(self@, i + 1);
                lemma_run_push(before, step, residues(inputs@), p as int);
            }
            let value: u64 = match step {
                Step::Input { position } => if position < inputs.len() {
                    inputs[position] % p
                } else {
                    0
                },
                Step::Duplicate { source } => regs[source],
                Step::Subtract { left, right } => sub_residues(regs[left], regs[right], p),
                Step::Negate { source } => negate_residue(regs[source], p),
                Step::Multiply { left, right } => mul_residues(regs[left], regs[right], p),
                Step::MultiplyLazy { left, right } => mul_residues(regs[left], regs[right], p),
                Step::Normalize { source } => regs[source],
                Step::MultiplyPlain { source, scalar } => mul_residues(regs[source], scalar, p),
                Step::AddAssign { target, source } => add_residues(regs[target], regs[source], p),
                Step::AddPlainAssign { target, scalar, .. } => add_residues(
                    regs[target],
                    scalar,
                    p,
                ),
                Step::MultiplyPlainAssign { target, scalar } => mul_residues(
                    regs[target],
                    scalar,
                    p,
                ),
                Step::NegateAssign { target } => negate_residue(regs[target], p),
                Step::ChangeRepresentation { target, .. } => regs[target],
            };
            assert(value as int == step.value(residues(old_regs), residues(inputs@), p as int));
            match step {
                Step::AddAssign { target, .. } => {
                    regs.set(target, value);
                },
                Step::AddPlainAssign { target, .. } => {
                    regs.set(target, value);
                },
                Step::MultiplyPlainAssign { target, .. } => {
                    regs.set(target, value);
                },
                Step::NegateAssign { target } => {
                    regs.set(target, value);
                },
                Step::ChangeRepresentation { target, .. } => {
                    regs.set(target, value);
                },
                _ => {
                    regs.push(value);
                },
            }
            assert(residues(regs@) =~= step.apply(
                residues(old_regs),
                residues(inputs@),
                p as int,
            ));
            i += 1;
        }
        assert(self@.take(i as int) =~= self@);
        regs
    }

    /// Records `step` and returns the wire that holds its result.
    fn emit(&mut self, step: Step) -> (wire: Wire)
        requires
            old(self).wf(),
            step.admissible(old(self).spec_wires(), old(self).spec_inputs()),
        ensures
            final(self).appended(*old(self), step),
            step.allocates() ==> wire == old(self).spec_wires(),
            !step.allocates() ==> wire == step.target(),
    {
        proof {
            lemma_run_shape(self@, Seq::empty(), self.spec_modulus());
            lemma_run_push(self@, step, Seq::empty(), self.spec_modulus());
            assert forall|inputs: Seq<int>| #[trigger]
                run(self@.push(step), inputs, self.spec_modulus()) == step.apply(
                    run(self@, inputs, self.spec_modulus()),
                    inputs,
                    self.spec_modulus(),
                ) by {
                lemma_run_push(self@, step, inputs, self.spec_modulus());
            }
            assert forall|inputs: Seq<int>| #[trigger]
                run(self@, inputs, self.spec_modulus()).len() == self.spec_wires() by {
                lemma_run_shape(self@, inputs, self.spec_modulus());
            }
            assert(forms(self@).len() == self.spec_wires());
        }
        self.steps.push(step);
        let recorded: usize = self.steps.len();
        assert(self.wires < recorded && self.inputs < recorded);
        let wire: Wire = match step {
            Step::Input { .. } => {
                self.inputs = self.inputs + 1;
                self.wires
            },
            Step::Duplicate { .. } => self.wires,
            Step::Subtract { .. } => self.wires,
            Step::Negate { .. } => self.wires,
            Step::Multiply { .. } => self.wires,
            Step::MultiplyLazy { .. } => self.wires,
            Step::Normalize { .. } => self.wires,
            Step::MultiplyPlain { .. } => self.wires,
            Step::AddAssign { target, .. } => target,
            Step::AddPlainAssign { target, .. } => target,
            Step::MultiplyPlainAssign { target, .. } => target,
            Step::NegateAssign { target } => target,
            Step::ChangeRepresentation { target, .. } => target,
        };
        match step {
            Step::AddAssign { .. } => {},
            Step::AddPlainAssign { .. } => {},
            Step::MultiplyPlainAssign { .. } => {},
            Step::NegateAssign { .. } => {},
            Step::ChangeRepresentation { .. } => {},
            _ => {
                self.wires = self.wires + 1;
            },
        }
        wire
    }

    /// Declares the next input ciphertext and returns its wire.
    pub fn input(&mut self) -> (wire: Wire)
        requires
            old(self).wf(),
        ensures
            final(self).appended(
                *old(self),
                Step::Input { position: old(self).spec_inputs() as usize },
            ),
            wire == old(self).spec_wires(),
    {
        self.emit(Step::Input { position: self.inputs })
    }

    /// Copies the ciphertext on `source` to a new wire.
    pub fn duplicate(&mut self, source: Wire) -> (wire: Wire)
        requires
            old(self).wf(),
            source < old(self).spec_wires(),
        ensures
            final(self).appended(*old(self), Step::Duplicate { source }),
            wire == old(self).spec_wires(),
    {
        self.emit(Step::Duplicate { source })
    }

    /// Puts `left - right` on a new wire.
    pub fn subtract(&mut self, left: Wire, right: Wire) -> (wire: Wire)
        requires
            old(self).wf(),
            left < old(self).spec_wires(),
            right < old(self).spec_wires(),
        ensures
            final(self).appended(*old(self), Step::Subtract { left, right }),
            wire == old(self).spec_wires(),
    {
        self.emit(Step::Subtract { left, right })
    }

    /// Puts `-source` on a new wire.
    pub fn negate(&mut self, source: Wire) -> (wire: Wire)
        requires
            old(self).wf(),
            source < old(self).spec_wires(),
        ensures
            final(self).appended(*old(self), Step::Negate { source }),
            wire == old(self).spec_wires(),
    {
        self.emit(Step::Negate { source })
    }

    /// Puts `left * right`, back at base size, on a new wire.
    pub fn multiply(&mut self, left: Wire, right: Wire) -> (wire: Wire)
        requires
            old(self).wf(),
            left < old(self).spec_wires(),
            right < old(self).spec_wires(),
        ensures
            final(self).appended(*old(self), Step::Multiply { left, right }),
            wire == old(self).spec_wires(),
    {
        self.emit(Step::Multiply { left, right })
    }

    /// Puts `left * right`, still in extended form, on a new wire.
    pub fn multiply_lazy(&mut self, left: Wire, right: Wire) -> (wire: Wire)
        requires
            old(self).wf(),
            left < old(self).spec_wires(),
            right < old(self).spec_wires(),
        ensures
            final(self).appended(*old(self), Step::MultiplyLazy { left, right }),
            wire == old(self).spec_wires(),
    {
        self.emit(Step::MultiplyLazy { left, right })
    }

    /// Puts the extended-form `source`, brought back to base size, on a new wire.
    pub fn normalize(&mut self, source: Wire) -> (wire: Wire)
        requires
            old(self).wf(),
            source < old(self).spec_wires(),
        ensures
            final(self).appended(*old(self), Step::Normalize { source }),
            wire == old(self).spec_wires(),
    {
        self.emit(Step::Normalize { source })
    }

    /// Puts `source` times the constant `scalar` on a new wire.
    pub fn multiply_plain(&mut self, source: Wire, scalar: u64) -> (wire: Wire)
        requires
            old(self).wf(),
            source < old(self).spec_wires(),
        ensures
            final(self).appended(*old(self), Step::MultiplyPlain { source, scalar }),
            wire == old(self).spec_wires(),
    {
        self.emit(Step::MultiplyPlain { source, scalar })
    }

    /// Adds `source` to `target` in place.
    pub fn add_assign(&mut self, target: Wire, source: Wire)
        requires
            old(self).wf(),
            target < old(self).spec_wires(),
            source < old(self).spec_wires(),
        ensures
            final(self).appended(*old(self), Step::AddAssign { target, source }),
    {
        self.emit(Step::AddAssign { target, source });
    }

    /// Adds the constant `scalar`, encoded for `form`, to `target` in place.
    pub fn add_plain_assign(&mut self, target: Wire, scalar: u64, form: Representation)
        requires
            old(self).wf(),
            target < old(self).spec_wires(),
        ensures
            final(self).appended(*old(self), Step::AddPlainAssign { target, scalar, form }),
    {
        self.emit(Step::AddPlainAssign { target, scalar, form });
    }

    /// Multiplies the extended-form `target` by the constant `scalar` in place.
    pub fn multiply_plain_assign(&mut self, target: Wire, scalar: u64)
        requires
            old(self).wf(),
            target < old(self).spec_wires(),
        ensures
            final(self).appended(*old(self), Step::MultiplyPlainAssign { target, scalar }),
    {
        self.emit(Step::MultiplyPlainAssign { target, scalar });
    }

    /// Negates `target` in place.
    pub fn negate_assign(&mut self, target: Wire)
        requires
            old(self).wf(),
            target < old(self).spec_wires(),
        ensures
            final(self).appended(*old(self), Step::NegateAssign { target }),
    {
        self.emit(Step::NegateAssign { target });
    }

    /// Re-encodes `target` in `form` in place.
    pub fn change_representation(&mut self, target: Wire, form: Representation)
        requires
            old(self).wf(),
            target < old(self).spec_wires(),
        ensures
            final(self).appended(*old(self), Step::ChangeRepresentation { target, form }),
    {
        self.emit(Step::ChangeRepresentation { target, form });
    }
}

} // verus!
