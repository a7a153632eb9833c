//! The fixed set of arithmetic gates.

use crate::field::{field_add, field_mul, field_sub, modulus, Scalar};
use crate::gate::{
    canonical_values, minus_one, Gate, Selectors, INPUT_COUNT, MUL_SELECTOR_COUNT,
};
use vstd::arithmetic::div_mod::{lemma_mod_multiples_vanish, lemma_small_mod};
use vstd::arithmetic::mul::lemma_mul_basics;
use vstd::prelude::*;

verus! {

/// `w[0] + w[1] = w[4]`.
pub struct AddGate;

impl Gate for AddGate {
    open spec fn selectors(&self) -> Selectors {
        Selectors::zero().with_q_lc(1, 1).with_q_o(1)
    }

    open spec fn label(&self) -> Seq<char> {
        "Addition Gate"@
    }

    fn name(&self) -> (s: &'static str) {
        "Addition Gate"
    }

    fn q_lc(&self) -> (q: [Scalar; INPUT_COUNT]) {
        [Scalar::one(), Scalar::one(), Scalar::zero(), Scalar::zero()]
    }

    fn q_mul(&self) -> (q: [Scalar; MUL_SELECTOR_COUNT]) {
        [Scalar::zero(), Scalar::zero()]
    }

    fn q_o(&self) -> (q: Scalar) {
        Scalar::one()
    }

    fn q_c(&self) -> (q: Scalar) {
        Scalar::zero()
    }
}

/// `pi = w[4]`, where `pi` is the public input supplied for the row.
pub struct PIGate;

impl Gate for PIGate {
    open spec fn selectors(&self) -> Selectors {
        Selectors::zero().with_q_o(1)
    }

    open spec fn label(&self) -> Seq<char> {
        "IO Gate"@
    }

    fn name(&self) -> (s: &'static str) {
        "IO Gate"
    }

    fn q_lc(&self) -> (q: [Scalar; INPUT_COUNT]) {
        [Scalar::zero(), Scalar::zero(), Scalar::zero(), Scalar::zero()]
    }

    fn q_mul(&self) -> (q: [Scalar; MUL_SELECTOR_COUNT]) {
        [Scalar::zero(), Scalar::zero()]
    }

    fn q_o(&self) -> (q: Scalar) {
        Scalar::one()
    }

    fn q_c(&self) -> (q: Scalar) {
        Scalar::zero()
    }
}

/// `c = w[4]` for the constant `c` it carries.
pub struct ConstGate(pub Scalar);

impl Gate for ConstGate {
    open spec fn selectors(&self) -> Selectors {
        Selectors::zero().with_q_c(self.0@).with_q_o(1)
    }

    open spec fn label(&self) -> Seq<char> {
        "Constant Gate"@
    }

    fn name(&self) -> (s: &'static str) {
        "Constant Gate"
    }

    fn q_lc(&self) -> (q: [Scalar; INPUT_COUNT]) {
        [Scalar::zero(), Scalar::zero(), Scalar::zero(), Scalar::zero()]
    }

    fn q_mul(&self) -> (q: [Scalar; MUL_SELECTOR_COUNT]) {
        [Scalar::zero(), Scalar::zero()]
    }

    fn q_o(&self) -> (q: Scalar) {
        Scalar::one()
    }

    fn q_c(&self) -> (q: Scalar) {
        self.0
    }
}

/// `w[0] - w[1] = w[4]`, used with the zero variable on the output wire.
pub struct EqualGate;

impl Gate for EqualGate {
    open spec fn selectors(&self) -> Selectors {
        Selectors::zero().with_q_lc(1, minus_one()).with_q_o(1)
    }

    open spec fn label(&self) -> Seq<char> {
        "Equal Gate"@
    }

    fn name(&self) -> (s: &'static str) {
        "Equal Gate"
    }

    fn q_lc(&self) -> (q: [Scalar; INPUT_COUNT]) {
        [Scalar::one(), Scalar::one().neg(), Scalar::zero(), Scalar::zero()]
    }

    fn q_mul(&self) -> (q: [Scalar; MUL_SELECTOR_COUNT]) {
        [Scalar::zero(), Scalar::zero()]
    }

    fn q_o(&self) -> (q: Scalar) {
        Scalar::one()
    }

    fn q_c(&self) -> (q: Scalar) {
        Scalar::zero()
    }
}

/// `w[0] * w[1] = w[4]`.
pub struct MulGate;

impl Gate for MulGate {
    open spec fn selectors(&self) -> Selectors {
        Selectors::zero().with_q_mul(1).with_q_o(1)
    }

    open spec fn label(&self) -> Seq<char> {
        "Mul Gate"@
    }

    fn name(&self) -> (s: &'static str) {
        "Mul Gate"
    }

    fn q_lc(&self) -> (q: [Scalar; INPUT_COUNT]) {
        [Scalar::zero(), Scalar::zero(), Scalar::zero(), Scalar::zero()]
    }

    fn q_mul(&self) -> (q: [Scalar; MUL_SELECTOR_COUNT]) {
        [Scalar::one(), Scalar::zero()]
    }

    fn q_o(&self) -> (q: Scalar) {
        Scalar::one()
    }

    fn q_c(&self) -> (q: Scalar) {
        Scalar::zero()
    }
}

/// `w[0] - w[1] = w[4]`.
pub struct SubGate;

impl Gate for SubGate {
    open spec fn selectors(&self) -> Selectors {
        Selectors::zero().with_q_lc(1, minus_one()).with_q_o(1)
    }

    open spec fn label(&self) -> Seq<char> {
        "Sub Gate"@
    }

    fn name(&self) -> (s: &'static str) {
        "Sub Gate"
    }

    fn q_lc(&self) -> (q: [Scalar; INPUT_COUNT]) {
        [Scalar::one(), Scalar::one().neg(), Scalar::zero(), Scalar::zero()]
    }

    fn q_mul(&self) -> (q: [Scalar; MUL_SELECTOR_COUNT]) {
        [Scalar::zero(), Scalar::zero()]
    }

    fn q_o(&self) -> (q: Scalar) {
        Scalar::one()
    }

    fn q_c(&self) -> (q: Scalar) {
        Scalar::zero()
    }
}

/// Any one of the gates: the closed set a circuit is built from.
pub enum ArithmeticGate {
    Add(AddGate),
    Sub(SubGate),
    Mul(MulGate),
    Equal(EqualGate),
    Const(ConstGate),
    PublicInput(PIGate),
}

impl ArithmeticGate {
    /// Whether this is a public-input gate, whose term the caller supplies.
    pub open spec fn is_pi(&self) -> bool {
        self is PublicInput
    }

    pub fn is_public_input(&self) -> (r: bool)
        ensures
            r == self.is_pi(),
    {
        match self {
            ArithmeticGate::PublicInput(_) => true,
            _ => false,
        }
    }
}

impl Gate for ArithmeticGate {
    open spec fn selectors(&self) -> Selectors {
        match self {
            ArithmeticGate::Add(g) => g.selectors(),
            ArithmeticGate::Sub(g) => g.selectors(),
            ArithmeticGate::Mul(g) => g.selectors(),
            ArithmeticGate::Equal(g) => g.selectors(),
            ArithmeticGate::Const(g) => g.selectors(),
            ArithmeticGate::PublicInput(g) => g.selectors(),
        }
    }

    open spec fn label(&self) -> Seq<char> {
        match self {
            ArithmeticGate::Add(g) => g.label(),
            ArithmeticGate::Sub(g) => g.label(),
            ArithmeticGate::Mul(g) => g.label(),
            ArithmeticGate::Equal(g) => g.label(),
            ArithmeticGate::Const(g) => g.label(),
            ArithmeticGate::PublicInput(g) => g.label(),
        }
    }

    fn name(&self) -> (s: &'static str) {
        match self {
            ArithmeticGate::Add(g) => g.name(),
            ArithmeticGate::Sub(g) => g.name(),
            ArithmeticGate::Mul(g) => g.name(),
            ArithmeticGate::Equal(g) => g.name(),
            ArithmeticGate::Const(g) => g.name(),
            ArithmeticGate::PublicInput(g) => g.name(),
        }
    }

    fn q_lc(&self) -> (q: [Scalar; INPUT_COUNT]) {
        match self {
            ArithmeticGate::Add(g) => g.q_lc(),
            ArithmeticGate::Sub(g) => g.q_lc(),
            ArithmeticGate::Mul(g) => g.q_lc(),
            ArithmeticGate::Equal(g) => g.q_lc(),
            ArithmeticGate::Const(g) => g.q_lc(),
            ArithmeticGate::PublicInput(g) => g.q_lc(),
        }
    }

    fn q_mul(&self) -> (q: [Scalar; MUL_SELECTOR_COUNT]) {
        match self {
            ArithmeticGate::Add(g) => g.q_mul(),
            ArithmeticGate::Sub(g) => g.q_mul(),
            ArithmeticGate::Mul(g) => g.q_mul(),
            ArithmeticGate::Equal(g) => g.q_mul(),
            ArithmeticGate::Const(g) => g.q_mul(),
            ArithmeticGate::PublicInput(g) => g.q_mul(),
        }
    }

    fn q_o(&self) -> (q: Scalar) {
        match self {
            ArithmeticGate::Add(g) => g.q_o(),
            ArithmeticGate::Sub(g) => g.q_o(),
            ArithmeticGate::Mul(g) => g.q_o(),
            ArithmeticGate::Equal(g) => g.q_o(),
            ArithmeticGate::Const(g) => g.q_o(),
            ArithmeticGate::PublicInput(g) => g.q_o(),
        }
    }

    fn q_c(&self) -> (q: Scalar) {
        match self {
            ArithmeticGate::Add(g) => g.q_c(),
            ArithmeticGate::Sub(g) => g.q_c(),
            ArithmeticGate::Mul(g) => g.q_c(),
            ArithmeticGate::Equal(g) => g.q_c(),
            ArithmeticGate::Const(g) => g.q_c(),
            ArithmeticGate::PublicInput(g) => g.q_c(),
        }
    }
}

/// A coefficient of zero removes its term and a coefficient of one leaves the
/// term as it is.
proof fn lemma_unit_terms(s: Selectors, w: Seq<int>)
    ensures
        forall|i: int| 0 <= i < 4 && s.q_lc[i] == 0 ==> #[trigger] (s.q_lc[i] * w[i]) == 0,
        forall|i: int| 0 <= i < 4 && s.q_lc[i] == 1 ==> #[trigger] (s.q_lc[i] * w[i]) == w[i],
        s.q_mul[0] == 0 ==> s.q_mul[0] * w[0] * w[1] == 0,
        s.q_mul[0] == 1 ==> s.q_mul[0] * w[0] * w[1] == w[0] * w[1],
        s.q_mul[1] == 0 ==> s.q_mul[1] * w[2] * w[3] == 0,
        s.q_mul[1] == 1 ==> s.q_mul[1] * w[2] * w[3] == w[2] * w[3],
        s.q_o == 1 ==> s.q_o * w[4] == w[4],
{
    assert forall|i: int| 0 <= i < 4 && s.q_lc[i] == 0 implies #[trigger] (s.q_lc[i] * w[i])
        == 0 by {
        lemma_mul_basics(w[i]);
    }
    assert forall|i: int| 0 <= i < 4 && s.q_lc[i] == 1 implies #[trigger] (s.q_lc[i] * w[i])
        == w[i] by {
        lemma_mul_basics(w[i]);
    }
    lemma_mul_basics(w[0]);
    lemma_mul_basics(w[1]);
    lemma_mul_basics(w[2]);
    lemma_mul_basics(w[3]);
    lemma_mul_basics(w[4]);
    lemma_mul_basics(w[0] * w[1]);
    lemma_mul_basics(w[2] * w[3]);
}

/// An addition row holds exactly when the output is the sum of the inputs.
pub proof fn lemma_add_gate_holds(w: Seq<int>)
    requires
        canonical_values(w),
    ensures
        AddGate.selectors().holds(w, 0) <==> field_add(w[0], w[1]) == w[4],
{
    let s = AddGate.selectors();
    lemma_unit_terms(s, w);
    lemma_small_mod(w[4] as nat, modulus() as nat);
}

/// A subtraction row holds exactly when the output is the difference of the
/// inputs.
pub proof fn lemma_sub_gate_holds(w: Seq<int>)
    requires
        canonical_values(w),
    ensures
        SubGate.selectors().holds(w, 0) <==> field_sub(w[0], w[1]) == w[4],
{
    let s = SubGate.selectors();
    let p = modulus();
    lemma_unit_terms(s, w);
    assert(s.q_lc[1] == p - 1);
    assert(s.q_lc[1] * w[1] == p * w[1] - w[1]) by (nonlinear_arith)
        requires
            s.q_lc[1] == p - 1,
    ;
    assert(s.lhs(w, 0) == (p * w[1] + (w[0] - w[1])) % p);
    lemma_mod_multiples_vanish(w[1], w[0] - w[1], p);
    lemma_small_mod(w[4] as nat, p as nat);
}

/// An equality row has the selectors of a subtraction row.
pub proof fn lemma_equal_gate_holds(w: Seq<int>)
    requires
        canonical_values(w),
    ensures
        EqualGate.selectors().holds(w, 0) <==> field_sub(w[0], w[1]) == w[4],
{
    lemma_sub_gate_holds(w);
    assert(EqualGate.selectors() == SubGate.selectors());
}

/// A multiplication row holds exactly when the output is the product of the
/// first two inputs.
pub proof fn lemma_mul_gate_holds(w: Seq<int>)
    requires
        canonical_values(w),
    ensures
        MulGate.selectors().holds(w, 0) <==> field_mul(w[0], w[1]) == w[4],
{
    let s = MulGate.selectors();
    lemma_unit_terms(s, w);
    lemma_small_mod(w[4] as nat, modulus() as nat);
}

/// A constant row holds exactly when the output is the constant.
pub proof fn lemma_const_gate_holds(gate: ConstGate, w: Seq<int>)
    requires
        canonical_values(w),
        gate.0.canonical(),
    ensures
        gate.selectors().holds(w, 0) <==> gate.0@ == w[4],
{
    let s = gate.selectors();
    lemma_unit_terms(s, w);
    lemma_small_mod(w[4] as nat, modulus() as nat);
    lemma_small_mod(gate.0@ as nat, modulus() as nat);
}

/// A public-input row holds exactly when the output is the public input.
pub proof fn lemma_pi_gate_holds(w: Seq<int>, pi: int)
    requires
        canonical_values(w),
        0 <= pi < modulus(),
    ensures
        PIGate.selectors().holds(w, pi) <==> pi == w[4],
{
    let s = PIGate.selectors();
    lemma_unit_terms(s, w);
    lemma_small_mod(w[4] as nat, modulus() as nat);
    lemma_small_mod(pi as nat, modulus() as nat);
}

impl ArithmeticGate {
    /// Whether this gate relates its first two inputs to its output.
    pub open spec fn is_binary(&self) -> bool {
        self is Add || self is Sub || self is Mul || self is Equal
    }

    /// What a binary gate makes of its two inputs.
    pub open spec fn binary_value(&self, x: int, y: int) -> int {
        match self {
            ArithmeticGate::Add(_) => field_add(x, y),
            ArithmeticGate::Mul(_) => field_mul(x, y),
            _ => field_sub(x, y),
        }
    }

    /// The row of a binary gate holds exactly when the output is what that
    /// gate makes of the first two inputs.
    pub proof fn lemma_binary_gate_holds(&self, w: Seq<int>)
        requires
            self.is_binary(),
            canonical_values(w),
        ensures
            self.selectors().holds(w, 0) <==> self.binary_value(w[0], w[1]) == w[4],
    {
        lemma_add_gate_holds(w);
        lemma_sub_gate_holds(w);
        lemma_mul_gate_holds(w);
        lemma_equal_gate_holds(w);
    }
}

/// Every gate weighs its output wire with one.
pub proof fn lemma_output_selector_is_one(gate: ArithmeticGate)
    ensures
        gate.selectors().q_o == 1,
{
}

} // verus!
