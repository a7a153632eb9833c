//! Gates: the selector coefficients that turn the generic row equation into
//! one particular constraint.

use crate::field::{field_neg, modulus, Scalar};
use vstd::prelude::*;

pub mod arithmetic;

verus! {

/// Number of input wires a row has.
pub const INPUT_COUNT: usize = 4;

/// Number of multiplication selectors a row has.
pub const MUL_SELECTOR_COUNT: usize = 2;

/// The selector coefficients of one row, as field values.
///
/// A row with input values `w[0..4]`, output value `w[4]` and public-input
/// term `pi` is satisfied when
/// `pi + sum q_lc[i] * w[i] + q_mul[0] * w[0] * w[1] + q_mul[1] * w[2] * w[3] + q_c`
/// equals `q_o * w[4]` in the field.
pub struct Selectors {
    pub q_lc: Seq<int>,
    pub q_mul: Seq<int>,
    pub q_o: int,
    pub q_c: int,
}

impl Selectors {
    /// Selectors that are all zero.
    pub open spec fn zero() -> Selectors {
        Selectors { q_lc: seq![0int, 0int, 0int, 0int], q_mul: seq![0int, 0int], q_o: 0, q_c: 0 }
    }

    pub open spec fn with_q_lc(self, a: int, b: int) -> Selectors {
        Selectors { q_lc: seq![a, b, 0int, 0int], ..self }
    }

    pub open spec fn with_q_mul(self, a: int) -> Selectors {
        Selectors { q_mul: seq![a, 0int], ..self }
    }

    pub open spec fn with_q_o(self, q_o: int) -> Selectors {
        Selectors { q_o, ..self }
    }

    pub open spec fn with_q_c(self, q_c: int) -> Selectors {
        Selectors { q_c, ..self }
    }

    /// The left side of the row equation for wire values `w` and
    /// public-input term `pi`.
    pub open spec fn lhs(self, w: Seq<int>, pi: int) -> int {
        (pi + self.q_lc[0] * w[0] + self.q_lc[1] * w[1] + self.q_lc[2] * w[2] + self.q_lc[3] * w[3]
            + self.q_mul[0] * w[0] * w[1] + self.q_mul[1] * w[2] * w[3] + self.q_c) % modulus()
    }

    /// The right side of the row equation: the weighted output wire.
    pub open spec fn rhs(self, w: Seq<int>) -> int {
        (self.q_o * w[4]) % modulus()
    }

    /// Whether the row equation holds.
    pub open spec fn holds(self, w: Seq<int>, pi: int) -> bool {
        self.lhs(w, pi) == self.rhs(w)
    }
}

/// Six wire values, each a canonical field value.
pub open spec fn canonical_values(w: Seq<int>) -> bool {
    &&& w.len() == 6
    &&& forall|i: int| 0 <= i < 6 ==> 0 <= #[trigger] w[i] < modulus()
}

/// Whether an array of field elements holds the given values.
pub open spec fn holds_values<const N: usize>(q: [Scalar; N], values: Seq<int>) -> bool {
    &&& values.len() == N
    &&& forall|i: int| 0 <= i < N ==> (#[trigger] q[i])@ == values[i]
}

/// One kind of constraint. Each accessor returns the coefficients that
/// `selectors` names.
pub trait Gate {
    /// The coefficients this gate contributes to its row.
    spec fn selectors(&self) -> Selectors;

    /// The name of this kind of gate.
    spec fn label(&self) -> Seq<char>;

    fn name(&self) -> (s: &'static str)
        ensures
            s@ == self.label(),
    ;

    fn q_lc(&self) -> (q: [Scalar; INPUT_COUNT])
        ensures
            holds_values(q, self.selectors().q_lc),
    ;

    fn q_mul(&self) -> (q: [Scalar; MUL_SELECTOR_COUNT])
        ensures
            holds_values(q, self.selectors().q_mul),
    ;

    fn q_o(&self) -> (q: Scalar)
        ensures
            q@ == self.selectors().q_o,
    ;

    fn q_c(&self) -> (q: Scalar)
        ensures
            q@ == self.selectors().q_c,
    ;
}

/// The value of minus one, the coefficient of the subtrahend.
pub open spec fn minus_one() -> int {
    field_neg(1)
}

} // verus!
