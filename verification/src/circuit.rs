//! The constraint system: an append-only witness, a list of gates and the
//! table that wires each gate to six variables.

use crate::field::{
    field_add, field_mul, field_sub, invertible, lemma_add_congruent, lemma_congruent_reduced,
    lemma_field_add_cancels, lemma_field_mul_cancels, lemma_field_mul_commutes,
    lemma_field_sub_cancels, lemma_mul_congruent, modulus, Scalar,
};
use crate::gate::arithmetic::{
    lemma_add_gate_holds, lemma_const_gate_holds, lemma_equal_gate_holds, lemma_mul_gate_holds,
    lemma_output_selector_is_one, lemma_pi_gate_holds, lemma_sub_gate_holds, AddGate,
    ArithmeticGate, ConstGate, EqualGate, MulGate, PIGate, SubGate,
};
use crate::gate::{canonical_values, Gate, INPUT_COUNT};
use vstd::arithmetic::div_mod::{lemma_mod_multiples_vanish, lemma_small_mod};
use vstd::arithmetic::mul::lemma_mul_basics;
use vstd::prelude::*;

verus! {

/// Index of a variable in the witness.
pub type VarId = usize;

/// Index of a gate, and of its row in the wire table.
pub type GateId = usize;

/// Index of a wire within a row.
pub type WireId = usize;

/// Every row has six wires.
pub const WIRE_COUNT: usize = 6;

pub const INPUT1: usize = 0;

pub const INPUT2: usize = 1;

pub const INPUT3: usize = 2;

pub const INPUT4: usize = 3;

/// The wire that carries a gate's output, a constant or a public input.
pub const OUTPUT: usize = 4;

pub const CUSTOM: usize = 5;

/// The row of a gate with two inputs and one output; the other wires refer
/// to variable zero.
pub open spec fn binary_row(a: VarId, b: VarId, c: VarId) -> [VarId; WIRE_COUNT] {
    [a, b, 0, 0, c, 0]
}

/// The row of a gate that only constrains its output wire.
pub open spec fn output_row(a: VarId) -> [VarId; WIRE_COUNT] {
    [0, 0, 0, 0, a, 0]
}

/// What a circuit is, as mathematics: the contents of its five sequences.
#[verifier::ext_equal]
pub struct CircuitModel {
    pub var_count: int,
    pub witness: Seq<Scalar>,
    pub pi_vars: Seq<VarId>,
    pub gates: Seq<ArithmeticGate>,
    pub pi_gates: Seq<GateId>,
    pub var_table: Seq<[VarId; WIRE_COUNT]>,
}

impl CircuitModel {
    /// The invariant of a circuit: every index stored in it is in range, the
    /// registered public inputs are public-input gates in creation order, each
    /// wired to its variable.
    pub open spec fn wf(self) -> bool {
        &&& self.var_count == self.witness.len()
        &&& self.gates.len() == self.var_table.len()
        &&& self.pi_vars.len() == self.pi_gates.len()
        &&& forall|v: int| 0 <= v < self.witness.len() ==> (#[trigger] self.witness[v]).canonical()
        &&& forall|g: int, w: int|
            0 <= g < self.var_table.len() && 0 <= w < WIRE_COUNT ==> (
            #[trigger] self.var_table[g][w]) < self.var_count
        &&& forall|k: int|
            0 <= k < self.pi_gates.len() ==> {
                &&& (#[trigger] self.pi_gates[k]) < self.gates.len()
                &&& self.gates[self.pi_gates[k] as int].is_pi()
                &&& self.var_table[self.pi_gates[k] as int][OUTPUT as int] == self.pi_vars[k]
            }
        &&& forall|j: int, k: int|
            0 <= j < k < self.pi_gates.len() ==> (#[trigger] self.pi_gates[j]) < (
            #[trigger] self.pi_gates[k])
    }

    /// The value of variable `v`.
    pub open spec fn value(self, v: int) -> int {
        self.witness[v]@
    }

    /// The value on wire `w` of row `g`.
    pub open spec fn cell_value(self, g: int, w: int) -> int {
        self.witness[self.var_table[g][w] as int]@
    }

    /// The six wire values of row `g`.
    pub open spec fn wire_values(self, g: int) -> Seq<int> {
        Seq::new(WIRE_COUNT as nat, |w: int| self.cell_value(g, w))
    }

    /// Whether row `g` is satisfied with public-input term `pi`.
    pub open spec fn row_holds(self, g: int, pi: int) -> bool {
        self.gates[g].selectors().holds(self.wire_values(g), pi)
    }

    /// Whether the witness satisfies the circuit for the given public inputs:
    /// each registered public-input gate with the input at its position, and
    /// every gate that is not a public-input gate with the term zero.
    pub open spec fn satisfied(self, pi: Seq<Scalar>) -> bool {
        &&& forall|k: int|
            0 <= k < self.pi_gates.len() ==> self.row_holds(
                (#[trigger] self.pi_gates[k]) as int,
                pi[k]@,
            )
        &&& forall|g: int|
            0 <= g < self.gates.len() && !(#[trigger] self.gates[g]).is_pi() ==> self.row_holds(
                g,
                0,
            )
    }

    /// The witness values of the public variables, in creation order.
    pub open spec fn public_values(self) -> Seq<Scalar> {
        Seq::new(self.pi_vars.len(), |k: int| self.witness[self.pi_vars[k] as int])
    }

    /// The circuit with one more variable.
    pub open spec fn push_var(self, val: Scalar) -> CircuitModel {
        CircuitModel {
            var_count: self.var_count + 1,
            witness: self.witness.push(val),
            ..self
        }
    }

    /// The circuit with one more gate.
    pub open spec fn push_row(self, gate: ArithmeticGate, wires: [VarId; WIRE_COUNT])
        -> CircuitModel {
        CircuitModel {
            gates: self.gates.push(gate),
            var_table: self.var_table.push(wires),
            ..self
        }
    }

    /// The circuit with variable `v` and gate `g` registered as a public input.
    pub open spec fn register_public(self, v: VarId, g: GateId) -> CircuitModel {
        CircuitModel { pi_vars: self.pi_vars.push(v), pi_gates: self.pi_gates.push(g), ..self }
    }

    /// The circuit with the value of variable `v` replaced.
    pub open spec fn with_witness(self, v: int, val: Scalar) -> CircuitModel {
        CircuitModel { witness: self.witness.update(v, val), ..self }
    }

    /// Whether a row refers to existing variables only.
    pub open spec fn row_in_range(self, wires: [VarId; WIRE_COUNT]) -> bool {
        forall|w: int| 0 <= w < WIRE_COUNT ==> (#[trigger] wires[w]) < self.var_count
    }

    /// The circuit without variables and gates.
    pub open spec fn empty() -> CircuitModel {
        CircuitModel {
            var_count: 0,
            witness: Seq::empty(),
            pi_vars: Seq::empty(),
            gates: Seq::empty(),
            pi_gates: Seq::empty(),
            var_table: Seq::empty(),
        }
    }

    /// The circuit every construction starts from: the variables `zero` and
    /// `one`, each fixed by a constant gate.
    pub open spec fn initial(zero: Scalar, one: Scalar) -> CircuitModel {
        Self::empty().push_var(zero).push_var(one).push_row(
            ArithmeticGate::Const(ConstGate(zero)),
            output_row(0),
        ).push_row(ArithmeticGate::Const(ConstGate(one)), output_row(1))
    }

    /// Whether row `g` is one that a check of the circuit evaluates: any gate
    /// but a public-input gate, and each registered public-input gate.
    pub open spec fn is_checked(self, g: int) -> bool {
        !self.gates[g].is_pi() || exists|k: int|
            0 <= k < self.pi_gates.len() && #[trigger] self.pi_gates[k] == g
    }

    /// The public-input term that a check with inputs `pi` uses for row `g`.
    pub open spec fn pi_term(self, g: int, pi: Seq<Scalar>) -> int {
        if self.gates[g].is_pi() {
            let k = choose|k: int| 0 <= k < self.pi_gates.len() && #[trigger] self.pi_gates[k] == g;
            pi[k]@
        } else {
            0
        }
    }

    /// The wire values of a row are canonical field values.
    pub proof fn lemma_wire_values_canonical(self, g: int)
        requires
            self.wf(),
            0 <= g < self.gates.len(),
        ensures
            canonical_values(self.wire_values(g)),
    {
        let w = self.wire_values(g);
        assert forall|i: int| 0 <= i < 6 implies 0 <= #[trigger] w[i] < modulus() by {
            let v = self.var_table[g][i];
            assert(self.witness[v as int].canonical());
        }
    }

    /// Whether the witness satisfies the circuit for the public inputs that
    /// the witness itself holds.
    pub open spec fn consistent(self) -> bool {
        self.satisfied(self.public_values())
    }

    /// Replacing the value of a variable keeps the invariant.
    pub proof fn lemma_with_witness(self, v: int, val: Scalar)
        requires
            self.wf(),
            0 <= v < self.var_count,
            val.canonical(),
        ensures
            self.with_witness(v, val).wf(),
    {
        let n = self.with_witness(v, val);
        assert forall|u: int| 0 <= u < n.witness.len() implies (#[trigger] n.witness[u]).canonical() by {
            if u != v {
                assert(self.witness[u].canonical());
            }
        }
        assert forall|k: int| 0 <= k < n.pi_gates.len() implies {
            &&& (#[trigger] n.pi_gates[k]) < n.gates.len()
            &&& n.gates[n.pi_gates[k] as int].is_pi()
            &&& n.var_table[n.pi_gates[k] as int][OUTPUT as int] == n.pi_vars[k]
        } by {
            assert(self.pi_gates[k] < self.gates.len());
        }
    }

    /// A changed output is caught: where the variable on the output wire of a
    /// checked row is on none of its input wires, and the row held, giving
    /// that variable another value leaves the circuit unsatisfied.
    pub proof fn lemma_overwritten_output_unsatisfied(
        self,
        pi: Seq<Scalar>,
        g: int,
        val: Scalar,
    )
        requires
            self.wf(),
            self.satisfied(pi),
            0 <= g < self.gates.len(),
            self.is_checked(g),
            forall|w: int|
                0 <= w < INPUT_COUNT ==> #[trigger] self.var_table[g][w]
                    != self.var_table[g][OUTPUT as int],
            val.canonical(),
            val != self.witness[self.var_table[g][OUTPUT as int] as int],
        ensures
            !self.with_witness(self.var_table[g][OUTPUT as int] as int, val).satisfied(pi),
    {
        let out = self.var_table[g][OUTPUT as int] as int;
        let n = self.with_witness(out, val);
        let term = self.pi_term(g, pi);
        let s = self.gates[g].selectors();
        let before = self.wire_values(g);
        let after = n.wire_values(g);
        assert(self.var_table[g][OUTPUT as int] < self.var_count);
        assert(self.witness[out].canonical());
        val.lemma_view_injective(self.witness[out]);
        assert(self.row_holds(g, term)) by {
            if self.gates[g].is_pi() {
                let k = choose|k: int|
                    0 <= k < self.pi_gates.len() && #[trigger] self.pi_gates[k] == g;
                assert(self.row_holds(self.pi_gates[k] as int, pi[k]@));
            }
        }
        assert forall|w: int| 0 <= w < INPUT_COUNT implies after[w] == before[w] by {
            assert(self.var_table[g][w] != self.var_table[g][OUTPUT as int]);
        }
        assert(s.lhs(after, term) == s.lhs(before, term));
        lemma_output_selector_is_one(self.gates[g]);
        lemma_mul_basics(after[4]);
        lemma_mul_basics(before[4]);
        lemma_small_mod(after[4] as nat, modulus() as nat);
        lemma_small_mod(before[4] as nat, modulus() as nat);
        assert(s.rhs(after) == val@);
        assert(s.rhs(before) == self.witness[out]@);
        assert(!n.row_holds(g, term));
        if n.satisfied(pi) {
            if self.gates[g].is_pi() {
                let k = choose|k: int|
                    0 <= k < self.pi_gates.len() && #[trigger] self.pi_gates[k] == g;
                assert(n.row_holds(n.pi_gates[k] as int, pi[k]@));
            } else {
                assert(!n.gates[g].is_pi());
                assert(n.row_holds(g, 0));
            }
        }
    }

    /// A changed input is caught: where a variable is on one of the first two
    /// input wires of the row of a binary gate and on no other wire of that
    /// row, and the row held, giving the variable another value leaves the
    /// circuit unsatisfied. For a multiplication the other factor must have
    /// an inverse: a product by zero keeps no trace of what was multiplied.
    pub proof fn lemma_overwritten_input_unsatisfied(
        self,
        pi: Seq<Scalar>,
        g: int,
        wire: int,
        val: Scalar,
    )
        requires
            self.wf(),
            self.satisfied(pi),
            0 <= g < self.gates.len(),
            self.gates[g].is_binary(),
            wire == 0 || wire == 1,
            forall|w: int|
                0 <= w < WIRE_COUNT && w != wire ==> #[trigger] self.var_table[g][w]
                    != self.var_table[g][wire],
            self.gates[g] is Mul ==> invertible(self.cell_value(g, 1 - wire)),
            val.canonical(),
            val != self.witness[self.var_table[g][wire] as int],
        ensures
            !self.with_witness(self.var_table[g][wire] as int, val).satisfied(pi),
    {
        let v = self.var_table[g][wire] as int;
        let n = self.with_witness(v, val);
        let gate = self.gates[g];
        let before = self.wire_values(g);
        let after = n.wire_values(g);
        assert(self.var_table[g][wire] < self.var_count);
        assert(self.witness[v].canonical());
        val.lemma_view_injective(self.witness[v]);
        self.lemma_with_witness(v, val);
        self.lemma_wire_values_canonical(g);
        n.lemma_wire_values_canonical(g);
        assert(!gate.is_pi());
        assert(self.row_holds(g, 0));
        gate.lemma_binary_gate_holds(before);
        gate.lemma_binary_gate_holds(after);
        assert forall|w: int| 0 <= w < WIRE_COUNT && w != wire implies after[w] == before[w] by {
            assert(self.var_table[g][w] != self.var_table[g][wire]);
        }
        assert(after[wire] == val@ && before[wire] == self.witness[v]@);
        if n.row_holds(g, 0) {
            let other = before[1 - wire];
            if gate is Add {
                assert(field_add(val@, other) == field_add(before[wire], other));
                lemma_field_add_cancels(val@, before[wire], other);
            } else if gate is Mul {
                lemma_field_mul_commutes(val@, other);
                lemma_field_mul_commutes(before[wire], other);
                lemma_field_mul_cancels(other, val@, before[wire]);
            } else {
                lemma_field_sub_cancels(val@, before[wire], other);
            }
        }
        if n.satisfied(pi) {
            assert(!n.gates[g].is_pi());
            assert(n.row_holds(g, 0));
        }
    }

    /// The `k`-th registered gate has at least `k` gates before it.
    pub proof fn lemma_public_gate_position(self, k: int)
        requires
            self.wf(),
            0 <= k < self.pi_gates.len(),
        ensures
            k <= self.pi_gates[k],
        decreases k,
    {
        if k > 0 {
            self.lemma_public_gate_position(k - 1);
            assert(self.pi_gates[k - 1] < self.pi_gates[k]);
        }
    }

    /// There are no more public inputs than gates.
    pub proof fn lemma_public_count(self)
        requires
            self.wf(),
        ensures
            self.pi_vars.len() <= self.gates.len(),
    {
        if self.pi_gates.len() > 0 {
            let k = self.pi_gates.len() - 1;
            self.lemma_public_gate_position(k);
            assert(self.pi_gates[k] < self.gates.len());
        }
    }

    /// A new variable changes no row, so the circuit is satisfied as before.
    pub proof fn lemma_push_var(self, val: Scalar)
        requires
            self.wf(),
            val.canonical(),
        ensures
            self.push_var(val).wf(),
            forall|g: int|
                0 <= g < self.gates.len() ==> #[trigger] self.push_var(val).wire_values(g)
                    == self.wire_values(g),
            forall|pi: Seq<Scalar>| #[trigger]
                self.push_var(val).satisfied(pi) == self.satisfied(pi),
            self.push_var(val).public_values() == self.public_values(),
    {
        let n = self.push_var(val);
        assert forall|g: int| 0 <= g < self.gates.len() implies #[trigger] n.wire_values(g)
            == self.wire_values(g) by {
            assert forall|w: int| 0 <= w < WIRE_COUNT implies n.cell_value(g, w)
                == self.cell_value(g, w) by {
                assert(self.var_table[g][w] < self.var_count);
            }
            assert(n.wire_values(g) =~= self.wire_values(g));
        }
        assert forall|v: int| 0 <= v < n.witness.len() implies (#[trigger] n.witness[v]).canonical() by {
            if v < self.witness.len() {
                assert(self.witness[v].canonical());
            }
        }
        assert forall|k: int| 0 <= k < n.pi_gates.len() implies {
            &&& (#[trigger] n.pi_gates[k]) < n.gates.len()
            &&& n.gates[n.pi_gates[k] as int].is_pi()
            &&& n.var_table[n.pi_gates[k] as int][OUTPUT as int] == n.pi_vars[k]
        } by {
            assert(self.pi_gates[k] < self.gates.len());
        }
        assert forall|pi: Seq<Scalar>| #[trigger] n.satisfied(pi) == self.satisfied(pi) by {
            if self.satisfied(pi) {
                assert forall|k: int| 0 <= k < n.pi_gates.len() implies n.row_holds(
                    (#[trigger] n.pi_gates[k]) as int,
                    pi[k]@,
                ) by {
                    assert(self.row_holds(self.pi_gates[k] as int, pi[k]@));
                    assert(self.pi_gates[k] < self.gates.len());
                }
                assert forall|g: int|
                    0 <= g < n.gates.len() && !(#[trigger] n.gates[g]).is_pi() implies n.row_holds(
                    g,
                    0,
                ) by {
                    assert(!self.gates[g].is_pi());
                    assert(self.row_holds(g, 0));
                }
            }
            if n.satisfied(pi) {
                assert forall|k: int| 0 <= k < self.pi_gates.len() implies self.row_holds(
                    (#[trigger] self.pi_gates[k]) as int,
                    pi[k]@,
                ) by {
                    assert(n.row_holds(n.pi_gates[k] as int, pi[k]@));
                    assert(self.pi_gates[k] < self.gates.len());
                }
                assert forall|g: int|
                    0 <= g < self.gates.len() && !(#[trigger] self.gates[g]).is_pi() implies self.row_holds(
                    g,
                    0,
                ) by {
                    assert(!n.gates[g].is_pi());
                    assert(n.row_holds(g, 0));
                }
            }
        }
        assert(n.public_values() =~= self.public_values()) by {
            assert forall|k: int| 0 <= k < self.pi_vars.len() implies n.witness[n.pi_vars[k] as int]
                == self.witness[self.pi_vars[k] as int] by {
                assert(self.pi_gates[k] < self.gates.len());
                assert(self.var_table[self.pi_gates[k] as int][OUTPUT as int] < self.var_count);
            }
        }
    }

    /// A new gate leaves the earlier rows alone: the circuit is satisfied
    /// exactly when it was before and the new row holds, where the new gate is
    /// one that is checked.
    pub proof fn lemma_push_row(self, gate: ArithmeticGate, wires: [VarId; WIRE_COUNT])
        requires
            self.wf(),
            self.row_in_range(wires),
        ensures
            self.push_row(gate, wires).wf(),
            forall|g: int|
                0 <= g < self.gates.len() ==> #[trigger] self.push_row(gate, wires).wire_values(g)
                    == self.wire_values(g),
            forall|pi: Seq<Scalar>| #[trigger]
                self.push_row(gate, wires).satisfied(pi) == (self.satisfied(pi) && (gate.is_pi()
                    || self.push_row(gate, wires).row_holds(self.gates.len() as int, 0))),
            self.push_row(gate, wires).public_values() == self.public_values(),
    {
        let n = self.push_row(gate, wires);
        let last = self.gates.len() as int;
        assert forall|g: int| 0 <= g < self.gates.len() implies #[trigger] n.wire_values(g)
            == self.wire_values(g) by {
            assert(n.wire_values(g) =~= self.wire_values(g));
        }
        assert forall|g: int, w: int| 0 <= g < n.var_table.len() && 0 <= w < WIRE_COUNT implies (
        #[trigger] n.var_table[g][w]) < n.var_count by {
            if g < last {
                assert(self.var_table[g][w] < self.var_count);
            } else {
                assert(wires[w] < self.var_count);
            }
        }
        assert forall|k: int| 0 <= k < n.pi_gates.len() implies {
            &&& (#[trigger] n.pi_gates[k]) < n.gates.len()
            &&& n.gates[n.pi_gates[k] as int].is_pi()
            &&& n.var_table[n.pi_gates[k] as int][OUTPUT as int] == n.pi_vars[k]
        } by {
            assert(self.pi_gates[k] < self.gates.len());
        }
        assert forall|pi: Seq<Scalar>| #[trigger]
            n.satisfied(pi) == (self.satisfied(pi) && (gate.is_pi() || n.row_holds(last, 0))) by {
            if self.satisfied(pi) && (gate.is_pi() || n.row_holds(last, 0)) {
                assert forall|k: int| 0 <= k < n.pi_gates.len() implies n.row_holds(
                    (#[trigger] n.pi_gates[k]) as int,
                    pi[k]@,
                ) by {
                    assert(self.row_holds(self.pi_gates[k] as int, pi[k]@));
                    assert(self.pi_gates[k] < self.gates.len());
                }
                assert forall|g: int|
                    0 <= g < n.gates.len() && !(#[trigger] n.gates[g]).is_pi() implies n.row_holds(
                    g,
                    0,
                ) by {
                    if g < last {
                        assert(!self.gates[g].is_pi());
                        assert(self.row_holds(g, 0));
                    }
                }
            }
            if n.satisfied(pi) {
                assert forall|k: int| 0 <= k < self.pi_gates.len() implies self.row_holds(
                    (#[trigger] self.pi_gates[k]) as int,
                    pi[k]@,
                ) by {
                    assert(n.row_holds(n.pi_gates[k] as int, pi[k]@));
                    assert(self.pi_gates[k] < self.gates.len());
                }
                assert forall|g: int|
                    0 <= g < self.gates.len() && !(#[trigger] self.gates[g]).is_pi() implies self.row_holds(
                    g,
                    0,
                ) by {
                    assert(!n.gates[g].is_pi());
                    assert(n.row_holds(g, 0));
                }
                if !gate.is_pi() {
                    assert(!n.gates[last].is_pi());
                }
            }
        }
        assert(n.public_values() =~= self.public_values());
    }

    /// Registering the last gate `g` as the public input of variable `v` adds
    /// its row to the check, with the next public input as its term.
    pub proof fn lemma_register_public(self, v: VarId, g: GateId)
        requires
            self.wf(),
            g + 1 == self.gates.len(),
            self.gates[g as int].is_pi(),
            self.var_table[g as int][OUTPUT as int] == v,
            forall|k: int| 0 <= k < self.pi_gates.len() ==> (#[trigger] self.pi_gates[k]) < g,
        ensures
            self.register_public(v, g).wf(),
            forall|pi: Seq<Scalar>| #[trigger]
                self.register_public(v, g).satisfied(pi) == (self.satisfied(pi) && self.row_holds(
                    g as int,
                    pi[self.pi_gates.len() as int]@,
                )),
            self.register_public(v, g).public_values() == self.public_values().push(
                self.witness[v as int],
            ),
    {
        let n = self.register_public(v, g);
        let count = self.pi_gates.len() as int;
        assert forall|h: int| 0 <= h < self.gates.len() implies n.wire_values(h)
            == self.wire_values(h) by {
            assert(n.wire_values(h) =~= self.wire_values(h));
        }
        assert(n.pi_gates[count] == g);
        assert(self.var_table[g as int][OUTPUT as int] < self.var_count);
        assert forall|k: int| 0 <= k < n.pi_gates.len() implies {
            &&& (#[trigger] n.pi_gates[k]) < n.gates.len()
            &&& n.gates[n.pi_gates[k] as int].is_pi()
            &&& n.var_table[n.pi_gates[k] as int][OUTPUT as int] == n.pi_vars[k]
        } by {
            if k < count {
                assert(self.pi_gates[k] < self.gates.len());
            }
        }
        assert forall|j: int, k: int| 0 <= j < k < n.pi_gates.len() implies (
        #[trigger] n.pi_gates[j]) < (#[trigger] n.pi_gates[k]) by {
            if k < count {
                assert(self.pi_gates[j] < self.pi_gates[k]);
            } else {
                assert(self.pi_gates[j] < g);
            }
        }
        assert forall|pi: Seq<Scalar>| #[trigger]
            n.satisfied(pi) == (self.satisfied(pi) && self.row_holds(g as int, pi[count]@)) by {
            if self.satisfied(pi) && self.row_holds(g as int, pi[count]@) {
                assert forall|k: int| 0 <= k < n.pi_gates.len() implies n.row_holds(
                    (#[trigger] n.pi_gates[k]) as int,
                    pi[k]@,
                ) by {
                    if k < count {
                        assert(self.row_holds(self.pi_gates[k] as int, pi[k]@));
                    }
                }
                assert forall|h: int|
                    0 <= h < n.gates.len() && !(#[trigger] n.gates[h]).is_pi() implies n.row_holds(
                    h,
                    0,
                ) by {
                    assert(!self.gates[h].is_pi());
                    assert(self.row_holds(h, 0));
                }
            }
            if n.satisfied(pi) {
                assert forall|k: int| 0 <= k < self.pi_gates.len() implies self.row_holds(
                    (#[trigger] self.pi_gates[k]) as int,
                    pi[k]@,
                ) by {
                    assert(n.row_holds(n.pi_gates[k] as int, pi[k]@));
                    assert(self.pi_gates[k] < self.gates.len());
                }
                assert forall|h: int|
                    0 <= h < self.gates.len() && !(#[trigger] self.gates[h]).is_pi() implies self.row_holds(
                    h,
                    0,
                ) by {
                    assert(!n.gates[h].is_pi());
                    assert(n.row_holds(h, 0));
                }
                assert(n.row_holds(n.pi_gates[count] as int, pi[count]@));
            }
        }
        assert(n.public_values() =~= self.public_values().push(self.witness[v as int]));
    }
}

/// Two canonical values differ by a multiple of the modulus only when they
/// are equal.
pub proof fn lemma_sub_zero_iff_equal(x: int, y: int)
    requires
        0 <= x < modulus(),
        0 <= y < modulus(),
    ensures
        field_sub(x, y) == 0 <==> x == y,
{
    let p = modulus();
    if x >= y {
        lemma_small_mod((x - y) as nat, p as nat);
    } else {
        lemma_mod_multiples_vanish(1, x - y, p);
        lemma_small_mod((x - y + p) as nat, p as nat);
    }
}

/// A constraint system that is built gate by gate and checked against a
/// witness.
pub trait Circuit {
    /// The circuit as mathematics.
    spec fn model(&self) -> CircuitModel;

    fn var_count(&self) -> (n: usize)
        requires
            self.model().wf(),
        ensures
            n == self.model().var_count,
    ;

    fn gate_count(&self) -> (n: usize)
        requires
            self.model().wf(),
        ensures
            n == self.model().gates.len(),
    ;

    fn pi_count(&self) -> (n: usize)
        requires
            self.model().wf(),
        ensures
            n == self.model().pi_vars.len(),
    ;

    /// The witness values of the public variables, in creation order.
    fn pi_value(&self) -> (values: Vec<Scalar>)
        requires
            self.model().wf(),
        ensures
            values@ == self.model().public_values(),
    ;

    /// Appends a variable with the given value. A public variable also gets
    /// a public-input gate on its own row and is registered, so that a check
    /// compares it with the public input at its position.
    fn create_var(&mut self, val: Scalar, is_pi: bool) -> (id: VarId)
        requires
            old(self).model().wf(),
        ensures
            id == old(self).model().var_count,
            final(self).model().wf(),
            !is_pi ==> final(self).model() == old(self).model().push_var(val),
            is_pi ==> final(self).model() == old(self).model().push_var(val).push_row(
                ArithmeticGate::PublicInput(PIGate),
                output_row(id),
            ).register_public(id, old(self).model().gates.len() as usize),
            !is_pi ==> forall|pi: Seq<Scalar>| #[trigger]
                final(self).model().satisfied(pi) == old(self).model().satisfied(pi),
            is_pi ==> forall|pi: Seq<Scalar>|
                #![trigger final(self).model().satisfied(pi)]
                old(self).model().pi_gates.len() < pi.len()
                    && pi[old(self).model().pi_gates.len() as int].canonical()
                    ==> final(self).model().satisfied(pi) == (old(self).model().satisfied(pi)
                    && pi[old(self).model().pi_gates.len() as int] == val),
            final(self).model().consistent() == old(self).model().consistent(),
    ;

    fn witness(&self, id: VarId) -> (val: Scalar)
        requires
            self.model().wf(),
            id < self.model().var_count,
        ensures
            val == self.model().witness[id as int],
    ;

    /// Whether the witness satisfies every checked row, given one public
    /// input for each registered public-input gate.
    fn check_circuit(&self, pi: &[Scalar]) -> (ok: bool)
        requires
            self.model().wf(),
            pi@.len() >= self.model().pi_gates.len(),
        ensures
            ok == self.model().satisfied(pi@),
    ;

    /// Appends a variable holding `a + b` with a gate that constrains it.
    fn add(&mut self, a: VarId, b: VarId) -> (c: VarId)
        requires
            old(self).model().wf(),
            a < old(self).model().var_count,
            b < old(self).model().var_count,
        ensures
            c == old(self).model().var_count,
            final(self).model().wf(),
            final(self).model() == old(self).model().push_var(
                final(self).model().witness[c as int],
            ).push_row(ArithmeticGate::Add(AddGate), binary_row(a, b, c)),
            final(self).model().value(c as int) == field_add(
                old(self).model().value(a as int),
                old(self).model().value(b as int),
            ),
            forall|pi: Seq<Scalar>| #[trigger]
                final(self).model().satisfied(pi) == old(self).model().satisfied(pi),
            final(self).model().consistent() == old(self).model().consistent(),
    ;

    /// Appends the constraint `a + b = c`.
    fn add_gate(&mut self, a: VarId, b: VarId, c: VarId)
        requires
            old(self).model().wf(),
            a < old(self).model().var_count,
            b < old(self).model().var_count,
            c < old(self).model().var_count,
        ensures
            final(self).model().wf(),
            final(self).model() == old(self).model().push_row(
                ArithmeticGate::Add(AddGate),
                binary_row(a, b, c),
            ),
            forall|pi: Seq<Scalar>| #[trigger]
                final(self).model().satisfied(pi) == (old(self).model().satisfied(pi) && field_add(
                    old(self).model().value(a as int),
                    old(self).model().value(b as int),
                ) == old(self).model().value(c as int)),
            final(self).model().consistent() == (old(self).model().consistent() && field_add(
                    old(self).model().value(a as int),
                    old(self).model().value(b as int),
                ) == old(self).model().value(c as int)),
    ;

    /// Appends a variable holding `a - b` with a gate that constrains it.
    fn sub(&mut self, a: VarId, b: VarId) -> (c: VarId)
        requires
            old(self).model().wf(),
            a < old(self).model().var_count,
            b < old(self).model().var_count,
        ensures
            c == old(self).model().var_count,
            final(self).model().wf(),
            final(self).model() == old(self).model().push_var(
                final(self).model().witness[c as int],
            ).push_row(ArithmeticGate::Sub(SubGate), binary_row(a, b, c)),
            final(self).model().value(c as int) == field_sub(
                old(self).model().value(a as int),
                old(self).model().value(b as int),
            ),
            forall|pi: Seq<Scalar>| #[trigger]
                final(self).model().satisfied(pi) == old(self).model().satisfied(pi),
            final(self).model().consistent() == old(self).model().consistent(),
    ;

    /// Appends the constraint `a - b = c`.
    fn sub_gate(&mut self, a: VarId, b: VarId, c: VarId)
        requires
            old(self).model().wf(),
            a < old(self).model().var_count,
            b < old(self).model().var_count,
            c < old(self).model().var_count,
        ensures
            final(self).model().wf(),
            final(self).model() == old(self).model().push_row(
                ArithmeticGate::Sub(SubGate),
                binary_row(a, b, c),
            ),
            forall|pi: Seq<Scalar>| #[trigger]
                final(self).model().satisfied(pi) == (old(self).model().satisfied(pi) && field_sub(
                    old(self).model().value(a as int),
                    old(self).model().value(b as int),
                ) == old(self).model().value(c as int)),
            final(self).model().consistent() == (old(self).model().consistent() && field_sub(
                    old(self).model().value(a as int),
                    old(self).model().value(b as int),
                ) == old(self).model().value(c as int)),
    ;

    /// Appends a variable holding `a * b` with a gate that constrains it.
    fn mul(&mut self, a: VarId, b: VarId) -> (c: VarId)
        requires
            old(self).model().wf(),
            a < old(self).model().var_count,
            b < old(self).model().var_count,
        ensures
            c == old(self).model().var_count,
            final(self).model().wf(),
            final(self).model() == old(self).model().push_var(
                final(self).model().witness[c as int],
            ).push_row(ArithmeticGate::Mul(MulGate), binary_row(a, b, c)),
            final(self).model().value(c as int) == field_mul(
                old(self).model().value(a as int),
                old(self).model().value(b as int),
            ),
            forall|pi: Seq<Scalar>| #[trigger]
                final(self).model().satisfied(pi) == old(self).model().satisfied(pi),
            final(self).model().consistent() == old(self).model().consistent(),
    ;

    /// Appends the constraint `a * b = c`.
    fn mul_gate(&mut self, a: VarId, b: VarId, c: VarId)
        requires
            old(self).model().wf(),
            a < old(self).model().var_count,
            b < old(self).model().var_count,
            c < old(self).model().var_count,
        ensures
            final(self).model().wf(),
            final(self).model() == old(self).model().push_row(
                ArithmeticGate::Mul(MulGate),
                binary_row(a, b, c),
            ),
            forall|pi: Seq<Scalar>| #[trigger]
                final(self).model().satisfied(pi) == (old(self).model().satisfied(pi) && field_mul(
                    old(self).model().value(a as int),
                    old(self).model().value(b as int),
                ) == old(self).model().value(c as int)),
            final(self).model().consistent() == (old(self).model().consistent() && field_mul(
                    old(self).model().value(a as int),
                    old(self).model().value(b as int),
                ) == old(self).model().value(c as int)),
    ;

    /// Appends the constraint `a - b = v0`, where `v0` is variable zero; while
    /// that variable holds zero, this is `a = b`.
    fn equal_gate(&mut self, a: VarId, b: VarId)
        requires
            old(self).model().wf(),
            a < old(self).model().var_count,
            b < old(self).model().var_count,
        ensures
            final(self).model().wf(),
            final(self).model() == old(self).model().push_row(
                ArithmeticGate::Equal(EqualGate),
                binary_row(a, b, 0),
            ),
            forall|pi: Seq<Scalar>| #[trigger]
                final(self).model().satisfied(pi) == (old(self).model().satisfied(pi) && field_sub(
                    old(self).model().value(a as int),
                    old(self).model().value(b as int),
                ) == old(self).model().value(0)),
            old(self).model().value(0) == 0 ==> forall|pi: Seq<Scalar>| #[trigger]
                final(self).model().satisfied(pi) == (old(self).model().satisfied(pi)
                    && old(self).model().witness[a as int] == old(self).model().witness[b as int]),
            final(self).model().consistent() == (old(self).model().consistent() && field_sub(
                old(self).model().value(a as int),
                old(self).model().value(b as int),
            ) == old(self).model().value(0)),
    ;

    /// Appends the constraint that variable `a` holds `val`.
    fn const_gate(&mut self, a: VarId, val: Scalar)
        requires
            old(self).model().wf(),
            a < old(self).model().var_count,
        ensures
            final(self).model().wf(),
            final(self).model() == old(self).model().push_row(
                ArithmeticGate::Const(ConstGate(val)),
                output_row(a),
            ),
            forall|pi: Seq<Scalar>| #[trigger]
                final(self).model().satisfied(pi) == (old(self).model().satisfied(pi)
                    && old(self).model().witness[a as int] == val),
            final(self).model().consistent() == (old(self).model().consistent()
                && old(self).model().witness[a as int] == val),
    ;

    /// Appends a public-input gate on variable `a` without registering it: no
    /// public input is matched with it, and a check passes over its row.
    fn pi_gate(&mut self, a: VarId)
        requires
            old(self).model().wf(),
            a < old(self).model().var_count,
        ensures
            final(self).model().wf(),
            final(self).model() == old(self).model().push_row(
                ArithmeticGate::PublicInput(PIGate),
                output_row(a),
            ),
            forall|pi: Seq<Scalar>| #[trigger]
                final(self).model().satisfied(pi) == old(self).model().satisfied(pi),
            final(self).model().consistent() == old(self).model().consistent(),
    ;
}

/// A circuit held in growable vectors. Variable zero holds zero and variable
/// one holds one from the start, each fixed by a constant gate.
pub struct PlonkCircuit {
    var_count: usize,
    witness: Vec<Scalar>,
    pi_vars: Vec<VarId>,
    gates: Vec<ArithmeticGate>,
    pi_gates: Vec<GateId>,
    // One row per gate, in gate order; one column per wire.
    var_table: Vec<[VarId; WIRE_COUNT]>,
}

impl PlonkCircuit {
    pub fn new() -> (circuit: Self)
        ensures
            circuit.model().wf(),
            circuit.model() == CircuitModel::initial(
                circuit.model().witness[0],
                circuit.model().witness[1],
            ),
            circuit.model().value(0) == 0,
            circuit.model().value(1) == 1,
            forall|pi: Seq<Scalar>| #[trigger] circuit.model().satisfied(pi),
            circuit.model().consistent(),
    {
        let mut circuit = Self {
            var_count: 0,
            witness: Vec::new(),
            pi_vars: Vec::new(),
            pi_gates: Vec::new(),
            gates: Vec::new(),
            var_table: Vec::new(),
        };
        assert(circuit.model() == CircuitModel::empty());
        assert forall|pi: Seq<Scalar>| #[trigger] circuit.model().satisfied(pi) by {}
        let zero_value = Scalar::zero();
        let one_value = Scalar::one();
        let zero = circuit.create_var(zero_value, false);
        let one = circuit.create_var(one_value, false);
        circuit.const_gate(zero, zero_value);
        circuit.const_gate(one, one_value);
        circuit
    }

    fn create_gate(&mut self, gate_var: &[VarId; WIRE_COUNT], gate: ArithmeticGate)
        requires
            old(self).model().wf(),
            old(self).model().row_in_range(*gate_var),
        ensures
            final(self).model().wf(),
            final(self).model() == old(self).model().push_row(gate, *gate_var),
    {
        proof {
            self.model().lemma_push_row(gate, *gate_var);
        }
        self.var_table.push(*gate_var);
        self.gates.push(gate);
    }

    fn check_gate(&self, id: GateId, pi: Scalar) -> (ok: bool)
        requires
            self.model().wf(),
            id < self.model().gates.len(),
        ensures
            ok == self.model().row_holds(id as int, pi@),
    {
        let ghost m = self.model();
        let ghost w = m.wire_values(id as int);
        let ghost s = m.gates[id as int].selectors();
        let w0 = self.witness(self.var_table[id][INPUT1]);
        let w1 = self.witness(self.var_table[id][INPUT2]);
        let w2 = self.witness(self.var_table[id][INPUT3]);
        let w3 = self.witness(self.var_table[id][INPUT4]);
        let w4 = self.witness(self.var_table[id][OUTPUT]);
        let q_lc = self.gates[id].q_lc();
        let q_mul = self.gates[id].q_mul();
        let q_o = self.gates[id].q_o();
        let q_c = self.gates[id].q_c();
        let t0 = q_lc[INPUT1].mul(&w0);
        let t1 = q_lc[INPUT2].mul(&w1);
        let t2 = q_lc[INPUT3].mul(&w2);
        let t3 = q_lc[INPUT4].mul(&w3);
        let m0 = q_mul[INPUT1].mul(&w0).mul(&w1);
        let m1 = q_mul[INPUT2].mul(&w2).mul(&w3);
        let output = pi.add(&t0).add(&t1).add(&t2).add(&t3).add(&m0).add(&m1).add(&q_c);
        let weighted = q_o.mul(&w4);
        proof {
            assert(w[0] == w0@ && w[1] == w1@ && w[2] == w2@ && w[3] == w3@ && w[4] == w4@);
            lemma_mul_congruent(s.q_lc[0], s.q_lc[0], w[0], w[0]);
            lemma_mul_congruent(s.q_lc[1], s.q_lc[1], w[1], w[1]);
            lemma_mul_congruent(s.q_lc[2], s.q_lc[2], w[2], w[2]);
            lemma_mul_congruent(s.q_lc[3], s.q_lc[3], w[3], w[3]);
            lemma_mul_congruent(s.q_mul[0], s.q_mul[0], w[0], w[0]);
            lemma_mul_congruent(field_mul(s.q_mul[0], w[0]), s.q_mul[0] * w[0], w[1], w[1]);
            lemma_mul_congruent(s.q_mul[1], s.q_mul[1], w[2], w[2]);
            lemma_mul_congruent(field_mul(s.q_mul[1], w[2]), s.q_mul[1] * w[2], w[3], w[3]);
            let a0 = field_add(pi@, t0@);
            let x0 = pi@ + s.q_lc[0] * w[0];
            lemma_add_congruent(pi@, pi@, t0@, s.q_lc[0] * w[0]);
            let a1 = field_add(a0, t1@);
            let x1 = x0 + s.q_lc[1] * w[1];
            lemma_add_congruent(a0, x0, t1@, s.q_lc[1] * w[1]);
            let a2 = field_add(a1, t2@);
            let x2 = x1 + s.q_lc[2] * w[2];
            lemma_add_congruent(a1, x1, t2@, s.q_lc[2] * w[2]);
            let a3 = field_add(a2, t3@);
            let x3 = x2 + s.q_lc[3] * w[3];
            lemma_add_congruent(a2, x2, t3@, s.q_lc[3] * w[3]);
            let a4 = field_add(a3, m0@);
            let x4 = x3 + s.q_mul[0] * w[0] * w[1];
            lemma_add_congruent(a3, x3, m0@, s.q_mul[0] * w[0] * w[1]);
            let a5 = field_add(a4, m1@);
            let x5 = x4 + s.q_mul[1] * w[2] * w[3];
            lemma_add_congruent(a4, x4, m1@, s.q_mul[1] * w[2] * w[3]);
            let x6 = x5 + s.q_c;
            lemma_add_congruent(a5, x5, q_c@, s.q_c);
            use_type_invariant(&output);
            lemma_congruent_reduced(output@, x6);
            assert(output@ == s.lhs(w, pi@));
            assert(weighted@ == s.rhs(w));
            output.lemma_view_injective(weighted);
        }
        output == weighted
    }

    fn is_pi_gate(&self, id: GateId) -> (r: bool)
        requires
            self.model().wf(),
            id < self.model().gates.len(),
        ensures
            r == self.model().gates[id as int].is_pi(),
    {
        self.gates[id].is_public_input()
    }

    /// Replaces the value of a variable and leaves every gate as it is.
    pub fn set_witness(&mut self, id: VarId, val: Scalar)
        requires
            old(self).model().wf(),
            id < old(self).model().var_count,
        ensures
            final(self).model().wf(),
            final(self).model() == old(self).model().with_witness(id as int, val),
    {
        proof {
            use_type_invariant(&val);
            self.model().lemma_with_witness(id as int, val);
        }
        self.witness.set(id, val);
    }

    /// The variables that the wires of gate `id` refer to.
    pub fn wires(&self, id: GateId) -> (row: [VarId; WIRE_COUNT])
        requires
            self.model().wf(),
            id < self.model().gates.len(),
        ensures
            row == self.model().var_table[id as int],
    {
        self.var_table[id]
    }

    /// Gate `id`.
    pub fn gate(&self, id: GateId) -> (gate: &ArithmeticGate)
        requires
            self.model().wf(),
            id < self.model().gates.len(),
        ensures
            *gate == self.model().gates[id as int],
    {
        &self.gates[id]
    }
}

impl Circuit for PlonkCircuit {
    closed spec fn model(&self) -> CircuitModel {
        CircuitModel {
            var_count: self.var_count as int,
            witness: self.witness@,
            pi_vars: self.pi_vars@,
            gates: self.gates@,
            pi_gates: self.pi_gates@,
            var_table: self.var_table@,
        }
    }

    fn var_count(&self) -> (n: usize) {
        self.var_count
    }

    fn gate_count(&self) -> (n: usize) {
        self.gates.len()
    }

    fn pi_count(&self) -> (n: usize) {
        self.pi_vars.len()
    }

    fn pi_value(&self) -> (values: Vec<Scalar>) {
        let mut values: Vec<Scalar> = Vec::new();
        let mut k: usize = 0;
        while k < self.pi_vars.len()
            invariant
                self.model().wf(),
                k <= self.pi_vars.len(),
                values@.len() == k,
                forall|j: int|
                    0 <= j < k ==> values@[j] == self.witness@[self.pi_vars@[j] as int],
            decreases self.pi_vars.len() - k,
        {
            proof {
                let m = self.model();
                assert(m.pi_gates[k as int] < m.gates.len());
                assert(m.var_table[m.pi_gates[k as int] as int][OUTPUT as int] < m.var_count);
            }
            values.push(self.witness(self.pi_vars[k]));
            k += 1;
        }
        assert(values@ =~= self.model().public_values());
        values
    }

    fn witness(&self, id: VarId) -> (val: Scalar) {
        self.witness[id]
    }

    fn create_var(&mut self, val: Scalar, is_pi: bool) -> (id: VarId) {
        let ghost before = self.model();
        proof {
            use_type_invariant(&val);
            before.lemma_push_var(val);
        }
        self.witness.push(val);
        let var_id = self.var_count;
        assert(self.witness.len() == self.var_count + 1);
        self.var_count += 1;
        assert(self.model() == before.push_var(val));
        if is_pi {
            self.pi_gate(var_id);
            let gate_id = self.gate_count() - 1;
            let ghost wired = self.model();
            proof {
                assert forall|k: int| 0 <= k < wired.pi_gates.len() implies (
                #[trigger] wired.pi_gates[k]) < gate_id by {
                    assert(before.pi_gates[k] < before.gates.len());
                }
                wired.lemma_register_public(var_id, gate_id);
            }
            self.pi_vars.push(var_id);
            self.pi_gates.push(gate_id);
            assert(self.model() == wired.register_public(var_id, gate_id));
            proof {
                let count = before.pi_gates.len() as int;
                assert forall|pi: Seq<Scalar>|
                    count < pi.len() && pi[count].canonical() implies #[trigger]
                    self.model().satisfied(pi) == (before.satisfied(pi) && pi[count] == val) by {
                    wired.lemma_wire_values_canonical(gate_id as int);
                    lemma_pi_gate_holds(wired.wire_values(gate_id as int), pi[count]@);
                    pi[count].lemma_view_injective(val);
                    assert(wired.satisfied(pi) == before.push_var(val).satisfied(pi));
                }
            }
        }
        var_id
    }

    fn add_gate(&mut self, a: VarId, b: VarId, c: VarId) {
        let gate_var = [a, b, 0, 0, c, 0];
        let ghost before = self.model();
        self.create_gate(&gate_var, ArithmeticGate::Add(AddGate));
        proof {
            before.lemma_push_row(ArithmeticGate::Add(AddGate), gate_var);
            let last = before.gates.len() as int;
            self.model().lemma_wire_values_canonical(last);
            lemma_add_gate_holds(self.model().wire_values(last));
        }
    }

    fn add(&mut self, a: VarId, b: VarId) -> (c: VarId) {
        let ghost before = self.model();
        let val = self.witness(a).add(&self.witness(b));
        proof {
            use_type_invariant(&val);
            before.lemma_push_var(val);
        }
        let c = self.create_var(val, false);
        self.add_gate(a, b, c);
        c
    }

    fn equal_gate(&mut self, a: VarId, b: VarId) {
        let gate_var = [a, b, 0, 0, 0, 0];
        let ghost before = self.model();
        self.create_gate(&gate_var, ArithmeticGate::Equal(EqualGate));
        proof {
            before.lemma_push_row(ArithmeticGate::Equal(EqualGate), gate_var);
            let last = before.gates.len() as int;
            self.model().lemma_wire_values_canonical(last);
            lemma_equal_gate_holds(self.model().wire_values(last));
            assert(before.witness[a as int].canonical());
            assert(before.witness[b as int].canonical());
            lemma_sub_zero_iff_equal(before.value(a as int), before.value(b as int));
            before.witness[a as int].lemma_view_injective(before.witness[b as int]);
        }
    }

    fn sub_gate(&mut self, a: VarId, b: VarId, c: VarId) {
        let gate_var = [a, b, 0, 0, c, 0];
        let ghost before = self.model();
        self.create_gate(&gate_var, ArithmeticGate::Sub(SubGate));
        proof {
            before.lemma_push_row(ArithmeticGate::Sub(SubGate), gate_var);
            let last = before.gates.len() as int;
            self.model().lemma_wire_values_canonical(last);
            lemma_sub_gate_holds(self.model().wire_values(last));
        }
    }

    fn sub(&mut self, a: VarId, b: VarId) -> (c: VarId) {
        let ghost before = self.model();
        let val = self.witness(a).sub(&self.witness(b));
        proof {
            use_type_invariant(&val);
            before.lemma_push_var(val);
        }
        let c = self.create_var(val, false);
        self.sub_gate(a, b, c);
        c
    }

    fn mul_gate(&mut self, a: VarId, b: VarId, c: VarId) {
        let gate_var = [a, b, 0, 0, c, 0];
        let ghost before = self.model();
        self.create_gate(&gate_var, ArithmeticGate::Mul(MulGate));
        proof {
            before.lemma_push_row(ArithmeticGate::Mul(MulGate), gate_var);
            let last = before.gates.len() as int;
            self.model().lemma_wire_values_canonical(last);
            lemma_mul_gate_holds(self.model().wire_values(last));
        }
    }

    fn mul(&mut self, a: VarId, b: VarId) -> (c: VarId) {
        let ghost before = self.model();
        let val = self.witness(a).mul(&self.witness(b));
        proof {
            use_type_invariant(&val);
            before.lemma_push_var(val);
        }
        let c = self.create_var(val, false);
        self.mul_gate(a, b, c);
        c
    }

    fn const_gate(&mut self, a: VarId, val: Scalar) {
        let gate_var = [0, 0, 0, 0, a, 0];
        let ghost before = self.model();
        self.create_gate(&gate_var, ArithmeticGate::Const(ConstGate(val)));
        proof {
            use_type_invariant(&val);
            before.lemma_push_row(ArithmeticGate::Const(ConstGate(val)), gate_var);
            let last = before.gates.len() as int;
            self.model().lemma_wire_values_canonical(last);
            lemma_const_gate_holds(ConstGate(val), self.model().wire_values(last));
            before.witness[a as int].lemma_view_injective(val);
        }
    }

    fn pi_gate(&mut self, a: VarId) {
        let gate_var = [0, 0, 0, 0, a, 0];
        let ghost before = self.model();
        self.create_gate(&gate_var, ArithmeticGate::PublicInput(PIGate));
        proof {
            before.lemma_push_row(ArithmeticGate::PublicInput(PIGate), gate_var);
        }
    }

    fn check_circuit(&self, pub_input: &[Scalar]) -> (ok: bool) {
        let ghost m = self.model();
        let mut index: usize = 0;
        while index < self.pi_gates.len()
            invariant
                m == self.model(),
                m.wf(),
                pub_input@.len() >= m.pi_gates.len(),
                index <= m.pi_gates.len(),
                forall|k: int|
                    0 <= k < index ==> m.row_holds(
                        (#[trigger] m.pi_gates[k]) as int,
                        pub_input@[k]@,
                    ),
            decreases self.pi_gates.len() - index,
        {
            let id = self.pi_gates[index];
            let pi = pub_input[index];
            if !self.check_gate(id, pi) {
                assert(!m.row_holds(m.pi_gates[index as int] as int, pub_input@[index as int]@));
                return false;
            }
            index += 1;
        }
        let mut id: usize = 0;
        while id < self.gate_count()
            invariant
                m == self.model(),
                m.wf(),
                id <= m.gates.len(),
                forall|k: int|
                    0 <= k < m.pi_gates.len() ==> m.row_holds(
                        (#[trigger] m.pi_gates[k]) as int,
                        pub_input@[k]@,
                    ),
                forall|g: int|
                    0 <= g < id && !(#[trigger] m.gates[g]).is_pi() ==> m.row_holds(g, 0),
            decreases self.gates.len() - id,
        {
            if !self.is_pi_gate(id) {
                if !self.check_gate(id, Scalar::zero()) {
                    assert(!m.gates[id as int].is_pi());
                    return false;
                }
            }
            id += 1;
        }
        true
    }
}

} // verus!
