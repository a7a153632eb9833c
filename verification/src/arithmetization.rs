//! The lowering of a circuit to polynomials over an evaluation domain, and
//! the labels of the copy-constraint permutation.

use crate::circuit::{Circuit, CircuitModel, PlonkCircuit, WIRE_COUNT};
use crate::domain::{
    domain_element, domain_elements, domain_ifft, domain_size_for, group_gen, is_domain_size,
    is_least_domain_size,
};
use crate::error::ArithmetizationError;
use crate::field::{
    field_inv, field_mul, field_pow, invertible, is_inverse, lemma_equal_powers_same_coset,
    lemma_field_mul_cancels, lemma_field_mul_one, lemma_field_pow_of_product,
    lemma_field_pow_range, lemma_inverse_unique, lemma_power_in_subgroup,
    lemma_same_coset_symmetric, modulus, rng_from_seed, same_coset, Scalar,
};
use crate::gate::{Gate, Selectors};
use crate::grand_product::{
    accumulated, cell_factor, cell_factors, is_bijection, is_reached,
    lemma_grand_product_closes, row_product, rows_invertible, seq_product,
};
use crate::permutation::{
    lemma_next_cell, lemma_next_cell_bijective, lemma_occurrences, lemma_occurrences_step,
    lemma_rank, lemma_rank_of_occurrence, lists, next_cell, occurrences, prev_cell, table_cells,
};
use crate::polynomial::{lemma_trimmed_eval, poly_eval, DensePolynomial};
use vstd::arithmetic::div_mod::lemma_small_mod;
use vstd::prelude::*;

verus! {

/// Number of selector polynomials: four linear, two multiplicative, the
/// output and the constant selector, in this order.
pub const SELECTOR_COUNT: usize = 8;

/// The values of a sequence of field elements.
pub open spec fn values_of(s: Seq<Scalar>) -> Seq<int> {
    Seq::new(s.len(), |i: int| s[i]@)
}

/// Whether a polynomial takes the values of `column` at the first elements
/// of the domain of the given size, and zero at the others.
pub open spec fn interpolates(poly: Seq<Scalar>, size: int, column: Seq<int>) -> bool {
    forall|i: int|
        0 <= i < size ==> #[trigger] poly_eval(poly, domain_element(size, i)) == (if i
            < column.len() {
            column[i]
        } else {
            0
        })
}

/// Whether a polynomial is the interpolation of `column` over the domain of
/// the given size: it takes those values, has fewer coefficients than the
/// domain has elements, and its highest coefficient is not zero.
pub open spec fn is_interpolation(poly: Seq<Scalar>, size: int, column: Seq<int>) -> bool {
    &&& interpolates(poly, size, column)
    &&& poly.len() <= size
    &&& poly.len() > 0 ==> poly.last()@ != 0
}

/// The selector in the given slot: slots zero to three are the linear
/// selectors, four and five the multiplicative ones, six the output selector
/// and seven the constant.
pub open spec fn selector_value(s: Selectors, slot: int) -> int {
    if slot < 4 {
        s.q_lc[slot]
    } else if slot < 6 {
        s.q_mul[slot - 4]
    } else if slot == 6 {
        s.q_o
    } else {
        s.q_c
    }
}

/// The polynomial that interpolates `evals` over the domain of the given
/// size.
fn interpolate(size: usize, evals: &Vec<Scalar>) -> (poly: DensePolynomial)
    requires
        is_domain_size(size as int),
        evals@.len() <= size,
    ensures
        is_interpolation(poly@, size as int, values_of(evals@)),
{
    let coeffs = domain_ifft(size, evals);
    let ghost given = coeffs@;
    let poly = DensePolynomial::from_coefficients_vec(coeffs);
    proof {
        lemma_trimmed_eval(given, 0);
        assert forall|i: int| 0 <= i < size implies #[trigger] poly_eval(
            poly@,
            domain_element(size as int, i),
        ) == (if i < values_of(evals@).len() {
            values_of(evals@)[i]
        } else {
            0
        }) by {
            assert(poly_eval(poly@, domain_element(size as int, i)) == poly_eval(
                given,
                domain_element(size as int, i),
            ));
        }
    }
    poly
}

/// Whether six representatives lie in pairwise different cosets of the
/// subgroup of the given order, the first of them being one.
pub open spec fn distinct_cosets(k: Seq<Scalar>, order: int) -> bool {
    &&& k.len() == WIRE_COUNT
    &&& k[0]@ == 1
    &&& forall|i: int| 0 <= i < k.len() ==> invertible(#[trigger] k[i]@)
    &&& forall|i: int, j: int|
        0 <= i < k.len() && 0 <= j < k.len() && i != j ==> !same_coset(
            #[trigger] k[i]@,
            #[trigger] k[j]@,
            order as nat,
        )
}

/// Whether no two of the labels are the same.
pub open spec fn pairwise_distinct(labels: Seq<Scalar>) -> bool {
    forall|c: int, d: int|
        0 <= c < labels.len() && 0 <= d < labels.len() && c != d ==> #[trigger] labels[c]
            != #[trigger] labels[d]
}

/// Every cell has a label of its own: representatives of different cosets
/// times elements of the subgroup differ, and so do different elements times
/// one representative.
pub proof fn lemma_labels_distinct(
    k: Seq<Scalar>,
    elements: Seq<Scalar>,
    labels: Seq<Scalar>,
    generator: int,
    order: nat,
)
    requires
        distinct_cosets(k, order as int),
        field_pow(generator, order) == 1,
        labels.len() <= elements.len() * 6,
        forall|g: int| 0 <= g < elements.len() ==> (#[trigger] elements[g]).canonical(),
        forall|g: int|
            0 <= g < elements.len() ==> (#[trigger] elements[g])@ == field_pow(generator, g as nat),
        forall|g: int, h: int|
            0 <= g < h < elements.len() ==> #[trigger] elements[g] != #[trigger] elements[h],
        forall|c: int|
            0 <= c < labels.len() ==> (#[trigger] labels[c])@ == field_mul(
                k[c % 6]@,
                elements[c / 6]@,
            ),
    ensures
        pairwise_distinct(labels),
{
    assert forall|c: int, d: int|
        0 <= c < labels.len() && 0 <= d < labels.len() && c != d implies #[trigger] labels[c]
        != #[trigger] labels[d] by {
        let (w, g) = (c % 6, c / 6);
        let (v, h) = (d % 6, d / 6);
        if labels[c] == labels[d] {
            assert(field_mul(k[w]@, elements[g]@) == field_mul(k[v]@, elements[h]@));
            assert(invertible(k[w]@) && invertible(k[v]@));
            if w == v {
                assert(elements[g].canonical() && elements[h].canonical());
                lemma_field_mul_cancels(k[w]@, elements[g]@, elements[h]@);
                elements[g].lemma_view_injective(elements[h]);
                assert(g != h);
                if g < h {
                    assert(elements[g] != elements[h]);
                } else {
                    assert(elements[h] != elements[g]);
                }
            } else {
                lemma_field_pow_of_product(k[w]@, elements[g]@, order);
                lemma_field_pow_of_product(k[v]@, elements[h]@, order);
                lemma_power_in_subgroup(generator, g as nat, order);
                lemma_power_in_subgroup(generator, h as nat, order);
                lemma_field_mul_one(field_pow(k[w]@, order));
                lemma_field_mul_one(field_pow(k[v]@, order));
                lemma_field_pow_range(k[w]@, order);
                lemma_field_pow_range(k[v]@, order);
                lemma_small_mod(field_pow(k[w]@, order) as nat, modulus() as nat);
                lemma_small_mod(field_pow(k[v]@, order) as nat, modulus() as nat);
                lemma_equal_powers_same_coset(k[w]@, k[v]@, order);
                assert(same_coset(k[w]@, k[v]@, order));
            }
        }
    }
}

/// Whether `candidate` lies in the coset of one of `reprs`.
pub open spec fn in_some_coset(candidate: int, reprs: Seq<Scalar>, order: nat) -> bool {
    exists|j: int| 0 <= j < reprs.len() && same_coset(candidate, #[trigger] reprs[j]@, order)
}

/// Decides whether a candidate lies in the coset of one of the
/// representatives chosen so far. With no representative yet, it does not.
/// Otherwise the candidate must be invertible: zero is an error.
pub fn shares_coset(candidate: &Scalar, reprs: &Vec<Scalar>, order: usize) -> (r: Result<
    bool,
    ArithmetizationError,
>)
    ensures
        r.is_err() <==> candidate@ == 0 && reprs@.len() > 0,
        r matches Err(e) ==> e == ArithmetizationError::Arithmetic,
        r matches Ok(shared) ==> shared == in_some_coset(candidate@, reprs@, order as nat),
        r.is_ok() && reprs@.len() > 0 ==> invertible(candidate@),
{
    if reprs.len() == 0 {
        return Ok(false);
    }
    let inverse = match candidate.inverse() {
        Some(inverse) => inverse,
        None => {
            return Err(ArithmetizationError::Arithmetic);
        },
    };
    proof {
        use_type_invariant(&inverse);
        lemma_inverse_unique(candidate@, inverse@);
        assert(is_inverse(candidate@, inverse@));
    }
    let one = Scalar::one();
    let mut j: usize = 0;
    while j < reprs.len()
        invariant
            j <= reprs@.len(),
            one@ == 1,
            candidate@ != 0,
            invertible(candidate@),
            inverse@ == field_inv(candidate@),
            forall|i: int|
                0 <= i < j ==> !same_coset(candidate@, #[trigger] reprs@[i]@, order as nat),
        decreases reprs.len() - j,
    {
        let ratio = inverse.mul(&reprs[j]).pow(order as u64);
        if ratio.eq_scalar(&one) {
            assert(same_coset(candidate@, reprs@[j as int]@, order as nat));
            return Ok(true);
        }
        j += 1;
    }
    Ok(false)
}

/// The label of every cell: the representative of its column times the
/// domain element of its row.
fn identity_labels(k_repr: &Vec<Scalar>, elements: &Vec<Scalar>, gate_count: usize) -> (labels:
    Vec<Scalar>)
    requires
        k_repr@.len() == WIRE_COUNT,
        gate_count <= elements@.len(),
        gate_count * 6 <= usize::MAX,
    ensures
        labels@.len() == gate_count * 6,
        forall|c: int|
            0 <= c < gate_count * 6 ==> (#[trigger] labels@[c])@ == field_mul(
                k_repr@[c % 6]@,
                elements@[c / 6]@,
            ),
{
    let mut labels: Vec<Scalar> = Vec::new();
    let mut gate_id: usize = 0;
    while gate_id < gate_count
        invariant
            k_repr@.len() == WIRE_COUNT,
            gate_id <= gate_count <= elements@.len(),
            gate_count * 6 <= usize::MAX,
            labels@.len() == gate_id * 6,
            forall|c: int|
                0 <= c < gate_id * 6 ==> (#[trigger] labels@[c])@ == field_mul(
                    k_repr@[c % 6]@,
                    elements@[c / 6]@,
                ),
        decreases gate_count - gate_id,
    {
        let g = elements[gate_id];
        let mut wire_id: usize = 0;
        while wire_id < WIRE_COUNT
            invariant
                k_repr@.len() == WIRE_COUNT,
                gate_id < gate_count <= elements@.len(),
                wire_id <= WIRE_COUNT,
                g == elements@[gate_id as int],
                labels@.len() == gate_id * 6 + wire_id,
                forall|c: int|
                    0 <= c < gate_id * 6 + wire_id ==> (#[trigger] labels@[c])@ == field_mul(
                        k_repr@[c % 6]@,
                        elements@[c / 6]@,
                    ),
            decreases WIRE_COUNT - wire_id,
        {
            labels.push(k_repr[wire_id].mul(&g));
            wire_id += 1;
        }
        gate_id += 1;
    }
    labels
}

/// For each variable, the cells that hold it, in row-major order.
fn cells_by_variable(circuit: &PlonkCircuit) -> (var_vec: Vec<Vec<usize>>)
    requires
        circuit.model().wf(),
        circuit.model().gates.len() * 6 <= usize::MAX,
    ensures
        var_vec@.len() == circuit.model().var_count,
        forall|v: int|
            0 <= v < var_vec@.len() ==> lists(
                (#[trigger] var_vec@[v])@,
                occurrences(table_cells(circuit.model().var_table), v),
            ),
{
    let ghost vars = table_cells(circuit.model().var_table);
    let var_count = circuit.var_count();
    let mut var_vec: Vec<Vec<usize>> = Vec::new();
    let mut v: usize = 0;
    while v < var_count
        invariant
            v <= var_count,
            var_vec@.len() == v,
            forall|u: int| 0 <= u < v ==> (#[trigger] var_vec@[u])@.len() == 0,
        decreases var_count - v,
    {
        var_vec.push(Vec::new());
        v += 1;
    }
    let gate_count = circuit.gate_count();
    let mut gate_id: usize = 0;
    assert(vars.take(0) =~= Seq::<int>::empty());
    while gate_id < gate_count
        invariant
            circuit.model().wf(),
            vars == table_cells(circuit.model().var_table),
            gate_count == circuit.model().gates.len(),
            gate_count * 6 <= usize::MAX,
            gate_id <= gate_count,
            var_vec@.len() == circuit.model().var_count,
            forall|v: int|
                0 <= v < var_vec@.len() ==> lists(
                    (#[trigger] var_vec@[v])@,
                    occurrences(vars.take(gate_id * 6), v),
                ),
        decreases gate_count - gate_id,
    {
        let gate_vars = circuit.wires(gate_id);
        let mut wire_id: usize = 0;
        while wire_id < WIRE_COUNT
            invariant
                circuit.model().wf(),
                vars == table_cells(circuit.model().var_table),
                gate_count == circuit.model().gates.len(),
                gate_count * 6 <= usize::MAX,
                gate_id < gate_count,
                wire_id <= WIRE_COUNT,
                gate_vars == circuit.model().var_table[gate_id as int],
                var_vec@.len() == circuit.model().var_count,
                forall|v: int|
                    0 <= v < var_vec@.len() ==> lists(
                        (#[trigger] var_vec@[v])@,
                        occurrences(vars.take(gate_id * 6 + wire_id), v),
                    ),
            decreases WIRE_COUNT - wire_id,
        {
            let wire_var = gate_vars[wire_id];
            let cell = gate_id * WIRE_COUNT + wire_id;
            proof {
                assert(vars[cell as int] == wire_var);
                assert(wire_var < circuit.model().var_count);
                assert forall|v: int| 0 <= v < var_vec@.len() implies occurrences(
                    vars.take(cell + 1),
                    v,
                ) == if v == wire_var {
                    occurrences(vars.take(cell as int), v).push(cell as int)
                } else {
                    occurrences(vars.take(cell as int), v)
                } by {
                    lemma_occurrences_step(vars, cell as int, v);
                }
            }
            let ghost before = var_vec@;
            var_vec[wire_var].push(cell);
            proof {
                assert forall|v: int| 0 <= v < var_vec@.len() implies lists(
                    (#[trigger] var_vec@[v])@,
                    occurrences(vars.take(cell + 1), v),
                ) by {
                    assert(lists(before[v]@, occurrences(vars.take(cell as int), v)));
                }
            }
            wire_id += 1;
        }
        gate_id += 1;
    }
    assert(vars.take(gate_count * 6) =~= vars);
    var_vec
}

/// The label that the permutation gives each cell: the label of the next
/// cell that holds the same variable, the last cell of a variable taking the
/// label of the first.
fn permuted_labels(var_vec: &Vec<Vec<usize>>, orig: &Vec<Scalar>, Ghost(vars): Ghost<Seq<int>>) -> (perm:
    Vec<Scalar>)
    requires
        orig@.len() == vars.len(),
        forall|c: int| 0 <= c < vars.len() ==> 0 <= #[trigger] vars[c] < var_vec@.len(),
        forall|v: int|
            0 <= v < var_vec@.len() ==> lists((#[trigger] var_vec@[v])@, occurrences(vars, v)),
    ensures
        perm@.len() == vars.len(),
        forall|c: int| 0 <= c < vars.len() ==> #[trigger] perm@[c] == orig@[next_cell(vars, c)],
{
    let cell_count = orig.len();
    let mut perm: Vec<Scalar> = Vec::new();
    let mut c: usize = 0;
    while c < cell_count
        invariant
            c <= cell_count,
            perm@.len() == c,
        decreases cell_count - c,
    {
        perm.push(Scalar::zero());
        c += 1;
    }
    let mut v: usize = 0;
    while v < var_vec.len()
        invariant
            v <= var_vec@.len(),
            cell_count == vars.len(),
            orig@.len() == vars.len(),
            perm@.len() == vars.len(),
            forall|c: int| 0 <= c < vars.len() ==> 0 <= #[trigger] vars[c] < var_vec@.len(),
            forall|u: int|
                0 <= u < var_vec@.len() ==> lists((#[trigger] var_vec@[u])@, occurrences(vars, u)),
            forall|c: int|
                0 <= c < vars.len() && vars[c] < v ==> #[trigger] perm@[c] == orig@[next_cell(
                    vars,
                    c,
                )],
        decreases var_vec.len() - v,
    {
        let cells = &var_vec[v];
        let ghost expected = occurrences(vars, v as int);
        proof {
            lemma_occurrences(vars, v as int);
            assert(lists(var_vec@[v as int]@, expected));
        }
        let mut i: usize = 0;
        while i < cells.len()
            invariant
                v < var_vec@.len(),
                i <= cells@.len(),
                cells@ == var_vec@[v as int]@,
                expected == occurrences(vars, v as int),
                lists(cells@, expected),
                orig@.len() == vars.len(),
                perm@.len() == vars.len(),
                forall|j: int|
                    0 <= j < expected.len() ==> 0 <= #[trigger] expected[j] < vars.len()
                        && vars[expected[j]] == v,
                forall|j: int, k: int|
                    0 <= j < k < expected.len() ==> #[trigger] expected[j] < #[trigger] expected[k],
                forall|c: int|
                    0 <= c < vars.len() && vars[c] < v ==> #[trigger] perm@[c] == orig@[next_cell(
                        vars,
                        c,
                    )],
                forall|j: int|
                    0 <= j < i ==> perm@[#[trigger] expected[j]] == orig@[next_cell(
                        vars,
                        expected[j],
                    )],
            decreases cells.len() - i,
        {
            let next = if i + 1 < cells.len() {
                cells[i + 1]
            } else {
                cells[0]
            };
            let cell = cells[i];
            proof {
                lemma_rank_of_occurrence(vars, v as int, i as int);
                assert(cell == expected[i as int]);
                assert(next == next_cell(vars, cell as int));
                assert(0 <= next < vars.len()) by {
                    if i + 1 < cells.len() {
                        assert(next == expected[i + 1]);
                    } else {
                        assert(next == expected[0]);
                    }
                }
            }
            let ghost before = perm@;
            perm.set(cell, orig[next]);
            proof {
                assert forall|j: int| 0 <= j < i + 1 implies perm@[#[trigger] expected[j]]
                    == orig@[next_cell(vars, expected[j])] by {
                    if j < i {
                        assert(expected[j] < expected[i as int]);
                        assert(before[expected[j]] == orig@[next_cell(vars, expected[j])]);
                    }
                }
                assert forall|c: int| 0 <= c < vars.len() && vars[c] < v implies #[trigger] perm@[c]
                    == orig@[next_cell(vars, c)] by {
                    assert(before[c] == orig@[next_cell(vars, c)]);
                }
            }
            i += 1;
        }
        proof {
            assert forall|c: int| 0 <= c < vars.len() && vars[c] < v + 1 implies #[trigger] perm@[c]
                == orig@[next_cell(vars, c)] by {
                if vars[c] == v {
                    lemma_rank(vars, c);
                    let r = crate::permutation::rank(vars, c);
                    assert(expected[r] == c);
                }
            }
        }
        v += 1;
    }
    perm
}

/// What an arithmetization is, as mathematics.
#[verifier::ext_equal]
pub struct ArithmetizationModel {
    pub circuit: CircuitModel,
    pub domain_size: int,
    pub initialized: bool,
    pub coset_reprs: Seq<Scalar>,
    pub identity_labels: Seq<Scalar>,
    pub permuted_labels: Seq<Scalar>,
}

impl ArithmetizationModel {
    /// Number of cells of the wire table.
    pub open spec fn cell_count(self) -> int {
        (self.circuit.gates.len() * 6) as int
    }

    /// The variable in each cell, row by row.
    pub open spec fn cell_vars(self) -> Seq<int> {
        table_cells(self.circuit.var_table)
    }

    /// The witness value in each cell, row by row.
    pub open spec fn cell_values(self) -> Seq<int> {
        Seq::new(self.cell_count() as nat, |c: int| self.circuit.cell_value(c / 6, c % 6))
    }

    /// Column `w` of the wire table, as witness values.
    pub open spec fn wire_column(self, w: int) -> Seq<int> {
        Seq::new(self.circuit.gates.len(), |g: int| self.circuit.cell_value(g, w))
    }

    /// The selectors in the given slot, gate by gate.
    pub open spec fn selector_column(self, slot: int) -> Seq<int> {
        Seq::new(
            self.circuit.gates.len(),
            |g: int| selector_value(self.circuit.gates[g].selectors(), slot),
        )
    }

    /// Column `w` of the permuted labels.
    pub open spec fn permuted_column(self, w: int) -> Seq<int> {
        Seq::new(self.circuit.gates.len(), |g: int| self.permuted_labels[g * 6 + w]@)
    }

    /// The factor of each cell with its own label.
    pub open spec fn orig_factors(self, beta: int, gamma: int) -> Seq<int> {
        cell_factors(self.cell_values(), values_of(self.identity_labels), beta, gamma)
    }

    /// The factor of each cell with its permuted label.
    pub open spec fn perm_factors(self, beta: int, gamma: int) -> Seq<int> {
        cell_factors(self.cell_values(), values_of(self.permuted_labels), beta, gamma)
    }

    /// The running product after each row.
    pub open spec fn grand_product_column(self, beta: int, gamma: int) -> Seq<int> {
        Seq::new(
            self.circuit.gates.len(),
            |g: int|
                accumulated(
                    self.orig_factors(beta, gamma),
                    self.perm_factors(beta, gamma),
                    (g + 1) as nat,
                ),
        )
    }

    /// Whether some row has a divisor of zero.
    pub open spec fn has_zero_divisor(self, beta: int, gamma: int) -> bool {
        exists|g: int|
            0 <= g < self.circuit.gates.len() && #[trigger] row_product(
                self.perm_factors(beta, gamma),
                g,
            ) == 0
    }

    /// What the grand-product polynomial for the challenges `beta` and
    /// `gamma` is: an error exactly where some row has a divisor of zero, and
    /// else the interpolation of the running product.
    pub open spec fn grand_product_outcome(
        self,
        beta: int,
        gamma: int,
        r: Result<DensePolynomial, ArithmetizationError>,
    ) -> bool {
        match r {
            Ok(poly) => !self.has_zero_divisor(beta, gamma) && is_interpolation(
                poly@,
                self.domain_size,
                self.grand_product_column(beta, gamma),
            ),
            Err(e) => e == ArithmetizationError::Arithmetic && self.has_zero_divisor(beta, gamma),
        }
    }

    /// The permutation of the cells, as a sequence.
    pub open spec fn sigma(self) -> Seq<int> {
        Seq::new(self.cell_vars().len(), |c: int| next_cell(self.cell_vars(), c))
    }

    /// Following the labels is following the permutation: the permuted label
    /// of a cell is the own label of exactly one cell, the next cell of its
    /// variable.
    pub proof fn lemma_permuted_label_names_next_cell(self, c: int, d: int)
        requires
            self.wf(),
            self.initialized,
            0 <= c < self.cell_count(),
            0 <= d < self.cell_count(),
        ensures
            self.permuted_labels[c] == self.identity_labels[d] <==> d == next_cell(
                self.cell_vars(),
                c,
            ),
    {
        lemma_next_cell(self.cell_vars(), c);
    }

    /// The grand product closes: whatever the challenges, the running
    /// product after the last row is one, provided no row has a divisor
    /// without an inverse.
    pub proof fn lemma_grand_product_is_one(self, beta: int, gamma: int)
        requires
            self.wf(),
            self.initialized,
            rows_invertible(self.perm_factors(beta, gamma), self.circuit.gates.len()),
        ensures
            accumulated(
                self.orig_factors(beta, gamma),
                self.perm_factors(beta, gamma),
                self.circuit.gates.len(),
            ) == 1,
    {
        let vars = self.cell_vars();
        let sigma = self.sigma();
        let values = self.cell_values();
        let table = self.circuit.var_table;
        lemma_next_cell_bijective(vars);
        assert forall|d: int| 0 <= d < sigma.len() implies #[trigger] is_reached(sigma, d) by {
            let c = prev_cell(vars, d);
            assert(sigma[c] == d);
        }
        assert(is_bijection(sigma));
        assert forall|c: int| 0 <= c < 6 * self.circuit.gates.len() implies values[#[trigger] sigma[c]]
            == values[c] by {
            lemma_next_cell(vars, c);
            let d = next_cell(vars, c);
            assert(vars[d] == vars[c]);
            assert(table[d / 6][d % 6] == table[c / 6][c % 6]);
        }
        assert forall|c: int| 0 <= c < 6 * self.circuit.gates.len() implies values_of(
            self.identity_labels,
        )[#[trigger] sigma[c]] == values_of(self.permuted_labels)[c] by {
            lemma_next_cell(vars, c);
            assert(self.permuted_labels[c] == self.identity_labels[next_cell(vars, c)]);
        }
        lemma_grand_product_closes(
            sigma,
            values,
            values_of(self.identity_labels),
            values_of(self.permuted_labels),
            beta,
            gamma,
            self.circuit.gates.len(),
        );
    }

    /// The invariant: the domain is the least one that holds a point for
    /// every gate, and once initialized the labels are those of the
    /// permutation.
    pub open spec fn wf(self) -> bool {
        &&& self.circuit.wf()
        &&& is_least_domain_size(self.domain_size, self.circuit.gates.len() as int)
        &&& self.cell_count() <= usize::MAX
        &&& !self.initialized ==> self.coset_reprs.len() == 0 && self.identity_labels.len() == 0
            && self.permuted_labels.len() == 0
        &&& self.initialized ==> self.labelled()
    }

    /// Whether the labels are those of the permutation: each cell's own label
    /// is the representative of its column times the domain element of its
    /// row, no two cells have the same label, and a cell's permuted label is
    /// the own label of the next cell of its variable.
    pub open spec fn labelled(self) -> bool {
        &&& distinct_cosets(self.coset_reprs, self.domain_size)
        &&& pairwise_distinct(self.identity_labels)
        &&& self.identity_labels.len() == self.cell_count()
        &&& self.permuted_labels.len() == self.cell_count()
        &&& forall|c: int|
            0 <= c < self.cell_count() ==> (#[trigger] self.identity_labels[c])@ == field_mul(
                self.coset_reprs[c % 6]@,
                domain_element(self.domain_size, c / 6),
            )
        &&& forall|c: int|
            0 <= c < self.cell_count() ==> #[trigger] self.permuted_labels[c]
                == self.identity_labels[next_cell(self.cell_vars(), c)]
    }
}

/// A circuit together with the evaluation domain it is lowered over.
pub struct PlonkArithmetization<'a> {
    pub circuit: &'a PlonkCircuit,
    domain_size: usize,
    initialized: bool,
    coset_reprs: Vec<Scalar>,
    // The label of each cell, and the label that the permutation gives it.
    encode_identify_orig: Vec<Scalar>,
    encode_identify_perm: Vec<Scalar>,
}

/// The polynomials that a prover commits to and a verifier's key is made of.
pub trait Arithmetization {
    /// The arithmetization as mathematics.
    spec fn model(&self) -> ArithmetizationModel;

    fn domain_size(&self) -> (n: usize)
        requires
            self.model().wf(),
        ensures
            n == self.model().domain_size,
    ;

    fn pi_count(&self) -> (n: usize)
        requires
            self.model().wf(),
        ensures
            n == self.model().circuit.pi_vars.len(),
    ;

    fn circuit(&self) -> (circuit: &PlonkCircuit)
        requires
            self.model().wf(),
        ensures
            circuit.model() == self.model().circuit,
    ;

    /// Whether the labels of the permutation have been computed, which the
    /// polynomials of the permutation need.
    fn is_initialized(&self) -> (r: bool)
        ensures
            r == self.model().initialized,
    ;

    /// The polynomial that takes the public variables' values, in creation
    /// order, at the first elements of the domain.
    fn generate_pi_poly(&self) -> (poly: DensePolynomial)
        requires
            self.model().wf(),
        ensures
            is_interpolation(
                poly@,
                self.model().domain_size,
                values_of(self.model().circuit.public_values()),
            ),
    ;

    /// One polynomial for each selector slot, which takes the selector of
    /// each gate at the domain element of its row.
    fn generate_selector_polys(&self) -> (polys: Vec<DensePolynomial>)
        requires
            self.model().wf(),
        ensures
            polys@.len() == SELECTOR_COUNT,
            forall|slot: int|
                0 <= slot < SELECTOR_COUNT ==> is_interpolation(
                    (#[trigger] polys@[slot])@,
                    self.model().domain_size,
                    self.model().selector_column(slot),
                ),
    ;

    /// One polynomial for each wire, which takes the witness value of each
    /// cell of its column at the domain element of the cell's row.
    fn generate_wire_polys(&self) -> (polys: Vec<DensePolynomial>)
        requires
            self.model().wf(),
        ensures
            polys@.len() == WIRE_COUNT,
            forall|w: int|
                0 <= w < WIRE_COUNT ==> is_interpolation(
                    (#[trigger] polys@[w])@,
                    self.model().domain_size,
                    self.model().wire_column(w),
                ),
    ;

    /// One polynomial for each wire, which takes the permuted label of each
    /// cell of its column at the domain element of the cell's row.
    fn generate_identify_perm_polys(&self) -> (polys: Vec<DensePolynomial>)
        requires
            self.model().wf(),
            self.model().initialized,
        ensures
            polys@.len() == WIRE_COUNT,
            forall|w: int|
                0 <= w < WIRE_COUNT ==> is_interpolation(
                    (#[trigger] polys@[w])@,
                    self.model().domain_size,
                    self.model().permuted_column(w),
                ),
    ;

    /// The grand-product polynomial for two challenges drawn from a generator
    /// seeded with zeros.
    fn generate_prod_perm_poly(&self) -> (r: Result<DensePolynomial, ArithmetizationError>)
        requires
            self.model().wf(),
            self.model().initialized,
        ensures
            exists|beta: Scalar, gamma: Scalar|
                #![trigger self.model().grand_product_outcome(beta@, gamma@, r)]
                self.model().grand_product_outcome(beta@, gamma@, r),
    ;
}

impl<'a> PlonkArithmetization<'a> {
    /// Chooses the least domain with a point for every gate. Fails where the
    /// circuit has more gates than the largest domain has points, or more
    /// cells than can be indexed.
    pub fn new(circuit: &'a PlonkCircuit) -> (r: Result<Self, ArithmetizationError>)
        requires
            circuit.model().wf(),
        ensures
            r.is_ok() <==> circuit.model().gates.len() <= crate::domain::MAX_DOMAIN_SIZE
                && circuit.model().gates.len() * 6 <= usize::MAX,
            r matches Ok(a) ==> a.model().wf() && a.model().circuit == circuit.model()
                && !a.model().initialized,
            r matches Err(e) ==> e == ArithmetizationError::Configuration,
    {
        let gate_count = circuit.gate_count();
        if gate_count > usize::MAX / WIRE_COUNT {
            return Err(ArithmetizationError::Configuration);
        }
        match domain_size_for(gate_count) {
            Some(domain_size) => Ok(
                Self {
                    circuit,
                    domain_size,
                    initialized: false,
                    coset_reprs: Vec::new(),
                    encode_identify_orig: Vec::new(),
                    encode_identify_perm: Vec::new(),
                },
            ),
            None => Err(ArithmetizationError::Configuration),
        }
    }

    /// The polynomial that takes the given values at the first elements of
    /// the domain and zero at the others. More values than the domain has
    /// elements are a configuration error.
    pub fn interpolate(&self, evals: &Vec<Scalar>) -> (r: Result<
        DensePolynomial,
        ArithmetizationError,
    >)
        requires
            self.model().wf(),
        ensures
            r.is_ok() <==> evals@.len() <= self.model().domain_size,
            r matches Ok(poly) ==> is_interpolation(
                poly@,
                self.model().domain_size,
                values_of(evals@),
            ),
            r matches Err(e) ==> e == ArithmetizationError::Configuration,
    {
        if evals.len() > self.domain_size {
            return Err(ArithmetizationError::Configuration);
        }
        Ok(interpolate(self.domain_size, evals))
    }

    /// Chooses the six coset representatives: one, then five drawn from a
    /// generator seeded with zeros, a draw being repeated while it lies in the
    /// coset of an earlier representative. Fails where a draw is zero, and
    /// where the count of draws is exhausted.
    pub fn generate_left_coset_repr(&self) -> (r: Result<Vec<Scalar>, ArithmetizationError>)
        requires
            self.model().wf(),
        ensures
            r matches Ok(k) ==> distinct_cosets(k@, self.model().domain_size),
            r matches Err(e) ==> e == ArithmetizationError::Arithmetic || e
                == ArithmetizationError::Sampling,
    {
        let sg_order = self.domain_size;
        let mut k_reprs: Vec<Scalar> = Vec::new();
        let mut rng = rng_from_seed([0u8; 32]);
        let mut draws: usize = 0;
        let mut i: usize = 0;
        while i < WIRE_COUNT
            invariant
                i <= WIRE_COUNT,
                k_reprs@.len() == i,
                i > 0 ==> k_reprs@[0]@ == 1,
                forall|a: int| 0 <= a < i ==> invertible(#[trigger] k_reprs@[a]@),
                forall|a: int, b: int|
                    0 <= a < b < i ==> !same_coset(
                        #[trigger] k_reprs@[b]@,
                        #[trigger] k_reprs@[a]@,
                        sg_order as nat,
                    ),
            decreases WIRE_COUNT - i,
        {
            if i == 0 {
                let one = Scalar::one();
                proof {
                    lemma_field_mul_one(1);
                    assert(is_inverse(1, 1));
                }
                k_reprs.push(one);
            } else {
                // A representative must differ from the earlier ones by more
                // than an element of the subgroup H: if aH == bH then b / a
                // lies in H, and as H is cyclic of order r, (b / a)^r == 1.
                let mut r_k_repr = Scalar::rand(&mut rng);
                let mut shared = match shares_coset(&r_k_repr, &k_reprs, sg_order) {
                    Ok(shared) => shared,
                    Err(e) => {
                        return Err(e);
                    },
                };
                while shared
                    invariant
                        0 < i < WIRE_COUNT,
                        k_reprs@.len() == i,
                        invertible(r_k_repr@),
                        shared == in_some_coset(r_k_repr@, k_reprs@, sg_order as nat),
                    decreases usize::MAX - draws,
                {
                    if draws == usize::MAX {
                        return Err(ArithmetizationError::Sampling);
                    }
                    draws += 1;
                    r_k_repr = Scalar::rand(&mut rng);
                    shared = match shares_coset(&r_k_repr, &k_reprs, sg_order) {
                        Ok(shared) => shared,
                        Err(e) => {
                            return Err(e);
                        },
                    };
                }
                k_reprs.push(r_k_repr);
            }
            i += 1;
        }
        proof {
            let k = k_reprs@;
            assert forall|a: int, b: int| 0 <= a < k.len() && 0 <= b < k.len() && a != b implies !same_coset(
                #[trigger] k[a]@,
                #[trigger] k[b]@,
                sg_order as nat,
            ) by {
                lemma_same_coset_symmetric(k[a]@, k[b]@, sg_order as nat);
            }
        }
        Ok(k_reprs)
    }

    /// Computes the label of every cell and the label that the permutation
    /// gives it. On an error nothing changes.
    pub fn init_encode_identify(&mut self) -> (r: Result<(), ArithmetizationError>)
        requires
            old(self).model().wf(),
            !old(self).model().initialized,
        ensures
            final(self).model().wf(),
            final(self).model().circuit == old(self).model().circuit,
            final(self).model().domain_size == old(self).model().domain_size,
            r.is_ok() ==> final(self).model().initialized,
            r matches Err(e) ==> final(self).model() == old(self).model() && (e
                == ArithmetizationError::Arithmetic || e == ArithmetizationError::Sampling),
    {
        // The representative of each column's coset kH, H being the domain.
        let k_repr = match self.generate_left_coset_repr() {
            Ok(k_repr) => k_repr,
            Err(e) => {
                return Err(e);
            },
        };
        let cycle_sg = domain_elements(self.domain_size);
        let gate_count = self.circuit.gate_count();
        let orig = identity_labels(&k_repr, &cycle_sg, gate_count);
        proof {
            let size = self.domain_size as nat;
            assert forall|g: int| 0 <= g < cycle_sg@.len() implies (
            #[trigger] cycle_sg@[g]).canonical() by {
                lemma_field_pow_range(group_gen(size), g as nat);
            }
            lemma_labels_distinct(k_repr@, cycle_sg@, orig@, group_gen(size), size);
        }
        // For each variable the cells that hold it.
        let var_vec = cells_by_variable(self.circuit);
        let ghost vars = table_cells(self.circuit.model().var_table);
        proof {
            let table = self.circuit.model().var_table;
            assert forall|c: int| 0 <= c < vars.len() implies 0 <= #[trigger] vars[c]
                < var_vec@.len() by {
                assert(table[c / 6][c % 6] < self.circuit.model().var_count);
            }
        }
        let perm = permuted_labels(&var_vec, &orig, Ghost(vars));
        self.coset_reprs = k_repr;
        self.encode_identify_orig = orig;
        self.encode_identify_perm = perm;
        self.initialized = true;
        Ok(())
    }

    /// The two products over the cells of one row: the first with each
    /// cell's own label, the second with its permuted label.
    fn row_products(&self, gate_id: usize, beta: &Scalar, gamma: &Scalar) -> (r: (Scalar, Scalar))
        requires
            self.model().wf(),
            self.model().initialized,
            gate_id < self.model().circuit.gates.len(),
        ensures
            r.0@ == row_product(self.model().orig_factors(beta@, gamma@), gate_id as int),
            r.1@ == row_product(self.model().perm_factors(beta@, gamma@), gate_id as int),
    {
        let ghost m = self.model();
        let ghost orig = m.orig_factors(beta@, gamma@);
        let ghost perm = m.perm_factors(beta@, gamma@);
        let ghost start = 6 * (gate_id as int);
        let row = self.circuit.wires(gate_id);
        let mut prod_orig = Scalar::one();
        let mut prod_perm = Scalar::one();
        let mut wire_id: usize = 0;
        assert(orig.subrange(start, start) =~= Seq::<int>::empty());
        assert(perm.subrange(start, start) =~= Seq::<int>::empty());
        while wire_id < WIRE_COUNT
            invariant
                m == self.model(),
                m.wf(),
                m.initialized,
                gate_id < m.circuit.gates.len(),
                start == 6 * (gate_id as int),
                orig == m.orig_factors(beta@, gamma@),
                perm == m.perm_factors(beta@, gamma@),
                row == m.circuit.var_table[gate_id as int],
                wire_id <= WIRE_COUNT,
                prod_orig@ == seq_product(orig.subrange(start, start + wire_id)),
                prod_perm@ == seq_product(perm.subrange(start, start + wire_id)),
            decreases WIRE_COUNT - wire_id,
        {
            let var_id = row[wire_id];
            let val = self.circuit.witness(var_id);
            let identify_orig = self.encode_identify_orig[gate_id * WIRE_COUNT + wire_id];
            let identify_perm = self.encode_identify_perm[gate_id * WIRE_COUNT + wire_id];
            proof {
                let c = start + wire_id;
                assert(c / 6 == gate_id && c % 6 == wire_id);
                assert(orig.subrange(start, c + 1).drop_last() =~= orig.subrange(start, c));
                assert(perm.subrange(start, c + 1).drop_last() =~= perm.subrange(start, c));
                assert(orig[c] == cell_factor(val@, identify_orig@, beta@, gamma@));
                assert(perm[c] == cell_factor(val@, identify_perm@, beta@, gamma@));
            }
            prod_orig = prod_orig.mul(&val.add(&beta.mul(&identify_orig)).add(gamma));
            prod_perm = prod_perm.mul(&val.add(&beta.mul(&identify_perm)).add(gamma));
            wire_id += 1;
        }
        (prod_orig, prod_perm)
    }

    /// The grand-product polynomial for the given challenges: the
    /// interpolation of the running product, which starts at one and is
    /// multiplied, row by row, by the quotient of the row's two products. A
    /// row whose divisor is zero is an error. The running product after the
    /// last row is one.
    pub fn generate_prod_perm_poly_with(&self, beta: &Scalar, gamma: &Scalar) -> (r: Result<
        DensePolynomial,
        ArithmetizationError,
    >)
        requires
            self.model().wf(),
            self.model().initialized,
        ensures
            self.model().grand_product_outcome(beta@, gamma@, r),
            r.is_ok() ==> accumulated(
                self.model().orig_factors(beta@, gamma@),
                self.model().perm_factors(beta@, gamma@),
                self.model().circuit.gates.len(),
            ) == 1,
    {
        let ghost m = self.model();
        let ghost orig = m.orig_factors(beta@, gamma@);
        let ghost perm = m.perm_factors(beta@, gamma@);
        let gate_count = self.circuit.gate_count();
        let mut evals: Vec<Scalar> = Vec::new();
        let mut eval = Scalar::one();
        let mut gate_id: usize = 0;
        while gate_id < gate_count
            invariant
                m == self.model(),
                m.wf(),
                m.initialized,
                orig == m.orig_factors(beta@, gamma@),
                perm == m.perm_factors(beta@, gamma@),
                gate_count == m.circuit.gates.len(),
                gate_id <= gate_count,
                eval@ == accumulated(orig, perm, gate_id as nat),
                evals@.len() == gate_id,
                forall|g: int|
                    0 <= g < gate_id ==> (#[trigger] evals@[g])@ == accumulated(
                        orig,
                        perm,
                        (g + 1) as nat,
                    ),
                forall|g: int| 0 <= g < gate_id ==> #[trigger] row_product(perm, g) != 0,
                rows_invertible(perm, gate_id as nat),
            decreases gate_count - gate_id,
        {
            let (prod_orig, prod_perm) = self.row_products(gate_id, beta, gamma);
            let quotient = match prod_orig.div(&prod_perm) {
                Some(quotient) => quotient,
                None => {
                    assert(row_product(perm, gate_id as int) == 0);
                    return Err(ArithmetizationError::Arithmetic);
                },
            };
            proof {
                assert(is_inverse(prod_perm@, field_inv(prod_perm@)));
                assert(invertible(row_product(perm, gate_id as int)));
            }
            eval = eval.mul(&quotient);
            evals.push(eval);
            gate_id += 1;
        }
        proof {
            m.lemma_grand_product_is_one(beta@, gamma@);
            assert(values_of(evals@) =~= m.grand_product_column(beta@, gamma@));
        }
        Ok(interpolate(self.domain_size, &evals))
    }

    /// The coset representatives of the six columns; none before the labels
    /// have been computed.
    pub fn coset_reprs(&self) -> (k: &Vec<Scalar>)
        ensures
            k@ == self.model().coset_reprs,
    {
        &self.coset_reprs
    }

    /// The label of each cell, row by row; none before the labels have been
    /// computed.
    pub fn encode_identify_orig(&self) -> (labels: &Vec<Scalar>)
        ensures
            labels@ == self.model().identity_labels,
    {
        &self.encode_identify_orig
    }

    /// The label that the permutation gives each cell, row by row; none
    /// before the labels have been computed.
    pub fn encode_identify_perm(&self) -> (labels: &Vec<Scalar>)
        ensures
            labels@ == self.model().permuted_labels,
    {
        &self.encode_identify_perm
    }
}

impl<'a> Arithmetization for PlonkArithmetization<'a> {
    closed spec fn model(&self) -> ArithmetizationModel {
        ArithmetizationModel {
            circuit: self.circuit.model(),
            domain_size: self.domain_size as int,
            initialized: self.initialized,
            coset_reprs: self.coset_reprs@,
            identity_labels: self.encode_identify_orig@,
            permuted_labels: self.encode_identify_perm@,
        }
    }

    fn domain_size(&self) -> (n: usize) {
        self.domain_size
    }

    fn pi_count(&self) -> (n: usize) {
        self.circuit.pi_count()
    }

    fn circuit(&self) -> (circuit: &PlonkCircuit) {
        self.circuit
    }

    fn is_initialized(&self) -> (r: bool) {
        self.initialized
    }

    fn generate_pi_poly(&self) -> (poly: DensePolynomial) {
        let evals = self.circuit.pi_value();
        proof {
            self.circuit.model().lemma_public_count();
        }
        interpolate(self.domain_size, &evals)
    }

    fn generate_selector_polys(&self) -> (polys: Vec<DensePolynomial>) {
        let ghost m = self.model();
        let gate_count = self.circuit.gate_count();
        let mut selector_polys: Vec<DensePolynomial> = Vec::new();
        let mut slot: usize = 0;
        while slot < SELECTOR_COUNT
            invariant
                m == self.model(),
                m.wf(),
                gate_count == m.circuit.gates.len(),
                slot <= SELECTOR_COUNT,
                selector_polys@.len() == slot,
                forall|s: int|
                    0 <= s < slot ==> is_interpolation(
                        (#[trigger] selector_polys@[s])@,
                        m.domain_size,
                        m.selector_column(s),
                    ),
            decreases SELECTOR_COUNT - slot,
        {
            let mut evals: Vec<Scalar> = Vec::new();
            let mut gate_id: usize = 0;
            while gate_id < gate_count
                invariant
                    m == self.model(),
                    m.wf(),
                    gate_count == m.circuit.gates.len(),
                    slot < SELECTOR_COUNT,
                    gate_id <= gate_count,
                    evals@.len() == gate_id,
                    forall|g: int|
                        0 <= g < gate_id ==> (#[trigger] evals@[g])@ == m.selector_column(
                            slot as int,
                        )[g],
                decreases gate_count - gate_id,
            {
                let gate = self.circuit.gate(gate_id);
                let eval = if slot < 4 {
                    let q_lc = gate.q_lc();
                    q_lc[slot]
                } else if slot < 6 {
                    let q_mul = gate.q_mul();
                    q_mul[slot - 4]
                } else if slot == 6 {
                    gate.q_o()
                } else {
                    gate.q_c()
                };
                evals.push(eval);
                gate_id += 1;
            }
            assert(values_of(evals@) =~= m.selector_column(slot as int));
            selector_polys.push(interpolate(self.domain_size, &evals));
            slot += 1;
        }
        selector_polys
    }

    fn generate_wire_polys(&self) -> (polys: Vec<DensePolynomial>) {
        let ghost m = self.model();
        let gate_count = self.circuit.gate_count();
        let mut wire_polys: Vec<DensePolynomial> = Vec::new();
        let mut wire_id: usize = 0;
        while wire_id < WIRE_COUNT
            invariant
                m == self.model(),
                m.wf(),
                gate_count == m.circuit.gates.len(),
                wire_id <= WIRE_COUNT,
                wire_polys@.len() == wire_id,
                forall|w: int|
                    0 <= w < wire_id ==> is_interpolation(
                        (#[trigger] wire_polys@[w])@,
                        m.domain_size,
                        m.wire_column(w),
                    ),
            decreases WIRE_COUNT - wire_id,
        {
            let mut evals: Vec<Scalar> = Vec::new();
            let mut gate_id: usize = 0;
            while gate_id < gate_count
                invariant
                    m == self.model(),
                    m.wf(),
                    gate_count == m.circuit.gates.len(),
                    wire_id < WIRE_COUNT,
                    gate_id <= gate_count,
                    evals@.len() == gate_id,
                    forall|g: int|
                        0 <= g < gate_id ==> (#[trigger] evals@[g])@ == m.circuit.cell_value(
                            g,
                            wire_id as int,
                        ),
                decreases gate_count - gate_id,
            {
                let gate = self.circuit.wires(gate_id);
                evals.push(self.circuit.witness(gate[wire_id]));
                gate_id += 1;
            }
            assert(values_of(evals@) =~= m.wire_column(wire_id as int));
            wire_polys.push(interpolate(self.domain_size, &evals));
            wire_id += 1;
        }
        wire_polys
    }

    fn generate_identify_perm_polys(&self) -> (polys: Vec<DensePolynomial>) {
        let ghost m = self.model();
        let gate_count = self.circuit.gate_count();
        let mut identify_perm_polys: Vec<DensePolynomial> = Vec::new();
        let mut wire_id: usize = 0;
        while wire_id < WIRE_COUNT
            invariant
                m == self.model(),
                m.wf(),
                m.initialized,
                gate_count == m.circuit.gates.len(),
                wire_id <= WIRE_COUNT,
                identify_perm_polys@.len() == wire_id,
                forall|w: int|
                    0 <= w < wire_id ==> is_interpolation(
                        (#[trigger] identify_perm_polys@[w])@,
                        m.domain_size,
                        m.permuted_column(w),
                    ),
            decreases WIRE_COUNT - wire_id,
        {
            let mut evals: Vec<Scalar> = Vec::new();
            let mut gate_id: usize = 0;
            while gate_id < gate_count
                invariant
                    m == self.model(),
                    m.wf(),
                    m.initialized,
                    gate_count == m.circuit.gates.len(),
                    wire_id < WIRE_COUNT,
                    gate_id <= gate_count,
                    evals@.len() == gate_id,
                    forall|g: int|
                        0 <= g < gate_id ==> (#[trigger] evals@[g])@ == m.permuted_labels[g * 6
                            + wire_id]@,
                decreases gate_count - gate_id,
            {
                evals.push(self.encode_identify_perm[gate_id * WIRE_COUNT + wire_id]);
                gate_id += 1;
            }
            assert(values_of(evals@) =~= m.permuted_column(wire_id as int));
            identify_perm_polys.push(interpolate(self.domain_size, &evals));
            wire_id += 1;
        }
        identify_perm_polys
    }

    fn generate_prod_perm_poly(&self) -> (r: Result<DensePolynomial, ArithmetizationError>) {
        let mut rng = rng_from_seed([0u8; 32]);
        let beta = Scalar::rand(&mut rng);
        let gamma = Scalar::rand(&mut rng);
        let r = self.generate_prod_perm_poly_with(&beta, &gamma);
        assert(self.model().grand_product_outcome(beta@, gamma@, r));
        r
    }
}

} // verus!
