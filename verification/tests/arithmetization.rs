use ark_bls12_381::Fr;
use ark_ff::{BigInteger256, Field, One, PrimeField};
use ark_poly::{EvaluationDomain, Radix2EvaluationDomain};
use constraint::arithmetization::{shares_coset, Arithmetization, PlonkArithmetization};
use constraint::circuit::{Circuit, PlonkCircuit, WIRE_COUNT};
use constraint::error::ArithmetizationError;
use constraint::field::Scalar;
use constraint::gate::Gate;

fn to_fr(s: &Scalar) -> Fr {
    Fr::from_repr(BigInteger256(s.limbs())).unwrap()
}

fn from_fr(x: Fr) -> Scalar {
    Scalar::from_limbs(x.into_repr().0).unwrap()
}

fn domain_points(size: usize) -> Vec<Scalar> {
    let domain = Radix2EvaluationDomain::<Fr>::new(size).unwrap();
    assert_eq!(domain.size(), size);
    domain.elements().map(from_fr).collect()
}

/// a = 2, b = 3, c = a + b, d = c * a, e = d - b, with b public.
fn sample_circuit() -> PlonkCircuit {
    let mut circuit = PlonkCircuit::new();
    let a = circuit.create_var(Scalar::from_u64(2), false);
    let b = circuit.create_var(Scalar::from_u64(3), true);
    let c = circuit.add(a, b);
    let d = circuit.mul(c, a);
    let e = circuit.sub(d, b);
    circuit.equal_gate(e, e);
    circuit.const_gate(e, Scalar::from_u64(7));
    circuit
}

#[test]
fn test_ifft_usage() {
    let circuit = PlonkCircuit::new();
    let mut arith = PlonkArithmetization::new(&circuit).unwrap();
    arith.init_encode_identify().unwrap();
    assert_eq!(arith.circuit.gate_count(), 2);
    let evals = vec![Scalar::from_u64(5), Scalar::from_u64(2)];
    let poly = arith.interpolate(&evals).unwrap();
    let points = domain_points(arith.domain_size());
    let poly_evals: Vec<Scalar> = points.iter().map(|x| poly.evaluate(x)).collect();
    assert_eq!(evals[0], poly_evals[0]);
    for (e, pe) in evals.iter().zip(poly_evals.iter()) {
        assert_eq!(e, pe);
    }
}

#[test]
fn interpolation_of_five_and_two_has_known_coefficients() {
    // Over the domain {1, -1}: p(1) = 5 and p(-1) = 2 give p = 7/2 + 3/2 x.
    let circuit = PlonkCircuit::new();
    let arith = PlonkArithmetization::new(&circuit).unwrap();
    let poly = arith.interpolate(&vec![Scalar::from_u64(5), Scalar::from_u64(2)]).unwrap();
    let half = Fr::from(2u64).inverse().unwrap();
    assert_eq!(poly.coeffs.len(), 2);
    assert_eq!(to_fr(&poly.coeffs[0]), Fr::from(7u64) * half);
    assert_eq!(to_fr(&poly.coeffs[1]), Fr::from(3u64) * half);
    assert_eq!(poly.degree(), 1);
}

#[test]
fn interpolation_drops_high_zero_coefficients() {
    let mut circuit = PlonkCircuit::new();
    let a = circuit.create_var(Scalar::from_u64(1), false);
    circuit.const_gate(a, Scalar::from_u64(1));
    let arith = PlonkArithmetization::new(&circuit).unwrap();
    assert_eq!(arith.domain_size(), 4);
    let poly = arith.interpolate(&vec![Scalar::from_u64(9); 4]).unwrap();
    assert_eq!(poly.coeffs, vec![Scalar::from_u64(9)]);
    let zero = arith.interpolate(&vec![]).unwrap();
    assert!(zero.coeffs.is_empty());
    assert_eq!(zero.degree(), 0);
    assert_eq!(zero.evaluate(&Scalar::from_u64(5)), Scalar::zero());
}

#[test]
fn more_values_than_domain_elements_are_a_configuration_error() {
    let circuit = PlonkCircuit::new();
    let arith = PlonkArithmetization::new(&circuit).unwrap();
    let r = arith.interpolate(&vec![Scalar::one(); 3]);
    assert_eq!(r.err(), Some(ArithmetizationError::Configuration));
}

#[test]
fn domain_is_the_least_power_of_two_with_a_point_for_each_gate() {
    let mut circuit = PlonkCircuit::new();
    assert_eq!(PlonkArithmetization::new(&circuit).unwrap().domain_size(), 2);
    let a = circuit.create_var(Scalar::from_u64(1), false);
    circuit.const_gate(a, Scalar::from_u64(1));
    assert_eq!(PlonkArithmetization::new(&circuit).unwrap().domain_size(), 4);
    circuit.const_gate(a, Scalar::from_u64(1));
    assert_eq!(PlonkArithmetization::new(&circuit).unwrap().domain_size(), 4);
    circuit.const_gate(a, Scalar::from_u64(1));
    assert_eq!(PlonkArithmetization::new(&circuit).unwrap().domain_size(), 8);
}

#[test]
fn pi_poly_reproduces_the_public_values() {
    let mut circuit = PlonkCircuit::new();
    circuit.create_var(Scalar::from_u64(7), true);
    circuit.create_var(Scalar::from_u64(11), true);
    circuit.create_var(Scalar::from_u64(13), true);
    let arith = PlonkArithmetization::new(&circuit).unwrap();
    assert_eq!(arith.pi_count(), 3);
    let poly = arith.generate_pi_poly();
    let points = domain_points(arith.domain_size());
    let expected = circuit.pi_value();
    for (i, x) in points.iter().enumerate() {
        let want = if i < expected.len() { expected[i] } else { Scalar::zero() };
        assert_eq!(poly.evaluate(x), want);
    }
}

#[test]
fn wire_polys_reproduce_the_wire_table() {
    let circuit = sample_circuit();
    let arith = PlonkArithmetization::new(&circuit).unwrap();
    let polys = arith.generate_wire_polys();
    assert_eq!(polys.len(), WIRE_COUNT);
    let points = domain_points(arith.domain_size());
    for g in 0..circuit.gate_count() {
        let row = circuit.wires(g);
        for w in 0..WIRE_COUNT {
            assert_eq!(polys[w].evaluate(&points[g]), circuit.witness(row[w]));
        }
    }
    for g in circuit.gate_count()..arith.domain_size() {
        for w in 0..WIRE_COUNT {
            assert_eq!(polys[w].evaluate(&points[g]), Scalar::zero());
        }
    }
}

#[test]
fn selector_polys_reproduce_the_selectors_in_order() {
    let circuit = sample_circuit();
    let arith = PlonkArithmetization::new(&circuit).unwrap();
    let polys = arith.generate_selector_polys();
    assert_eq!(polys.len(), 8);
    let points = domain_points(arith.domain_size());
    for g in 0..circuit.gate_count() {
        let gate = circuit.gate(g);
        let q_lc = gate.q_lc();
        let q_mul = gate.q_mul();
        let want = [
            q_lc[0], q_lc[1], q_lc[2], q_lc[3], q_mul[0], q_mul[1], gate.q_o(), gate.q_c(),
        ];
        for slot in 0..8 {
            assert_eq!(polys[slot].evaluate(&points[g]), want[slot]);
        }
    }
    // Gate 2 is the public-input gate, gate 3 the addition, gate 7 the constant 7.
    assert_eq!(polys[6].evaluate(&points[2]), Scalar::one());
    assert_eq!(polys[0].evaluate(&points[3]), Scalar::one());
    assert_eq!(polys[1].evaluate(&points[3]), Scalar::one());
    assert_eq!(polys[4].evaluate(&points[4]), Scalar::one());
    assert_eq!(to_fr(&polys[1].evaluate(&points[5])), -Fr::one());
    assert_eq!(polys[7].evaluate(&points[7]), Scalar::from_u64(7));
}

#[test]
fn coset_representatives_lie_in_distinct_cosets() {
    let circuit = sample_circuit();
    let arith = PlonkArithmetization::new(&circuit).unwrap();
    let k = arith.generate_left_coset_repr().unwrap();
    assert_eq!(k.len(), WIRE_COUNT);
    assert_eq!(k[0], Scalar::one());
    let order = arith.domain_size() as u64;
    for i in 0..WIRE_COUNT {
        for j in 0..WIRE_COUNT {
            if i != j {
                let ratio = to_fr(&k[i]).inverse().unwrap() * to_fr(&k[j]);
                assert_ne!(ratio.pow([order]), Fr::one());
            }
        }
    }
    // The generator is seeded, so a second call gives the same representatives.
    assert_eq!(arith.generate_left_coset_repr().unwrap(), k);
}

#[test]
fn shares_coset_decides_by_the_power_of_the_quotient() {
    let minus_one = from_fr(-Fr::one());
    let one = Scalar::one();
    let two = Scalar::from_u64(2);
    // (1 / -1)^2 == 1: -1 lies in the subgroup of order two, the coset of 1.
    assert_eq!(shares_coset(&minus_one, &vec![one], 2), Ok(true));
    assert_eq!(shares_coset(&one, &vec![minus_one], 2), Ok(true));
    // (1 / 2)^2 != 1.
    assert_eq!(shares_coset(&two, &vec![one], 2), Ok(false));
    // (2 / 2)^1 == 1.
    assert_eq!(shares_coset(&two, &vec![two], 1), Ok(true));
    assert_eq!(shares_coset(&two, &vec![one, minus_one, two], 2), Ok(true));
    // The fourth roots of unity share the coset of one for order four only.
    let i = domain_points(4)[1];
    assert_eq!(shares_coset(&i, &vec![one], 4), Ok(true));
    assert_eq!(shares_coset(&i, &vec![one], 2), Ok(false));
}

#[test]
fn shares_coset_rejects_zero_unless_nothing_is_to_compare() {
    let zero = Scalar::zero();
    assert_eq!(shares_coset(&zero, &vec![Scalar::one()], 2), Err(ArithmetizationError::Arithmetic));
    assert_eq!(shares_coset(&zero, &vec![], 2), Ok(false));
}

#[test]
fn labels_are_representative_times_domain_element() {
    let circuit = sample_circuit();
    let mut arith = PlonkArithmetization::new(&circuit).unwrap();
    assert!(!arith.is_initialized());
    assert!(arith.encode_identify_orig().is_empty());
    assert!(arith.encode_identify_perm().is_empty());
    arith.init_encode_identify().unwrap();
    assert!(arith.is_initialized());
    let points = domain_points(arith.domain_size());
    let k = arith.coset_reprs().clone();
    assert_eq!(k, arith.generate_left_coset_repr().unwrap());
    let labels = arith.encode_identify_orig();
    assert_eq!(labels.len(), circuit.gate_count() * WIRE_COUNT);
    for g in 0..circuit.gate_count() {
        assert_eq!(labels[g * WIRE_COUNT], points[g]);
        for w in 0..WIRE_COUNT {
            assert_eq!(to_fr(&labels[g * WIRE_COUNT + w]), to_fr(&k[w]) * to_fr(&points[g]));
        }
    }
    // All labels differ, so a label names its cell.
    for c in 0..labels.len() {
        for d in 0..c {
            assert_ne!(labels[c], labels[d]);
        }
    }
}

fn cell_of(labels: &[Scalar], label: &Scalar) -> usize {
    labels.iter().position(|l| l == label).unwrap()
}

#[test]
fn a_variable_in_three_cells_forms_a_cycle_of_three() {
    let mut circuit = PlonkCircuit::new();
    let a = circuit.create_var(Scalar::from_u64(2), false);
    let b = circuit.create_var(Scalar::from_u64(3), false);
    // `a` is used in gate 2 on wires 0 and 1 and in gate 3 on wire 1.
    circuit.add(a, a);
    circuit.mul(b, a);
    let mut arith = PlonkArithmetization::new(&circuit).unwrap();
    arith.init_encode_identify().unwrap();
    let orig = arith.encode_identify_orig();
    let perm = arith.encode_identify_perm();
    let cells = [2 * WIRE_COUNT, 2 * WIRE_COUNT + 1, 3 * WIRE_COUNT + 1];
    assert_eq!(cell_of(orig, &perm[cells[0]]), cells[1]);
    assert_eq!(cell_of(orig, &perm[cells[1]]), cells[2]);
    assert_eq!(cell_of(orig, &perm[cells[2]]), cells[0]);
    for start in cells {
        let mut at = start;
        let mut seen = vec![];
        for _ in 0..3 {
            seen.push(at);
            at = cell_of(orig, &perm[at]);
        }
        assert_eq!(at, start);
        seen.sort();
        assert_eq!(seen, cells.to_vec());
    }
    // `b` is used once: its cell is sent to itself.
    let only = 3 * WIRE_COUNT;
    assert_eq!(perm[only], orig[only]);
}

#[test]
fn the_permutation_is_a_bijection_with_one_cycle_for_each_variable_in_use() {
    let circuit = sample_circuit();
    let mut arith = PlonkArithmetization::new(&circuit).unwrap();
    arith.init_encode_identify().unwrap();
    let orig = arith.encode_identify_orig();
    let perm = arith.encode_identify_perm();
    let n = orig.len();
    let next: Vec<usize> = (0..n).map(|c| cell_of(orig, &perm[c])).collect();
    let mut hit = vec![false; n];
    for &d in &next {
        assert!(!hit[d]);
        hit[d] = true;
    }
    let var_of = |c: usize| circuit.wires(c / WIRE_COUNT)[c % WIRE_COUNT];
    let mut cycles = 0;
    let mut visited = vec![false; n];
    for c in 0..n {
        assert_eq!(var_of(next[c]), var_of(c));
        if !visited[c] {
            cycles += 1;
            let mut length = 0;
            let mut at = c;
            while !visited[at] {
                visited[at] = true;
                length += 1;
                at = next[at];
            }
            assert_eq!(at, c);
            let uses = (0..n).filter(|&d| var_of(d) == var_of(c)).count();
            assert_eq!(length, uses);
        }
    }
    let in_use = (0..circuit.var_count()).filter(|&v| (0..n).any(|c| var_of(c) == v)).count();
    assert_eq!(cycles, in_use);
}

#[test]
fn permuted_label_polys_reproduce_the_permuted_labels() {
    let circuit = sample_circuit();
    let mut arith = PlonkArithmetization::new(&circuit).unwrap();
    arith.init_encode_identify().unwrap();
    let polys = arith.generate_identify_perm_polys();
    assert_eq!(polys.len(), WIRE_COUNT);
    let points = domain_points(arith.domain_size());
    let perm = arith.encode_identify_perm();
    for g in 0..circuit.gate_count() {
        for w in 0..WIRE_COUNT {
            assert_eq!(polys[w].evaluate(&points[g]), perm[g * WIRE_COUNT + w]);
        }
    }
}

fn running_product(
    circuit: &PlonkCircuit,
    arith: &PlonkArithmetization,
    beta: Fr,
    gamma: Fr,
) -> Vec<Fr> {
    let orig = arith.encode_identify_orig();
    let perm = arith.encode_identify_perm();
    let mut z = Fr::one();
    let mut out = vec![];
    for g in 0..circuit.gate_count() {
        let row = circuit.wires(g);
        let mut num = Fr::one();
        let mut den = Fr::one();
        for w in 0..WIRE_COUNT {
            let val = to_fr(&circuit.witness(row[w]));
            num *= val + beta * to_fr(&orig[g * WIRE_COUNT + w]) + gamma;
            den *= val + beta * to_fr(&perm[g * WIRE_COUNT + w]) + gamma;
        }
        z *= num * den.inverse().unwrap();
        out.push(z);
    }
    out
}

#[test]
fn grand_product_follows_the_running_product_and_ends_at_one() {
    let circuit = sample_circuit();
    let mut arith = PlonkArithmetization::new(&circuit).unwrap();
    arith.init_encode_identify().unwrap();
    let beta = Scalar::from_u64(5);
    let gamma = Scalar::from_u64(11);
    let poly = arith.generate_prod_perm_poly_with(&beta, &gamma).unwrap();
    let points = domain_points(arith.domain_size());
    let expected = running_product(&circuit, &arith, Fr::from(5u64), Fr::from(11u64));
    for g in 0..circuit.gate_count() {
        assert_eq!(to_fr(&poly.evaluate(&points[g])), expected[g]);
    }
    assert_ne!(expected[0], Fr::one());
    assert_eq!(poly.evaluate(&points[circuit.gate_count() - 1]), Scalar::one());
}

#[test]
fn grand_product_with_seeded_challenges_ends_at_one() {
    let circuit = sample_circuit();
    let mut arith = PlonkArithmetization::new(&circuit).unwrap();
    arith.init_encode_identify().unwrap();
    let poly = arith.generate_prod_perm_poly().unwrap();
    let points = domain_points(arith.domain_size());
    assert_eq!(poly.evaluate(&points[circuit.gate_count() - 1]), Scalar::one());
    assert_ne!(poly.evaluate(&points[0]), Scalar::one());
}

#[test]
fn grand_product_with_a_zero_divisor_is_an_arithmetic_error() {
    let circuit = sample_circuit();
    let mut arith = PlonkArithmetization::new(&circuit).unwrap();
    arith.init_encode_identify().unwrap();
    // With both challenges zero a cell's factor is its value, and variable
    // zero holds zero.
    let r = arith.generate_prod_perm_poly_with(&Scalar::zero(), &Scalar::zero());
    assert_eq!(r.err(), Some(ArithmetizationError::Arithmetic));
}

#[test]
fn arithmetization_reads_the_circuit_it_was_made_for() {
    let circuit = sample_circuit();
    let arith = PlonkArithmetization::new(&circuit).unwrap();
    assert_eq!(arith.circuit().gate_count(), 8);
    assert_eq!(arith.circuit().pi_value(), vec![Scalar::from_u64(3)]);
    assert_eq!(arith.pi_count(), 1);
    assert_eq!(arith.domain_size(), 8);
    assert!(circuit.check_circuit(&[Scalar::from_u64(3)]));
}

#[test]
fn key_polynomials_are_the_selector_and_permutation_polynomials() {
    let circuit = sample_circuit();
    let mut arith = PlonkArithmetization::new(&circuit).unwrap();
    arith.init_encode_identify().unwrap();
    let keys = constraint::snark::preprocess(&arith).unwrap();
    assert_eq!(keys.domain_size, 8);
    assert_eq!(keys.srs_size, 10);
    assert_eq!(keys.pi_count, 1);
    let selectors = arith.generate_selector_polys();
    let permutation = arith.generate_identify_perm_polys();
    assert_eq!(keys.selector_polys.len(), 8);
    assert_eq!(keys.identify_perm_polys.len(), WIRE_COUNT);
    for (got, want) in keys.selector_polys.iter().zip(selectors.iter()) {
        assert_eq!(got.coeffs, want.coeffs);
    }
    for (got, want) in keys.identify_perm_polys.iter().zip(permutation.iter()) {
        assert_eq!(got.coeffs, want.coeffs);
    }
}
