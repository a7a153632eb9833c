use constraint::circuit::{Circuit, PlonkCircuit};
use constraint::field::Scalar;

#[test]
fn test_add_gate() {
    let mut circuit = PlonkCircuit::new();
    let a = circuit.create_var(Scalar::from_u64(2), false);
    let b = circuit.create_var(Scalar::from_u64(3), false);
    let c = circuit.create_var(Scalar::from_u64(5), false);
    circuit.add_gate(a, b, c);
    assert!(circuit.check_circuit(&[]));
}

#[test]
fn test_sub_gate() {
    let mut circuit = PlonkCircuit::new();
    let a = circuit.create_var(Scalar::from_u64(3), false);
    let b = circuit.create_var(Scalar::from_u64(2), false);
    let c = circuit.create_var(Scalar::from_u64(1), false);
    circuit.sub_gate(a, b, c);
    assert!(circuit.check_circuit(&[]));
}

#[test]
fn test_mul_gate() {
    let mut circuit = PlonkCircuit::new();
    let a = circuit.create_var(Scalar::from_u64(2), false);
    let b = circuit.create_var(Scalar::from_u64(3), false);
    let c = circuit.create_var(Scalar::from_u64(6), false);
    circuit.mul_gate(a, b, c);
    assert!(circuit.check_circuit(&[]));
}

#[test]
fn test_equal_gate() {
    let mut circuit = PlonkCircuit::new();
    let a = circuit.create_var(Scalar::from_u64(6), false);
    let b = circuit.create_var(Scalar::from_u64(6), false);
    circuit.equal_gate(a, b);
    assert!(circuit.check_circuit(&[]));
}

#[test]
fn test_const_gate() {
    let mut circuit = PlonkCircuit::new();
    let val = Scalar::from_u64(3);
    let a = circuit.create_var(val, false);
    circuit.const_gate(a, val);
    assert!(circuit.check_circuit(&[]));
}

#[test]
fn test_pi_gate() {
    let mut circuit = PlonkCircuit::new();
    let val = Scalar::from_u64(3);
    circuit.create_var(val, true);
    assert!(circuit.check_circuit(&[val]));
}

#[test]
fn test_add() {
    let mut circuit = PlonkCircuit::new();
    let a = circuit.create_var(Scalar::from_u64(6), false);
    let b = circuit.create_var(Scalar::from_u64(6), false);
    circuit.add(a, b);
    assert!(circuit.check_circuit(&[]));
}

#[test]
fn test_sub() {
    let mut circuit = PlonkCircuit::new();
    let a = circuit.create_var(Scalar::from_u64(6), false);
    let b = circuit.create_var(Scalar::from_u64(2), false);
    circuit.sub(a, b);
    assert!(circuit.check_circuit(&[]));
}

#[test]
fn test_mul() {
    let mut circuit = PlonkCircuit::new();
    let a = circuit.create_var(Scalar::from_u64(6), false);
    let b = circuit.create_var(Scalar::from_u64(6), false);
    circuit.mul(a, b);
    assert!(circuit.check_circuit(&[]));
}

#[test]
fn add_computes_the_sum_and_a_changed_output_is_caught() {
    let mut circuit = PlonkCircuit::new();
    let a = circuit.create_var(Scalar::from_u64(2), false);
    let b = circuit.create_var(Scalar::from_u64(3), false);
    let c = circuit.add(a, b);
    assert_eq!(circuit.witness(c), Scalar::from_u64(5));
    assert!(circuit.check_circuit(&[]));
    circuit.set_witness(c, Scalar::from_u64(6));
    assert!(!circuit.check_circuit(&[]));
}

#[test]
fn public_variable_is_checked_against_its_input() {
    let mut circuit = PlonkCircuit::new();
    circuit.create_var(Scalar::from_u64(7), true);
    assert_eq!(circuit.pi_count(), 1);
    assert_eq!(circuit.pi_value(), vec![Scalar::from_u64(7)]);
    assert!(circuit.check_circuit(&[Scalar::from_u64(7)]));
    assert!(!circuit.check_circuit(&[Scalar::from_u64(8)]));
}

#[test]
fn a_new_circuit_holds_zero_and_one_under_constant_gates() {
    let circuit = PlonkCircuit::new();
    assert_eq!(circuit.var_count(), 2);
    assert_eq!(circuit.gate_count(), 2);
    assert_eq!(circuit.pi_count(), 0);
    assert_eq!(circuit.witness(0), Scalar::zero());
    assert_eq!(circuit.witness(1), Scalar::one());
    assert_eq!(circuit.wires(0), [0, 0, 0, 0, 0, 0]);
    assert_eq!(circuit.wires(1), [0, 0, 0, 0, 1, 0]);
    assert!(circuit.check_circuit(&[]));
}

#[test]
fn sub_and_mul_compute_their_values() {
    let mut circuit = PlonkCircuit::new();
    let a = circuit.create_var(Scalar::from_u64(6), false);
    let b = circuit.create_var(Scalar::from_u64(2), false);
    let d = circuit.sub(a, b);
    let p = circuit.mul(a, b);
    assert_eq!(circuit.witness(d), Scalar::from_u64(4));
    assert_eq!(circuit.witness(p), Scalar::from_u64(12));
    assert_eq!(circuit.wires(2), [a, b, 0, 0, d, 0]);
    assert_eq!(circuit.wires(3), [a, b, 0, 0, p, 0]);
    // 2 - 6 wraps around the modulus, and 6 + (2 - 6) is 2 again.
    let e = circuit.sub(b, a);
    let f = circuit.add(a, e);
    assert_eq!(circuit.witness(f), Scalar::from_u64(2));
    assert!(circuit.check_circuit(&[]));
}

#[test]
fn wrong_gates_are_caught() {
    let two = Scalar::from_u64(2);
    let three = Scalar::from_u64(3);
    let mut circuit = PlonkCircuit::new();
    let a = circuit.create_var(two, false);
    let b = circuit.create_var(three, false);
    let c = circuit.create_var(Scalar::from_u64(6), false);
    circuit.add_gate(a, b, c);
    assert!(!circuit.check_circuit(&[]));
    let mut circuit = PlonkCircuit::new();
    let a = circuit.create_var(two, false);
    let b = circuit.create_var(three, false);
    circuit.sub_gate(a, b, a);
    assert!(!circuit.check_circuit(&[]));
    let mut circuit = PlonkCircuit::new();
    let a = circuit.create_var(two, false);
    let b = circuit.create_var(three, false);
    circuit.mul_gate(a, b, b);
    assert!(!circuit.check_circuit(&[]));
    let mut circuit = PlonkCircuit::new();
    let a = circuit.create_var(two, false);
    let b = circuit.create_var(three, false);
    circuit.equal_gate(a, b);
    assert!(!circuit.check_circuit(&[]));
    let mut circuit = PlonkCircuit::new();
    let a = circuit.create_var(two, false);
    circuit.const_gate(a, three);
    assert!(!circuit.check_circuit(&[]));
}

#[test]
fn public_inputs_are_matched_in_creation_order() {
    let mut circuit = PlonkCircuit::new();
    let a = circuit.create_var(Scalar::from_u64(4), true);
    let b = circuit.create_var(Scalar::from_u64(9), true);
    circuit.add(a, b);
    assert_eq!(circuit.pi_value(), vec![Scalar::from_u64(4), Scalar::from_u64(9)]);
    assert!(circuit.check_circuit(&circuit.pi_value()));
    assert!(circuit.check_circuit(&[Scalar::from_u64(4), Scalar::from_u64(9), Scalar::from_u64(1)]));
    assert!(!circuit.check_circuit(&[Scalar::from_u64(9), Scalar::from_u64(4)]));
}

#[test]
fn an_unregistered_public_input_gate_is_passed_over() {
    let mut circuit = PlonkCircuit::new();
    let a = circuit.create_var(Scalar::from_u64(4), false);
    circuit.pi_gate(a);
    assert_eq!(circuit.pi_count(), 0);
    assert_eq!(circuit.gate_count(), 3);
    assert!(circuit.gate(2).is_public_input());
    assert!(circuit.check_circuit(&[]));
}

#[test]
fn a_changed_input_of_a_product_by_zero_goes_unnoticed() {
    let mut circuit = PlonkCircuit::new();
    let a = circuit.create_var(Scalar::from_u64(4), false);
    circuit.mul(a, 0);
    circuit.set_witness(a, Scalar::from_u64(5));
    assert!(circuit.check_circuit(&[]));
}

#[test]
fn a_changed_input_is_caught() {
    let build = || {
        let mut circuit = PlonkCircuit::new();
        let a = circuit.create_var(Scalar::from_u64(5), false);
        let b = circuit.create_var(Scalar::from_u64(3), false);
        (circuit, a, b)
    };
    let (mut circuit, a, b) = build();
    circuit.add(a, b);
    circuit.set_witness(a, Scalar::from_u64(6));
    assert!(!circuit.check_circuit(&[]));
    let (mut circuit, a, b) = build();
    circuit.sub(a, b);
    circuit.set_witness(b, Scalar::from_u64(4));
    assert!(!circuit.check_circuit(&[]));
    let (mut circuit, a, b) = build();
    circuit.mul(a, b);
    circuit.set_witness(a, Scalar::from_u64(6));
    assert!(!circuit.check_circuit(&[]));
    let (mut circuit, a, _) = build();
    let c = circuit.create_var(Scalar::from_u64(5), false);
    circuit.equal_gate(a, c);
    assert!(circuit.check_circuit(&[]));
    circuit.set_witness(c, Scalar::from_u64(4));
    assert!(!circuit.check_circuit(&[]));
}
