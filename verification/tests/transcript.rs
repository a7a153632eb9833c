use ark_bls12_381::Fr;
use ark_ff::{BigInteger256, Field, PrimeField};
use constraint::arithmetization::PlonkArithmetization;
use constraint::circuit::{Circuit, PlonkCircuit};
use constraint::field::Scalar;
use constraint::snark::bind_instances;
use constraint::transcript::{
    challenge_from_bytes, Commitment, PlonkTranscript, ProofEvaluations, Transcript, Vk,
};

fn to_fr(s: &Scalar) -> Fr {
    Fr::from_repr(BigInteger256(s.limbs())).unwrap()
}

fn from_fr(x: Fr) -> Scalar {
    Scalar::from_limbs(x.into_repr().0).unwrap()
}

fn le32(s: &Scalar) -> Vec<u8> {
    s.limbs().iter().flat_map(|l| l.to_le_bytes()).collect()
}

fn challenge_of(script: &mut merlin::Transcript, label: &'static [u8]) -> Scalar {
    let mut buf = [0u8; 64];
    script.challenge_bytes(label, &mut buf);
    let challenge = from_fr(Fr::from_le_bytes_mod_order(&buf));
    script.append_message(label, &le32(&challenge));
    challenge
}

#[test]
fn challenge_bytes_are_read_least_significant_first_and_reduced() {
    let mut bytes = [0u8; 64];
    bytes[0] = 1;
    assert_eq!(challenge_from_bytes(&bytes), Scalar::one());
    bytes[1] = 2;
    assert_eq!(challenge_from_bytes(&bytes), Scalar::from_u64(513));
    let mut high = [0u8; 64];
    high[32] = 1;
    // 2^256 reduced is not one of the low 32 bytes read alone.
    assert_eq!(to_fr(&challenge_from_bytes(&high)), Fr::from(2u64).pow([256u64]));
    let full = [0xffu8; 64];
    assert_eq!(to_fr(&challenge_from_bytes(&full)), Fr::from(2u64).pow([512u64]) - Fr::from(1u64));
}

#[test]
fn a_challenge_is_drawn_as_merlin_draws_it_and_absorbed() {
    let mut transcript = PlonkTranscript::new("plonk transcript");
    transcript.append_message("greeting", b"hello");
    let first = transcript.get_challenge("beta");
    let second = transcript.get_challenge("gamma");

    let mut script = merlin::Transcript::new(b"plonk transcript");
    script.append_message(b"greeting", b"hello");
    assert_eq!(first, challenge_of(&mut script, b"beta"));
    assert_eq!(second, challenge_of(&mut script, b"gamma"));
    assert_ne!(first, second);
}

#[test]
fn a_verifying_key_and_inputs_are_absorbed_in_order() {
    let vk = Vk {
        pi_count: 2,
        domain_size: 8,
        identify_perm_commits: vec![Commitment(vec![1, 2, 3]), Commitment(vec![4, 5])],
        selector_commits: vec![Commitment(vec![6])],
    };
    let pi = [Scalar::from_u64(7), Scalar::from_u64(1 << 40)];
    let mut transcript = PlonkTranscript::new("plonk transcript");
    transcript.append_vk_and_pi(&vk, &pi);
    let got = transcript.get_challenge("alpha");

    let mut script = merlin::Transcript::new(b"plonk transcript");
    script.append_message(b"field order", &255u64.to_le_bytes());
    script.append_message(b"domain size", &8u64.to_le_bytes());
    script.append_message(b"input size", &2u64.to_le_bytes());
    script.append_message(b"identify permutation commitments", &[1, 2, 3]);
    script.append_message(b"identify permutation commitments", &[4, 5]);
    script.append_message(b"selector commitments", &[6]);
    let mut seven = [0u8; 32];
    seven[0] = 7;
    script.append_message(b"public input", &seven);
    let mut big = [0u8; 32];
    big[5] = 1;
    script.append_message(b"public input", &big);
    assert_eq!(got, challenge_of(&mut script, b"alpha"));
}

#[test]
fn order_of_the_commitments_matters() {
    let forward = vec![Commitment(vec![1]), Commitment(vec![2])];
    let backward = vec![Commitment(vec![2]), Commitment(vec![1])];
    let mut a = PlonkTranscript::new("plonk transcript");
    a.append_commitments("wire commitments", &forward);
    let mut b = PlonkTranscript::new("plonk transcript");
    b.append_commitments("wire commitments", &backward);
    assert_ne!(a.get_challenge("beta"), b.get_challenge("beta"));

    let mut c = PlonkTranscript::new("plonk transcript");
    c.append_commitment("wire commitments", &forward[0]);
    c.append_commitment("wire commitments", &forward[1]);
    let mut d = PlonkTranscript::new("plonk transcript");
    d.append_commitments("wire commitments", &forward);
    assert_eq!(c.get_challenge("beta"), d.get_challenge("beta"));
}

#[test]
fn evaluations_are_absorbed_wires_first() {
    let evals = ProofEvaluations {
        wire_evals: vec![Scalar::from_u64(3), Scalar::from_u64(4)],
        identify_perm_evals: vec![Scalar::from_u64(5)],
    };
    let mut transcript = PlonkTranscript::new("plonk transcript");
    transcript.append_proof_eval(&evals);
    transcript.append_challenge("zeta", &Scalar::from_u64(9));
    let got = transcript.get_challenge("v");

    let mut script = merlin::Transcript::new(b"plonk transcript");
    script.append_message(b"wire evaluations", &le32(&Scalar::from_u64(3)));
    script.append_message(b"wire evaluations", &le32(&Scalar::from_u64(4)));
    script.append_message(b"indentify permutation evaluations", &le32(&Scalar::from_u64(5)));
    script.append_message(b"zeta", &le32(&Scalar::from_u64(9)));
    assert_eq!(got, challenge_of(&mut script, b"v"));
}

#[test]
fn a_batch_binds_each_instance_in_turn() {
    let mut first = PlonkCircuit::new();
    first.create_var(Scalar::from_u64(7), true);
    let mut second = PlonkCircuit::new();
    second.create_var(Scalar::from_u64(8), true);
    second.create_var(Scalar::from_u64(9), true);
    let a = PlonkArithmetization::new(&first).unwrap();
    let b = PlonkArithmetization::new(&second).unwrap();
    let vk_a = Vk {
        pi_count: 1,
        domain_size: 4,
        identify_perm_commits: vec![Commitment(vec![1])],
        selector_commits: vec![],
    };
    let vk_b = Vk {
        pi_count: 2,
        domain_size: 4,
        identify_perm_commits: vec![],
        selector_commits: vec![Commitment(vec![2, 3])],
    };
    // A third key without an arithmetization is left out.
    let mut transcript: PlonkTranscript = bind_instances(&[&a, &b], &[&vk_a, &vk_b, &vk_a]);
    let got = transcript.get_challenge("beta");

    let mut by_hand = PlonkTranscript::new("plonk transcript");
    by_hand.append_vk_and_pi(&vk_a, &[Scalar::from_u64(7)]);
    by_hand.append_vk_and_pi(&vk_b, &[Scalar::from_u64(8), Scalar::from_u64(9)]);
    assert_eq!(got, by_hand.get_challenge("beta"));

    let mut swapped: PlonkTranscript = bind_instances(&[&b, &a], &[&vk_b, &vk_a]);
    assert_ne!(got, swapped.get_challenge("beta"));
}
