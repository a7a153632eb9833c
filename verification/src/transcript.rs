//! The Fiat-Shamir transcript: what is absorbed, under which label and in
//! which order, and how a challenge is drawn from it.
//!
//! The hashing is `merlin`'s. What the library states is the sequence of
//! entries it hands to `merlin`, which a prover and a verifier must produce
//! alike.

use crate::field::{modulus, Scalar};
use ark_bls12_381::Fr;
use ark_ff::{BigInteger256, PrimeField};
use ark_serialize::CanonicalSerialize;
use merlin::Transcript as Script;
use vstd::arithmetic::power::pow;
use vstd::bytes::{spec_u64_to_le_bytes, u64_to_le_bytes};
use vstd::prelude::*;

verus! {

/// `merlin`'s transcript, carried through as an opaque value.
#[verifier::external_type_specification]
#[verifier::external_body]
pub struct ExScript(Script);

/// Number of bytes drawn for one challenge.
pub const CHALLENGE_BYTES: usize = 64;

/// One thing handed to the transcript.
pub enum Entry {
    /// A message absorbed under a label.
    Message { label: Seq<char>, bytes: Seq<u8> },
    /// A request for challenge bytes under a label.
    Challenge { label: Seq<char>, len: nat },
}

/// The number that bytes stand for, least significant byte first.
pub open spec fn le_value(bytes: Seq<u8>) -> int
    decreases bytes.len(),
{
    if bytes.len() == 0 {
        0
    } else {
        bytes[0] as int + 256 * le_value(bytes.skip(1))
    }
}

/// The 32 bytes of a field value, least significant byte first.
pub open spec fn scalar_bytes(x: int) -> Seq<u8> {
    Seq::new(32, |i: int| ((x / pow(256, i as nat)) % 256) as u8)
}

/// Number of bits of the modulus.
pub const FIELD_BITS: usize = 255;

/// A polynomial commitment in its canonical serialized form.
#[derive(Clone, Debug)]
pub struct Commitment(pub Vec<u8>);

/// The part of a verifying key that the transcript binds.
#[derive(Clone, Debug)]
pub struct Vk {
    pub pi_count: usize,
    pub domain_size: usize,
    pub identify_perm_commits: Vec<Commitment>,
    pub selector_commits: Vec<Commitment>,
}

/// The evaluations that a proof opens.
#[derive(Clone, Debug)]
pub struct ProofEvaluations {
    pub wire_evals: Vec<Scalar>,
    pub identify_perm_evals: Vec<Scalar>,
}

/// Whether every commitment is short enough to be absorbed as one message.
pub open spec fn absorbable(commits: Seq<Commitment>) -> bool {
    forall|i: int| 0 <= i < commits.len() ==> (#[trigger] commits[i]).0@.len() <= u32::MAX
}

/// One message for each commitment, all under the same label.
pub open spec fn commitment_entries(label: Seq<char>, commits: Seq<Commitment>) -> Seq<Entry> {
    Seq::new(commits.len(), |i: int| Entry::Message { label, bytes: commits[i].0@ })
}

/// One message for each field element, all under the same label.
pub open spec fn scalar_entries(label: Seq<char>, values: Seq<Scalar>) -> Seq<Entry> {
    Seq::new(values.len(), |i: int| Entry::Message { label, bytes: scalar_bytes(values[i]@) })
}

/// What binds a verifying key and the public inputs: the size of the field,
/// of the domain and of the public input, then the commitments to the
/// permutation polynomials, those to the selector polynomials, and the public
/// inputs.
pub open spec fn vk_and_pi_entries(vk: Vk, pi: Seq<Scalar>) -> Seq<Entry> {
    seq![
        Entry::Message { label: "field order"@, bytes: spec_u64_to_le_bytes(FIELD_BITS as u64) },
        Entry::Message { label: "domain size"@, bytes: spec_u64_to_le_bytes(vk.domain_size as u64) },
        Entry::Message { label: "input size"@, bytes: spec_u64_to_le_bytes(vk.pi_count as u64) },
    ] + commitment_entries("identify permutation commitments"@, vk.identify_perm_commits@)
        + commitment_entries("selector commitments"@, vk.selector_commits@) + scalar_entries(
        "public input"@,
        pi,
    )
}

/// What binds the evaluations of a proof: the wire evaluations, then those
/// of the permutation polynomials.
pub open spec fn proof_eval_entries(evals: ProofEvaluations) -> Seq<Entry> {
    scalar_entries("wire evaluations"@, evals.wire_evals@) + scalar_entries(
        "indentify permutation evaluations"@,
        evals.identify_perm_evals@,
    )
}

/// `Transcript::new` of `merlin`.
#[verifier::external_body]
fn script_new(label: &'static str) -> (script: Script) {
    Script::new(label.as_bytes())
}

/// `Transcript::append_message` of `merlin`, which refuses a message of more
/// than `u32::MAX` bytes.
#[verifier::external_body]
fn script_append(script: &mut Script, label: &'static str, msg: &[u8])
    requires
        msg@.len() <= u32::MAX,
{
    script.append_message(label.as_bytes(), msg)
}

/// `Transcript::challenge_bytes` of `merlin`, for 64 bytes. They depend on
/// everything absorbed so far; nothing is stated of them.
#[verifier::external_body]
fn script_challenge(script: &mut Script, label: &'static str) -> (bytes: [u8; 64]) {
    let mut buf = [0u8; 64];
    script.challenge_bytes(label.as_bytes(), &mut buf);
    buf
}

/// `PrimeField::from_le_bytes_mod_order` of `ark_ff`: the number that the
/// bytes stand for, reduced.
#[verifier::external_body]
fn scalar_from_le_bytes_mod_order(bytes: &[u8; 64]) -> (r: Scalar)
    ensures
        r@ == le_value(bytes@) % modulus(),
{
    Scalar::from_limbs(Fr::from_le_bytes_mod_order(bytes).into_repr().0).unwrap()
}

/// `CanonicalSerialize::serialize` of `ark_ff::Fp256`: the 32 bytes of the
/// canonical representative, least significant first.
#[verifier::external_body]
fn scalar_serialize(s: &Scalar) -> (bytes: Vec<u8>)
    ensures
        bytes@ == scalar_bytes(s@),
{
    let mut buf = vec![];
    Fr::from_repr(BigInteger256(s.limbs())).unwrap().serialize(&mut buf).unwrap();
    buf
}

/// `PrimeField::size_in_bits` of `ark_ff::Fp256`: the bits of the modulus.
#[verifier::external_body]
fn field_size_in_bits() -> (bits: usize)
    ensures
        bits == FIELD_BITS,
{
    Fr::size_in_bits()
}

/// The field element that 64 challenge bytes stand for.
pub fn challenge_from_bytes(bytes: &[u8; 64]) -> (challenge: Scalar)
    ensures
        challenge@ == le_value(bytes@) % modulus(),
{
    scalar_from_le_bytes_mod_order(bytes)
}

/// A transcript that absorbs labelled messages and yields challenges.
pub trait Transcript: Sized {
    /// What has been handed to the transcript since it was made.
    spec fn log(&self) -> Seq<Entry>;

    /// The label the transcript was made with.
    spec fn domain(&self) -> Seq<char>;

    fn new(label: &'static str) -> (t: Self)
        ensures
            t.domain() == label@,
            t.log() == Seq::<Entry>::empty(),
    ;

    fn append_message(&mut self, label: &'static str, msg: &[u8])
        requires
            msg@.len() <= u32::MAX,
        ensures
            final(self).domain() == old(self).domain(),
            final(self).log() == old(self).log().push(
                Entry::Message { label: label@, bytes: msg@ },
            ),
    ;

    /// Draws a challenge and absorbs it under the same label.
    fn get_challenge(&mut self, label: &'static str) -> (challenge: Scalar)
        ensures
            final(self).domain() == old(self).domain(),
            final(self).log() == old(self).log().push(
                Entry::Challenge { label: label@, len: CHALLENGE_BYTES as nat },
            ).push(Entry::Message { label: label@, bytes: scalar_bytes(challenge@) }),
    ;

    fn append_commitment(&mut self, label: &'static str, commit: &Commitment)
        requires
            commit.0@.len() <= u32::MAX,
        ensures
            final(self).domain() == old(self).domain(),
            final(self).log() == old(self).log().push(
                Entry::Message { label: label@, bytes: commit.0@ },
            ),
    {
        self.append_message(label, commit.0.as_slice());
    }

    fn append_commitments(&mut self, label: &'static str, commits: &Vec<Commitment>)
        requires
            absorbable(commits@),
        ensures
            final(self).domain() == old(self).domain(),
            final(self).log() == old(self).log() + commitment_entries(label@, commits@),
    {
        let ghost start = self.log();
        let ghost domain = self.domain();
        let mut i: usize = 0;
        while i < commits.len()
            invariant
                absorbable(commits@),
                i <= commits@.len(),
                self.domain() == domain,
                self.log() == start + commitment_entries(label@, commits@.take(i as int)),
            decreases commits.len() - i,
        {
            self.append_commitment(label, &commits[i]);
            proof {
                assert(commitment_entries(label@, commits@.take(i + 1)) =~= commitment_entries(
                    label@,
                    commits@.take(i as int),
                ).push(Entry::Message { label: label@, bytes: commits@[i as int].0@ }));
            }
            i += 1;
        }
        proof {
            assert(commits@.take(i as int) =~= commits@);
        }
    }

    fn append_challenge(&mut self, label: &'static str, challenge: &Scalar)
        ensures
            final(self).domain() == old(self).domain(),
            final(self).log() == old(self).log().push(
                Entry::Message { label: label@, bytes: scalar_bytes(challenge@) },
            ),
    {
        let bytes = scalar_serialize(challenge);
        self.append_message(label, bytes.as_slice());
    }

    /// Absorbs each field element as one message under the label.
    fn append_scalars(&mut self, label: &'static str, values: &[Scalar])
        ensures
            final(self).domain() == old(self).domain(),
            final(self).log() == old(self).log() + scalar_entries(label@, values@),
    {
        let ghost start = self.log();
        let ghost domain = self.domain();
        let mut i: usize = 0;
        while i < values.len()
            invariant
                i <= values@.len(),
                self.domain() == domain,
                self.log() == start + scalar_entries(label@, values@.take(i as int)),
            decreases values.len() - i,
        {
            self.append_challenge(label, &values[i]);
            proof {
                assert(scalar_entries(label@, values@.take(i + 1)) =~= scalar_entries(
                    label@,
                    values@.take(i as int),
                ).push(Entry::Message { label: label@, bytes: scalar_bytes(values@[i as int]@) }));
            }
            i += 1;
        }
        proof {
            assert(values@.take(i as int) =~= values@);
        }
    }

    fn append_vk_and_pi(&mut self, vk: &Vk, pi: &[Scalar])
        requires
            absorbable(vk.identify_perm_commits@),
            absorbable(vk.selector_commits@),
        ensures
            final(self).domain() == old(self).domain(),
            final(self).log() == old(self).log() + vk_and_pi_entries(*vk, pi@),
    {
        let ghost start = self.log();
        self.append_message("field order", u64_to_le_bytes(field_size_in_bits() as u64).as_slice());
        self.append_message("domain size", u64_to_le_bytes(vk.domain_size as u64).as_slice());
        self.append_message("input size", u64_to_le_bytes(vk.pi_count as u64).as_slice());
        self.append_commitments("identify permutation commitments", &vk.identify_perm_commits);
        self.append_commitments("selector commitments", &vk.selector_commits);
        self.append_scalars("public input", pi);
        proof {
            assert(self.log() =~= start + vk_and_pi_entries(*vk, pi@));
        }
    }

    fn append_proof_eval(&mut self, evals: &ProofEvaluations)
        ensures
            final(self).domain() == old(self).domain(),
            final(self).log() == old(self).log() + proof_eval_entries(*evals),
    {
        let ghost start = self.log();
        self.append_scalars("wire evaluations", evals.wire_evals.as_slice());
        self.append_scalars("indentify permutation evaluations", evals.identify_perm_evals.as_slice());
        proof {
            assert(self.log() =~= start + proof_eval_entries(*evals));
        }
    }
}

/// The transcript over `merlin`.
pub struct PlonkTranscript {
    script: Script,
    domain: Ghost<Seq<char>>,
    log: Ghost<Seq<Entry>>,
}

impl Transcript for PlonkTranscript {
    closed spec fn log(&self) -> Seq<Entry> {
        self.log@
    }

    closed spec fn domain(&self) -> Seq<char> {
        self.domain@
    }

    fn new(label: &'static str) -> (t: Self) {
        Self { script: script_new(label), domain: Ghost(label@), log: Ghost(Seq::empty()) }
    }

    fn append_message(&mut self, label: &'static str, msg: &[u8]) {
        script_append(&mut self.script, label, msg);
        self.log = Ghost(self.log@.push(Entry::Message { label: label@, bytes: msg@ }));
    }

    fn get_challenge(&mut self, label: &'static str) -> (challenge: Scalar) {
        let buf = script_challenge(&mut self.script, label);
        self.log = Ghost(
            self.log@.push(Entry::Challenge { label: label@, len: CHALLENGE_BYTES as nat }),
        );
        let challenge = challenge_from_bytes(&buf);
        self.append_challenge(label, &challenge);
        challenge
    }
}

} // verus!
