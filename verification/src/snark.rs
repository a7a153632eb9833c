//! What a proving layer takes from an arithmetization before it commits:
//! the polynomials that the keys are made from, and the transcript that
//! binds the keys and public inputs of all instances of a batch.

use crate::arithmetization::{
    is_interpolation, Arithmetization, ArithmetizationModel, SELECTOR_COUNT,
};
use crate::circuit::{Circuit, WIRE_COUNT};
use crate::error::ArithmetizationError;
use crate::polynomial::DensePolynomial;
use crate::transcript::{absorbable, vk_and_pi_entries, Entry, Transcript, Vk};
use vstd::prelude::*;

verus! {

/// The reference string must hold two more powers than the domain has
/// elements.
pub const SRS_MARGIN: usize = 2;

/// What the proving and the verifying key of a circuit are made from.
pub struct KeyPolynomials {
    pub pi_count: usize,
    pub domain_size: usize,
    /// How many powers of the reference string the keys take.
    pub srs_size: usize,
    pub selector_polys: Vec<DensePolynomial>,
    pub identify_perm_polys: Vec<DensePolynomial>,
}

impl KeyPolynomials {
    /// Whether these are the key polynomials of the given arithmetization.
    pub open spec fn is_for(self, m: ArithmetizationModel) -> bool {
        &&& self.pi_count == m.circuit.pi_vars.len()
        &&& self.domain_size == m.domain_size
        &&& self.srs_size == m.domain_size + SRS_MARGIN
        &&& self.selector_polys@.len() == SELECTOR_COUNT
        &&& forall|slot: int|
            0 <= slot < SELECTOR_COUNT ==> is_interpolation(
                (#[trigger] self.selector_polys@[slot])@,
                m.domain_size,
                m.selector_column(slot),
            )
        &&& self.identify_perm_polys@.len() == WIRE_COUNT
        &&& forall|w: int|
            0 <= w < WIRE_COUNT ==> is_interpolation(
                (#[trigger] self.identify_perm_polys@[w])@,
                m.domain_size,
                m.permuted_column(w),
            )
    }
}

/// The polynomials to commit to for the keys of a circuit: the selector
/// polynomials and those of the permutation, with the sizes that the keys
/// record. Fails where the size of the reference string cannot be counted.
pub fn preprocess<A: Arithmetization>(arith: &A) -> (r: Result<
    KeyPolynomials,
    ArithmetizationError,
>)
    requires
        arith.model().wf(),
        arith.model().initialized,
    ensures
        r.is_ok() <==> arith.model().domain_size + SRS_MARGIN <= usize::MAX,
        r matches Ok(keys) ==> keys.is_for(arith.model()),
        r matches Err(e) ==> e == ArithmetizationError::Configuration,
{
    let domain_size = arith.domain_size();
    let srs_size = match domain_size.checked_add(SRS_MARGIN) {
        Some(srs_size) => srs_size,
        None => {
            return Err(ArithmetizationError::Configuration);
        },
    };
    let pi_count = arith.pi_count();
    let selector_polys = arith.generate_selector_polys();
    let identify_perm_polys = arith.generate_identify_perm_polys();
    Ok(KeyPolynomials { pi_count, domain_size, srs_size, selector_polys, identify_perm_polys })
}

/// What binds the first `count` instances of a batch: for each in turn, its
/// verifying key and its public inputs.
pub open spec fn instance_entries<A: Arithmetization>(
    arith: Seq<&A>,
    vk: Seq<&Vk>,
    count: nat,
) -> Seq<Entry>
    decreases count,
{
    if count == 0 {
        Seq::empty()
    } else {
        instance_entries(arith, vk, (count - 1) as nat) + vk_and_pi_entries(
            *vk[count - 1],
            arith[count - 1].model().circuit.public_values(),
        )
    }
}

/// Number of instances of a batch: as many as there are both keys and
/// arithmetizations.
pub open spec fn instance_count(arith: int, vk: int) -> nat {
    if arith < vk {
        arith as nat
    } else {
        vk as nat
    }
}

/// Opens the transcript of a batch and binds, instance by instance, the
/// verifying key and the public inputs.
pub fn bind_instances<T: Transcript, A: Arithmetization>(arith: &[&A], vk: &[&Vk]) -> (transcript:
    T)
    requires
        forall|i: int| 0 <= i < arith@.len() ==> (#[trigger] arith@[i]).model().wf(),
        forall|i: int|
            0 <= i < vk@.len() ==> absorbable((#[trigger] vk@[i]).identify_perm_commits@)
                && absorbable(vk@[i].selector_commits@),
    ensures
        transcript.domain() == "plonk transcript"@,
        transcript.log() == instance_entries(
            arith@,
            vk@,
            instance_count(arith@.len() as int, vk@.len() as int),
        ),
{
    let mut transcript = T::new("plonk transcript");
    let count = if arith.len() < vk.len() {
        arith.len()
    } else {
        vk.len()
    };
    let mut i: usize = 0;
    while i < count
        invariant
            i <= count,
            count == instance_count(arith@.len() as int, vk@.len() as int),
            forall|j: int| 0 <= j < arith@.len() ==> (#[trigger] arith@[j]).model().wf(),
            forall|j: int|
                0 <= j < vk@.len() ==> absorbable((#[trigger] vk@[j]).identify_perm_commits@)
                    && absorbable(vk@[j].selector_commits@),
            transcript.domain() == "plonk transcript"@,
            transcript.log() == instance_entries(arith@, vk@, i as nat),
        decreases count - i,
    {
        let pi = arith[i].circuit().pi_value();
        transcript.append_vk_and_pi(vk[i], pi.as_slice());
        i += 1;
    }
    transcript
}

} // verus!
