//! The evaluation domain: the multiplicative subgroup of the field whose
//! size is a given power of two, and interpolation over it.
//!
//! A domain is known by its size alone, so the library holds the size and
//! each operation builds the domain of that size.

use crate::field::{field_mul, field_pow, Scalar};
use crate::polynomial::poly_eval;
use ark_bls12_381::Fr;
use ark_ff::{BigInteger256, PrimeField};
use ark_poly::{EvaluationDomain, Radix2EvaluationDomain};
use vstd::arithmetic::power2::pow2;
use vstd::prelude::*;

verus! {

/// The largest domain has `2^32` elements: the field has no larger subgroup
/// whose size is a power of two.
pub const MAX_DOMAIN_SIZE: u64 = 0x1_0000_0000;

/// Whether `size` is the size of a domain: a power of two up to `2^32`.
pub open spec fn is_domain_size(size: int) -> bool {
    exists|k: nat| k <= 32 && size == #[trigger] pow2(k)
}

/// Whether `size` is the least power of two that is at least `count`.
pub open spec fn is_least_domain_size(size: int, count: int) -> bool {
    &&& is_domain_size(size)
    &&& count <= size
    &&& size == 1 || size < 2 * count
}

/// The generator that `EvaluationDomain::new` of
/// `ark_poly::Radix2EvaluationDomain` gives the domain of the given size: its
/// `group_gen`, a root of unity of that order.
pub uninterp spec fn group_gen(size: nat) -> int;

/// The `i`-th element of the domain of the given size: the `i`-th power of
/// its generator.
pub open spec fn domain_element(size: int, i: int) -> int {
    field_pow(group_gen(size as nat), i as nat)
}

/// `EvaluationDomain::new` of `ark_poly::Radix2EvaluationDomain`, read by its
/// `size`: the least power of two that is at least `num_coeffs`, and `None`
/// where that exceeds `2^32`.
#[verifier::external_body]
pub(crate) fn domain_size_for(num_coeffs: usize) -> (r: Option<usize>)
    requires
        num_coeffs <= usize::MAX / 2,
    ensures
        r.is_some() <==> num_coeffs <= MAX_DOMAIN_SIZE,
        r matches Some(size) ==> is_least_domain_size(size as int, num_coeffs as int),
{
    Radix2EvaluationDomain::<Fr>::new(num_coeffs).map(|domain| domain.size())
}

/// `EvaluationDomain::elements` of `ark_poly::Radix2EvaluationDomain`: the
/// powers of the generator, from the zeroth on, as many as the domain has.
/// As the generator generates a group of that many elements, they differ
/// from each other, and the generator times the last of them is one again.
#[verifier::external_body]
pub(crate) fn domain_elements(size: usize) -> (elements: Vec<Scalar>)
    requires
        is_domain_size(size as int),
    ensures
        elements@.len() == size,
        forall|i: int|
            0 <= i < size ==> (#[trigger] elements@[i])@ == field_pow(
                group_gen(size as nat),
                i as nat,
            ),
        forall|i: int, j: int|
            0 <= i < j < size ==> #[trigger] elements@[i] != #[trigger] elements@[j],
        size > 0 ==> field_mul(group_gen(size as nat), elements@[size - 1]@) == 1,
{
    let domain = Radix2EvaluationDomain::<Fr>::new(size).unwrap();
    domain.elements().map(|e| Scalar::from_limbs(e.into_repr().0).unwrap()).collect()
}

/// `EvaluationDomain::ifft` of `ark_poly::Radix2EvaluationDomain`: the
/// coefficients, as many as the domain has elements, of the polynomial
/// that takes the value `evals[i]` at the `i`-th element, and zero at the
/// elements past the end of `evals`.
#[verifier::external_body]
pub(crate) fn domain_ifft(size: usize, evals: &Vec<Scalar>) -> (coeffs: Vec<Scalar>)
    requires
        is_domain_size(size as int),
        evals@.len() <= size,
    ensures
        coeffs@.len() == size,
        forall|i: int|
            0 <= i < size ==> #[trigger] poly_eval(coeffs@, domain_element(size as int, i)) == (if i
                < evals@.len() {
                evals@[i]@
            } else {
                0
            }),
{
    let domain = Radix2EvaluationDomain::<Fr>::new(size).unwrap();
    let evals: Vec<Fr> = evals.iter().map(
        |e| Fr::from_repr(BigInteger256(e.limbs())).unwrap(),
    ).collect();
    domain.ifft(&evals).iter().map(|c| Scalar::from_limbs(c.into_repr().0).unwrap()).collect()
}

} // verus!
