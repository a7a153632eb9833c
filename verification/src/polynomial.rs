//! Univariate polynomials over the field, in coefficient form.

use crate::field::{field_add, field_mul, field_pow, modulus, Scalar};
use vstd::arithmetic::div_mod::{lemma_mod_bound, lemma_small_mod};
use vstd::arithmetic::mul::lemma_mul_basics;
use vstd::prelude::*;

verus! {

/// The value at `x` of the polynomial with the given coefficients, lowest
/// degree first: the sum of `coeffs[i] * x^i`.
pub open spec fn poly_eval(coeffs: Seq<Scalar>, x: int) -> int
    decreases coeffs.len(),
{
    if coeffs.len() == 0 {
        0
    } else {
        field_add(
            poly_eval(coeffs.drop_last(), x),
            field_mul(coeffs.last()@, field_pow(x, (coeffs.len() - 1) as nat)),
        )
    }
}

/// The coefficients without the zeros past the highest non-zero one.
pub open spec fn trimmed(coeffs: Seq<Scalar>) -> Seq<Scalar>
    decreases coeffs.len(),
{
    if coeffs.len() == 0 || coeffs.last()@ != 0 {
        coeffs
    } else {
        trimmed(coeffs.drop_last())
    }
}

/// The value of a polynomial is a canonical field value.
pub proof fn lemma_poly_eval_range(coeffs: Seq<Scalar>, x: int)
    ensures
        0 <= poly_eval(coeffs, x) < modulus(),
    decreases coeffs.len(),
{
    if coeffs.len() > 0 {
        let s = poly_eval(coeffs.drop_last(), x) + field_mul(
            coeffs.last()@,
            field_pow(x, (coeffs.len() - 1) as nat),
        );
        lemma_mod_bound(s, modulus());
    }
}

/// Zeros at the high end contribute nothing: the trimmed coefficients give
/// the same value everywhere.
pub proof fn lemma_trimmed_eval(coeffs: Seq<Scalar>, x: int)
    ensures
        poly_eval(trimmed(coeffs), x) == poly_eval(coeffs, x),
        trimmed(coeffs).len() <= coeffs.len(),
        trimmed(coeffs).len() > 0 ==> trimmed(coeffs).last()@ != 0,
    decreases coeffs.len(),
{
    if coeffs.len() == 0 || coeffs.last()@ != 0 {
    } else {
        lemma_trimmed_eval(coeffs.drop_last(), x);
        let rest = poly_eval(coeffs.drop_last(), x);
        let pw = field_pow(x, (coeffs.len() - 1) as nat);
        lemma_poly_eval_range(coeffs.drop_last(), x);
        lemma_mul_basics(pw);
        assert(field_mul(coeffs.last()@, pw) == 0) by {
            assert(coeffs.last()@ * pw == 0);
            lemma_small_mod(0, modulus() as nat);
        }
        lemma_small_mod(rest as nat, modulus() as nat);
    }
}

/// A polynomial in coefficient form, lowest degree first.
#[derive(Clone, Debug)]
pub struct DensePolynomial {
    pub coeffs: Vec<Scalar>,
}

impl View for DensePolynomial {
    type V = Seq<Scalar>;

    open spec fn view(&self) -> Seq<Scalar> {
        self.coeffs@
    }
}

impl DensePolynomial {
    /// The polynomial with the given coefficients; zeros at the high end are
    /// dropped.
    pub fn from_coefficients_vec(coeffs: Vec<Scalar>) -> (poly: Self)
        ensures
            poly@ == trimmed(coeffs@),
            forall|x: int| #[trigger] poly_eval(poly@, x) == poly_eval(coeffs@, x),
    {
        let ghost given = coeffs@;
        let mut coeffs = coeffs;
        while coeffs.len() > 0 && coeffs[coeffs.len() - 1].is_zero()
            invariant
                trimmed(coeffs@) == trimmed(given),
            decreases coeffs.len(),
        {
            coeffs.pop();
        }
        proof {
            assert forall|x: int| #[trigger] poly_eval(coeffs@, x) == poly_eval(given, x) by {
                lemma_trimmed_eval(given, x);
            }
        }
        Self { coeffs }
    }

    /// The number of coefficients less one; zero for the zero polynomial.
    pub fn degree(&self) -> (d: usize)
        ensures
            d == if self@.len() == 0 {
                0
            } else {
                self@.len() - 1
            },
    {
        if self.coeffs.len() == 0 {
            0
        } else {
            self.coeffs.len() - 1
        }
    }

    /// The value of the polynomial at `x`.
    pub fn evaluate(&self, x: &Scalar) -> (y: Scalar)
        ensures
            y@ == poly_eval(self@, x@),
    {
        let mut acc = Scalar::zero();
        let mut power = Scalar::one();
        let mut i: usize = 0;
        while i < self.coeffs.len()
            invariant
                i <= self.coeffs.len(),
                acc@ == poly_eval(self.coeffs@.take(i as int), x@),
                power@ == field_pow(x@, i as nat),
            decreases self.coeffs.len() - i,
        {
            proof {
                let next = self.coeffs@.take(i + 1);
                assert(next.drop_last() =~= self.coeffs@.take(i as int));
                assert(next.last() == self.coeffs@[i as int]);
                assert(field_mul(x@, power@) == field_mul(power@, x@)) by {
                    assert(x@ * power@ == power@ * x@) by (nonlinear_arith);
                }
            }
            acc = acc.add(&self.coeffs[i].mul(&power));
            power = power.mul(x);
            i += 1;
        }
        assert(self.coeffs@.take(i as int) =~= self.coeffs@);
        acc
    }
}

} // verus!
