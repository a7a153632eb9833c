//! Elements of the scalar field of BLS12-381, held as four 64-bit limbs of
//! the canonical representative, together with the mathematical model of the
//! field that every contract of this crate is stated over.

use ark_bls12_381::Fr;
use ark_ff::{BigInteger256, Field, PrimeField, UniformRand};
use rand_chacha::ChaCha20Rng;
use rand_chacha::rand_core::SeedableRng;
use vstd::arithmetic::div_mod::{
    lemma_add_mod_noop, lemma_fundamental_div_mod_converse, lemma_mod_bound,
    lemma_mod_equivalence, lemma_mod_twice,
    lemma_mul_mod_noop, lemma_mul_mod_noop_left, lemma_mul_mod_noop_right, lemma_small_mod,
};
use vstd::arithmetic::mul::{lemma_mul_basics, lemma_mul_is_associative, lemma_mul_is_commutative};
use vstd::prelude::*;

verus! {

/// The order of the field: a 255-bit prime.
pub open spec fn modulus() -> int {
    52435875175126190479447740508185965837690552500527637822603658699938581184513int
}

/// The integer that four little-endian 64-bit limbs stand for.
pub open spec fn limbs_value(l0: u64, l1: u64, l2: u64, l3: u64) -> int {
    (l0 as int) + (l1 as int) * 18446744073709551616int + (l2 as int)
        * 340282366920938463463374607431768211456int + (l3 as int)
        * 6277101735386680763835789423207666416102355444464034512896int
}

pub open spec fn field_add(a: int, b: int) -> int {
    (a + b) % modulus()
}

pub open spec fn field_sub(a: int, b: int) -> int {
    (a - b) % modulus()
}

pub open spec fn field_neg(a: int) -> int {
    (-a) % modulus()
}

pub open spec fn field_mul(a: int, b: int) -> int {
    (a * b) % modulus()
}

/// `a` raised to the power `e`.
pub open spec fn field_pow(a: int, e: nat) -> int
    decreases e,
{
    if e == 0 {
        1
    } else {
        field_mul(a, field_pow(a, (e - 1) as nat))
    }
}

/// Whether `b` is the canonical multiplicative inverse of `a`.
pub open spec fn is_inverse(a: int, b: int) -> bool {
    0 <= b < modulus() && field_mul(a, b) == 1
}

/// The multiplicative inverse of `a`, where it has one.
pub open spec fn field_inv(a: int) -> int {
    choose|b: int| is_inverse(a, b)
}

/// The four limbs of the modulus, least significant first.
pub const MODULUS_LIMB_0: u64 = 0xffffffff00000001;

pub const MODULUS_LIMB_1: u64 = 0x53bda402fffe5bfe;

pub const MODULUS_LIMB_2: u64 = 0x3339d80809a1d805;

pub const MODULUS_LIMB_3: u64 = 0x73eda753299d7d48;

/// A field element in canonical form.
#[derive(Clone, Copy, Debug, PartialEq, Eq, Structural)]
pub struct Scalar {
    l0: u64,
    l1: u64,
    l2: u64,
    l3: u64,
}

impl View for Scalar {
    type V = int;

    closed spec fn view(&self) -> int {
        limbs_value(self.l0, self.l1, self.l2, self.l3)
    }
}

impl Scalar {
    /// Every value of the type is a canonical representative.
    #[verifier::type_invariant]
    pub open spec fn canonical(self) -> bool {
        0 <= self@ < modulus()
    }

    pub fn zero() -> (r: Scalar)
        ensures
            r@ == 0,
    {
        Scalar { l0: 0, l1: 0, l2: 0, l3: 0 }
    }

    pub fn one() -> (r: Scalar)
        ensures
            r@ == 1,
    {
        Scalar { l0: 1, l1: 0, l2: 0, l3: 0 }
    }

    pub fn from_u64(x: u64) -> (r: Scalar)
        ensures
            r@ == x,
    {
        Scalar { l0: x, l1: 0, l2: 0, l3: 0 }
    }

    /// The element with the given little-endian limbs, if they denote a
    /// number below the modulus.
    pub fn from_limbs(limbs: [u64; 4]) -> (r: Option<Scalar>)
        ensures
            r.is_some() <==> limbs_value(limbs[0], limbs[1], limbs[2], limbs[3]) < modulus(),
            r matches Some(s) ==> s@ == limbs_value(limbs[0], limbs[1], limbs[2], limbs[3]),
    {
        let l0: u64 = limbs[0];
        let l1: u64 = limbs[1];
        let l2: u64 = limbs[2];
        let l3: u64 = limbs[3];
        let below: bool = l3 < MODULUS_LIMB_3 || (l3 == MODULUS_LIMB_3 && (l2 < MODULUS_LIMB_2 || (
        l2 == MODULUS_LIMB_2 && (l1 < MODULUS_LIMB_1 || (l1 == MODULUS_LIMB_1 && l0
            < MODULUS_LIMB_0)))));
        if below {
            Some(Scalar { l0, l1, l2, l3 })
        } else {
            None
        }
    }

    /// The little-endian limbs of the canonical representative.
    pub fn limbs(&self) -> (r: [u64; 4])
        ensures
            limbs_value(r[0], r[1], r[2], r[3]) == self@,
    {
        [self.l0, self.l1, self.l2, self.l3]
    }

    pub fn is_zero(&self) -> (r: bool)
        ensures
            r == (self@ == 0),
    {
        self.l0 == 0 && self.l1 == 0 && self.l2 == 0 && self.l3 == 0
    }

    /// Field equality is equality of the canonical representatives.
    pub fn eq_scalar(&self, other: &Scalar) -> (r: bool)
        ensures
            r == (self@ == other@),
    {
        proof {
            self.lemma_view_injective(*other);
        }
        *self == *other
    }

    /// Two elements with the same value are the same element.
    pub proof fn lemma_view_injective(self, other: Scalar)
        ensures
            (self@ == other@) <==> (self == other),
    {
        if self@ == other@ {
            lemma_limbs_injective(
                self.l0,
                self.l1,
                self.l2,
                self.l3,
                other.l0,
                other.l1,
                other.l2,
                other.l3,
            );
        }
    }

    /// `Add::add` of `ark_ff::Fp256`: the sum of the two elements.
    #[verifier::external_body]
    pub(crate) fn add(&self, rhs: &Scalar) -> (r: Scalar)
        ensures
            r@ == field_add(self@, rhs@),
    {
        let x = Fr::from_repr(BigInteger256(self.limbs())).unwrap();
        let y = Fr::from_repr(BigInteger256(rhs.limbs())).unwrap();
        Scalar::from_limbs((x + y).into_repr().0).unwrap()
    }

    /// `Sub::sub` of `ark_ff::Fp256`: the difference of the two elements.
    #[verifier::external_body]
    pub(crate) fn sub(&self, rhs: &Scalar) -> (r: Scalar)
        ensures
            r@ == field_sub(self@, rhs@),
    {
        let x = Fr::from_repr(BigInteger256(self.limbs())).unwrap();
        let y = Fr::from_repr(BigInteger256(rhs.limbs())).unwrap();
        Scalar::from_limbs((x - y).into_repr().0).unwrap()
    }

    /// `Mul::mul` of `ark_ff::Fp256`: the product of the two elements.
    #[verifier::external_body]
    pub(crate) fn mul(&self, rhs: &Scalar) -> (r: Scalar)
        ensures
            r@ == field_mul(self@, rhs@),
    {
        let x = Fr::from_repr(BigInteger256(self.limbs())).unwrap();
        let y = Fr::from_repr(BigInteger256(rhs.limbs())).unwrap();
        Scalar::from_limbs((x * y).into_repr().0).unwrap()
    }

    /// `Neg::neg` of `ark_ff::Fp256`: the additive inverse.
    #[verifier::external_body]
    pub(crate) fn neg(&self) -> (r: Scalar)
        ensures
            r@ == field_neg(self@),
    {
        let x = Fr::from_repr(BigInteger256(self.limbs())).unwrap();
        Scalar::from_limbs((-x).into_repr().0).unwrap()
    }

    /// `Field::inverse` of `ark_ff::Fp256`: `None` for zero, and for every
    /// other element the one whose product with it is one.
    #[verifier::external_body]
    pub(crate) fn inverse(&self) -> (r: Option<Scalar>)
        ensures
            r.is_none() <==> self@ == 0,
            r matches Some(v) ==> field_mul(self@, v@) == 1,
    {
        let x = Fr::from_repr(BigInteger256(self.limbs())).unwrap();
        match x.inverse() {
            Some(v) => Some(Scalar::from_limbs(v.into_repr().0).unwrap()),
            None => None,
        }
    }

    /// `Field::pow` of `ark_ff::Fp256` with a one-limb exponent: the element
    /// multiplied by itself `exp` times.
    #[verifier::external_body]
    pub(crate) fn pow(&self, exp: u64) -> (r: Scalar)
        ensures
            r@ == field_pow(self@, exp as nat),
    {
        let x = Fr::from_repr(BigInteger256(self.limbs())).unwrap();
        Scalar::from_limbs(x.pow([exp]).into_repr().0).unwrap()
    }

    /// `UniformRand::rand` of `ark_ff::Fp256`: an element drawn from the
    /// generator. Nothing is known of which one.
    #[verifier::external_body]
    pub(crate) fn rand(rng: &mut ChaCha20Rng) -> (r: Scalar) {
        Scalar::from_limbs(Fr::rand(rng).into_repr().0).unwrap()
    }

    /// The quotient `self / rhs`, or `None` where `rhs` is zero.
    pub(crate) fn div(&self, rhs: &Scalar) -> (r: Option<Scalar>)
        ensures
            r.is_none() <==> rhs@ == 0,
            r matches Some(q) ==> q@ == field_mul(self@, field_inv(rhs@)) && is_inverse(
                rhs@,
                field_inv(rhs@),
            ),
    {
        match rhs.inverse() {
            Some(inv) => {
                proof {
                    use_type_invariant(&inv);
                    lemma_inverse_unique(rhs@, inv@);
                }
                Some(self.mul(&inv))
            },
            None => None,
        }
    }
}

/// The seeded generator of `rand_chacha`, carried through as an opaque value.
#[verifier::external_type_specification]
#[verifier::external_body]
pub struct ExChaCha20Rng(ChaCha20Rng);

/// `SeedableRng::from_seed` of `rand_chacha::ChaCha20Rng`.
#[verifier::external_body]
pub(crate) fn rng_from_seed(seed: [u8; 32]) -> (rng: ChaCha20Rng) {
    ChaCha20Rng::from_seed(seed)
}

/// A number with a low limb `lo` below `2^64` and the rest `hi` above it
/// determines both.
proof fn lemma_split_limb(lo: int, hi: int, lo2: int, hi2: int)
    requires
        0 <= lo < 18446744073709551616int,
        0 <= lo2 < 18446744073709551616int,
        lo + 18446744073709551616int * hi == lo2 + 18446744073709551616int * hi2,
    ensures
        lo == lo2,
        hi == hi2,
{
    let x = lo + 18446744073709551616int * hi;
    lemma_fundamental_div_mod_converse(x, 18446744073709551616int, hi, lo);
    lemma_fundamental_div_mod_converse(x, 18446744073709551616int, hi2, lo2);
}

/// Different limbs stand for different numbers.
proof fn lemma_limbs_injective(
    a0: u64,
    a1: u64,
    a2: u64,
    a3: u64,
    b0: u64,
    b1: u64,
    b2: u64,
    b3: u64,
)
    requires
        limbs_value(a0, a1, a2, a3) == limbs_value(b0, b1, b2, b3),
    ensures
        a0 == b0,
        a1 == b1,
        a2 == b2,
        a3 == b3,
{
    let ha2 = a2 as int + 18446744073709551616int * (a3 as int);
    let hb2 = b2 as int + 18446744073709551616int * (b3 as int);
    let ha1 = a1 as int + 18446744073709551616int * ha2;
    let hb1 = b1 as int + 18446744073709551616int * hb2;
    assert(limbs_value(a0, a1, a2, a3) == a0 as int + 18446744073709551616int * ha1);
    assert(limbs_value(b0, b1, b2, b3) == b0 as int + 18446744073709551616int * hb1);
    lemma_split_limb(a0 as int, ha1, b0 as int, hb1);
    lemma_split_limb(a1 as int, ha2, b1 as int, hb2);
    lemma_split_limb(a2 as int, a3 as int, b2 as int, b3 as int);
}

/// An element has at most one canonical inverse.
pub proof fn lemma_inverse_unique(a: int, b: int)
    requires
        is_inverse(a, b),
    ensures
        field_inv(a) == b,
{
    let c = field_inv(a);
    assert(is_inverse(a, c));
    let p = modulus();
    // b == b * (a * c) == (b * a) * c == c  (mod p)
    assert(((b * a) * c) % p == c % p) by {
        lemma_mul_mod_noop_left(b * a, c, p);
        assert(b * a == a * b) by (nonlinear_arith);
    }
    assert((b * (a * c)) % p == b % p) by {
        lemma_mul_mod_noop_right(b, a * c, p);
    }
    assert((b * a) * c == b * (a * c)) by (nonlinear_arith);
    lemma_small_mod(b as nat, p as nat);
    lemma_small_mod(c as nat, p as nat);
}

/// Two integers that stand for the same field element.
pub open spec fn congruent(a: int, b: int) -> bool {
    a % modulus() == b % modulus()
}

/// A field element that stands for an integer is that integer reduced.
pub proof fn lemma_congruent_reduced(a: int, b: int)
    requires
        0 <= a < modulus(),
        congruent(a, b),
    ensures
        a == b % modulus(),
{
    lemma_small_mod(a as nat, modulus() as nat);
}

/// The field sum of two elements stands for the sum of the integers they
/// stand for.
pub proof fn lemma_add_congruent(a: int, x: int, b: int, y: int)
    requires
        congruent(a, x),
        congruent(b, y),
    ensures
        congruent(field_add(a, b), x + y),
{
    let p = modulus();
    lemma_add_mod_noop(a, b, p);
    lemma_add_mod_noop(x, y, p);
    lemma_mod_twice(a + b, p);
}

/// The field product of two elements stands for the product of the integers
/// they stand for.
pub proof fn lemma_mul_congruent(a: int, x: int, b: int, y: int)
    requires
        congruent(a, x),
        congruent(b, y),
    ensures
        congruent(field_mul(a, b), x * y),
{
    let p = modulus();
    lemma_mul_mod_noop(a, b, p);
    lemma_mul_mod_noop(x, y, p);
    lemma_mod_twice(a * b, p);
}

/// Multiplication in the field is commutative.
pub proof fn lemma_field_mul_commutes(a: int, b: int)
    ensures
        field_mul(a, b) == field_mul(b, a),
{
    lemma_mul_is_commutative(a, b);
}

/// Multiplication in the field is associative.
pub proof fn lemma_field_mul_associates(a: int, b: int, c: int)
    ensures
        field_mul(field_mul(a, b), c) == field_mul(a, field_mul(b, c)),
{
    let p = modulus();
    lemma_mul_mod_noop_left(a * b, c, p);
    lemma_mul_mod_noop_right(a, b * c, p);
    lemma_mul_is_associative(a, b, c);
}

/// The last two factors of a product of three may change places.
pub proof fn lemma_field_mul_swaps(a: int, b: int, c: int)
    ensures
        field_mul(field_mul(a, b), c) == field_mul(field_mul(a, c), b),
{
    lemma_field_mul_associates(a, b, c);
    lemma_field_mul_associates(a, c, b);
    lemma_field_mul_commutes(b, c);
}

/// One is the neutral element of multiplication.
pub proof fn lemma_field_mul_one(a: int)
    ensures
        field_mul(a, 1) == a % modulus(),
        field_mul(1, a) == a % modulus(),
{
    lemma_mul_basics(a);
}

/// A factor may be reduced before it is multiplied.
pub proof fn lemma_field_mul_reduces(a: int, b: int)
    ensures
        field_mul(a % modulus(), b) == field_mul(a, b),
        field_mul(a, b % modulus()) == field_mul(a, b),
        0 <= field_mul(a, b) < modulus(),
{
    lemma_mul_mod_noop_left(a, b, modulus());
    lemma_mul_mod_noop_right(a, b, modulus());
    lemma_mod_bound(a * b, modulus());
}

/// Whether `a` has a multiplicative inverse.
pub open spec fn invertible(a: int) -> bool {
    exists|b: int| is_inverse(a, b)
}

/// The inverse of an invertible element is its inverse.
pub proof fn lemma_field_inv(a: int)
    requires
        invertible(a),
    ensures
        is_inverse(a, field_inv(a)),
{
}

/// The product of two invertible elements is invertible.
pub proof fn lemma_product_invertible(a: int, b: int)
    requires
        invertible(a),
        invertible(b),
    ensures
        invertible(field_mul(a, b)),
{
    let x = field_inv(a);
    let y = field_inv(b);
    let z = field_mul(x, y);
    lemma_field_mul_reduces(x, y);
    // (a * b) * (x * y) == a * (x * (b * y)) == a * x == 1
    lemma_field_mul_associates(a, b, z);
    lemma_field_mul_associates(b, x, y);
    lemma_field_mul_commutes(b, x);
    lemma_field_mul_associates(x, b, y);
    lemma_field_mul_one(x);
    lemma_small_mod(x as nat, modulus() as nat);
    assert(is_inverse(field_mul(a, b), z));
}

/// A power is a canonical field value.
pub proof fn lemma_field_pow_range(a: int, e: nat)
    ensures
        0 <= field_pow(a, e) < modulus(),
    decreases e,
{
    if e > 0 {
        lemma_field_mul_reduces(a, field_pow(a, (e - 1) as nat));
    }
}

/// Every power of one is one.
pub proof fn lemma_field_pow_of_one(e: nat)
    ensures
        field_pow(1, e) == 1,
    decreases e,
{
    if e > 0 {
        lemma_field_pow_of_one((e - 1) as nat);
        lemma_field_mul_one(1);
        lemma_small_mod(1, modulus() as nat);
    }
}

/// The power of a product is the product of the powers.
pub proof fn lemma_field_pow_of_product(a: int, b: int, e: nat)
    ensures
        field_pow(field_mul(a, b), e) == field_mul(field_pow(a, e), field_pow(b, e)),
    decreases e,
{
    if e == 0 {
        lemma_field_mul_one(1);
        lemma_small_mod(1, modulus() as nat);
    } else {
        let pa = field_pow(a, (e - 1) as nat);
        let pb = field_pow(b, (e - 1) as nat);
        lemma_field_pow_of_product(a, b, (e - 1) as nat);
        // (a * b) * (pa * pb) == a * (pa * (b * pb)) == (a * pa) * (b * pb)
        lemma_field_mul_associates(a, b, field_mul(pa, pb));
        lemma_field_mul_associates(b, pa, pb);
        lemma_field_mul_commutes(b, pa);
        lemma_field_mul_associates(pa, b, pb);
        lemma_field_mul_associates(a, pa, field_mul(b, pb));
    }
}

/// Whether `a` and `b` lie in the same coset of the subgroup of the given
/// order: whether `(b / a)` raised to the order is one.
pub open spec fn same_coset(a: int, b: int, order: nat) -> bool {
    field_pow(field_mul(field_inv(a), b), order) == 1
}

/// Lying in the same coset does not depend on which of the two is named
/// first.
pub proof fn lemma_same_coset_symmetric(a: int, b: int, order: nat)
    requires
        invertible(a),
        invertible(b),
    ensures
        same_coset(a, b, order) == same_coset(b, a, order),
{
    lemma_field_inv(a);
    lemma_field_inv(b);
    let ia = field_inv(a);
    let ib = field_inv(b);
    let x = field_mul(ia, b);
    let y = field_mul(ib, a);
    // (ia * b) * (ib * a) == ia * ((b * ib) * a) == ia * a == 1
    lemma_field_mul_associates(ia, b, y);
    lemma_field_mul_associates(b, ib, a);
    lemma_field_mul_one(a);
    lemma_field_mul_reduces(ia, a);
    lemma_field_mul_commutes(ia, a);
    assert(field_mul(x, y) == 1);
    lemma_field_pow_of_product(x, y, order);
    lemma_field_pow_of_one(order);
    lemma_field_pow_range(x, order);
    lemma_field_pow_range(y, order);
    lemma_field_mul_one(field_pow(x, order));
    lemma_field_mul_one(field_pow(y, order));
    lemma_small_mod(field_pow(x, order) as nat, modulus() as nat);
    lemma_small_mod(field_pow(y, order) as nat, modulus() as nat);
}

/// Where `a` raised to the order is one, so is every power of `a` raised to
/// the order.
pub proof fn lemma_power_in_subgroup(a: int, e: nat, order: nat)
    requires
        field_pow(a, order) == 1,
    ensures
        field_pow(field_pow(a, e), order) == 1,
    decreases e,
{
    if e == 0 {
        lemma_field_pow_of_one(order);
    } else {
        lemma_power_in_subgroup(a, (e - 1) as nat, order);
        lemma_field_pow_of_product(a, field_pow(a, (e - 1) as nat), order);
        lemma_field_mul_one(1);
        lemma_small_mod(1, modulus() as nat);
    }
}

/// Two invertible elements whose powers to the order are equal lie in the
/// same coset.
pub proof fn lemma_equal_powers_same_coset(a: int, b: int, order: nat)
    requires
        invertible(a),
        field_pow(a, order) == field_pow(b, order),
    ensures
        same_coset(a, b, order),
{
    lemma_field_inv(a);
    let ia = field_inv(a);
    lemma_field_pow_of_product(ia, b, order);
    lemma_field_pow_of_product(ia, a, order);
    lemma_field_mul_commutes(ia, a);
    lemma_field_pow_of_one(order);
}

/// An invertible factor can be cancelled.
pub proof fn lemma_field_mul_cancels(k: int, x: int, y: int)
    requires
        invertible(k),
        0 <= x < modulus(),
        0 <= y < modulus(),
        field_mul(k, x) == field_mul(k, y),
    ensures
        x == y,
{
    lemma_field_inv(k);
    let ik = field_inv(k);
    lemma_field_mul_associates(ik, k, x);
    lemma_field_mul_associates(ik, k, y);
    lemma_field_mul_commutes(ik, k);
    lemma_field_mul_one(x);
    lemma_field_mul_one(y);
    lemma_small_mod(x as nat, modulus() as nat);
    lemma_small_mod(y as nat, modulus() as nat);
}

/// A summand can be cancelled.
pub proof fn lemma_field_add_cancels(x: int, y: int, b: int)
    requires
        0 <= x < modulus(),
        0 <= y < modulus(),
        field_add(x, b) == field_add(y, b),
    ensures
        x == y,
{
    let p = modulus();
    lemma_mod_equivalence(x + b, y + b, p);
    if x >= y {
        lemma_small_mod((x - y) as nat, p as nat);
    } else {
        lemma_mod_equivalence(y + b, x + b, p);
        lemma_small_mod((y - x) as nat, p as nat);
    }
}

/// A difference determines the minuend, given the subtrahend, and the
/// subtrahend, given the minuend.
pub proof fn lemma_field_sub_cancels(x: int, y: int, b: int)
    requires
        0 <= x < modulus(),
        0 <= y < modulus(),
        field_sub(x, b) == field_sub(y, b) || field_sub(b, x) == field_sub(b, y),
    ensures
        x == y,
{
    let p = modulus();
    if field_sub(x, b) == field_sub(y, b) {
        lemma_mod_equivalence(x - b, y - b, p);
        lemma_mod_equivalence(y - b, x - b, p);
    } else {
        lemma_mod_equivalence(b - x, b - y, p);
        lemma_mod_equivalence(b - y, b - x, p);
    }
    if x >= y {
        lemma_small_mod((x - y) as nat, p as nat);
    } else {
        lemma_small_mod((y - x) as nat, p as nat);
    }
}

} // verus!
