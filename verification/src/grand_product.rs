//! The grand product of the permutation argument: a running product, row by
//! row, of the quotient of two products over the cells of the row, one with
//! each cell's own label and one with the label the permutation gives it.

use crate::field::{
    field_add, field_inv, field_mul, invertible, is_inverse, lemma_field_inv,
    lemma_field_mul_associates, lemma_field_mul_commutes, lemma_field_mul_one,
    lemma_field_mul_reduces, lemma_field_mul_swaps, lemma_product_invertible, modulus,
};
use vstd::arithmetic::div_mod::lemma_small_mod;
use vstd::prelude::*;

verus! {

/// The product of the elements of a sequence, in the field.
pub open spec fn seq_product(s: Seq<int>) -> int
    decreases s.len(),
{
    if s.len() == 0 {
        1
    } else {
        field_mul(seq_product(s.drop_last()), s.last())
    }
}

/// A product is a canonical field value.
pub proof fn lemma_seq_product_range(s: Seq<int>)
    ensures
        0 <= seq_product(s) < modulus(),
{
    if s.len() > 0 {
        lemma_field_mul_reduces(seq_product(s.drop_last()), s.last());
    }
}

/// The product of a sequence put after another is the product of the two
/// products.
pub proof fn lemma_product_concat(a: Seq<int>, b: Seq<int>)
    ensures
        seq_product(a + b) == field_mul(seq_product(a), seq_product(b)),
    decreases b.len(),
{
    if b.len() == 0 {
        assert(a + b =~= a);
        lemma_field_mul_one(seq_product(a));
        lemma_seq_product_range(a);
        lemma_small_mod(seq_product(a) as nat, modulus() as nat);
    } else {
        assert((a + b).drop_last() =~= a + b.drop_last());
        lemma_product_concat(a, b.drop_last());
        lemma_field_mul_associates(seq_product(a), seq_product(b.drop_last()), b.last());
    }
}

/// An element may be taken out of a product and multiplied in last.
pub proof fn lemma_product_remove(s: Seq<int>, j: int)
    requires
        0 <= j < s.len(),
    ensures
        seq_product(s) == field_mul(seq_product(s.remove(j)), s[j]),
    decreases s.len(),
{
    if j == s.len() - 1 {
        assert(s.remove(j) =~= s.drop_last());
    } else {
        let shorter = s.drop_last();
        lemma_product_remove(shorter, j);
        assert(s.remove(j).drop_last() =~= shorter.remove(j));
        assert(s.remove(j).last() == s.last());
        lemma_field_mul_swaps(seq_product(shorter.remove(j)), s[j], s.last());
    }
}

/// Whether `perm` maps some index to `d`.
pub open spec fn is_reached(perm: Seq<int>, d: int) -> bool {
    exists|i: int| 0 <= i < perm.len() && #[trigger] perm[i] == d
}

/// Whether `perm` is a bijection of the indices below its length.
pub open spec fn is_bijection(perm: Seq<int>) -> bool {
    &&& forall|i: int| 0 <= i < perm.len() ==> 0 <= #[trigger] perm[i] < perm.len()
    &&& forall|i: int, j: int|
        0 <= i < perm.len() && 0 <= j < perm.len() && #[trigger] perm[i] == #[trigger] perm[j]
            ==> i == j
    &&& forall|d: int| 0 <= d < perm.len() ==> #[trigger] is_reached(perm, d)
}

/// The elements of `f` in the order that `perm` gives.
pub open spec fn permuted(f: Seq<int>, perm: Seq<int>) -> Seq<int> {
    Seq::new(f.len(), |i: int| f[perm[i]])
}

/// A product does not depend on the order of its factors.
pub proof fn lemma_product_permuted(f: Seq<int>, perm: Seq<int>)
    requires
        perm.len() == f.len(),
        is_bijection(perm),
    ensures
        seq_product(permuted(f, perm)) == seq_product(f),
    decreases f.len(),
{
    let n = f.len() as int;
    if n == 0 {
        assert(permuted(f, perm) =~= f);
    } else {
        let last = n - 1;
        assert(is_reached(perm, last));
        let j = choose|i: int| 0 <= i < perm.len() && #[trigger] perm[i] == last;
        let shorter = f.drop_last();
        let rest = perm.remove(j);
        assert forall|i: int| 0 <= i < rest.len() implies 0 <= #[trigger] rest[i]
            < rest.len() by {
            let src = if i < j {
                i
            } else {
                i + 1
            };
            assert(rest[i] == perm[src]);
            assert(0 <= perm[src] < perm.len());
            if perm[src] == last {
                assert(perm[src] == perm[j]);
            }
        }
        assert forall|i: int, k: int|
            0 <= i < rest.len() && 0 <= k < rest.len() && #[trigger] rest[i]
                == #[trigger] rest[k] implies i == k by {
            let si = if i < j {
                i
            } else {
                i + 1
            };
            let sk = if k < j {
                k
            } else {
                k + 1
            };
            assert(rest[i] == perm[si]);
            assert(rest[k] == perm[sk]);
            assert(perm[si] == perm[sk]);
        }
        assert forall|d: int| 0 <= d < rest.len() implies #[trigger] is_reached(rest, d) by {
            assert(is_reached(perm, d));
            let src = choose|i: int| 0 <= i < perm.len() && #[trigger] perm[i] == d;
            assert(src != j);
            let i = if src < j {
                src
            } else {
                src - 1
            };
            assert(rest[i] == perm[src]);
        }
        assert(is_bijection(rest));
        lemma_product_permuted(shorter, rest);
        let g = permuted(f, perm);
        assert(g.remove(j) =~= permuted(shorter, rest)) by {
            assert forall|i: int| 0 <= i < n - 1 implies #[trigger] g.remove(j)[i] == permuted(
                shorter,
                rest,
            )[i] by {
                let src = if i < j {
                    i
                } else {
                    i + 1
                };
                assert(rest[i] == perm[src]);
                assert(0 <= rest[i] < rest.len());
            }
        }
        lemma_product_remove(g, j);
    }
}

/// The factor that a cell with the given value and label contributes.
pub open spec fn cell_factor(value: int, label: int, beta: int, gamma: int) -> int {
    field_add(field_add(value, field_mul(beta, label)), gamma)
}

/// The factors of all cells.
pub open spec fn cell_factors(values: Seq<int>, labels: Seq<int>, beta: int, gamma: int) -> Seq<
    int,
> {
    Seq::new(values.len(), |c: int| cell_factor(values[c], labels[c], beta, gamma))
}

/// The product of the six factors of row `g`.
pub open spec fn row_product(factors: Seq<int>, g: int) -> int {
    seq_product(factors.subrange(6 * g, 6 * g + 6))
}

/// The product of the row products of the first `rows` rows.
pub open spec fn rows_product(factors: Seq<int>, rows: nat) -> int
    decreases rows,
{
    if rows == 0 {
        1
    } else {
        field_mul(rows_product(factors, (rows - 1) as nat), row_product(factors, rows - 1))
    }
}

/// The running product after the given number of rows: one to begin with,
/// then multiplied for each row by the row product of `orig` divided by the
/// row product of `perm`.
pub open spec fn accumulated(orig: Seq<int>, perm: Seq<int>, rows: nat) -> int
    decreases rows,
{
    if rows == 0 {
        1
    } else {
        field_mul(
            accumulated(orig, perm, (rows - 1) as nat),
            field_mul(row_product(orig, rows - 1), field_inv(row_product(perm, rows - 1))),
        )
    }
}

/// Whether the row product of each of the first `rows` rows can be divided
/// by.
pub open spec fn rows_invertible(factors: Seq<int>, rows: nat) -> bool {
    forall|g: int| 0 <= g < rows ==> invertible(#[trigger] row_product(factors, g))
}

/// The running product is a canonical field value.
pub proof fn lemma_accumulated_range(orig: Seq<int>, perm: Seq<int>, rows: nat)
    ensures
        0 <= accumulated(orig, perm, rows) < modulus(),
{
    if rows > 0 {
        lemma_field_mul_reduces(
            accumulated(orig, perm, (rows - 1) as nat),
            field_mul(row_product(orig, rows - 1), field_inv(row_product(perm, rows - 1))),
        );
    }
}

/// The product of the row products is the product of all factors of those
/// rows.
pub proof fn lemma_rows_product_flat(factors: Seq<int>, rows: nat)
    requires
        6 * rows <= factors.len(),
    ensures
        rows_product(factors, rows) == seq_product(factors.take(6 * (rows as int))),
    decreases rows,
{
    if rows == 0 {
        assert(factors.take(0) =~= Seq::<int>::empty());
    } else {
        lemma_rows_product_flat(factors, (rows - 1) as nat);
        let before = factors.take(6 * (rows - 1));
        let row = factors.subrange(6 * (rows - 1), 6 * (rows - 1) + 6);
        assert(before + row =~= factors.take(6 * (rows as int)));
        lemma_product_concat(before, row);
    }
}

/// A product of rows that can each be divided by can be divided by.
pub proof fn lemma_rows_product_invertible(factors: Seq<int>, rows: nat)
    requires
        rows_invertible(factors, rows),
    ensures
        invertible(rows_product(factors, rows)),
    decreases rows,
{
    if rows == 0 {
        lemma_field_mul_one(1);
        lemma_small_mod(1, modulus() as nat);
        assert(is_inverse(1, 1));
    } else {
        lemma_rows_product_invertible(factors, (rows - 1) as nat);
        assert(invertible(row_product(factors, rows - 1)));
        lemma_product_invertible(
            rows_product(factors, (rows - 1) as nat),
            row_product(factors, rows - 1),
        );
    }
}

/// The running product times the product of the divisors is the product of
/// the dividends.
pub proof fn lemma_accumulated_balance(orig: Seq<int>, perm: Seq<int>, rows: nat)
    requires
        rows_invertible(perm, rows),
    ensures
        field_mul(accumulated(orig, perm, rows), rows_product(perm, rows)) == rows_product(
            orig,
            rows,
        ),
    decreases rows,
{
    if rows == 0 {
        lemma_field_mul_one(1);
        lemma_small_mod(1, modulus() as nat);
    } else {
        let before = (rows - 1) as nat;
        lemma_accumulated_balance(orig, perm, before);
        let z = accumulated(orig, perm, before);
        let a = rows_product(orig, before);
        let b = rows_product(perm, before);
        let o = row_product(orig, rows - 1);
        let q = row_product(perm, rows - 1);
        assert(invertible(q));
        lemma_field_inv(q);
        let iq = field_inv(q);
        let t = field_mul(o, iq);
        // (z * t) * (b * q) == z * (b * (t * q)) == z * (b * o) == (z * b) * o
        lemma_field_mul_associates(z, t, field_mul(b, q));
        lemma_field_mul_associates(t, b, q);
        lemma_field_mul_commutes(t, b);
        lemma_field_mul_associates(b, t, q);
        lemma_field_mul_associates(o, iq, q);
        lemma_field_mul_commutes(iq, q);
        lemma_field_mul_one(o);
        lemma_field_mul_reduces(b, o);
        lemma_field_mul_associates(z, b, o);
    }
}

/// The grand product closes: where the permutation `sigma` of the cells
/// keeps the value of every cell and carries the labels along, and every
/// divisor can be divided by, the running product over all rows is one.
pub proof fn lemma_grand_product_closes(
    sigma: Seq<int>,
    values: Seq<int>,
    labels: Seq<int>,
    permuted_labels: Seq<int>,
    beta: int,
    gamma: int,
    rows: nat,
)
    requires
        sigma.len() == 6 * rows,
        values.len() == 6 * rows,
        labels.len() == 6 * rows,
        permuted_labels.len() == 6 * rows,
        is_bijection(sigma),
        forall|c: int| 0 <= c < 6 * rows ==> values[#[trigger] sigma[c]] == values[c],
        forall|c: int| 0 <= c < 6 * rows ==> labels[#[trigger] sigma[c]] == permuted_labels[c],
        rows_invertible(cell_factors(values, permuted_labels, beta, gamma), rows),
    ensures
        accumulated(
            cell_factors(values, labels, beta, gamma),
            cell_factors(values, permuted_labels, beta, gamma),
            rows,
        ) == 1,
{
    let orig = cell_factors(values, labels, beta, gamma);
    let perm = cell_factors(values, permuted_labels, beta, gamma);
    let z = accumulated(orig, perm, rows);
    let a = rows_product(orig, rows);
    let b = rows_product(perm, rows);
    assert(perm =~= permuted(orig, sigma)) by {
        assert forall|c: int| 0 <= c < 6 * rows implies perm[c] == #[trigger] permuted(
            orig,
            sigma,
        )[c] by {
            assert(0 <= sigma[c] < sigma.len());
            assert(values[sigma[c]] == values[c]);
            assert(labels[sigma[c]] == permuted_labels[c]);
        }
    }
    lemma_product_permuted(orig, sigma);
    lemma_rows_product_flat(orig, rows);
    lemma_rows_product_flat(perm, rows);
    assert(orig.take(6 * (rows as int)) =~= orig);
    assert(perm.take(6 * (rows as int)) =~= perm);
    assert(a == b);
    lemma_accumulated_balance(orig, perm, rows);
    lemma_rows_product_invertible(perm, rows);
    lemma_field_inv(b);
    let ib = field_inv(b);
    // z == z * (b * ib) == (z * b) * ib == b * ib == 1
    lemma_field_mul_associates(z, b, ib);
    lemma_field_mul_one(z);
    lemma_accumulated_range(orig, perm, rows);
    lemma_small_mod(z as nat, modulus() as nat);
}

} // verus!
