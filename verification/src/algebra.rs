//! Matrices over the field with two elements, as functions from a row and a
//! column index to a bit, and the sums of products that define their product.
use vstd::prelude::*;

verus! {

/// Entry `(i, j)` of `a`.
pub open spec fn entry(a: spec_fn(int, int) -> bool, i: int, j: int) -> bool {
    a(i, j)
}

/// The identity matrix.
pub open spec fn identity_bits() -> spec_fn(int, int) -> bool {
    |i: int, j: int| i == j
}

/// The entrywise sum of `a` and `b`.
pub open spec fn sum_bits(a: spec_fn(int, int) -> bool, b: spec_fn(int, int) -> bool) -> spec_fn(
    int,
    int,
) -> bool {
    |i: int, j: int| entry(a, i, j) != entry(b, i, j)
}

/// The matrix whose entry `(i, j)` is entry `(i + row, j + col)` of `a`.
pub open spec fn shifted(a: spec_fn(int, int) -> bool, row: int, col: int) -> spec_fn(
    int,
    int,
) -> bool {
    |i: int, j: int| entry(a, i + row, j + col)
}

/// Entry `(i, j)` of the product of `a` and `b`, where `a` has `k` columns
/// and `b` has `k` rows: the sum over `t < k` of `a(i, t) * b(t, j)`.
pub open spec fn dot(
    a: spec_fn(int, int) -> bool,
    b: spec_fn(int, int) -> bool,
    i: int,
    j: int,
    k: int,
) -> bool
    decreases k,
{
    if k <= 0 {
        false
    } else {
        dot(a, b, i, j, k - 1) != (entry(a, i, k - 1) && entry(b, k - 1, j))
    }
}

/// The product of `a` and `b` over an inner dimension of `k`.
pub open spec fn product_bits(
    a: spec_fn(int, int) -> bool,
    b: spec_fn(int, int) -> bool,
    k: int,
) -> spec_fn(int, int) -> bool {
    |i: int, j: int| dot(a, b, i, j, k)
}

/// A sum of products depends only on the entries it reads.
pub proof fn lemma_dot_congruent(
    a1: spec_fn(int, int) -> bool,
    b1: spec_fn(int, int) -> bool,
    a2: spec_fn(int, int) -> bool,
    b2: spec_fn(int, int) -> bool,
    i1: int,
    j1: int,
    i2: int,
    j2: int,
    k: int,
)
    requires
        forall|t: int| 0 <= t < k ==> #[trigger] entry(a1, i1, t) == entry(a2, i2, t),
        forall|t: int| 0 <= t < k ==> #[trigger] entry(b1, t, j1) == entry(b2, t, j2),
    ensures
        dot(a1, b1, i1, j1, k) == dot(a2, b2, i2, j2, k),
    decreases k,
{
    if k > 0 {
        lemma_dot_congruent(a1, b1, a2, b2, i1, j1, i2, j2, k - 1);
    }
}

/// A sum over `k1 + k2` terms is the sum over the first `k1` plus the sum
/// over the `k2` that follow.
pub proof fn lemma_dot_split(
    a: spec_fn(int, int) -> bool,
    b: spec_fn(int, int) -> bool,
    i: int,
    j: int,
    k1: int,
    k2: int,
)
    requires
        0 <= k1,
        0 <= k2,
    ensures
        dot(a, b, i, j, k1 + k2) == (dot(a, b, i, j, k1) != dot(
            shifted(a, 0, k1),
            shifted(b, k1, 0),
            i,
            j,
            k2,
        )),
    decreases k2,
{
    if k2 > 0 {
        lemma_dot_split(a, b, i, j, k1, k2 - 1);
    }
}

/// The product is additive in its left factor.
pub proof fn lemma_dot_sum_left(
    a1: spec_fn(int, int) -> bool,
    a2: spec_fn(int, int) -> bool,
    b: spec_fn(int, int) -> bool,
    i: int,
    j: int,
    k: int,
)
    ensures
        dot(sum_bits(a1, a2), b, i, j, k) == (dot(a1, b, i, j, k) != dot(a2, b, i, j, k)),
    decreases k,
{
    if k > 0 {
        lemma_dot_sum_left(a1, a2, b, i, j, k - 1);
    }
}

/// The product is additive in its right factor.
pub proof fn lemma_dot_sum_right(
    a: spec_fn(int, int) -> bool,
    b1: spec_fn(int, int) -> bool,
    b2: spec_fn(int, int) -> bool,
    i: int,
    j: int,
    k: int,
)
    ensures
        dot(a, sum_bits(b1, b2), i, j, k) == (dot(a, b1, i, j, k) != dot(a, b2, i, j, k)),
    decreases k,
{
    if k > 0 {
        lemma_dot_sum_right(a, b1, b2, i, j, k - 1);
    }
}

/// A product with a row of zeros on the left, or a column of zeros on the
/// right, is zero.
pub proof fn lemma_dot_zero(
    a: spec_fn(int, int) -> bool,
    b: spec_fn(int, int) -> bool,
    i: int,
    j: int,
    k: int,
)
    requires
        (forall|t: int| 0 <= t < k ==> !#[trigger] entry(a, i, t)) || (forall|t: int|
            0 <= t < k ==> !#[trigger] entry(b, t, j)),
    ensures
        !dot(a, b, i, j, k),
    decreases k,
{
    if k > 0 {
        lemma_dot_zero(a, b, i, j, k - 1);
    }
}

/// Multiplying by the identity on the left selects row `i` of `b`.
pub proof fn lemma_dot_identity_left(b: spec_fn(int, int) -> bool, i: int, j: int, k: int)
    requires
        0 <= i,
    ensures
        dot(identity_bits(), b, i, j, k) == (i < k && entry(b, i, j)),
    decreases k,
{
    if k > 0 {
        lemma_dot_identity_left(b, i, j, k - 1);
    }
}

/// Multiplying by the identity on the right selects column `j` of `a`.
pub proof fn lemma_dot_identity_right(a: spec_fn(int, int) -> bool, i: int, j: int, k: int)
    requires
        0 <= j,
    ensures
        dot(a, identity_bits(), i, j, k) == (j < k && entry(a, i, j)),
    decreases k,
{
    if k > 0 {
        lemma_dot_identity_right(a, i, j, k - 1);
    }
}

} // verus!
