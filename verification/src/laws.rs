//! Laws of the product over GF(2), stated of what the multiplication
//! functions leave in their target.
use crate::algebra::{
    dot, entry, lemma_dot_congruent, lemma_dot_identity_left, lemma_dot_identity_right,
    lemma_dot_sum_left, lemma_dot_sum_right, lemma_dot_zero, product_bits, sum_bits,
};
use crate::layout::{layout_bit, product_added, Layout};
use vstd::prelude::*;

verus! {

/// The product is additive in its left factor: adding the product of `a1`
/// and `b` and then that of `a2` and `b` to a matrix leaves what adding the
/// product of the sum of `a1` and `a2` with `b` leaves.
pub proof fn law_bilinear_left(
    start: Seq<u8>,
    mid: Seq<u8>,
    twice: Seq<u8>,
    once: Seq<u8>,
    l: Layout,
    align: usize,
    a1: spec_fn(int, int) -> bool,
    a2: spec_fn(int, int) -> bool,
    a3: spec_fn(int, int) -> bool,
    b: spec_fn(int, int) -> bool,
    k: int,
)
    requires
        product_added(start, mid, l, align, a1, b, k),
        product_added(mid, twice, l, align, a2, b, k),
        product_added(start, once, l, align, a3, b, k),
        forall|i: int, t: int|
            0 <= i < l.nrows && 0 <= t < k ==> #[trigger] entry(a3, i, t) == (entry(a1, i, t)
                != entry(a2, i, t)),
    ensures
        forall|i: int, j: int|
            0 <= i < l.nrows && 0 <= j < l.max_ncols(align) ==> #[trigger] layout_bit(
                twice,
                l,
                i,
                j,
            ) == layout_bit(once, l, i, j),
{
    assert forall|i: int, j: int|
        0 <= i < l.nrows && 0 <= j < l.max_ncols(align) implies #[trigger] layout_bit(
        twice,
        l,
        i,
        j,
    ) == layout_bit(once, l, i, j) by {
        let m = layout_bit(mid, l, i, j);
        lemma_dot_sum_left(a1, a2, b, i, j, k);
        lemma_dot_congruent(a3, b, sum_bits(a1, a2), b, i, j, i, j, k);
    }
}

/// The product is additive in its right factor: adding the product of `a`
/// and `b1` and then that of `a` and `b2` to a matrix leaves what adding
/// the product of `a` with the sum of `b1` and `b2` leaves.
pub proof fn law_bilinear_right(
    start: Seq<u8>,
    mid: Seq<u8>,
    twice: Seq<u8>,
    once: Seq<u8>,
    l: Layout,
    align: usize,
    a: spec_fn(int, int) -> bool,
    b1: spec_fn(int, int) -> bool,
    b2: spec_fn(int, int) -> bool,
    b3: spec_fn(int, int) -> bool,
    k: int,
)
    requires
        product_added(start, mid, l, align, a, b1, k),
        product_added(mid, twice, l, align, a, b2, k),
        product_added(start, once, l, align, a, b3, k),
        forall|t: int, j: int|
            0 <= t < k && 0 <= j < l.max_ncols(align) ==> #[trigger] entry(b3, t, j) == (entry(
                b1,
                t,
                j,
            ) != entry(b2, t, j)),
    ensures
        forall|i: int, j: int|
            0 <= i < l.nrows && 0 <= j < l.max_ncols(align) ==> #[trigger] layout_bit(
                twice,
                l,
                i,
                j,
            ) == layout_bit(once, l, i, j),
{
    assert forall|i: int, j: int|
        0 <= i < l.nrows && 0 <= j < l.max_ncols(align) implies #[trigger] layout_bit(
        twice,
        l,
        i,
        j,
    ) == layout_bit(once, l, i, j) by {
        let m = layout_bit(mid, l, i, j);
        lemma_dot_sum_right(a, b1, b2, i, j, k);
        lemma_dot_congruent(a, b3, a, sum_bits(b1, b2), i, j, i, j, k);
    }
}

/// Zero absorbs: where the left factor or the right factor is all zero,
/// adding their product leaves the matrix as it was.
pub proof fn law_zero_absorbs(
    before: Seq<u8>,
    after: Seq<u8>,
    l: Layout,
    align: usize,
    a: spec_fn(int, int) -> bool,
    b: spec_fn(int, int) -> bool,
    k: int,
)
    requires
        product_added(before, after, l, align, a, b, k),
        (forall|i: int, t: int| 0 <= i < l.nrows && 0 <= t < k ==> !#[trigger] entry(a, i, t)) || (
        forall|t: int, j: int|
            0 <= t < k && 0 <= j < l.max_ncols(align) ==> !#[trigger] entry(b, t, j)),
    ensures
        forall|i: int, j: int|
            0 <= i < l.nrows && 0 <= j < l.max_ncols(align) ==> #[trigger] layout_bit(
                after,
                l,
                i,
                j,
            ) == layout_bit(before, l, i, j),
{
    assert forall|i: int, j: int|
        0 <= i < l.nrows && 0 <= j < l.max_ncols(align) implies #[trigger] layout_bit(
        after,
        l,
        i,
        j,
    ) == layout_bit(before, l, i, j) by {
        lemma_dot_zero(a, b, i, j, k);
    }
}

/// The identity on the left: adding the product of the identity and `b` to
/// the zero matrix gives `b`.
pub proof fn law_identity_left(
    before: Seq<u8>,
    after: Seq<u8>,
    l: Layout,
    align: usize,
    a: spec_fn(int, int) -> bool,
    b: spec_fn(int, int) -> bool,
    k: int,
)
    requires
        product_added(before, after, l, align, a, b, k),
        l.nrows == k,
        forall|i: int, j: int|
            0 <= i < l.nrows && 0 <= j < l.max_ncols(align) ==> !#[trigger] layout_bit(
                before,
                l,
                i,
                j,
            ),
        forall|i: int, t: int| 0 <= i < k && 0 <= t < k ==> #[trigger] entry(a, i, t) == (i == t),
    ensures
        forall|i: int, j: int|
            0 <= i < l.nrows && 0 <= j < l.max_ncols(align) ==> #[trigger] layout_bit(
                after,
                l,
                i,
                j,
            ) == entry(b, i, j),
{
    assert forall|i: int, j: int|
        0 <= i < l.nrows && 0 <= j < l.max_ncols(align) implies #[trigger] layout_bit(
        after,
        l,
        i,
        j,
    ) == entry(b, i, j) by {
        lemma_dot_identity_left(b, i, j, k);
        lemma_dot_congruent(a, b, crate::algebra::identity_bits(), b, i, j, i, j, k);
    }
}

/// The identity on the right: adding the product of `a` and the identity
/// to the zero matrix gives `a`, in the columns that the identity has.
pub proof fn law_identity_right(
    before: Seq<u8>,
    after: Seq<u8>,
    l: Layout,
    align: usize,
    a: spec_fn(int, int) -> bool,
    b: spec_fn(int, int) -> bool,
    k: int,
)
    requires
        product_added(before, after, l, align, a, b, k),
        forall|i: int, j: int|
            0 <= i < l.nrows && 0 <= j < l.max_ncols(align) ==> !#[trigger] layout_bit(
                before,
                l,
                i,
                j,
            ),
        forall|t: int, j: int|
            0 <= t < k && 0 <= j < l.max_ncols(align) ==> #[trigger] entry(b, t, j) == (t == j),
    ensures
        forall|i: int, j: int|
            0 <= i < l.nrows && 0 <= j < l.max_ncols(align) ==> #[trigger] layout_bit(
                after,
                l,
                i,
                j,
            ) == (j < k && entry(a, i, j)),
{
    assert forall|i: int, j: int|
        0 <= i < l.nrows && 0 <= j < l.max_ncols(align) implies #[trigger] layout_bit(
        after,
        l,
        i,
        j,
    ) == (j < k && entry(a, i, j)) by {
        lemma_dot_identity_right(a, i, j, k);
        lemma_dot_congruent(a, b, a, crate::algebra::identity_bits(), i, j, i, j, k);
    }
}

/// A sum of products in which every term of the right factor carries the
/// same factor `c` is `c` times the sum without it.
pub proof fn lemma_dot_factor(
    a: spec_fn(int, int) -> bool,
    b: spec_fn(int, int) -> bool,
    g: spec_fn(int, int) -> bool,
    i: int,
    t: int,
    j: int,
    c: bool,
    k: int,
)
    requires
        forall|s: int| 0 <= s < k ==> #[trigger] entry(g, s, j) == (entry(b, s, t) && c),
    ensures
        dot(a, g, i, j, k) == (c && dot(a, b, i, t, k)),
    decreases k,
{
    if k > 0 {
        lemma_dot_factor(a, b, g, i, t, j, c, k - 1);
        assert(entry(g, k - 1, j) == (entry(b, k - 1, t) && c));
    }
}

/// The product is associative: for `a` with `k1` columns, `b` with `k1`
/// rows and `k2` columns and `c` with `k2` rows, the product of `a * b`
/// with `c` is the product of `a` with `b * c`.
pub proof fn law_associative(
    a: spec_fn(int, int) -> bool,
    b: spec_fn(int, int) -> bool,
    c: spec_fn(int, int) -> bool,
    i: int,
    j: int,
    k1: int,
    k2: int,
)
    ensures
        dot(product_bits(a, b, k1), c, i, j, k2) == dot(a, product_bits(b, c, k2), i, j, k1),
    decreases k2,
{
    let ab = product_bits(a, b, k1);
    let bc = product_bits(b, c, k2);
    if k2 <= 0 {
        assert forall|s: int| 0 <= s < k1 implies !#[trigger] entry(bc, s, j) by {}
        lemma_dot_zero(a, bc, i, j, k1);
    } else {
        let t = k2 - 1;
        let bc1 = product_bits(b, c, t);
        let g = |s: int, jj: int| entry(b, s, t) && entry(c, t, jj);
        law_associative(a, b, c, i, j, k1, t);
        lemma_dot_factor(a, b, g, i, t, j, entry(c, t, j), k1);
        lemma_dot_sum_right(a, bc1, g, i, j, k1);
        assert forall|s: int| 0 <= s < k1 implies #[trigger] entry(bc, s, j) == entry(
            sum_bits(bc1, g),
            s,
            j,
        ) by {}
        lemma_dot_congruent(a, bc, a, sum_bits(bc1, g), i, j, i, j, k1);
        assert(entry(ab, i, t) == dot(a, b, i, t, k1));
    }
}

/// Padding stays clear: where the right factor has no bit set from column
/// `ncols` on, adding a product sets no bit of the target from that column
/// on that was clear before.
pub proof fn law_padding_stays_clear(
    before: Seq<u8>,
    after: Seq<u8>,
    l: Layout,
    align: usize,
    a: spec_fn(int, int) -> bool,
    b: spec_fn(int, int) -> bool,
    k: int,
    ncols: int,
)
    requires
        0 <= ncols,
        product_added(before, after, l, align, a, b, k),
        forall|t: int, j: int|
            0 <= t < k && ncols <= j < l.max_ncols(align) ==> !#[trigger] entry(b, t, j),
        forall|i: int, j: int|
            0 <= i < l.nrows && ncols <= j < l.max_ncols(align) ==> !#[trigger] layout_bit(
                before,
                l,
                i,
                j,
            ),
    ensures
        forall|i: int, j: int|
            0 <= i < l.nrows && ncols <= j < l.max_ncols(align) ==> !#[trigger] layout_bit(
                after,
                l,
                i,
                j,
            ),
{
    assert forall|i: int, j: int|
        0 <= i < l.nrows && ncols <= j < l.max_ncols(align) implies !#[trigger] layout_bit(
        after,
        l,
        i,
        j,
    ) by {
        lemma_dot_zero(a, b, i, j, k);
        assert(!layout_bit(before, l, i, j));
    }
}

/// The cascade and the base kernel agree: two matrices that are each the
/// same matrix plus the same product have the same bits.
pub proof fn law_product_determined(
    before: Seq<u8>,
    first: Seq<u8>,
    second: Seq<u8>,
    l: Layout,
    align: usize,
    a: spec_fn(int, int) -> bool,
    b: spec_fn(int, int) -> bool,
    k: int,
)
    requires
        product_added(before, first, l, align, a, b, k),
        product_added(before, second, l, align, a, b, k),
    ensures
        forall|i: int, j: int|
            0 <= i < l.nrows && 0 <= j < l.max_ncols(align) ==> #[trigger] layout_bit(
                first,
                l,
                i,
                j,
            ) == layout_bit(second, l, i, j),
{
}

} // verus!
