//! Block decomposition: Strassen's seven products of half-size blocks,
//! applied once for two by two blocks and to its own blocks for four by
//! four, with the products of the blocks left to the rest of a cascade.
use crate::algebra::{
    dot, entry, lemma_dot_congruent, lemma_dot_split, lemma_dot_sum_left, lemma_dot_sum_right,
    shifted, sum_bits,
};
use crate::gf2mat::{bits_of, wf, AlignedGF2Mat, GF2MatLike, GF2MatLikeMut, GF2MatWindow};
use crate::gray::MAX_CODE_LEN;
use crate::layout::{
    cell, last_byte_clear, layout_bit, lemma_area, lemma_block_added, lemma_rows_xor_bits,
    lemma_rows_zero_bits, lemma_stride_exact, lemma_widths, lemma_window_fits, product_added,
    unchanged_outside, Layout,
};
use crate::m4rm::addmul_pre;
use crate::mul::{
    addmul_recurse, block_matches, cascade_ok, divisible, lemma_block_matches, levels_ok,
    AddMulAlgo, WINDOW_ALIGN, WINDOW_BITS,
};
use vstd::prelude::*;

verus! {

/// Row or column `r` counted within its half, for halves of size `h`.
spec fn within_half(r: int, h: int) -> int {
    if r < h {
        r
    } else {
        r - h
    }
}

/// Which blocks of the target a product of blocks is added to.
struct Targets {
    c11: bool,
    c12: bool,
    c21: bool,
    c22: bool,
}

impl Targets {
    /// Whether the block that holds row `r` and column `j` is among the
    /// targets, for blocks of `mm` rows and `nn` columns.
    spec fn holds(self, r: int, j: int, mm: int, nn: int) -> bool {
        if r < mm {
            if j < nn {
                self.c11
            } else {
                self.c12
            }
        } else {
            if j < nn {
                self.c21
            } else {
                self.c22
            }
        }
    }
}

/// The matrix at `l` in `after` is what it was in `before`, plus the product
/// of `xa` and `ya` in each of the blocks that `to` names; outside the
/// matrix the buffer is as it was.
spec fn term_added(
    before: Seq<u8>,
    after: Seq<u8>,
    l: Layout,
    align: usize,
    to: Targets,
    xa: spec_fn(int, int) -> bool,
    ya: spec_fn(int, int) -> bool,
    mm: int,
    kk: int,
    nn: int,
) -> bool {
    &&& unchanged_outside(before, after, l, align)
    &&& forall|r: int, j: int|
        0 <= r < l.nrows && 0 <= j < l.max_ncols(align) ==> #[trigger] layout_bit(after, l, r, j)
            == (layout_bit(before, l, r, j) != (to.holds(r, j, mm, nn) && dot(
            xa,
            ya,
            within_half(r, mm),
            within_half(j, nn),
            kk,
        )))
}

/// The scratch matrix `tmp` has `nrows` rows and `ncols` bit columns.
spec fn scratch_shaped(tmp: &AlignedGF2Mat<WINDOW_ALIGN>, nrows: int, ncols: int) -> bool {
    &&& wf(tmp)
    &&& tmp.layout().nrows == nrows
    &&& tmp.layout().max_ncols(WINDOW_ALIGN) == ncols
}

/// `places` holds the places of the four blocks of `mm` rows and `bn`
/// chunks that a matrix is cut into.
spec fn quarters_placed(places: Seq<Vec<(usize, usize)>>, mm: int, bn: int) -> bool {
    &&& places.len() == 2
    &&& places[0]@.len() == 2
    &&& places[1]@.len() == 2
    &&& places[0]@[0] == (0usize, 0usize)
    &&& places[0]@[1].0 == 0 && places[0]@[1].1 == bn
    &&& places[1]@[0].0 == mm && places[1]@[0].1 == 0
    &&& places[1]@[1].0 == mm && places[1]@[1].1 == bn
}

/// `tmp = p + q`, for two windows of the shape of `tmp`.
fn sum_into(
    tmp: &mut AlignedGF2Mat<WINDOW_ALIGN>,
    p: &GF2MatWindow<'_, WINDOW_ALIGN>,
    q: &GF2MatWindow<'_, WINDOW_ALIGN>,
    Ghost(pa): Ghost<spec_fn(int, int) -> bool>,
    Ghost(qa): Ghost<spec_fn(int, int) -> bool>,
)
    requires
        wf(old(tmp)),
        wf(p),
        wf(q),
        old(tmp).layout().nrows == p.layout.nrows,
        old(tmp).layout().nrows == q.layout.nrows,
        old(tmp).layout().nchunk_cols == p.layout.nchunk_cols,
        old(tmp).layout().nchunk_cols == q.layout.nchunk_cols,
        forall|i: int, j: int|
            0 <= i < p.layout.nrows && 0 <= j < p.layout.max_ncols(WINDOW_ALIGN) ==> #[trigger] entry(
                bits_of(p),
                i,
                j,
            ) == entry(pa, i, j),
        forall|i: int, j: int|
            0 <= i < q.layout.nrows && 0 <= j < q.layout.max_ncols(WINDOW_ALIGN) ==> #[trigger] entry(
                bits_of(q),
                i,
                j,
            ) == entry(qa, i, j),
    ensures
        final(tmp).layout() == old(tmp).layout(),
        final(tmp).store().len() == old(tmp).store().len(),
        forall|i: int, j: int|
            0 <= i < p.layout.nrows && 0 <= j < p.layout.max_ncols(WINDOW_ALIGN) ==> #[trigger] entry(
                bits_of(final(tmp)),
                i,
                j,
            ) == entry(sum_bits(pa, qa), i, j),
{
    let ghost tl = tmp.layout();
    tmp.set_to_sum_unchecked(p, q);
    proof {
        lemma_rows_xor_bits(
            tmp.store(),
            tl,
            WINDOW_ALIGN,
            tl.nrows as int,
            p.data@,
            p.layout,
            q.data@,
            q.layout,
        );
        assert forall|i: int, j: int|
            0 <= i < p.layout.nrows && 0 <= j < p.layout.max_ncols(
                WINDOW_ALIGN,
            ) implies #[trigger] entry(bits_of(tmp), i, j) == entry(sum_bits(pa, qa), i, j) by {
            assert(layout_bit(tmp.store(), tl, i, j) == (layout_bit(p.data@, p.layout, i, j)
                != layout_bit(q.data@, q.layout, i, j)));
            assert(entry(bits_of(p), i, j) == entry(pa, i, j));
            assert(entry(bits_of(q), i, j) == entry(qa, i, j));
        }
    }
}

/// A product over a whole number of bytes reads no byte in part.
proof fn lemma_whole_bytes_clear(a: spec_fn(int, int) -> bool, m: int, k: int)
    requires
        k % 8 == 0,
    ensures
        last_byte_clear(a, m, k),
{
    assert forall|i: int, j: int| 0 <= i < m && k <= j && (j / 8) * 8 < k implies !#[trigger] entry(
        a,
        i,
        j,
    ) by {
        assert((j / 8) * 8 >= k);
    }
}

/// The product of two sums is the sum of the four products.
proof fn lemma_dot_sum_both(
    a1: spec_fn(int, int) -> bool,
    a2: spec_fn(int, int) -> bool,
    b1: spec_fn(int, int) -> bool,
    b2: spec_fn(int, int) -> bool,
    i: int,
    j: int,
    k: int,
)
    ensures
        dot(sum_bits(a1, a2), sum_bits(b1, b2), i, j, k) == (((dot(a1, b1, i, j, k) != dot(
            a1,
            b2,
            i,
            j,
            k,
        )) != dot(a2, b1, i, j, k)) != dot(a2, b2, i, j, k)),
{
    lemma_dot_sum_left(a1, a2, sum_bits(b1, b2), i, j, k);
    lemma_dot_sum_right(a1, b1, b2, i, j, k);
    lemma_dot_sum_right(a2, b1, b2, i, j, k);
}

/// Strassen's seven products, written out as sums of products of blocks.
proof fn lemma_strassen_terms(
    a11: spec_fn(int, int) -> bool,
    a12: spec_fn(int, int) -> bool,
    a21: spec_fn(int, int) -> bool,
    a22: spec_fn(int, int) -> bool,
    b11: spec_fn(int, int) -> bool,
    b12: spec_fn(int, int) -> bool,
    b21: spec_fn(int, int) -> bool,
    b22: spec_fn(int, int) -> bool,
    i: int,
    j: int,
    k: int,
)
    ensures
        dot(sum_bits(a11, a22), sum_bits(b11, b22), i, j, k) == (((dot(a11, b11, i, j, k) != dot(
            a11,
            b22,
            i,
            j,
            k,
        )) != dot(a22, b11, i, j, k)) != dot(a22, b22, i, j, k)),
        dot(sum_bits(a21, a22), b11, i, j, k) == (dot(a21, b11, i, j, k) != dot(a22, b11, i, j, k)),
        dot(a11, sum_bits(b12, b22), i, j, k) == (dot(a11, b12, i, j, k) != dot(a11, b22, i, j, k)),
        dot(a22, sum_bits(b21, b11), i, j, k) == (dot(a22, b21, i, j, k) != dot(a22, b11, i, j, k)),
        dot(sum_bits(a11, a12), b22, i, j, k) == (dot(a11, b22, i, j, k) != dot(a12, b22, i, j, k)),
        dot(sum_bits(a21, a11), sum_bits(b11, b12), i, j, k) == (((dot(a21, b11, i, j, k) != dot(
            a21,
            b12,
            i,
            j,
            k,
        )) != dot(a11, b11, i, j, k)) != dot(a11, b12, i, j, k)),
        dot(sum_bits(a12, a22), sum_bits(b21, b22), i, j, k) == (((dot(a12, b21, i, j, k) != dot(
            a12,
            b22,
            i,
            j,
            k,
        )) != dot(a22, b21, i, j, k)) != dot(a22, b22, i, j, k)),
{
    lemma_dot_sum_both(a11, a22, b11, b22, i, j, k);
    lemma_dot_sum_left(a21, a22, b11, i, j, k);
    lemma_dot_sum_right(a11, b12, b22, i, j, k);
    lemma_dot_sum_right(a22, b21, b11, i, j, k);
    lemma_dot_sum_left(a11, a12, b22, i, j, k);
    lemma_dot_sum_both(a21, a11, b11, b12, i, j, k);
    lemma_dot_sum_both(a12, a22, b21, b22, i, j, k);
}

/// An entry of a product of two matrices cut into two by two blocks is the
/// sum of two entries of products of blocks.
proof fn lemma_block_dots(
    a: spec_fn(int, int) -> bool,
    b: spec_fn(int, int) -> bool,
    r: int,
    j: int,
    mm: int,
    kk: int,
    nn: int,
)
    requires
        0 <= r,
        0 <= j,
        0 <= kk,
    ensures
        dot(a, b, r, j, 2 * kk) == (dot(
            shifted(
                a,
                if r < mm {
                    0
                } else {
                    mm
                },
                0,
            ),
            shifted(
                b,
                0,
                if j < nn {
                    0
                } else {
                    nn
                },
            ),
            within_half(r, mm),
            within_half(j, nn),
            kk,
        ) != dot(
            shifted(
                a,
                if r < mm {
                    0
                } else {
                    mm
                },
                kk,
            ),
            shifted(
                b,
                kk,
                if j < nn {
                    0
                } else {
                    nn
                },
            ),
            within_half(r, mm),
            within_half(j, nn),
            kk,
        )),
{
    let r0 = if r < mm {
        0
    } else {
        mm
    };
    let j0 = if j < nn {
        0
    } else {
        nn
    };
    let rr = within_half(r, mm);
    let jj = within_half(j, nn);
    lemma_dot_split(a, b, r, j, kk, kk);
    lemma_dot_congruent(a, b, shifted(a, r0, 0), shifted(b, 0, j0), r, j, rr, jj, kk);
    lemma_dot_congruent(
        shifted(a, 0, kk),
        shifted(b, kk, 0),
        shifted(a, r0, kk),
        shifted(b, kk, j0),
        r,
        j,
        rr,
        jj,
        kk,
    );
}

/// Adds `prod` to the window of `tgt` whose first row is `row` and whose
/// first chunk is `chunk_col`.
fn add_block<const ALIGN: usize, T>(
    tgt: &mut T,
    prod: &AlignedGF2Mat<WINDOW_ALIGN>,
    row: usize,
    chunk_col: usize,
) where T: GF2MatLikeMut<ALIGN>
    requires
        wf(old(tgt)),
        wf(prod),
        ALIGN % WINDOW_ALIGN == 0,
        row + prod.layout().nrows <= old(tgt).layout().nrows,
        (chunk_col + prod.layout().nchunk_cols) * WINDOW_ALIGN <= old(tgt).layout().nbyte_cols(
            ALIGN,
        ),
    ensures
        final(tgt).layout() == old(tgt).layout(),
        final(tgt).logical_ncols() == old(tgt).logical_ncols(),
        unchanged_outside(old(tgt).store(), final(tgt).store(), old(tgt).layout(), ALIGN),
        forall|r: int, j: int|
            0 <= r < old(tgt).layout().nrows && 0 <= j < old(tgt).layout().max_ncols(ALIGN)
                ==> #[trigger] layout_bit(final(tgt).store(), old(tgt).layout(), r, j) == (
            layout_bit(old(tgt).store(), old(tgt).layout(), r, j) != (row <= r < row
                + prod.layout().nrows && chunk_col * WINDOW_BITS <= j < (chunk_col
                + prod.layout().nchunk_cols) * WINDOW_BITS && layout_bit(
                prod.store(),
                prod.layout(),
                r - row,
                j - chunk_col * WINDOW_BITS,
            ))),
{
    let ghost before = tgt.store();
    let ghost l = tgt.layout();
    let nrows = prod.nrows();
    let nchunk_cols = prod.nchunk_cols();
    proof {
        lemma_widths(l, ALIGN, before.len());
        lemma_window_fits(l, ALIGN, before.len(), WINDOW_ALIGN, row, chunk_col, nrows, nchunk_cols);
    }
    let mut w = tgt.get_window_mut_unchecked::<WINDOW_ALIGN>(row, chunk_col, nrows, nchunk_cols);
    w.add_unchecked(prod);
    proof {
        lemma_block_added(
            before,
            w.store(),
            l,
            ALIGN,
            row,
            (chunk_col * WINDOW_ALIGN) as int,
            nrows,
            nchunk_cols,
            WINDOW_ALIGN,
            prod.store(),
            prod.layout(),
        );
    }
    tgt.return_window(w);
}

/// Adds the product of `x` and `y` to each of the blocks of `tgt` that `to`
/// names. The product is computed into `prod` by `levels` halvings
/// followed by the cascade `algos`.
fn accumulate_term<const ALIGN: usize, T, X, Y>(
    tgt: &mut T,
    x: &X,
    y: &Y,
    prod: &mut AlignedGF2Mat<WINDOW_ALIGN>,
    c_blks: &Vec<Vec<(usize, usize)>>,
    to: Targets,
    levels: usize,
    algos: &[AddMulAlgo],
    Ghost(xa): Ghost<spec_fn(int, int) -> bool>,
    Ghost(ya): Ghost<spec_fn(int, int) -> bool>,
) where T: GF2MatLikeMut<ALIGN>, X: GF2MatLike<WINDOW_ALIGN>, Y: GF2MatLike<WINDOW_ALIGN>
    requires
        wf(old(tgt)),
        ALIGN % WINDOW_ALIGN == 0,
        addmul_pre(old(prod), x, y),
        quarters_placed(c_blks@, x.layout().nrows as int, y.layout().nchunk_cols as int),
        old(tgt).layout().nrows == 2 * x.layout().nrows,
        old(tgt).layout().nbyte_cols(ALIGN) == 2 * y.layout().nbyte_cols(WINDOW_ALIGN),
        y.layout().nrows % 8 == 0,
        levels_ok(
            levels as nat,
            algos@,
            x.layout().nrows as int,
            y.layout().nrows as int,
            y.layout().max_ncols(WINDOW_ALIGN),
        ),
        forall|i: int, t: int|
            0 <= i < x.layout().nrows && 0 <= t < y.layout().nrows ==> #[trigger] entry(
                bits_of(x),
                i,
                t,
            ) == entry(xa, i, t),
        forall|t: int, j: int|
            0 <= t < y.layout().nrows && 0 <= j < y.layout().max_ncols(WINDOW_ALIGN)
                ==> #[trigger] entry(bits_of(y), t, j) == entry(ya, t, j),
    ensures
        final(tgt).layout() == old(tgt).layout(),
        final(tgt).logical_ncols() == old(tgt).logical_ncols(),
        final(prod).layout() == old(prod).layout(),
        final(prod).store().len() == old(prod).store().len(),
        term_added(
            old(tgt).store(),
            final(tgt).store(),
            old(tgt).layout(),
            ALIGN,
            to,
            xa,
            ya,
            x.layout().nrows as int,
            y.layout().nrows as int,
            y.layout().max_ncols(WINDOW_ALIGN),
        ),
    decreases algos@.len(), levels, 1int,
{
    let ghost before = tgt.store();
    let ghost l = tgt.layout();
    let ghost pl = prod.layout();
    let ghost mm = x.layout().nrows as int;
    let ghost kk = y.layout().nrows as int;
    let ghost nn = y.layout().max_ncols(WINDOW_ALIGN);
    proof {
        lemma_widths(l, ALIGN, before.len());
        lemma_widths(y.layout(), WINDOW_ALIGN, y.store().len());
        lemma_widths(pl, WINDOW_ALIGN, prod.store().len());
    }
    prod.clear();
    let ghost cleared = prod.store();
    proof {
        lemma_rows_zero_bits(cleared, pl, WINDOW_ALIGN, pl.nrows as int);
    }
    if levels == 0 {
        addmul_recurse(prod, x, y, algos);
    } else {
        strassen(prod, x, y, levels - 1, algos);
    }
    proof {
        assert forall|i: int, j: int| 0 <= i < mm && 0 <= j < nn implies #[trigger] layout_bit(
            prod.store(),
            pl,
            i,
            j,
        ) == dot(xa, ya, i, j, kk) by {
            lemma_dot_congruent(bits_of(x), bits_of(y), xa, ya, i, j, i, j, kk);
            assert(!layout_bit(cleared, pl, i, j));
        }
    }
    if to.c11 {
        add_block(tgt, prod, c_blks[0][0].0, c_blks[0][0].1);
    }
    if to.c12 {
        add_block(tgt, prod, c_blks[0][1].0, c_blks[0][1].1);
    }
    if to.c21 {
        add_block(tgt, prod, c_blks[1][0].0, c_blks[1][0].1);
    }
    if to.c22 {
        add_block(tgt, prod, c_blks[1][1].0, c_blks[1][1].1);
    }
}

/// One of Strassen's seven products: the sum of `x1` and `x2`, or `x1`
/// alone where there is no `x2`, times the sum of `y1` and `y2`, or `y1`
/// alone, added to the blocks of `tgt` that `to` names.
fn strassen_term<const ALIGN: usize, T>(
    tgt: &mut T,
    tmp_mk: &mut AlignedGF2Mat<WINDOW_ALIGN>,
    tmp_kn: &mut AlignedGF2Mat<WINDOW_ALIGN>,
    tmp_mn: &mut AlignedGF2Mat<WINDOW_ALIGN>,
    c_blks: &Vec<Vec<(usize, usize)>>,
    x1: &GF2MatWindow<'_, WINDOW_ALIGN>,
    x2: Option<&GF2MatWindow<'_, WINDOW_ALIGN>>,
    y1: &GF2MatWindow<'_, WINDOW_ALIGN>,
    y2: Option<&GF2MatWindow<'_, WINDOW_ALIGN>>,
    to: Targets,
    levels: usize,
    algos: &[AddMulAlgo],
    Ghost(gx1): Ghost<spec_fn(int, int) -> bool>,
    Ghost(gx2): Ghost<spec_fn(int, int) -> bool>,
    Ghost(gy1): Ghost<spec_fn(int, int) -> bool>,
    Ghost(gy2): Ghost<spec_fn(int, int) -> bool>,
    Ghost(mm): Ghost<int>,
    Ghost(kk): Ghost<int>,
    Ghost(nn): Ghost<int>,
) where T: GF2MatLikeMut<ALIGN>
    requires
        wf(old(tgt)),
        ALIGN % WINDOW_ALIGN == 0,
        old(tgt).layout().nrows == 2 * mm,
        old(tgt).layout().max_ncols(ALIGN) == 2 * nn,
        kk % 8 == 0,
        MAX_CODE_LEN * (nn / 8) <= isize::MAX,
        quarters_placed(c_blks@, mm, nn / (WINDOW_BITS as int)),
        scratch_shaped(old(tmp_mk), mm, kk),
        scratch_shaped(old(tmp_kn), kk, nn),
        scratch_shaped(old(tmp_mn), mm, nn),
        block_matches(x1, gx1, mm, kk),
        x2 matches Some(w) ==> block_matches(w, gx2, mm, kk),
        block_matches(y1, gy1, kk, nn),
        y2 matches Some(w) ==> block_matches(w, gy2, kk, nn),
        levels_ok(levels as nat, algos@, mm, kk, nn),
    ensures
        final(tgt).layout() == old(tgt).layout(),
        final(tgt).logical_ncols() == old(tgt).logical_ncols(),
        scratch_shaped(final(tmp_mk), mm, kk),
        scratch_shaped(final(tmp_kn), kk, nn),
        scratch_shaped(final(tmp_mn), mm, nn),
        term_added(
            old(tgt).store(),
            final(tgt).store(),
            old(tgt).layout(),
            ALIGN,
            to,
            if x2 is Some {
                sum_bits(gx1, gx2)
            } else {
                gx1
            },
            if y2 is Some {
                sum_bits(gy1, gy2)
            } else {
                gy1
            },
            mm,
            kk,
            nn,
        ),
    decreases algos@.len(), levels, 2int,
{
    proof {
        lemma_widths(tgt.layout(), ALIGN, tgt.store().len());
        lemma_widths(tmp_mk.layout(), WINDOW_ALIGN, tmp_mk.store().len());
        lemma_widths(tmp_kn.layout(), WINDOW_ALIGN, tmp_kn.store().len());
        lemma_widths(tmp_mn.layout(), WINDOW_ALIGN, tmp_mn.store().len());
        lemma_widths(x1.layout, WINDOW_ALIGN, x1.data@.len());
        lemma_widths(y1.layout, WINDOW_ALIGN, y1.data@.len());
        lemma_whole_bytes_clear(bits_of(x1), mm, kk);
    }
    match (x2, y2) {
        (Some(x2), Some(y2)) => {
            sum_into(tmp_mk, x1, x2, Ghost(gx1), Ghost(gx2));
            sum_into(tmp_kn, y1, y2, Ghost(gy1), Ghost(gy2));
            proof {
                lemma_whole_bytes_clear(bits_of(tmp_mk), mm, kk);
            }
            accumulate_term(
                tgt,
                &*tmp_mk,
                &*tmp_kn,
                tmp_mn,
                c_blks,
                to,
                levels,
                algos,
                Ghost(sum_bits(gx1, gx2)),
                Ghost(sum_bits(gy1, gy2)),
            );
        },
        (Some(x2), None) => {
            sum_into(tmp_mk, x1, x2, Ghost(gx1), Ghost(gx2));
            proof {
                lemma_whole_bytes_clear(bits_of(tmp_mk), mm, kk);
            }
            accumulate_term(
                tgt,
                &*tmp_mk,
                y1,
                tmp_mn,
                c_blks,
                to,
                levels,
                algos,
                Ghost(sum_bits(gx1, gx2)),
                Ghost(gy1),
            );
        },
        (None, Some(y2)) => {
            sum_into(tmp_kn, y1, y2, Ghost(gy1), Ghost(gy2));
            accumulate_term(
                tgt,
                x1,
                &*tmp_kn,
                tmp_mn,
                c_blks,
                to,
                levels,
                algos,
                Ghost(gx1),
                Ghost(sum_bits(gy1, gy2)),
            );
        },
        (None, None) => {
            accumulate_term(
                tgt,
                x1,
                y1,
                tmp_mn,
                c_blks,
                to,
                levels,
                algos,
                Ghost(gx1),
                Ghost(gy1),
            );
        },
    }
}

/// Strassen's seven products add up to the product: what the seven steps
/// of the schedule leave in the target is the target plus the product of
/// the two matrices that the blocks were cut from.
proof fn lemma_strassen_sum(
    s0: Seq<u8>,
    s1: Seq<u8>,
    s2: Seq<u8>,
    s3: Seq<u8>,
    s4: Seq<u8>,
    s5: Seq<u8>,
    s6: Seq<u8>,
    s7: Seq<u8>,
    l: Layout,
    align: usize,
    a: spec_fn(int, int) -> bool,
    b: spec_fn(int, int) -> bool,
    mm: int,
    kk: int,
    nn: int,
)
    requires
        0 <= mm,
        0 <= kk,
        0 <= nn,
        l.nrows == 2 * mm,
        l.max_ncols(align) == 2 * nn,
        term_added(
            s0,
            s1,
            l,
            align,
            Targets { c11: true, c12: false, c21: false, c22: true },
            sum_bits(shifted(a, 0, 0), shifted(a, mm, kk)),
            sum_bits(shifted(b, 0, 0), shifted(b, kk, nn)),
            mm,
            kk,
            nn,
        ),
        term_added(
            s1,
            s2,
            l,
            align,
            Targets { c11: false, c12: false, c21: true, c22: true },
            sum_bits(shifted(a, mm, 0), shifted(a, mm, kk)),
            shifted(b, 0, 0),
            mm,
            kk,
            nn,
        ),
        term_added(
            s2,
            s3,
            l,
            align,
            Targets { c11: false, c12: true, c21: false, c22: true },
            shifted(a, 0, 0),
            sum_bits(shifted(b, 0, nn), shifted(b, kk, nn)),
            mm,
            kk,
            nn,
        ),
        term_added(
            s3,
            s4,
            l,
            align,
            Targets { c11: true, c12: false, c21: true, c22: false },
            shifted(a, mm, kk),
            sum_bits(shifted(b, kk, 0), shifted(b, 0, 0)),
            mm,
            kk,
            nn,
        ),
        term_added(
            s4,
            s5,
            l,
            align,
            Targets { c11: true, c12: true, c21: false, c22: false },
            sum_bits(shifted(a, 0, 0), shifted(a, 0, kk)),
            shifted(b, kk, nn),
            mm,
            kk,
            nn,
        ),
        term_added(
            s5,
            s6,
            l,
            align,
            Targets { c11: false, c12: false, c21: false, c22: true },
            sum_bits(shifted(a, mm, 0), shifted(a, 0, 0)),
            sum_bits(shifted(b, 0, 0), shifted(b, 0, nn)),
            mm,
            kk,
            nn,
        ),
        term_added(
            s6,
            s7,
            l,
            align,
            Targets { c11: true, c12: false, c21: false, c22: false },
            sum_bits(shifted(a, 0, kk), shifted(a, mm, kk)),
            sum_bits(shifted(b, kk, 0), shifted(b, kk, nn)),
            mm,
            kk,
            nn,
        ),
    ensures
        product_added(s0, s7, l, align, a, b, 2 * kk),
{
    let a11 = shifted(a, 0, 0);
    let a12 = shifted(a, 0, kk);
    let a21 = shifted(a, mm, 0);
    let a22 = shifted(a, mm, kk);
    let b11 = shifted(b, 0, 0);
    let b12 = shifted(b, 0, nn);
    let b21 = shifted(b, kk, 0);
    let b22 = shifted(b, kk, nn);
    assert forall|r: int, j: int|
        0 <= r < l.nrows && 0 <= j < l.max_ncols(align) implies #[trigger] layout_bit(s7, l, r, j)
        == (layout_bit(s0, l, r, j) != dot(a, b, r, j, 2 * kk)) by {
        let rr = within_half(r, mm);
        let jj = within_half(j, nn);
        lemma_strassen_terms(a11, a12, a21, a22, b11, b12, b21, b22, rr, jj, kk);
        lemma_block_dots(a, b, r, j, mm, kk, nn);
        let t1 = layout_bit(s1, l, r, j);
        let t2 = layout_bit(s2, l, r, j);
        let t3 = layout_bit(s3, l, r, j);
        let t4 = layout_bit(s4, l, r, j);
        let t5 = layout_bit(s5, l, r, j);
        let t6 = layout_bit(s6, l, r, j);
    }
    assert forall|r: int, c: int| 0 <= c < l.row_stride && !l.covers(align, r, c) implies #[trigger] cell(
        s7,
        l.row_stride,
        r,
        c,
    ) == cell(s0, l.row_stride, r, c) by {
        assert(cell(s7, l.row_stride, r, c) == cell(s6, l.row_stride, r, c));
        assert(cell(s6, l.row_stride, r, c) == cell(s5, l.row_stride, r, c));
        assert(cell(s5, l.row_stride, r, c) == cell(s4, l.row_stride, r, c));
        assert(cell(s4, l.row_stride, r, c) == cell(s3, l.row_stride, r, c));
        assert(cell(s3, l.row_stride, r, c) == cell(s2, l.row_stride, r, c));
        assert(cell(s2, l.row_stride, r, c) == cell(s1, l.row_stride, r, c));
        assert(cell(s1, l.row_stride, r, c) == cell(s0, l.row_stride, r, c));
    }
}

/// A scratch matrix of `rows` rows and `chunks` window chunks, all zero.
fn scratch(rows: usize, chunks: usize) -> (tmp: AlignedGF2Mat<WINDOW_ALIGN>)
    requires
        rows * (chunks * WINDOW_ALIGN) <= isize::MAX,
        chunks * WINDOW_BITS <= usize::MAX,
    ensures
        scratch_shaped(&tmp, rows as int, chunks * WINDOW_BITS),
{
    proof {
        lemma_stride_exact(chunks, WINDOW_ALIGN);
    }
    AlignedGF2Mat::<WINDOW_ALIGN>::zero(rows, chunks * WINDOW_BITS)
}

/// `tgt += lhs * rhs` by Strassen's seven products of half-size blocks,
/// each computed by `levels` further halvings followed by the cascade
/// `algos`.
#[verifier::rlimit(30)]
pub fn strassen<const ALIGN: usize, T, S1, S2>(
    tgt: &mut T,
    lhs: &S1,
    rhs: &S2,
    levels: usize,
    algos: &[AddMulAlgo],
) where T: GF2MatLikeMut<ALIGN>, S1: GF2MatLike<ALIGN>, S2: GF2MatLike<ALIGN>
    requires
        addmul_pre(old(tgt), lhs, rhs),
        ALIGN % WINDOW_ALIGN == 0,
        divisible(
            2,
            lhs.layout().nrows as int,
            rhs.layout().nrows as int,
            rhs.layout().max_ncols(ALIGN),
        ),
        levels_ok(
            levels as nat,
            algos@,
            lhs.layout().nrows as int / 2,
            rhs.layout().nrows as int / 2,
            rhs.layout().max_ncols(ALIGN) / 2,
        ),
    ensures
        final(tgt).layout() == old(tgt).layout(),
        final(tgt).logical_ncols() == old(tgt).logical_ncols(),
        product_added(
            old(tgt).store(),
            final(tgt).store(),
            old(tgt).layout(),
            ALIGN,
            bits_of(lhs),
            bits_of(rhs),
            rhs.layout().nrows as int,
        ),
    decreases algos@.len(), levels, 3int,
{
    let ghost s0 = tgt.store();
    let ghost l = tgt.layout();
    let ghost a = bits_of(lhs);
    let ghost b = bits_of(rhs);
    proof {
        lemma_widths(l, ALIGN, s0.len());
        lemma_widths(lhs.layout(), ALIGN, lhs.store().len());
        lemma_widths(rhs.layout(), ALIGN, rhs.store().len());
    }
    let m = lhs.nrows();
    let k = rhs.nrows();
    let n = rhs.max_ncols();
    let mm = m / 2;
    let kk = k / 2;
    let nn = n / 2;
    let bk = kk / WINDOW_BITS;
    let bn = nn / WINDOW_BITS;
    let ghost (mi, ki, ni) = (mm as int, kk as int, nn as int);
    proof {
        assert(k % 128 == 0 && (k / 128) % 2 == 0 && n % 128 == 0 && (n / 128) % 2 == 0);
        assert(kk % 128 == 0 && nn % 128 == 0);
        assert(bk * WINDOW_BITS == kk && bn * WINDOW_BITS == nn);
        assert(2 * bk * WINDOW_ALIGN <= lhs.layout().nbyte_cols(ALIGN));
        assert(2 * bn * WINDOW_ALIGN == rhs.layout().nbyte_cols(ALIGN));
        lemma_area(lhs.layout(), ALIGN, lhs.store().len(), mi, (bk * WINDOW_ALIGN) as int);
        lemma_area(l, ALIGN, s0.len(), mi, (bn * WINDOW_ALIGN) as int);
        lemma_area(rhs.layout(), ALIGN, rhs.store().len(), ki, (bn * WINDOW_ALIGN) as int);
    }
    let mut tmp_mk = scratch(mm, bk);
    let mut tmp_mn = scratch(mm, bn);
    let mut tmp_kn = scratch(kk, bn);
    let a_blks = lhs.division_unchecked::<WINDOW_ALIGN, 2, 2>(mm, bk);
    let b_blks = rhs.division_unchecked::<WINDOW_ALIGN, 2, 2>(kk, bn);
    let c_blks = tgt.division_mut_unchecked::<WINDOW_ALIGN, 2, 2>(mm, bn);
    let (a11, a12, a21, a22) = (&a_blks[0][0], &a_blks[0][1], &a_blks[1][0], &a_blks[1][1]);
    let (b11, b12, b21, b22) = (&b_blks[0][0], &b_blks[0][1], &b_blks[1][0], &b_blks[1][1]);
    proof {
        lemma_block_matches(lhs.store(), lhs.layout(), a11, 0, 0, mm, bk);
        lemma_block_matches(lhs.store(), lhs.layout(), a12, 0, bk, mm, bk);
        lemma_block_matches(lhs.store(), lhs.layout(), a21, mm, 0, mm, bk);
        lemma_block_matches(lhs.store(), lhs.layout(), a22, mm, bk, mm, bk);
        lemma_block_matches(rhs.store(), rhs.layout(), b11, 0, 0, kk, bn);
        lemma_block_matches(rhs.store(), rhs.layout(), b12, 0, bn, kk, bn);
        lemma_block_matches(rhs.store(), rhs.layout(), b21, kk, 0, kk, bn);
        lemma_block_matches(rhs.store(), rhs.layout(), b22, kk, bn, kk, bn);
    }
    let ghost ga11 = shifted(a, 0, 0);
    let ghost ga12 = shifted(a, 0, ki);
    let ghost ga21 = shifted(a, mi, 0);
    let ghost ga22 = shifted(a, mi, ki);
    let ghost gb11 = shifted(b, 0, 0);
    let ghost gb12 = shifted(b, 0, ni);
    let ghost gb21 = shifted(b, ki, 0);
    let ghost gb22 = shifted(b, ki, ni);
    // M1 = (A11 + A22)(B11 + B22), added to C11 and C22
    strassen_term(
        tgt,
        &mut tmp_mk,
        &mut tmp_kn,
        &mut tmp_mn,
        &c_blks,
        a11,
        Some(a22),
        b11,
        Some(b22),
        Targets { c11: true, c12: false, c21: false, c22: true },
        levels,
        algos,
        Ghost(ga11),
        Ghost(ga22),
        Ghost(gb11),
        Ghost(gb22),
        Ghost(mi),
        Ghost(ki),
        Ghost(ni),
    );
    let ghost s1 = tgt.store();
    // M2 = (A21 + A22) B11, added to C21 and C22
    strassen_term(
        tgt,
        &mut tmp_mk,
        &mut tmp_kn,
        &mut tmp_mn,
        &c_blks,
        a21,
        Some(a22),
        b11,
        None,
        Targets { c11: false, c12: false, c21: true, c22: true },
        levels,
        algos,
        Ghost(ga21),
        Ghost(ga22),
        Ghost(gb11),
        Ghost(gb11),
        Ghost(mi),
        Ghost(ki),
        Ghost(ni),
    );
    let ghost s2 = tgt.store();
    // M3 = A11 (B12 + B22), added to C12 and C22
    strassen_term(
        tgt,
        &mut tmp_mk,
        &mut tmp_kn,
        &mut tmp_mn,
        &c_blks,
        a11,
        None,
        b12,
        Some(b22),
        Targets { c11: false, c12: true, c21: false, c22: true },
        levels,
        algos,
        Ghost(ga11),
        Ghost(ga11),
        Ghost(gb12),
        Ghost(gb22),
        Ghost(mi),
        Ghost(ki),
        Ghost(ni),
    );
    let ghost s3 = tgt.store();
    // M4 = A22 (B21 + B11), added to C11 and C21
    strassen_term(
        tgt,
        &mut tmp_mk,
        &mut tmp_kn,
        &mut tmp_mn,
        &c_blks,
        a22,
        None,
        b21,
        Some(b11),
        Targets { c11: true, c12: false, c21: true, c22: false },
        levels,
        algos,
        Ghost(ga22),
        Ghost(ga22),
        Ghost(gb21),
        Ghost(gb11),
        Ghost(mi),
        Ghost(ki),
        Ghost(ni),
    );
    let ghost s4 = tgt.store();
    // M5 = (A11 + A12) B22, added to C11 and C12
    strassen_term(
        tgt,
        &mut tmp_mk,
        &mut tmp_kn,
        &mut tmp_mn,
        &c_blks,
        a11,
        Some(a12),
        b22,
        None,
        Targets { c11: true, c12: true, c21: false, c22: false },
        levels,
        algos,
        Ghost(ga11),
        Ghost(ga12),
        Ghost(gb22),
        Ghost(gb22),
        Ghost(mi),
        Ghost(ki),
        Ghost(ni),
    );
    let ghost s5 = tgt.store();
    // M6 = (A21 + A11)(B11 + B12), added to C22
    strassen_term(
        tgt,
        &mut tmp_mk,
        &mut tmp_kn,
        &mut tmp_mn,
        &c_blks,
        a21,
        Some(a11),
        b11,
        Some(b12),
        Targets { c11: false, c12: false, c21: false, c22: true },
        levels,
        algos,
        Ghost(ga21),
        Ghost(ga11),
        Ghost(gb11),
        Ghost(gb12),
        Ghost(mi),
        Ghost(ki),
        Ghost(ni),
    );
    let ghost s6 = tgt.store();
    // M7 = (A12 + A22)(B21 + B22), added to C11
    strassen_term(
        tgt,
        &mut tmp_mk,
        &mut tmp_kn,
        &mut tmp_mn,
        &c_blks,
        a12,
        Some(a22),
        b21,
        Some(b22),
        Targets { c11: true, c12: false, c21: false, c22: false },
        levels,
        algos,
        Ghost(ga12),
        Ghost(ga22),
        Ghost(gb21),
        Ghost(gb22),
        Ghost(mi),
        Ghost(ki),
        Ghost(ni),
    );
    proof {
        lemma_strassen_sum(s0, s1, s2, s3, s4, s5, s6, tgt.store(), l, ALIGN, a, b, mi, ki, ni);
    }
}

/// `tgt += lhs * rhs` by Strassen's seven products of two by two blocks,
/// each left to the cascade `algos`.
pub fn addmul_decomp2x2<const ALIGN: usize, T, S1, S2>(
    tgt: &mut T,
    lhs: &S1,
    rhs: &S2,
    algos: &[AddMulAlgo],
) where T: GF2MatLikeMut<ALIGN>, S1: GF2MatLike<ALIGN>, S2: GF2MatLike<ALIGN>
    requires
        addmul_pre(old(tgt), lhs, rhs),
        ALIGN % WINDOW_ALIGN == 0,
        divisible(
            2,
            lhs.layout().nrows as int,
            rhs.layout().nrows as int,
            rhs.layout().max_ncols(ALIGN),
        ),
        cascade_ok(
            algos@,
            lhs.layout().nrows as int / 2,
            rhs.layout().nrows as int / 2,
            rhs.layout().max_ncols(ALIGN) / 2,
        ),
    ensures
        final(tgt).layout() == old(tgt).layout(),
        final(tgt).logical_ncols() == old(tgt).logical_ncols(),
        product_added(
            old(tgt).store(),
            final(tgt).store(),
            old(tgt).layout(),
            ALIGN,
            bits_of(lhs),
            bits_of(rhs),
            rhs.layout().nrows as int,
        ),
    decreases algos@.len(), 0int, 4int,
{
    strassen(tgt, lhs, rhs, 0, algos);
}

/// A number of bits that is four times a whole number of window chunks
/// can be halved twice into whole numbers of window chunks.
proof fn lemma_halve_chunks(k: int)
    requires
        k % 128 == 0,
        (k / 128) % 4 == 0,
    ensures
        (k / 128) % 2 == 0,
        (k / 2) % 128 == 0,
        ((k / 2) / 128) % 2 == 0,
        k / 2 / 2 == k / 4,
        (k / 4) % 128 == 0,
{
    let z = k / 512;
    assert(k == 512 * z);
    assert(k / 128 == 4 * z);
    assert(k / 2 == 256 * z);
    assert(k / 4 == 128 * z);
    assert((k / 2) / 128 == 2 * z);
}

/// Dimensions that can be cut into four by four blocks can be halved
/// twice.
proof fn lemma_quarters(algos: Seq<AddMulAlgo>, m: int, k: int, n: int)
    requires
        divisible(4, m, k, n),
        cascade_ok(algos, m / 4, k / 4, n / 4),
    ensures
        divisible(2, m, k, n),
        levels_ok(1, algos, m / 2, k / 2, n / 2),
{
    lemma_halve_chunks(k);
    lemma_halve_chunks(n);
    assert(m % 2 == 0 && (m / 2) % 2 == 0 && m / 2 / 2 == m / 4) by {
        let z = m / 4;
        assert(m == 4 * z);
    }
    assert(divisible(2, m / 2, k / 2, n / 2));
    assert(levels_ok(0, algos, m / 4, k / 4, n / 4));
    reveal_with_fuel(levels_ok, 2);
}

/// `tgt += lhs * rhs` by the forty-nine products of four by four blocks
/// that Strassen's scheme gives when applied to its own blocks, each left
/// to the cascade `algos`.
pub fn addmul_decomp4x4<const ALIGN: usize, T, S1, S2>(
    tgt: &mut T,
    lhs: &S1,
    rhs: &S2,
    algos: &[AddMulAlgo],
) where T: GF2MatLikeMut<ALIGN>, S1: GF2MatLike<ALIGN>, S2: GF2MatLike<ALIGN>
    requires
        addmul_pre(old(tgt), lhs, rhs),
        ALIGN % WINDOW_ALIGN == 0,
        divisible(
            4,
            lhs.layout().nrows as int,
            rhs.layout().nrows as int,
            rhs.layout().max_ncols(ALIGN),
        ),
        cascade_ok(
            algos@,
            lhs.layout().nrows as int / 4,
            rhs.layout().nrows as int / 4,
            rhs.layout().max_ncols(ALIGN) / 4,
        ),
    ensures
        final(tgt).layout() == old(tgt).layout(),
        final(tgt).logical_ncols() == old(tgt).logical_ncols(),
        product_added(
            old(tgt).store(),
            final(tgt).store(),
            old(tgt).layout(),
            ALIGN,
            bits_of(lhs),
            bits_of(rhs),
            rhs.layout().nrows as int,
        ),
    decreases algos@.len(), 1int, 4int,
{
    proof {
        lemma_quarters(
            algos@,
            lhs.layout().nrows as int,
            rhs.layout().nrows as int,
            rhs.layout().max_ncols(ALIGN),
        );
    }
    strassen(tgt, lhs, rhs, 1, algos);
}

} // verus!
