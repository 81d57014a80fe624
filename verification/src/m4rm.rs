//! Multiplication by the Method of Four Russians: the rows of the right
//! factor are taken eight at a time, their 256 sums are tabulated in Gray
//! code order, and each byte of the left factor looks one of them up.
use crate::algebra::{dot, entry};
use crate::gf2mat::{bits_of, wf, AlignedGF2Mat, GF2MatLike, GF2MatLikeMut};
use crate::gray::{
    gray, gray_rank_table, inc_index, lemma_byte_word, lemma_dot_slice, lemma_gray_range,
    lemma_selected_flip, lemma_selected_none, selected_sum, MAX_CODE_LEN, MAX_TBL_SZ,
};
use crate::layout::{
    byte_bit, last_byte_clear, layout_bit, lemma_index_in_bounds, lemma_row_step,
    lemma_row_xor_bits, lemma_same_bytes_same_bits, lemma_stride_exact, lemma_widths,
    lemma_window_fits, lemma_xor_bits, product_added, row_byte, row_layout, unchanged_outside,
};
use crate::storage::valid_alignment;
use vstd::prelude::*;

verus! {

/// Fills the first `2^tbl_sz` rows of `tbl`: row `g` becomes the sum of
/// those of the `tbl_sz` rows of `src_mat` from `src_row` on that the bits
/// of the Gray code word of rank `g` name. Row 0 must be zero on entry.
pub fn tabulate_m4rm<const ALIGN: usize, T, S>(
    tbl: &mut T,
    src_mat: &S,
    src_row: usize,
    tbl_sz: usize,
) where T: GF2MatLikeMut<ALIGN>, S: GF2MatLike<ALIGN>
    requires
        wf(old(tbl)),
        wf(src_mat),
        tbl_sz <= MAX_TBL_SZ,
        src_row + tbl_sz <= src_mat.layout().nrows,
        (1usize << tbl_sz) <= old(tbl).layout().nrows,
        old(tbl).layout().nchunk_cols == src_mat.layout().nchunk_cols,
        forall|j: int|
            0 <= j < old(tbl).layout().max_ncols(ALIGN) ==> !#[trigger] layout_bit(
                old(tbl).store(),
                old(tbl).layout(),
                0,
                j,
            ),
    ensures
        final(tbl).layout() == old(tbl).layout(),
        final(tbl).logical_ncols() == old(tbl).logical_ncols(),
        unchanged_outside(
            old(tbl).store(),
            final(tbl).store(),
            old(tbl).layout().window(0, 0, 1usize << tbl_sz, old(tbl).layout().nchunk_cols),
            ALIGN,
        ),
        forall|g: int, j: int|
            0 <= g < (1usize << tbl_sz) && 0 <= j < old(tbl).layout().max_ncols(ALIGN)
                ==> #[trigger] layout_bit(final(tbl).store(), old(tbl).layout(), g, j)
                == selected_sum(gray(g as usize), bits_of(src_mat), src_row as int, j, tbl_sz as int),
{
    let ghost before = tbl.store();
    let ghost l = tbl.layout();
    let ghost ncols = tbl.logical_ncols();
    let ghost b = bits_of(src_mat);
    let size: usize = 1usize << tbl_sz;
    let ghost wl = l.window(0, 0, size, l.nchunk_cols);
    proof {
        assert(0 < (1usize << tbl_sz) <= 256) by (bit_vector)
            requires
                tbl_sz <= 8,
        ;
        assert(gray(0usize) == 0usize) by (bit_vector);
        assert((0 + l.nchunk_cols) * ALIGN == l.nbyte_cols(ALIGN));
        lemma_window_fits(l, ALIGN, before.len(), ALIGN, 0, 0, size, l.nchunk_cols);
        assert(wl.first_col == l.first_col && wl.first_row == l.first_row);
        assert forall|j: int| 0 <= j < l.max_ncols(ALIGN) implies #[trigger] layout_bit(
            before,
            l,
            0,
            j,
        ) == selected_sum(gray(0usize), b, src_row as int, j, tbl_sz as int) by {
            lemma_selected_none(b, src_row as int, j, tbl_sz as int);
        }
    }
    let mut i: usize = 1;
    while i < size
        invariant
            1 <= i <= size,
            size == (1usize << tbl_sz),
            size <= 256,
            tbl_sz <= 8,
            tbl.layout() == l,
            tbl.logical_ncols() == ncols,
            l.fits(ALIGN, before.len()),
            wl.fits(ALIGN, before.len()),
            wl == l.window(0, 0, size, l.nchunk_cols),
            wl.first_col == l.first_col && wl.first_row == l.first_row,
            wf(src_mat),
            b == bits_of(src_mat),
            src_row + tbl_sz <= src_mat.layout().nrows,
            size <= l.nrows,
            l.nchunk_cols == src_mat.layout().nchunk_cols,
            unchanged_outside(before, tbl.store(), wl, ALIGN),
            forall|g: int, j: int|
                0 <= g < i && 0 <= j < l.max_ncols(ALIGN) ==> #[trigger] layout_bit(
                    tbl.store(),
                    l,
                    g,
                    j,
                ) == selected_sum(gray(g as usize), b, src_row as int, j, tbl_sz as int),
        decreases size - i,
    {
        let ghost prev = tbl.store();
        let inc_idx = inc_index(i - 1);
        assert(inc_idx < tbl_sz);
        tbl.add_row_row_from_mat(src_mat, src_row + inc_idx, i - 1, i);
        proof {
            let cur = tbl.store();
            assert(row_layout(l, i as int) == row_layout(wl, i as int));
            lemma_row_step(before, prev, cur, wl, ALIGN, i as int);
            lemma_row_xor_bits(
                cur,
                l,
                ALIGN,
                i as int,
                prev,
                l,
                i - 1,
                src_mat.store(),
                src_mat.layout(),
                src_row + inc_idx,
            );
            assert forall|g: int, j: int|
                0 <= g < i + 1 && 0 <= j < l.max_ncols(ALIGN) implies #[trigger] layout_bit(
                cur,
                l,
                g,
                j,
            ) == selected_sum(gray(g as usize), b, src_row as int, j, tbl_sz as int) by {
                if g < i {
                    assert forall|c: int| 0 <= c < l.nbyte_cols(ALIGN) implies #[trigger] row_byte(
                        cur,
                        l,
                        g,
                        c,
                    ) == row_byte(prev, l, g, c) by {
                        assert(row_byte(cur, wl, g, c) == row_byte(prev, wl, g, c));
                    }
                    lemma_same_bytes_same_bits(cur, l, ALIGN, g, prev, l, g);
                } else {
                    lemma_selected_flip(
                        gray((i - 1) as usize),
                        inc_idx,
                        b,
                        src_row as int,
                        j,
                        tbl_sz as int,
                    );
                    assert(layout_bit(prev, l, i - 1, j) == selected_sum(
                        gray((i - 1) as usize),
                        b,
                        src_row as int,
                        j,
                        tbl_sz as int,
                    ));
                    assert(entry(b, src_row + inc_idx, j) == layout_bit(
                        src_mat.store(),
                        src_mat.layout(),
                        src_row + inc_idx,
                        j,
                    ));
                }
            }
        }
        i += 1;
    }
}

/// What the multiplication kernels ask of their operands: each lies inside
/// its buffer; the target has the rows of the left factor and the width of
/// the right factor; the left factor has a column for each row of the right
/// factor and, in the byte that holds the last of these columns, no bit set
/// behind it; and a lookup table as wide as the right factor can be
/// allocated.
pub open spec fn addmul_pre<
    const ALIGN: usize,
    T: GF2MatLike<ALIGN>,
    S1: GF2MatLike<ALIGN>,
    S2: GF2MatLike<ALIGN>,
>(tgt: &T, lhs: &S1, rhs: &S2) -> bool {
    &&& wf(tgt)
    &&& wf(lhs)
    &&& wf(rhs)
    &&& valid_alignment(ALIGN)
    &&& tgt.layout().nrows == lhs.layout().nrows
    &&& tgt.layout().nchunk_cols == rhs.layout().nchunk_cols
    &&& lhs.layout().max_ncols(ALIGN) >= rhs.layout().nrows
    &&& MAX_CODE_LEN * rhs.layout().nbyte_cols(ALIGN) <= isize::MAX
    &&& last_byte_clear(bits_of(lhs), lhs.layout().nrows as int, rhs.layout().nrows as int)
}

/// `tgt += lhs * rhs`, where `rhs` has as many rows as the product has
/// terms. The columns of `lhs` from there on are not read, but for those in
/// the byte that holds the last column read: they must be clear.
pub fn addmul_m4rm<const ALIGN: usize, T, S1, S2>(tgt: &mut T, lhs: &S1, rhs: &S2) where
    T: GF2MatLikeMut<ALIGN>,
    S1: GF2MatLike<ALIGN>,
    S2: GF2MatLike<ALIGN>,

    requires
        addmul_pre(old(tgt), lhs, rhs),
    ensures
        final(tgt).layout() == old(tgt).layout(),
        final(tgt).logical_ncols() == old(tgt).logical_ncols(),
        product_added(
            old(tgt).store(),
            final(tgt).store(),
            old(tgt).layout(),
            ALIGN,
            bits_of(lhs),
            bits_of(rhs),
            rhs.layout().nrows as int,
        ),
{
    let ghost before = tgt.store();
    let ghost l = tgt.layout();
    let ghost ncols = tgt.logical_ncols();
    let ghost a = bits_of(lhs);
    let ghost b = bits_of(rhs);
    let k = rhs.nrows();
    let m = lhs.nrows();
    let rank_tbl = gray_rank_table();
    proof {
        lemma_widths(rhs.layout(), ALIGN, rhs.store().len());
        lemma_widths(lhs.layout(), ALIGN, lhs.store().len());
        lemma_stride_exact(rhs.layout().nchunk_cols, ALIGN);
    }
    let mut tbl: AlignedGF2Mat<ALIGN> = AlignedGF2Mat::zero(MAX_CODE_LEN, rhs.max_ncols());
    let ghost tl = tbl.layout();
    proof {
        assert(tl.fits(ALIGN, tbl.store().len()));
        assert forall|j: int| 0 <= j < tl.max_ncols(ALIGN) implies !#[trigger] layout_bit(
            tbl.store(),
            tl,
            0,
            j,
        ) by {
            lemma_xor_bits(0u8, 0u8);
        }
    }
    let mut slice_start: usize = 0;
    while slice_start < k
        invariant
            slice_start <= k,
            slice_start % 8 == 0 || slice_start == k,
            k == rhs.layout().nrows,
            m == lhs.layout().nrows,
            m == l.nrows,
            wf(lhs),
            wf(rhs),
            a == bits_of(lhs),
            b == bits_of(rhs),
            lhs.layout().max_ncols(ALIGN) >= k,
            last_byte_clear(a, m as int, k as int),
            rank_tbl@.len() == MAX_CODE_LEN,
            forall|v: int| 0 <= v < MAX_CODE_LEN ==> gray(#[trigger] rank_tbl@[v] as usize) == v,
            tgt.layout() == l,
            tgt.logical_ncols() == ncols,
            l.fits(ALIGN, before.len()),
            l.nchunk_cols == rhs.layout().nchunk_cols,
            tbl.layout() == tl,
            tl.fits(ALIGN, tbl.store().len()),
            tl.nrows == MAX_CODE_LEN,
            tl.nchunk_cols == rhs.layout().nchunk_cols,
            forall|j: int|
                0 <= j < tl.max_ncols(ALIGN) ==> !#[trigger] layout_bit(tbl.store(), tl, 0, j),
            product_added(before, tgt.store(), l, ALIGN, a, b, slice_start as int),
        decreases k - slice_start,
    {
        let sub_tbl_sz = if k - slice_start < MAX_TBL_SZ {
            k - slice_start
        } else {
            MAX_TBL_SZ
        };
        proof {
            assert(0 < (1usize << sub_tbl_sz) <= 256) by (bit_vector)
                requires
                    sub_tbl_sz <= 8,
            ;
        }
        tabulate_m4rm(&mut tbl, rhs, slice_start, sub_tbl_sz);
        proof {
            assert(gray(0usize) == 0usize) by (bit_vector);
            assert forall|j: int| 0 <= j < tl.max_ncols(ALIGN) implies !#[trigger] layout_bit(
                tbl.store(),
                tl,
                0,
                j,
            ) by {
                lemma_selected_none(b, slice_start as int, j, sub_tbl_sz as int);
            }
        }
        let mut i: usize = 0;
        while i < m
            invariant
                i <= m,
                slice_start < k,
                slice_start % 8 == 0,
                sub_tbl_sz <= 8,
                slice_start + sub_tbl_sz <= k,
                sub_tbl_sz < 8 ==> slice_start + sub_tbl_sz == k,
                k == rhs.layout().nrows,
                m == lhs.layout().nrows,
                m == l.nrows,
                wf(lhs),
                wf(rhs),
                a == bits_of(lhs),
                b == bits_of(rhs),
                lhs.layout().max_ncols(ALIGN) >= k,
                last_byte_clear(a, m as int, k as int),
                rank_tbl@.len() == MAX_CODE_LEN,
                forall|v: int|
                    0 <= v < MAX_CODE_LEN ==> gray(#[trigger] rank_tbl@[v] as usize) == v,
                tgt.layout() == l,
                tgt.logical_ncols() == ncols,
                l.fits(ALIGN, before.len()),
                l.nchunk_cols == rhs.layout().nchunk_cols,
                tbl.layout() == tl,
                tl.fits(ALIGN, tbl.store().len()),
                tl.nrows == MAX_CODE_LEN,
                tl.nchunk_cols == rhs.layout().nchunk_cols,
                forall|g: int, j: int|
                    0 <= g < (1usize << sub_tbl_sz) && 0 <= j < tl.max_ncols(ALIGN)
                        ==> #[trigger] layout_bit(tbl.store(), tl, g, j) == selected_sum(
                        gray(g as usize),
                        b,
                        slice_start as int,
                        j,
                        sub_tbl_sz as int,
                    ),
                unchanged_outside(before, tgt.store(), l, ALIGN),
                forall|r: int, j: int|
                    0 <= r < i && 0 <= j < l.max_ncols(ALIGN) ==> #[trigger] layout_bit(
                        tgt.store(),
                        l,
                        r,
                        j,
                    ) == (layout_bit(before, l, r, j) != dot(a, b, r, j, slice_start + sub_tbl_sz)),
                forall|r: int, j: int|
                    i <= r < m && 0 <= j < l.max_ncols(ALIGN) ==> #[trigger] layout_bit(
                        tgt.store(),
                        l,
                        r,
                        j,
                    ) == (layout_bit(before, l, r, j) != dot(a, b, r, j, slice_start as int)),
            decreases m - i,
        {
            let ghost prev = tgt.store();
            proof {
                lemma_widths(lhs.layout(), ALIGN, lhs.store().len());
                lemma_index_in_bounds(lhs.layout(), ALIGN, lhs.store().len(), i as int);
            }
            let num = lhs.row_slice_unchecked(i)[slice_start / 8];
            let tbl_row = rank_tbl[num as usize] as usize;
            proof {
                let ll = lhs.layout();
                let c = (slice_start / 8) as int;
                assert(num == row_byte(lhs.store(), ll, i as int, c));
                lemma_byte_word(num, sub_tbl_sz);
                assert forall|t: int| 0 <= t < 8 implies byte_bit(num, t) == #[trigger] entry(
                    a,
                    i as int,
                    slice_start + t,
                ) by {
                    assert((slice_start + t) / 8 == c && (slice_start + t) % 8 == t);
                }
                assert forall|t: int| sub_tbl_sz <= t < 8 implies !#[trigger] byte_bit(
                    num,
                    t,
                ) by {
                    assert(!entry(a, i as int, slice_start + t));
                }
                assert(gray(tbl_row) == num as usize);
                lemma_gray_range(tbl_row, sub_tbl_sz);
            }
            tgt.add_row_from_mat(&tbl, tbl_row, i);
            proof {
                let cur = tgt.store();
                lemma_row_step(before, prev, cur, l, ALIGN, i as int);
                lemma_row_xor_bits(
                    cur,
                    l,
                    ALIGN,
                    i as int,
                    prev,
                    l,
                    i as int,
                    tbl.store(),
                    tl,
                    tbl_row as int,
                );
                assert forall|r: int, j: int|
                    0 <= r < m && 0 <= j < l.max_ncols(ALIGN) implies #[trigger] layout_bit(
                    cur,
                    l,
                    r,
                    j,
                ) == (layout_bit(before, l, r, j) != dot(
                    a,
                    b,
                    r,
                    j,
                    if r <= i {
                        slice_start + sub_tbl_sz
                    } else {
                        slice_start as int
                    },
                )) by {
                    if r == i {
                        lemma_dot_slice(
                            a,
                            b,
                            r,
                            j,
                            slice_start as int,
                            num as usize,
                            sub_tbl_sz as int,
                        );
                        assert(layout_bit(tbl.store(), tl, tbl_row as int, j) == selected_sum(
                            gray(tbl_row),
                            b,
                            slice_start as int,
                            j,
                            sub_tbl_sz as int,
                        ));
                    } else {
                        lemma_same_bytes_same_bits(cur, l, ALIGN, r, prev, l, r);
                    }
                }
            }
            i += 1;
        }
        slice_start += sub_tbl_sz;
    }
}

} // verus!
