//! Entry points that check the operands' dimensions before they add or
//! multiply, and say which dimensions did not fit.
use crate::algebra::entry;
use crate::gf2mat::{
    bits_of, wf, AlignedGF2Mat, GF2MatLike, GF2MatLikeMut, MatAddError, MatMulError,
};
use crate::gray::MAX_CODE_LEN;
use crate::layout::{
    last_byte_clear, layout_bit, lemma_rows_xor_bits, lemma_stride_for, lemma_widths, product_added,
    unchanged_outside,
};
use crate::mul::{addmul, STRASSEN_CUTOFF, WINDOW_ALIGN};
use vstd::prelude::*;

verus! {

/// Two owning matrices of the same number of columns have rows of the same
/// number of chunks.
pub proof fn lemma_same_width<const ALIGN: usize>(
    a: &AlignedGF2Mat<ALIGN>,
    b: &AlignedGF2Mat<ALIGN>,
)
    requires
        a.inv(),
        b.inv(),
        a.logical_ncols() == b.logical_ncols(),
    ensures
        a.layout().nchunk_cols == b.layout().nchunk_cols,
        a.layout().row_stride == b.layout().row_stride,
{
    let x = a.layout().nchunk_cols as int;
    let y = b.layout().nchunk_cols as int;
    let s = ALIGN as int;
    assert(x == y) by (nonlinear_arith)
        requires
            x * s == y * s,
            s > 0,
    ;
}

/// An owning matrix has room for its columns, and a canonical one has no
/// bit set behind them.
pub proof fn lemma_owned_width<const ALIGN: usize>(a: &AlignedGF2Mat<ALIGN>)
    requires
        a.inv(),
    ensures
        wf(a),
        a.logical_ncols() <= a.layout().max_ncols(ALIGN),
        a.canonical() ==> last_byte_clear(bits_of(a), a.layout().nrows as int, a.logical_ncols()),
{
    let l = a.layout();
    lemma_stride_for(a.logical_ncols() as usize, ALIGN);
    lemma_widths(l, ALIGN, a.store().len());
    if a.canonical() {
        let k = a.logical_ncols();
        assert forall|i: int, j: int|
            0 <= i < l.nrows && k <= j && (j / 8) * 8 < k implies !#[trigger] entry(
            bits_of(a),
            i,
            j,
        ) by {
            assert(j < l.max_ncols(ALIGN));
            assert(!layout_bit(a.store(), l, i, j));
        }
    }
}

impl<const ALIGN: usize> AlignedGF2Mat<ALIGN> {
    /// `self += lhs * rhs`, where the dimensions fit. Where the left factor
    /// has not as many columns as the right factor has rows, the result is
    /// `IncompatibleMatrices` with the factors' dimensions; where the
    /// product has not the dimensions of `self`, it is `DimMismatch` with
    /// the product's dimensions and those of `self`. In both cases `self`
    /// is left as it was.
    pub fn try_addmul(&mut self, lhs: &Self, rhs: &Self) -> (res: Result<(), MatMulError>)
        requires
            old(self).inv(),
            lhs.inv(),
            rhs.inv(),
            lhs.canonical(),
            MAX_CODE_LEN * rhs.layout().row_stride <= isize::MAX,
            lhs.layout().nrows >= STRASSEN_CUTOFF && rhs.layout().nrows >= STRASSEN_CUTOFF
                && rhs.layout().max_ncols(ALIGN) >= STRASSEN_CUTOFF ==> ALIGN % WINDOW_ALIGN == 0,
        ensures
            final(self).inv(),
            final(self).layout() == old(self).layout(),
            final(self).logical_ncols() == old(self).logical_ncols(),
            lhs.logical_ncols() != rhs.layout().nrows ==> res == Err::<(), MatMulError>(
                MatMulError::IncompatibleMatrices(
                    lhs.layout().nrows,
                    lhs.logical_ncols() as usize,
                    rhs.layout().nrows,
                    rhs.logical_ncols() as usize,
                ),
            ),
            lhs.logical_ncols() == rhs.layout().nrows && (old(self).layout().nrows
                != lhs.layout().nrows || old(self).logical_ncols() != rhs.logical_ncols()) ==> res
                == Err::<(), MatMulError>(
                MatMulError::DimMismatch(
                    lhs.layout().nrows,
                    rhs.logical_ncols() as usize,
                    old(self).layout().nrows,
                    old(self).logical_ncols() as usize,
                ),
            ),
            lhs.logical_ncols() == rhs.layout().nrows && old(self).layout().nrows
                == lhs.layout().nrows && old(self).logical_ncols() == rhs.logical_ncols() ==> res
                == Ok::<(), MatMulError>(()),
            res is Err ==> final(self).store() == old(self).store(),
            res is Ok ==> product_added(
                old(self).store(),
                final(self).store(),
                old(self).layout(),
                ALIGN,
                bits_of(lhs),
                bits_of(rhs),
                rhs.layout().nrows as int,
            ),
            res is Ok && old(self).canonical() && rhs.canonical() ==> final(self).canonical(),
    {
        if lhs.ncols() != rhs.nrows() {
            return Err(
                MatMulError::IncompatibleMatrices(
                    lhs.nrows(),
                    lhs.ncols(),
                    rhs.nrows(),
                    rhs.ncols(),
                ),
            );
        }
        if self.nrows() != lhs.nrows() || self.ncols() != rhs.ncols() {
            return Err(
                MatMulError::DimMismatch(lhs.nrows(), rhs.ncols(), self.nrows(), self.ncols()),
            );
        }
        let ghost before = self.store();
        let ghost l = self.layout();
        proof {
            lemma_same_width(&*self, rhs);
            lemma_owned_width(lhs);
            lemma_owned_width(rhs);
            lemma_owned_width(&*self);
        }
        addmul(self, lhs, rhs);
        proof {
            if old(self).canonical() && rhs.canonical() {
                crate::laws::law_padding_stays_clear(
                    before,
                    self.store(),
                    l,
                    ALIGN,
                    bits_of(lhs),
                    bits_of(rhs),
                    rhs.layout().nrows as int,
                    self.logical_ncols(),
                );
            }
        }
        Ok(())
    }

    /// `self += rhs`, where the two have the same dimensions; else the
    /// result is `IncompatibleMatrices` with both dimensions, and `self` is
    /// left as it was.
    pub fn try_add(&mut self, rhs: &Self) -> (res: Result<(), MatAddError>)
        requires
            old(self).inv(),
            rhs.inv(),
        ensures
            final(self).inv(),
            final(self).layout() == old(self).layout(),
            final(self).logical_ncols() == old(self).logical_ncols(),
            res is Ok <==> old(self).layout().nrows == rhs.layout().nrows && old(
                self,
            ).logical_ncols() == rhs.logical_ncols(),
            res matches Err(e) ==> e == MatAddError::IncompatibleMatrices(
                old(self).layout().nrows,
                old(self).logical_ncols() as usize,
                rhs.layout().nrows,
                rhs.logical_ncols() as usize,
            ) && final(self).store() == old(self).store(),
            res is Ok ==> unchanged_outside(
                old(self).store(),
                final(self).store(),
                old(self).layout(),
                ALIGN,
            ) && forall|i: int, j: int|
                0 <= i < old(self).layout().nrows && 0 <= j < old(self).layout().max_ncols(ALIGN)
                    ==> #[trigger] layout_bit(final(self).store(), old(self).layout(), i, j) == (
                layout_bit(old(self).store(), old(self).layout(), i, j) != layout_bit(
                    rhs.store(),
                    rhs.layout(),
                    i,
                    j,
                )),
            res is Ok && old(self).canonical() && rhs.canonical() ==> final(self).canonical(),
    {
        if self.nrows() != rhs.nrows() || self.ncols() != rhs.ncols() {
            return Err(
                MatAddError::IncompatibleMatrices(
                    self.nrows(),
                    self.ncols(),
                    rhs.nrows(),
                    rhs.ncols(),
                ),
            );
        }
        let ghost before = self.store();
        let ghost l = self.layout();
        proof {
            lemma_same_width(&*self, rhs);
        }
        self.add_unchecked(rhs);
        proof {
            lemma_rows_xor_bits(
                self.store(),
                l,
                ALIGN,
                l.nrows as int,
                before,
                l,
                rhs.store(),
                rhs.layout(),
            );
        }
        Ok(())
    }

    /// `self = lhs + rhs`, where the three have the same dimensions. Where
    /// the summands differ, the result is `IncompatibleMatrices` with
    /// their dimensions; where `self` differs from them, it is
    /// `DimMismatch` with the sum's dimensions and those of `self`. In both
    /// cases `self` is left as it was.
    pub fn try_set_to_sum(&mut self, lhs: &Self, rhs: &Self) -> (res: Result<(), MatAddError>)
        requires
            old(self).inv(),
            lhs.inv(),
            rhs.inv(),
        ensures
            final(self).inv(),
            final(self).layout() == old(self).layout(),
            final(self).logical_ncols() == old(self).logical_ncols(),
            lhs.layout().nrows != rhs.layout().nrows || lhs.logical_ncols() != rhs.logical_ncols()
                ==> res == Err::<(), MatAddError>(
                MatAddError::IncompatibleMatrices(
                    lhs.layout().nrows,
                    lhs.logical_ncols() as usize,
                    rhs.layout().nrows,
                    rhs.logical_ncols() as usize,
                ),
            ),
            lhs.layout().nrows == rhs.layout().nrows && lhs.logical_ncols() == rhs.logical_ncols()
                && (old(self).layout().nrows != lhs.layout().nrows || old(self).logical_ncols()
                != lhs.logical_ncols()) ==> res == Err::<(), MatAddError>(
                MatAddError::DimMismatch(
                    lhs.layout().nrows,
                    lhs.logical_ncols() as usize,
                    old(self).layout().nrows,
                    old(self).logical_ncols() as usize,
                ),
            ),
            lhs.layout().nrows == rhs.layout().nrows && lhs.logical_ncols() == rhs.logical_ncols()
                && old(self).layout().nrows == lhs.layout().nrows && old(self).logical_ncols()
                == lhs.logical_ncols() ==> res == Ok::<(), MatAddError>(()),
            res is Err ==> final(self).store() == old(self).store(),
            res is Ok ==> unchanged_outside(
                old(self).store(),
                final(self).store(),
                old(self).layout(),
                ALIGN,
            ) && forall|i: int, j: int|
                0 <= i < old(self).layout().nrows && 0 <= j < old(self).layout().max_ncols(ALIGN)
                    ==> #[trigger] layout_bit(final(self).store(), old(self).layout(), i, j) == (
                layout_bit(lhs.store(), lhs.layout(), i, j) != layout_bit(
                    rhs.store(),
                    rhs.layout(),
                    i,
                    j,
                )),
            res is Ok && lhs.canonical() && rhs.canonical() ==> final(self).canonical(),
    {
        if lhs.nrows() != rhs.nrows() || lhs.ncols() != rhs.ncols() {
            return Err(
                MatAddError::IncompatibleMatrices(
                    lhs.nrows(),
                    lhs.ncols(),
                    rhs.nrows(),
                    rhs.ncols(),
                ),
            );
        }
        if self.nrows() != lhs.nrows() || self.ncols() != lhs.ncols() {
            return Err(
                MatAddError::DimMismatch(lhs.nrows(), lhs.ncols(), self.nrows(), self.ncols()),
            );
        }
        let ghost l = self.layout();
        proof {
            lemma_same_width(&*self, lhs);
            lemma_same_width(&*self, rhs);
        }
        self.set_to_sum_unchecked(lhs, rhs);
        proof {
            lemma_rows_xor_bits(
                self.store(),
                l,
                ALIGN,
                l.nrows as int,
                lhs.store(),
                lhs.layout(),
                rhs.store(),
                rhs.layout(),
            );
        }
        Ok(())
    }
}

} // verus!
