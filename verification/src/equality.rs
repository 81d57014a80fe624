//! Equality of owning matrices: the same dimensions and the same bits in
//! every column of the matrix. Padding is not compared.
use crate::gf2mat::{AlignedGF2Mat, GF2MatLike};
use crate::layout::layout_bit;
use vstd::prelude::*;
use vstd::std_specs::cmp::PartialEqSpecImpl;

verus! {

/// Whether two matrices have the same dimensions and the same bit in each
/// row and column.
pub open spec fn same_matrix<const ALIGN: usize>(
    a: &AlignedGF2Mat<ALIGN>,
    b: &AlignedGF2Mat<ALIGN>,
) -> bool {
    &&& a.layout().nrows == b.layout().nrows
    &&& a.logical_ncols() == b.logical_ncols()
    &&& forall|i: int, j: int|
        0 <= i < a.layout().nrows && 0 <= j < a.logical_ncols() ==> #[trigger] layout_bit(
            a.store(),
            a.layout(),
            i,
            j,
        ) == layout_bit(b.store(), b.layout(), i, j)
}

/// Two matrices are the same where they have the same number of columns
/// and the same rows.
pub proof fn lemma_same_matrix<const ALIGN: usize>(
    a: &AlignedGF2Mat<ALIGN>,
    b: &AlignedGF2Mat<ALIGN>,
)
    requires
        0 <= a.logical_ncols(),
        0 <= b.logical_ncols(),
    ensures
        same_matrix(a, b) <==> a.logical_ncols() == b.logical_ncols() && a@ == b@,
{
    if same_matrix(a, b) {
        assert(a@ =~~= b@);
    }
    if a.logical_ncols() == b.logical_ncols() && a@ == b@ {
        assert(a@.len() == b@.len());
        assert forall|i: int, j: int|
            0 <= i < a.layout().nrows && 0 <= j < a.logical_ncols() implies #[trigger] layout_bit(
            a.store(),
            a.layout(),
            i,
            j,
        ) == layout_bit(b.store(), b.layout(), i, j) by {
            assert(a@[i][j] == b@[i][j]);
        }
    }
}

impl<const ALIGN: usize> PartialEq for AlignedGF2Mat<ALIGN> {
    fn eq(&self, other: &AlignedGF2Mat<ALIGN>) -> (r: bool) {
        let nrows = self.nrows();
        let ncols = self.ncols();
        if nrows != other.nrows() || ncols != other.ncols() {
            return false;
        }
        let mut i: usize = 0;
        while i < nrows
            invariant
                i <= nrows,
                nrows == self.layout().nrows,
                nrows == other.layout().nrows,
                ncols == self.logical_ncols(),
                ncols == other.logical_ncols(),
                forall|r: int, c: int|
                    0 <= r < i && 0 <= c < ncols ==> #[trigger] layout_bit(
                        self.store(),
                        self.layout(),
                        r,
                        c,
                    ) == layout_bit(other.store(), other.layout(), r, c),
            decreases nrows - i,
        {
            let mut j: usize = 0;
            while j < ncols
                invariant
                    i < nrows,
                    j <= ncols,
                    nrows == self.layout().nrows,
                    ncols == self.logical_ncols(),
                    forall|r: int, c: int|
                        (0 <= r < i && 0 <= c < ncols) || (r == i && 0 <= c < j)
                            ==> #[trigger] layout_bit(self.store(), self.layout(), r, c)
                            == layout_bit(other.store(), other.layout(), r, c),
                decreases ncols - j,
            {
                if self.bit_or_zero(i, j) != other.bit_or_zero(i, j) {
                    return false;
                }
                j += 1;
            }
            i += 1;
        }
        true
    }
}

impl<const ALIGN: usize> PartialEqSpecImpl for AlignedGF2Mat<ALIGN> {
    open spec fn obeys_eq_spec() -> bool {
        true
    }

    open spec fn eq_spec(&self, other: &AlignedGF2Mat<ALIGN>) -> bool {
        same_matrix(self, other)
    }
}

} // verus!
