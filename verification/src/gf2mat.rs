//! Bit-packed matrices over GF(2): the owning matrix, windows into a matrix,
//! and the two traits through which the multiplication kernels see them.
use crate::entropy::random_byte;
use crate::layout::{
    byte_bit, cell, layout_bit, layout_bits, lemma_grid_bytes, lemma_grid_place,
    lemma_index_in_bounds, lemma_mask_bits, lemma_row_replaced, lemma_row_step, lemma_rows_apart,
    lemma_set_bit, lemma_stride_exact, lemma_stride_for, lemma_widths, lemma_window_fits,
    lemma_xor_bits, row_byte, row_is_xor, row_layout, rows_are_copy, rows_are_xor, rows_are_zero,
    stride_for, unchanged_outside, with_bit, Layout,
};
use crate::storage::{
    buffer_bytes, bytes_as_mut_slice, bytes_as_slice, empty_bytes, valid_alignment, zeroed_bytes,
    AlignedBytes,
};
use rand::rngs::ThreadRng;
use vstd::prelude::*;
use vstd::slice::slice_subrange;

verus! {

/// Why two matrices cannot be multiplied into a third.
#[derive(Debug, Clone, Copy, PartialEq, Eq, Structural)]
pub enum MatMulError {
    /// The factors' dimensions: rows and columns of the left, then of the right.
    IncompatibleMatrices(usize, usize, usize, usize),
    /// The product's dimensions, then those of the matrix meant to hold it.
    DimMismatch(usize, usize, usize, usize),
}

/// Why two matrices cannot be added into a third.
#[derive(Debug, Clone, Copy, PartialEq, Eq, Structural)]
pub enum MatAddError {
    /// The summands' dimensions: rows and columns of the left, then of the right.
    IncompatibleMatrices(usize, usize, usize, usize),
    /// The sum's dimensions, then those of the matrix meant to hold it.
    DimMismatch(usize, usize, usize, usize),
}

/// Why a bit of a matrix cannot be reached.
#[derive(Debug, Clone, Copy, PartialEq, Eq, Structural)]
pub enum MatAccessError {
    /// The position asked for, then the matrix's dimensions.
    OutOfBounds(usize, usize, usize, usize),
}

/// Size in bytes of a cache line, the alignment of an owning matrix.
pub const CACHELINE_SZ: usize = 0x80;

/// What every matrix-like value offers: its geometry and read access to its
/// rows. `ALIGN` is the size in bytes of a column chunk.
pub trait GF2MatLike<const ALIGN: usize> {
    /// The buffer that holds the matrix, which may hold more than the matrix.
    spec fn store(&self) -> Seq<u8>;

    /// Where the matrix lies in its buffer.
    spec fn layout(&self) -> Layout;

    /// Number of bit columns that belong to the matrix; the columns from
    /// there on are padding.
    spec fn logical_ncols(&self) -> int;

    fn nrows(&self) -> (n: usize)
        ensures
            n == self.layout().nrows,
    ;

    fn nchunk_cols(&self) -> (n: usize)
        ensures
            n == self.layout().nchunk_cols,
    ;

    fn row_stride(&self) -> (n: usize)
        ensures
            n == self.layout().row_stride,
    ;

    /// Row of the buffer that holds row 0.
    fn first_row(&self) -> (n: usize)
        ensures
            n == self.layout().first_row,
    ;

    /// Byte of a buffer row at which the matrix's rows start.
    fn first_col(&self) -> (n: usize)
        ensures
            n == self.layout().first_col,
    ;

    /// The whole backing buffer.
    fn data(&self) -> (s: &[u8])
        ensures
            s@ == self.store(),
    ;

    /// Number of bit columns, padding included.
    fn max_ncols(&self) -> (n: usize)
        requires
            self.layout().fits(ALIGN, self.store().len()),
        ensures
            n == self.layout().max_ncols(ALIGN),
    {
        proof {
            lemma_widths(self.layout(), ALIGN, self.store().len());
        }
        self.nchunk_cols() * ALIGN * 8
    }

    /// Number of bytes in a row.
    fn nbyte_cols(&self) -> (n: usize)
        requires
            self.layout().fits(ALIGN, self.store().len()),
        ensures
            n == self.layout().nbyte_cols(ALIGN),
    {
        proof {
            lemma_widths(self.layout(), ALIGN, self.store().len());
        }
        self.nchunk_cols() * ALIGN
    }

    /// The bytes of row `i`.
    fn row_slice_unchecked(&self, i: usize) -> (row: &[u8])
        requires
            self.layout().fits(ALIGN, self.store().len()),
            i < self.layout().nrows,
        ensures
            row@ == self.store().subrange(
                self.layout().index(i as int, 0),
                self.layout().index(i as int, 0) + self.layout().nbyte_cols(ALIGN),
            ),
    {
        proof {
            lemma_widths(self.layout(), ALIGN, self.store().len());
            lemma_index_in_bounds(self.layout(), ALIGN, self.store().len(), i as int);
        }
        let start = (self.first_row() + i) * self.row_stride() + self.first_col();
        let len = self.nbyte_cols();
        slice_subrange(self.data(), start, start + len)
    }

    /// The window of `nrows` rows and `nchunk_cols` chunks of `WINDOW_ALIGN`
    /// bytes whose first row is `row` and whose first chunk is `chunk_col`.
    /// It shares the matrix's storage.
    fn get_window_unchecked<const WINDOW_ALIGN: usize>(
        &self,
        row: usize,
        chunk_col: usize,
        nrows: usize,
        nchunk_cols: usize,
    ) -> (w: GF2MatWindow<'_, WINDOW_ALIGN>)
        requires
            self.layout().fits(ALIGN, self.store().len()),
            WINDOW_ALIGN > 0,
            ALIGN % WINDOW_ALIGN == 0,
            row + nrows <= self.layout().nrows,
            (chunk_col + nchunk_cols) * WINDOW_ALIGN <= self.layout().nbyte_cols(ALIGN),
        ensures
            w.data@ == self.store(),
            w.layout == self.layout().window(row, chunk_col * WINDOW_ALIGN, nrows, nchunk_cols),
            w.layout.fits(WINDOW_ALIGN, w.data@.len()),
    {
        proof {
            lemma_widths(self.layout(), ALIGN, self.store().len());
            lemma_window_fits(
                self.layout(),
                ALIGN,
                self.store().len(),
                WINDOW_ALIGN,
                row,
                chunk_col,
                nrows,
                nchunk_cols,
            );
        }
        GF2MatWindow {
            layout: Layout {
                nrows,
                nchunk_cols,
                row_stride: self.row_stride(),
                first_row: self.first_row() + row,
                first_col: self.first_col() + chunk_col * WINDOW_ALIGN,
            },
            data: self.data(),
        }
    }

    /// The grid of `NBLOCK_ROWS` by `NBLOCK_COLS` windows of `nrows` rows
    /// and `nchunk_cols` chunks each that lie side by side from the
    /// matrix's first row and column on: the window in row `r` and column
    /// `c` of the grid starts at row `nrows * r` and chunk `nchunk_cols * c`.
    fn division_unchecked<
        const WINDOW_ALIGN: usize,
        const NBLOCK_ROWS: usize,
        const NBLOCK_COLS: usize,
    >(&self, nrows: usize, nchunk_cols: usize) -> (grid: Vec<
        Vec<GF2MatWindow<'_, WINDOW_ALIGN>>,
    >)
        requires
            self.layout().fits(ALIGN, self.store().len()),
            WINDOW_ALIGN > 0,
            ALIGN % WINDOW_ALIGN == 0,
            nrows * NBLOCK_ROWS <= self.layout().nrows,
            nchunk_cols * NBLOCK_COLS * WINDOW_ALIGN <= self.layout().nbyte_cols(ALIGN),
        ensures
            grid@.len() == NBLOCK_ROWS,
            forall|r: int| 0 <= r < NBLOCK_ROWS ==> (#[trigger] grid@[r])@.len() == NBLOCK_COLS,
            forall|r: int, c: int|
                0 <= r < NBLOCK_ROWS && 0 <= c < NBLOCK_COLS ==> {
                    let w = #[trigger] grid@[r]@[c];
                    &&& w.data@ == self.store()
                    &&& w.layout == self.layout().window(
                        (nrows * r) as usize,
                        nchunk_cols * c * WINDOW_ALIGN,
                        nrows,
                        nchunk_cols,
                    )
                    &&& w.layout.fits(WINDOW_ALIGN, w.data@.len())
                },
    {
        let mut grid: Vec<Vec<GF2MatWindow<'_, WINDOW_ALIGN>>> = Vec::new();
        let mut r: usize = 0;
        while r < NBLOCK_ROWS
            invariant
                r <= NBLOCK_ROWS,
                self.layout().fits(ALIGN, self.store().len()),
                WINDOW_ALIGN > 0,
                ALIGN % WINDOW_ALIGN == 0,
                nrows * NBLOCK_ROWS <= self.layout().nrows,
                nchunk_cols * NBLOCK_COLS * WINDOW_ALIGN <= self.layout().nbyte_cols(ALIGN),
                grid@.len() == r,
                forall|i: int| 0 <= i < r ==> (#[trigger] grid@[i])@.len() == NBLOCK_COLS,
                forall|i: int, c: int|
                    0 <= i < r && 0 <= c < NBLOCK_COLS ==> {
                        let w = #[trigger] grid@[i]@[c];
                        &&& w.data@ == self.store()
                        &&& w.layout == self.layout().window(
                            (nrows * i) as usize,
                            nchunk_cols * c * WINDOW_ALIGN,
                            nrows,
                            nchunk_cols,
                        )
                        &&& w.layout.fits(WINDOW_ALIGN, w.data@.len())
                    },
            decreases NBLOCK_ROWS - r,
        {
            let mut row: Vec<GF2MatWindow<'_, WINDOW_ALIGN>> = Vec::new();
            proof {
                lemma_grid_place(nrows as int, r as int, NBLOCK_ROWS as int);
            }
            let first_row = nrows * r;
            let mut c: usize = 0;
            while c < NBLOCK_COLS
                invariant
                    c <= NBLOCK_COLS,
                    r < NBLOCK_ROWS,
                    first_row == nrows * r,
                    first_row + nrows <= self.layout().nrows,
                    self.layout().fits(ALIGN, self.store().len()),
                    WINDOW_ALIGN > 0,
                    ALIGN % WINDOW_ALIGN == 0,
                    nchunk_cols * NBLOCK_COLS * WINDOW_ALIGN <= self.layout().nbyte_cols(ALIGN),
                    row@.len() == c,
                    forall|t: int|
                        0 <= t < c ==> {
                            let w = #[trigger] row@[t];
                            &&& w.data@ == self.store()
                            &&& w.layout == self.layout().window(
                                first_row,
                                nchunk_cols * t * WINDOW_ALIGN,
                                nrows,
                                nchunk_cols,
                            )
                            &&& w.layout.fits(WINDOW_ALIGN, w.data@.len())
                        },
                decreases NBLOCK_COLS - c,
            {
                proof {
                    lemma_widths(self.layout(), ALIGN, self.store().len());
                    lemma_grid_place(nchunk_cols as int, c as int, NBLOCK_COLS as int);
                    lemma_grid_bytes(
                        nchunk_cols as int,
                        c as int,
                        NBLOCK_COLS as int,
                        WINDOW_ALIGN as int,
                    );
                }
                let w = self.get_window_unchecked::<WINDOW_ALIGN>(
                    first_row,
                    nchunk_cols * c,
                    nrows,
                    nchunk_cols,
                );
                row.push(w);
                c += 1;
            }
            grid.push(row);
            r += 1;
        }
        grid
    }
}

/// A read-only window into a matrix: a rectangle of its bits, sharing its
/// storage. Any number of such windows may look at the same matrix.
pub struct GF2MatWindow<'a, const ALIGN: usize> {
    /// Where the window lies in the buffer.
    pub layout: Layout,
    /// The buffer of the matrix that the window looks into.
    pub data: &'a [u8],
}

impl<'a, const ALIGN: usize> GF2MatLike<ALIGN> for GF2MatWindow<'a, ALIGN> {
    open spec fn store(&self) -> Seq<u8> {
        self.data@
    }

    open spec fn layout(&self) -> Layout {
        self.layout
    }

    open spec fn logical_ncols(&self) -> int {
        self.layout.max_ncols(ALIGN)
    }

    fn nrows(&self) -> (n: usize) {
        self.layout.nrows
    }

    fn nchunk_cols(&self) -> (n: usize) {
        self.layout.nchunk_cols
    }

    fn row_stride(&self) -> (n: usize) {
        self.layout.row_stride
    }

    fn first_row(&self) -> (n: usize) {
        self.layout.first_row
    }

    fn first_col(&self) -> (n: usize) {
        self.layout.first_col
    }

    fn data(&self) -> (s: &[u8]) {
        self.data
    }
}

/// A matrix that owns its buffer. Each row takes `row_stride` bytes, a
/// multiple of `ALIGN`; of the bits of a row only the first `ncols` belong
/// to the matrix, the rest is padding.
pub struct AlignedGF2Mat<const ALIGN: usize> {
    nrows: usize,
    ncols: usize,
    row_stride: usize,
    data: AlignedBytes,
}

/// The matrix type in common use, aligned to cache lines.
pub type GF2Mat = AlignedGF2Mat<CACHELINE_SZ>;

impl<const ALIGN: usize> GF2MatLike<ALIGN> for AlignedGF2Mat<ALIGN> {
    closed spec fn store(&self) -> Seq<u8> {
        buffer_bytes(self.data)
    }

    closed spec fn layout(&self) -> Layout {
        Layout {
            nrows: self.nrows,
            nchunk_cols: if ALIGN > 0 {
                self.row_stride / ALIGN
            } else {
                0
            },
            row_stride: self.row_stride,
            first_row: 0,
            first_col: 0,
        }
    }

    closed spec fn logical_ncols(&self) -> int {
        self.ncols as int
    }

    fn nrows(&self) -> (n: usize) {
        self.nrows
    }

    fn nchunk_cols(&self) -> (n: usize) {
        if ALIGN > 0 {
            self.row_stride / ALIGN
        } else {
            0
        }
    }

    fn row_stride(&self) -> (n: usize) {
        self.row_stride
    }

    fn first_row(&self) -> (n: usize) {
        0
    }

    fn first_col(&self) -> (n: usize) {
        0
    }

    fn data(&self) -> (s: &[u8]) {
        bytes_as_slice(&self.data)
    }
}

impl<const ALIGN: usize> View for AlignedGF2Mat<ALIGN> {
    type V = Seq<Seq<bool>>;

    /// The matrix as its rows, each as the bits of its columns.
    open spec fn view(&self) -> Seq<Seq<bool>> {
        Seq::new(
            self.layout().nrows as nat,
            |i: int|
                Seq::new(
                    self.logical_ncols() as nat,
                    |j: int| layout_bit(self.store(), self.layout(), i, j),
                ),
        )
    }
}

impl<const ALIGN: usize> AlignedGF2Mat<ALIGN> {
    /// The owning matrix's invariant: its buffer is exactly its rows, which
    /// start at the buffer's start and are as wide as its columns need,
    /// rounded up to whole chunks.
    pub open spec fn inv(&self) -> bool {
        let l = self.layout();
        &&& valid_alignment(ALIGN)
        &&& l.fits(ALIGN, self.store().len())
        &&& l.first_row == 0
        &&& l.first_col == 0
        &&& 0 <= self.logical_ncols() <= usize::MAX
        &&& l.row_stride == stride_for(self.logical_ncols() as usize, ALIGN)
        &&& l.nchunk_cols * ALIGN == l.row_stride
        &&& self.store().len() == l.nrows * l.row_stride
    }

    /// Every bit behind the last column of the matrix is clear.
    pub open spec fn canonical(&self) -> bool {
        forall|i: int, j: int|
            0 <= i < self.layout().nrows && self.logical_ncols() <= j < self.layout().max_ncols(
                ALIGN,
            ) ==> !#[trigger] layout_bit(self.store(), self.layout(), i, j)
    }

    /// The all-zero matrix of `nrows` rows and `ncols` columns.
    pub fn zero(nrows: usize, ncols: usize) -> (mat: Self)
        requires
            valid_alignment(ALIGN),
            stride_for(ncols, ALIGN) * 8 <= usize::MAX,
            nrows * stride_for(ncols, ALIGN) <= isize::MAX,
        ensures
            mat.inv(),
            mat.canonical(),
            mat.layout() == (Layout {
                nrows,
                nchunk_cols: (stride_for(ncols, ALIGN) / (ALIGN as int)) as usize,
                row_stride: stride_for(ncols, ALIGN) as usize,
                first_row: 0,
                first_col: 0,
            }),
            mat.logical_ncols() == ncols,
            mat.store() == Seq::new((nrows * stride_for(ncols, ALIGN)) as nat, |i: int| 0u8),
            forall|i: int, j: int| !#[trigger] layout_bit(mat.store(), mat.layout(), i, j),
            mat@ == Seq::new(nrows as nat, |i: int| Seq::new(ncols as nat, |j: int| false)),
    {
        proof {
            lemma_stride_for(ncols, ALIGN);
            lemma_xor_bits(0u8, 0u8);
        }
        let nbytes = ncols / 8 + if ncols % 8 == 0 {
            0
        } else {
            1
        };
        let nchunks = nbytes / ALIGN + if nbytes % ALIGN == 0 {
            0
        } else {
            1
        };
        let row_stride = nchunks * ALIGN;
        let data = zeroed_bytes(ALIGN, nrows * row_stride);
        let mat = Self { nrows, ncols, row_stride, data };
        proof {
            assert(mat@ =~~= Seq::new(nrows as nat, |i: int| Seq::new(ncols as nat, |j: int| false)));
        }
        mat
    }

    /// Number of columns of the matrix.
    pub fn ncols(&self) -> (n: usize)
        ensures
            n == self.logical_ncols(),
    {
        self.ncols
    }

    /// Bit `j` of row `i`.
    pub fn get_unchecked(&self, i: usize, j: usize) -> (bit: bool)
        requires
            self.inv(),
            i < self.layout().nrows,
            j < self.logical_ncols(),
        ensures
            bit == layout_bit(self.store(), self.layout(), i as int, j as int),
    {
        proof {
            lemma_stride_for(self.ncols, ALIGN);
            lemma_index_in_bounds(self.layout(), ALIGN, self.store().len(), i as int);
        }
        let byte_idx = j / 8;
        let bit_idx = (j % 8) as u8;
        let byte = self.row_slice_unchecked(i)[byte_idx];
        (byte >> bit_idx) & 1 == 1
    }

    /// Bit `j` of row `i`, and zero where the buffer has no byte for it.
    pub fn bit_or_zero(&self, i: usize, j: usize) -> (bit: bool)
        ensures
            bit == layout_bit(self.store(), self.layout(), i as int, j as int),
    {
        let data = bytes_as_slice(&self.data);
        let len = data.len();
        let bit_idx = (j % 8) as u8;
        let ghost s = self.row_stride as int;
        let ghost idx = i * s + j / 8;
        proof {
            lemma_xor_bits(0u8, 0u8);
            assert(0 <= i * s) by (nonlinear_arith)
                requires
                    0 <= i,
                    0 <= s,
            ;
            assert(self.layout().first_row + i == i && self.layout().first_col + j / 8 == j / 8);
            assert(layout_bit(self.store(), self.layout(), i as int, j as int) == byte_bit(
                cell(self.store(), self.row_stride, i as int, (j / 8) as int),
                (j % 8) as int,
            ));
        }
        let start = match i.checked_mul(self.row_stride) {
            Some(x) => x,
            None => {
                return false;
            },
        };
        let idx = match start.checked_add(j / 8) {
            Some(x) => x,
            None => {
                return false;
            },
        };
        if idx < len {
            (data[idx] >> bit_idx) & 1 == 1
        } else {
            false
        }
    }

    /// Bit `j` of row `i`, or the position and the matrix's dimensions
    /// where it has no such bit.
    pub fn try_get(&self, i: usize, j: usize) -> (res: Result<bool, MatAccessError>)
        requires
            self.inv(),
        ensures
            i < self.layout().nrows && j < self.logical_ncols() ==> res == Ok::<
                bool,
                MatAccessError,
            >(layout_bit(self.store(), self.layout(), i as int, j as int)),
            !(i < self.layout().nrows && j < self.logical_ncols()) ==> res == Err::<
                bool,
                MatAccessError,
            >(
                MatAccessError::OutOfBounds(
                    i,
                    j,
                    self.layout().nrows,
                    self.logical_ncols() as usize,
                ),
            ),
    {
        if i >= self.nrows || j >= self.ncols {
            Err(MatAccessError::OutOfBounds(i, j, self.nrows, self.ncols))
        } else {
            Ok(self.get_unchecked(i, j))
        }
    }

    /// Sets bit `j` of row `i` to `val`.
    pub fn set_unchecked(&mut self, i: usize, j: usize, val: bool)
        requires
            old(self).inv(),
            i < old(self).layout().nrows,
            j < old(self).logical_ncols(),
        ensures
            final(self).inv(),
            final(self).layout() == old(self).layout(),
            final(self).logical_ncols() == old(self).logical_ncols(),
            forall|r: int, c: int|
                0 <= r < old(self).layout().nrows && 0 <= c < old(self).layout().max_ncols(ALIGN)
                    ==> #[trigger] layout_bit(final(self).store(), old(self).layout(), r, c) == (
                if r == i && c == j {
                    val
                } else {
                    layout_bit(old(self).store(), old(self).layout(), r, c)
                }),
    {
        let ghost before = self.store();
        let ghost l = self.layout();
        proof {
            lemma_stride_for(self.ncols, ALIGN);
            lemma_widths(l, ALIGN, before.len());
            lemma_index_in_bounds(l, ALIGN, before.len(), i as int);
        }
        let byte_idx = j / 8;
        let bit_idx = (j % 8) as u8;
        let row = self.row_slice_mut_unchecked(i);
        let ghost old_row = row@;
        let byte = row[byte_idx];
        let new_byte = if val {
            byte | (1u8 << bit_idx)
        } else {
            byte & !(1u8 << bit_idx)
        };
        row[byte_idx] = new_byte;
        proof {
            let cur = self.store();
            lemma_row_replaced(before, cur, row@, l, ALIGN, i as int);
            lemma_row_step(before, before, cur, l, ALIGN, i as int);
            lemma_set_bit(byte, bit_idx, val);
            assert forall|r: int, c: int|
                0 <= r < l.nrows && 0 <= c < l.max_ncols(ALIGN) implies #[trigger] layout_bit(
                cur,
                l,
                r,
                c,
            ) == (if r == i && c == j {
                val
            } else {
                layout_bit(before, l, r, c)
            }) by {
                if r == i {
                    assert(row_byte(cur, l, r, c / 8) == row@[c / 8]);
                    assert(row_byte(before, l, r, c / 8) == old_row[c / 8]);
                    assert(new_byte == with_bit(byte, bit_idx, val));
                } else {
                    assert(row_byte(cur, l, r, c / 8) == row_byte(before, l, r, c / 8));
                }
            }
        }
    }

    /// Sets bit `j` of row `i` to `val`, or returns the position and the
    /// matrix's dimensions where it has no such bit.
    pub fn try_set(&mut self, i: usize, j: usize, val: bool) -> (res: Result<(), MatAccessError>)
        requires
            old(self).inv(),
        ensures
            final(self).inv(),
            final(self).layout() == old(self).layout(),
            final(self).logical_ncols() == old(self).logical_ncols(),
            res is Ok <==> i < old(self).layout().nrows && j < old(self).logical_ncols(),
            res matches Err(e) ==> e == MatAccessError::OutOfBounds(
                i,
                j,
                old(self).layout().nrows,
                old(self).logical_ncols() as usize,
            ) && final(self).store() == old(self).store(),
            res is Ok ==> forall|r: int, c: int|
                0 <= r < old(self).layout().nrows && 0 <= c < old(self).layout().max_ncols(ALIGN)
                    ==> #[trigger] layout_bit(final(self).store(), old(self).layout(), r, c) == (
                if r == i && c == j {
                    val
                } else {
                    layout_bit(old(self).store(), old(self).layout(), r, c)
                }),
    {
        if i >= self.nrows || j >= self.ncols {
            return Err(MatAccessError::OutOfBounds(i, j, self.nrows, self.ncols));
        }
        self.set_unchecked(i, j, val);
        Ok(())
    }

    /// Clears every bit behind the last column: in each row, the bits of
    /// the last byte in use that belong to no column, and the bytes after
    /// it. The bits of the matrix's columns stay as they are.
    pub fn clear_padding(&mut self)
        requires
            old(self).inv(),
        ensures
            final(self).inv(),
            final(self).canonical(),
            final(self).layout() == old(self).layout(),
            final(self).logical_ncols() == old(self).logical_ncols(),
            forall|i: int, j: int|
                0 <= i < old(self).layout().nrows && 0 <= j < old(self).logical_ncols()
                    ==> #[trigger] layout_bit(final(self).store(), old(self).layout(), i, j)
                    == layout_bit(old(self).store(), old(self).layout(), i, j),
    {
        let ghost before = self.store();
        let ghost l = self.layout();
        let ncols = self.ncols;
        let nrows = self.nrows;
        proof {
            lemma_stride_for(ncols, ALIGN);
            lemma_widths(l, ALIGN, before.len());
        }
        let rem = (ncols % 8) as u8;
        let full = ncols / 8;
        let used = full + if rem == 0 {
            0
        } else {
            1
        };
        let mut i: usize = 0;
        while i < nrows
            invariant
                i <= nrows,
                nrows == l.nrows,
                ncols == self.logical_ncols(),
                rem == ncols % 8,
                full == ncols / 8,
                used == full + if rem == 0 {
                    0int
                } else {
                    1int
                },
                used <= l.nbyte_cols(ALIGN),
                self.layout() == l,
                old(self).inv(),
                before == old(self).store(),
                l == old(self).layout(),
                ncols == old(self).logical_ncols(),
                unchanged_outside(before, self.store(), l, ALIGN),
                forall|r: int, c: int|
                    i <= r < nrows && 0 <= c < l.nbyte_cols(ALIGN) ==> #[trigger] row_byte(
                        self.store(),
                        l,
                        r,
                        c,
                    ) == row_byte(before, l, r, c),
                forall|r: int, j: int|
                    0 <= r < i && 0 <= j < l.max_ncols(ALIGN) ==> #[trigger] layout_bit(
                        self.store(),
                        l,
                        r,
                        j,
                    ) == (j < ncols && layout_bit(before, l, r, j)),
            decreases nrows - i,
        {
            let ghost prev = self.store();
            proof {
                lemma_index_in_bounds(l, ALIGN, before.len(), i as int);
            }
            let row = self.row_slice_mut_unchecked(i);
            let ghost old_row = row@;
            let n = row.len();
            let mask = if rem != 0 {
                0xffu8 >> (8 - rem)
            } else {
                0xffu8
            };
            if rem != 0 {
                row[full] = row[full] & mask;
            }
            let ghost masked = row@;
            assert(masked.len() == n);
            assert(forall|t: int| 0 <= t < n && t != full ==> masked[t] == old_row[t]);
            assert(rem != 0 ==> masked[full as int] == old_row[full as int] & mask);
            let mut c = used;
            while c < n
                invariant
                    used <= c <= n,
                    n == row@.len(),
                    n == masked.len(),
                    forall|t: int| 0 <= t < used ==> row@[t] == masked[t],
                    forall|t: int| used <= t < c ==> row@[t] == 0u8,
                decreases n - c,
            {
                row[c] = 0;
                c += 1;
            }
            proof {
                let cur = self.store();
                lemma_row_replaced(prev, cur, row@, l, ALIGN, i as int);
                lemma_row_step(before, prev, cur, l, ALIGN, i as int);
                assert forall|j: int| 0 <= j < l.max_ncols(ALIGN) implies #[trigger] layout_bit(
                    cur,
                    l,
                    i as int,
                    j,
                ) == (j < ncols && layout_bit(before, l, i as int, j)) by {
                    let b = j / 8;
                    assert(row_byte(cur, l, i as int, b) == row@[b]);
                    assert(old_row[b] == prev[l.index(i as int, 0) + b]);
                    assert(row_byte(prev, l, i as int, b) == old_row[b]);
                    assert(row_byte(before, l, i as int, b) == old_row[b]);
                    lemma_xor_bits(0u8, 0u8);
                    if b < full {
                        assert(row@[b] == masked[b]);
                    } else if b == full && rem != 0 {
                        assert(row@[b] == masked[b]);
                        lemma_mask_bits(old_row[b], rem);
                        assert(j < ncols <==> j % 8 < rem);
                    } else {
                        assert(row@[b] == 0u8);
                        assert(j >= ncols);
                    }
                }
                assert forall|r: int, j: int|
                    0 <= r < i && 0 <= j < l.max_ncols(ALIGN) implies #[trigger] layout_bit(
                    cur,
                    l,
                    r,
                    j,
                ) == (j < ncols && layout_bit(before, l, r, j)) by {
                    assert(row_byte(cur, l, r, j / 8) == row_byte(prev, l, r, j / 8));
                    assert(layout_bit(prev, l, r, j) == (j < ncols && layout_bit(before, l, r, j)));
                }
            }
            i += 1;
        }
    }

    /// A matrix of `nrows` rows and `ncols` columns whose bits are drawn
    /// from `rng`; its padding is clear.
    pub fn random(nrows: usize, ncols: usize, rng: &mut ThreadRng) -> (mat: Self)
        requires
            valid_alignment(ALIGN),
            stride_for(ncols, ALIGN) * 8 <= usize::MAX,
            nrows * stride_for(ncols, ALIGN) <= isize::MAX,
        ensures
            mat.inv(),
            mat.canonical(),
            mat.layout().nrows == nrows,
            mat.logical_ncols() == ncols,
    {
        let mut mat = Self::zero(nrows, ncols);
        let ghost l = mat.layout();
        let data = mat.data_mut();
        let n = data.len();
        let mut i: usize = 0;
        while i < n
            invariant
                i <= n,
                n == data@.len(),
            decreases n - i,
        {
            data[i] = random_byte(rng);
            i += 1;
        }
        mat.clear_padding();
        mat
    }

    /// The matrix of `nrows` rows and `ncols` columns whose bit `j` of row
    /// `i` is `rows[i][j]`.
    pub fn from_rows(nrows: usize, ncols: usize, rows: &Vec<Vec<bool>>) -> (mat: Self)
        requires
            valid_alignment(ALIGN),
            stride_for(ncols, ALIGN) * 8 <= usize::MAX,
            nrows * stride_for(ncols, ALIGN) <= isize::MAX,
            rows@.len() == nrows,
            forall|i: int| 0 <= i < nrows ==> (#[trigger] rows@[i])@.len() == ncols,
        ensures
            mat.inv(),
            mat.canonical(),
            mat.layout().nrows == nrows,
            mat.logical_ncols() == ncols,
            forall|i: int, j: int|
                0 <= i < nrows && 0 <= j < ncols ==> #[trigger] layout_bit(
                    mat.store(),
                    mat.layout(),
                    i,
                    j,
                ) == rows@[i]@[j],
            mat@ == rows.deep_view(),
    {
        let mut res = Self::zero(nrows, ncols);
        let ghost l = res.layout();
        proof {
            lemma_stride_for(ncols, ALIGN);
        }
        let mut i: usize = 0;
        while i < nrows
            invariant
                i <= nrows,
                res.inv(),
                res.layout() == l,
                l.nrows == nrows,
                res.logical_ncols() == ncols,
                rows@.len() == nrows,
                forall|r: int| 0 <= r < nrows ==> (#[trigger] rows@[r])@.len() == ncols,
                forall|r: int, c: int|
                    0 <= r < nrows && 0 <= c < l.max_ncols(ALIGN) ==> #[trigger] layout_bit(
                        res.store(),
                        l,
                        r,
                        c,
                    ) == (r < i && c < ncols && rows@[r]@[c]),
            decreases nrows - i,
        {
            let mut j: usize = 0;
            while j < ncols
                invariant
                    i < nrows,
                    j <= ncols,
                    res.inv(),
                    res.layout() == l,
                    l.nrows == nrows,
                    res.logical_ncols() == ncols,
                    rows@.len() == nrows,
                    forall|r: int| 0 <= r < nrows ==> (#[trigger] rows@[r])@.len() == ncols,
                    forall|r: int, c: int|
                        0 <= r < nrows && 0 <= c < l.max_ncols(ALIGN) ==> #[trigger] layout_bit(
                            res.store(),
                            l,
                            r,
                            c,
                        ) == ((r < i || (r == i && c < j)) && c < ncols && rows@[r]@[c]),
                decreases ncols - j,
            {
                if rows[i][j] {
                    res.set_unchecked(i, j, true);
                }
                j += 1;
            }
            i += 1;
        }
        proof {
            assert(res@ =~~= rows.deep_view());
        }
        res
    }
}

/// A matrix of its own with the rows of `src`: as many columns as the rows
/// of `src` have bits, and in them the bits of `src`.
pub fn to_mat<const ALIGN: usize, S>(src: &S) -> (mat: AlignedGF2Mat<ALIGN>) where
    S: GF2MatLike<ALIGN>,

    requires
        src.layout().fits(ALIGN, src.store().len()),
        valid_alignment(ALIGN),
        src.layout().nrows * src.layout().nbyte_cols(ALIGN) <= isize::MAX,
    ensures
        mat.inv(),
        mat.layout().nrows == src.layout().nrows,
        mat.layout().nchunk_cols == src.layout().nchunk_cols,
        mat.logical_ncols() == src.layout().max_ncols(ALIGN),
        forall|i: int, j: int|
            0 <= i < src.layout().nrows && 0 <= j < src.layout().max_ncols(ALIGN)
                ==> #[trigger] layout_bit(mat.store(), mat.layout(), i, j) == layout_bit(
                src.store(),
                src.layout(),
                i,
                j,
            ),
{
    proof {
        lemma_widths(src.layout(), ALIGN, src.store().len());
        lemma_stride_exact(src.layout().nchunk_cols, ALIGN);
    }
    let mut mat = AlignedGF2Mat::zero(src.nrows(), src.max_ncols());
    let ghost l = mat.layout();
    mat.copy_from(src);
    proof {
        assert forall|i: int, j: int|
            0 <= i < l.nrows && 0 <= j < l.max_ncols(ALIGN) implies #[trigger] layout_bit(
            mat.store(),
            l,
            i,
            j,
        ) == layout_bit(src.store(), src.layout(), i, j) by {
            assert(row_byte(mat.store(), l, i, j / 8) == row_byte(
                src.store(),
                src.layout(),
                i,
                j / 8,
            ));
        }
    }
    mat
}

/// The matrix lies inside its buffer.
pub open spec fn wf<const ALIGN: usize, M: GF2MatLike<ALIGN>>(m: &M) -> bool {
    m.layout().fits(ALIGN, m.store().len())
}

/// The matrix as a function from row and column to bit.
pub open spec fn bits_of<const ALIGN: usize, M: GF2MatLike<ALIGN>>(m: &M) -> spec_fn(
    int,
    int,
) -> bool {
    layout_bits(m.store(), m.layout())
}

/// A window into a matrix for writing: a rectangle of its bits. While the
/// window lives it holds the matrix's storage, so that no other window into
/// the matrix can be used beside it.
pub struct GF2MatWindowMut<const ALIGN: usize> {
    /// Where the window lies in the buffer.
    pub layout: Layout,
    /// The buffer of the matrix that the window looks into.
    pub data: AlignedBytes,
}

impl<const ALIGN: usize> GF2MatLike<ALIGN> for GF2MatWindowMut<ALIGN> {
    open spec fn store(&self) -> Seq<u8> {
        buffer_bytes(self.data)
    }

    open spec fn layout(&self) -> Layout {
        self.layout
    }

    open spec fn logical_ncols(&self) -> int {
        self.layout.max_ncols(ALIGN)
    }

    fn nrows(&self) -> (n: usize) {
        self.layout.nrows
    }

    fn nchunk_cols(&self) -> (n: usize) {
        self.layout.nchunk_cols
    }

    fn row_stride(&self) -> (n: usize) {
        self.layout.row_stride
    }

    fn first_row(&self) -> (n: usize) {
        self.layout.first_row
    }

    fn first_col(&self) -> (n: usize) {
        self.layout.first_col
    }

    fn data(&self) -> (s: &[u8]) {
        bytes_as_slice(&self.data)
    }
}

/// `dst[i] ^= src[i]` for every `i`.
pub fn xor_aligned_slices<const ALIGN: usize>(dst: &mut [u8], src: &[u8])
    requires
        old(dst)@.len() == src@.len(),
    ensures
        final(dst)@.len() == src@.len(),
        forall|i: int| 0 <= i < src@.len() ==> final(dst)@[i] == old(dst)@[i] ^ src@[i],
{
    let n = src.len();
    let mut i: usize = 0;
    while i < n
        invariant
            i <= n,
            n == src@.len(),
            dst@.len() == n,
            forall|j: int| 0 <= j < i ==> dst@[j] == old(dst)@[j] ^ src@[j],
            forall|j: int| i <= j < n ==> dst@[j] == old(dst)@[j],
        decreases n - i,
    {
        dst[i] = dst[i] ^ src[i];
        i += 1;
    }
}

/// `dst[i] = src1[i] ^ src2[i]` for every `i`.
pub fn xor_aligned_slices_to<const ALIGN: usize>(dst: &mut [u8], src1: &[u8], src2: &[u8])
    requires
        old(dst)@.len() == src1@.len(),
        src1@.len() == src2@.len(),
    ensures
        final(dst)@.len() == src1@.len(),
        forall|i: int| 0 <= i < src1@.len() ==> final(dst)@[i] == src1@[i] ^ src2@[i],
{
    let n = src1.len();
    let mut i: usize = 0;
    while i < n
        invariant
            i <= n,
            n == src1@.len(),
            n == src2@.len(),
            dst@.len() == n,
            forall|j: int| 0 <= j < i ==> dst@[j] == src1@[j] ^ src2@[j],
        decreases n - i,
    {
        dst[i] = src1[i] ^ src2[i];
        i += 1;
    }
}

/// What a matrix-like value offers when it may be written to.
pub trait GF2MatLikeMut<const ALIGN: usize>: GF2MatLike<ALIGN> {
    /// The whole backing buffer, for writing.
    fn data_mut(&mut self) -> (s: &mut [u8])
        ensures
            s@ == old(self).store(),
            final(self).store() == final(s)@,
            final(self).layout() == old(self).layout(),
            final(self).logical_ncols() == old(self).logical_ncols(),
    ;

    /// Hands out the backing buffer, leaving the matrix without one until
    /// `put_data` brings it back.
    fn take_data(&mut self) -> (buf: AlignedBytes)
        ensures
            buffer_bytes(buf) == old(self).store(),
            final(self).store() == Seq::<u8>::empty(),
            final(self).layout() == old(self).layout(),
            final(self).logical_ncols() == old(self).logical_ncols(),
    ;

    /// Makes `buf` the backing buffer.
    fn put_data(&mut self, buf: AlignedBytes)
        ensures
            final(self).store() == buffer_bytes(buf),
            final(self).layout() == old(self).layout(),
            final(self).logical_ncols() == old(self).logical_ncols(),
    ;

    /// The window of `nrows` rows and `nchunk_cols` chunks of `WINDOW_ALIGN`
    /// bytes whose first row is `row` and whose first chunk is `chunk_col`,
    /// for writing. The window takes the matrix's storage with it; the
    /// matrix has it again after `return_window`.
    fn get_window_mut_unchecked<const WINDOW_ALIGN: usize>(
        &mut self,
        row: usize,
        chunk_col: usize,
        nrows: usize,
        nchunk_cols: usize,
    ) -> (w: GF2MatWindowMut<WINDOW_ALIGN>)
        requires
            old(self).layout().fits(ALIGN, old(self).store().len()),
            WINDOW_ALIGN > 0,
            ALIGN % WINDOW_ALIGN == 0,
            row + nrows <= old(self).layout().nrows,
            (chunk_col + nchunk_cols) * WINDOW_ALIGN <= old(self).layout().nbyte_cols(ALIGN),
        ensures
            buffer_bytes(w.data) == old(self).store(),
            w.layout == old(self).layout().window(
                row,
                chunk_col * WINDOW_ALIGN,
                nrows,
                nchunk_cols,
            ),
            w.layout.fits(WINDOW_ALIGN, old(self).store().len()),
            final(self).store() == Seq::<u8>::empty(),
            final(self).layout() == old(self).layout(),
            final(self).logical_ncols() == old(self).logical_ncols(),
    {
        proof {
            lemma_widths(self.layout(), ALIGN, self.store().len());
            lemma_window_fits(
                self.layout(),
                ALIGN,
                self.store().len(),
                WINDOW_ALIGN,
                row,
                chunk_col,
                nrows,
                nchunk_cols,
            );
        }
        let layout = Layout {
            nrows,
            nchunk_cols,
            row_stride: self.row_stride(),
            first_row: self.first_row() + row,
            first_col: self.first_col() + chunk_col * WINDOW_ALIGN,
        };
        GF2MatWindowMut { layout, data: self.take_data() }
    }

    /// Takes back the storage that `get_window_mut_unchecked` gave to `w`.
    fn return_window<const WINDOW_ALIGN: usize>(&mut self, w: GF2MatWindowMut<WINDOW_ALIGN>)
        ensures
            final(self).store() == buffer_bytes(w.data),
            final(self).layout() == old(self).layout(),
            final(self).logical_ncols() == old(self).logical_ncols(),
    {
        self.put_data(w.data);
    }

    /// The places of the grid of `NBLOCK_ROWS` by `NBLOCK_COLS` windows of
    /// `nrows` rows and `nchunk_cols` chunks each that lie side by side
    /// from the matrix's first row and column on: for the window in row `r`
    /// and column `c` of the grid, its first row and its first chunk. As
    /// one window for writing holds the matrix's storage at a time, the
    /// windows themselves are taken one by one, with
    /// `get_window_mut_unchecked` at these places.
    fn division_mut_unchecked<
        const WINDOW_ALIGN: usize,
        const NBLOCK_ROWS: usize,
        const NBLOCK_COLS: usize,
    >(&mut self, nrows: usize, nchunk_cols: usize) -> (grid: Vec<Vec<(usize, usize)>>)
        requires
            old(self).layout().fits(ALIGN, old(self).store().len()),
            WINDOW_ALIGN > 0,
            ALIGN % WINDOW_ALIGN == 0,
            nrows * NBLOCK_ROWS <= old(self).layout().nrows,
            nchunk_cols * NBLOCK_COLS * WINDOW_ALIGN <= old(self).layout().nbyte_cols(ALIGN),
        ensures
            final(self).store() == old(self).store(),
            final(self).layout() == old(self).layout(),
            final(self).logical_ncols() == old(self).logical_ncols(),
            grid@.len() == NBLOCK_ROWS,
            forall|r: int| 0 <= r < NBLOCK_ROWS ==> (#[trigger] grid@[r])@.len() == NBLOCK_COLS,
            forall|r: int, c: int|
                0 <= r < NBLOCK_ROWS && 0 <= c < NBLOCK_COLS ==> {
                    let place = #[trigger] grid@[r]@[c];
                    &&& place.0 == nrows * r
                    &&& place.1 == nchunk_cols * c
                    &&& place.0 + nrows <= old(self).layout().nrows
                    &&& (place.1 + nchunk_cols) * WINDOW_ALIGN <= old(self).layout().nbyte_cols(
                        ALIGN,
                    )
                },
    {
        let mut grid: Vec<Vec<(usize, usize)>> = Vec::new();
        let mut r: usize = 0;
        while r < NBLOCK_ROWS
            invariant
                r <= NBLOCK_ROWS,
                self.store() == old(self).store(),
                self.layout() == old(self).layout(),
                self.logical_ncols() == old(self).logical_ncols(),
                self.layout().fits(ALIGN, self.store().len()),
                WINDOW_ALIGN > 0,
                nrows * NBLOCK_ROWS <= self.layout().nrows,
                nchunk_cols * NBLOCK_COLS * WINDOW_ALIGN <= self.layout().nbyte_cols(ALIGN),
                grid@.len() == r,
                forall|i: int| 0 <= i < r ==> (#[trigger] grid@[i])@.len() == NBLOCK_COLS,
                forall|i: int, c: int|
                    0 <= i < r && 0 <= c < NBLOCK_COLS ==> {
                        let place = #[trigger] grid@[i]@[c];
                        &&& place.0 == nrows * i
                        &&& place.1 == nchunk_cols * c
                        &&& place.0 + nrows <= self.layout().nrows
                        &&& (place.1 + nchunk_cols) * WINDOW_ALIGN <= self.layout().nbyte_cols(
                            ALIGN,
                        )
                    },
            decreases NBLOCK_ROWS - r,
        {
            let mut row: Vec<(usize, usize)> = Vec::new();
            proof {
                lemma_grid_place(nrows as int, r as int, NBLOCK_ROWS as int);
            }
            let first_row = nrows * r;
            let mut c: usize = 0;
            while c < NBLOCK_COLS
                invariant
                    c <= NBLOCK_COLS,
                    first_row == nrows * r,
                    first_row + nrows <= self.layout().nrows,
                    self.layout().fits(ALIGN, self.store().len()),
                    WINDOW_ALIGN > 0,
                    nchunk_cols * NBLOCK_COLS * WINDOW_ALIGN <= self.layout().nbyte_cols(ALIGN),
                    row@.len() == c,
                    forall|t: int|
                        0 <= t < c ==> {
                            let place = #[trigger] row@[t];
                            &&& place.0 == first_row
                            &&& place.1 == nchunk_cols * t
                            &&& (place.1 + nchunk_cols) * WINDOW_ALIGN
                                <= self.layout().nbyte_cols(ALIGN)
                        },
                decreases NBLOCK_COLS - c,
            {
                proof {
                    lemma_widths(self.layout(), ALIGN, self.store().len());
                    lemma_grid_place(nchunk_cols as int, c as int, NBLOCK_COLS as int);
                    lemma_grid_bytes(
                        nchunk_cols as int,
                        c as int,
                        NBLOCK_COLS as int,
                        WINDOW_ALIGN as int,
                    );
                }
                row.push((first_row, nchunk_cols * c));
                c += 1;
            }
            grid.push(row);
            r += 1;
        }
        grid
    }

    /// The bytes of row `i`, for writing.
    fn row_slice_mut_unchecked(&mut self, i: usize) -> (row: &mut [u8])
        requires
            old(self).layout().fits(ALIGN, old(self).store().len()),
            i < old(self).layout().nrows,
        ensures
            row@ == old(self).store().subrange(
                old(self).layout().index(i as int, 0),
                old(self).layout().index(i as int, 0) + old(self).layout().nbyte_cols(ALIGN),
            ),
            final(self).store() == old(self).store().subrange(
                0,
                old(self).layout().index(i as int, 0),
            ) + final(row)@ + old(self).store().subrange(
                old(self).layout().index(i as int, 0) + old(self).layout().nbyte_cols(ALIGN),
                old(self).store().len() as int,
            ),
            final(self).layout() == old(self).layout(),
            final(self).logical_ncols() == old(self).logical_ncols(),
    {
        proof {
            lemma_widths(self.layout(), ALIGN, self.store().len());
            lemma_index_in_bounds(self.layout(), ALIGN, self.store().len(), i as int);
        }
        let start = (self.first_row() + i) * self.row_stride() + self.first_col();
        let len = self.nbyte_cols();
        let data = self.data_mut();
        let (head, rest) = data.split_at_mut(start);
        let (row, tail) = rest.split_at_mut(len);
        row
    }

    /// Row `i` for writing and row `j` for reading, for two different rows.
    fn distinct_row_slices_mut_immut(&mut self, i: usize, j: usize) -> (rows: (&mut [u8], &[u8]))
        requires
            old(self).layout().fits(ALIGN, old(self).store().len()),
            i < old(self).layout().nrows,
            j < old(self).layout().nrows,
            i != j,
        ensures
            rows.0@ == old(self).store().subrange(
                old(self).layout().index(i as int, 0),
                old(self).layout().index(i as int, 0) + old(self).layout().nbyte_cols(ALIGN),
            ),
            rows.1@ == old(self).store().subrange(
                old(self).layout().index(j as int, 0),
                old(self).layout().index(j as int, 0) + old(self).layout().nbyte_cols(ALIGN),
            ),
            final(self).store() == old(self).store().subrange(
                0,
                old(self).layout().index(i as int, 0),
            ) + final(rows.0)@ + old(self).store().subrange(
                old(self).layout().index(i as int, 0) + old(self).layout().nbyte_cols(ALIGN),
                old(self).store().len() as int,
            ),
            final(self).layout() == old(self).layout(),
            final(self).logical_ncols() == old(self).logical_ncols(),
    {
        proof {
            lemma_widths(self.layout(), ALIGN, self.store().len());
            lemma_index_in_bounds(self.layout(), ALIGN, self.store().len(), i as int);
            lemma_index_in_bounds(self.layout(), ALIGN, self.store().len(), j as int);
            if i < j {
                lemma_rows_apart(self.layout(), ALIGN, i as int, j as int);
            } else {
                lemma_rows_apart(self.layout(), ALIGN, j as int, i as int);
            }
        }
        let start1 = (self.first_row() + i) * self.row_stride() + self.first_col();
        let start2 = (self.first_row() + j) * self.row_stride() + self.first_col();
        let len = self.nbyte_cols();
        let data = self.data_mut();
        if i < j {
            let (low, high) = data.split_at_mut(start2);
            let (head, rest) = low.split_at_mut(start1);
            let (dst, tail) = rest.split_at_mut(len);
            let high: &[u8] = high;
            (dst, slice_subrange(high, 0, len))
        } else {
            let (low, high) = data.split_at_mut(start1);
            let (dst, tail) = high.split_at_mut(len);
            let low: &[u8] = low;
            (dst, slice_subrange(low, start2, start2 + len))
        }
    }

    /// `row(dst_row) = row(src_row) ^ src_mat.row(src_mat_row)`, for two
    /// different rows of this matrix.
    fn add_row_row_from_mat<S>(
        &mut self,
        src_mat: &S,
        src_mat_row: usize,
        src_row: usize,
        dst_row: usize,
    ) where S: GF2MatLike<ALIGN>
        requires
            old(self).layout().fits(ALIGN, old(self).store().len()),
            src_mat.layout().fits(ALIGN, src_mat.store().len()),
            dst_row < old(self).layout().nrows,
            src_row < old(self).layout().nrows,
            src_row != dst_row,
            src_mat_row < src_mat.layout().nrows,
            old(self).layout().nchunk_cols == src_mat.layout().nchunk_cols,
        ensures
            final(self).layout() == old(self).layout(),
            final(self).logical_ncols() == old(self).logical_ncols(),
            unchanged_outside(
                old(self).store(),
                final(self).store(),
                row_layout(old(self).layout(), dst_row as int),
                ALIGN,
            ),
            row_is_xor(
                final(self).store(),
                old(self).layout(),
                ALIGN,
                dst_row as int,
                old(self).store(),
                old(self).layout(),
                src_row as int,
                src_mat.store(),
                src_mat.layout(),
                src_mat_row as int,
            ),
    {
        let ghost before = self.store();
        let ghost l = self.layout();
        proof {
            lemma_index_in_bounds(l, ALIGN, before.len(), dst_row as int);
            lemma_index_in_bounds(l, ALIGN, before.len(), src_row as int);
            lemma_index_in_bounds(
                src_mat.layout(),
                ALIGN,
                src_mat.store().len(),
                src_mat_row as int,
            );
        }
        let src2 = src_mat.row_slice_unchecked(src_mat_row);
        let (dst, src1) = self.distinct_row_slices_mut_immut(dst_row, src_row);
        xor_aligned_slices_to::<ALIGN>(dst, src1, src2);
        proof {
            lemma_row_replaced(before, self.store(), dst@, l, ALIGN, dst_row as int);
        }
    }

    /// `row(dst_row) ^= src_mat.row(src_mat_row)`.
    fn add_row_from_mat<S>(&mut self, src_mat: &S, src_mat_row: usize, dst_row: usize) where
        S: GF2MatLike<ALIGN>,

        requires
            old(self).layout().fits(ALIGN, old(self).store().len()),
            src_mat.layout().fits(ALIGN, src_mat.store().len()),
            dst_row < old(self).layout().nrows,
            src_mat_row < src_mat.layout().nrows,
            old(self).layout().nchunk_cols == src_mat.layout().nchunk_cols,
        ensures
            final(self).layout() == old(self).layout(),
            final(self).logical_ncols() == old(self).logical_ncols(),
            unchanged_outside(
                old(self).store(),
                final(self).store(),
                row_layout(old(self).layout(), dst_row as int),
                ALIGN,
            ),
            row_is_xor(
                final(self).store(),
                old(self).layout(),
                ALIGN,
                dst_row as int,
                old(self).store(),
                old(self).layout(),
                dst_row as int,
                src_mat.store(),
                src_mat.layout(),
                src_mat_row as int,
            ),
    {
        let ghost before = self.store();
        let ghost l = self.layout();
        proof {
            lemma_index_in_bounds(l, ALIGN, before.len(), dst_row as int);
            lemma_index_in_bounds(
                src_mat.layout(),
                ALIGN,
                src_mat.store().len(),
                src_mat_row as int,
            );
        }
        let src = src_mat.row_slice_unchecked(src_mat_row);
        let dst = self.row_slice_mut_unchecked(dst_row);
        xor_aligned_slices::<ALIGN>(dst, src);
        proof {
            lemma_row_replaced(before, self.store(), dst@, l, ALIGN, dst_row as int);
        }
    }

    /// Every row becomes the sum of the same rows of `lhs` and `rhs`.
    fn set_to_sum_unchecked<S1, S2>(&mut self, lhs: &S1, rhs: &S2) where
        S1: GF2MatLike<ALIGN>,
        S2: GF2MatLike<ALIGN>,

        requires
            old(self).layout().fits(ALIGN, old(self).store().len()),
            lhs.layout().fits(ALIGN, lhs.store().len()),
            rhs.layout().fits(ALIGN, rhs.store().len()),
            old(self).layout().nrows == lhs.layout().nrows,
            old(self).layout().nrows == rhs.layout().nrows,
            old(self).layout().nchunk_cols == lhs.layout().nchunk_cols,
            old(self).layout().nchunk_cols == rhs.layout().nchunk_cols,
        ensures
            final(self).layout() == old(self).layout(),
            final(self).logical_ncols() == old(self).logical_ncols(),
            unchanged_outside(old(self).store(), final(self).store(), old(self).layout(), ALIGN),
            rows_are_xor(
                final(self).store(),
                old(self).layout(),
                ALIGN,
                old(self).layout().nrows as int,
                lhs.store(),
                lhs.layout(),
                rhs.store(),
                rhs.layout(),
            ),
    {
        let ghost before = self.store();
        let ghost l = self.layout();
        let ghost ncols = self.logical_ncols();
        let nrows = self.nrows();
        let mut i: usize = 0;
        while i < nrows
            invariant
                i <= nrows,
                nrows == l.nrows,
                self.layout() == l,
                self.logical_ncols() == ncols,
                l.fits(ALIGN, before.len()),
                lhs.layout().fits(ALIGN, lhs.store().len()),
                rhs.layout().fits(ALIGN, rhs.store().len()),
                l.nrows == lhs.layout().nrows,
                l.nrows == rhs.layout().nrows,
                l.nchunk_cols == lhs.layout().nchunk_cols,
                l.nchunk_cols == rhs.layout().nchunk_cols,
                unchanged_outside(before, self.store(), l, ALIGN),
                rows_are_xor(
                    self.store(),
                    l,
                    ALIGN,
                    i as int,
                    lhs.store(),
                    lhs.layout(),
                    rhs.store(),
                    rhs.layout(),
                ),
            decreases nrows - i,
        {
            let ghost prev = self.store();
            proof {
                lemma_index_in_bounds(l, ALIGN, before.len(), i as int);
                lemma_index_in_bounds(lhs.layout(), ALIGN, lhs.store().len(), i as int);
                lemma_index_in_bounds(rhs.layout(), ALIGN, rhs.store().len(), i as int);
            }
            let src1 = lhs.row_slice_unchecked(i);
            let src2 = rhs.row_slice_unchecked(i);
            let dst = self.row_slice_mut_unchecked(i);
            xor_aligned_slices_to::<ALIGN>(dst, src1, src2);
            proof {
                lemma_row_replaced(prev, self.store(), dst@, l, ALIGN, i as int);
                lemma_row_step(before, prev, self.store(), l, ALIGN, i as int);
            }
            i += 1;
        }
    }

    /// Every row gets the same row of `rhs` added to it.
    fn add_unchecked<S>(&mut self, rhs: &S) where S: GF2MatLike<ALIGN>
        requires
            old(self).layout().fits(ALIGN, old(self).store().len()),
            rhs.layout().fits(ALIGN, rhs.store().len()),
            old(self).layout().nrows == rhs.layout().nrows,
            old(self).layout().nchunk_cols == rhs.layout().nchunk_cols,
        ensures
            final(self).layout() == old(self).layout(),
            final(self).logical_ncols() == old(self).logical_ncols(),
            unchanged_outside(old(self).store(), final(self).store(), old(self).layout(), ALIGN),
            rows_are_xor(
                final(self).store(),
                old(self).layout(),
                ALIGN,
                old(self).layout().nrows as int,
                old(self).store(),
                old(self).layout(),
                rhs.store(),
                rhs.layout(),
            ),
    {
        let ghost before = self.store();
        let ghost l = self.layout();
        let ghost ncols = self.logical_ncols();
        let nrows = self.nrows();
        let mut i: usize = 0;
        while i < nrows
            invariant
                i <= nrows,
                nrows == l.nrows,
                self.layout() == l,
                self.logical_ncols() == ncols,
                l.fits(ALIGN, before.len()),
                rhs.layout().fits(ALIGN, rhs.store().len()),
                l.nrows == rhs.layout().nrows,
                l.nchunk_cols == rhs.layout().nchunk_cols,
                unchanged_outside(before, self.store(), l, ALIGN),
                rows_are_xor(
                    self.store(),
                    l,
                    ALIGN,
                    i as int,
                    before,
                    l,
                    rhs.store(),
                    rhs.layout(),
                ),
                rows_are_copy(self.store(), l, ALIGN, i as int, nrows as int, before, l),
            decreases nrows - i,
        {
            let ghost prev = self.store();
            self.add_row_from_mat(rhs, i, i);
            proof {
                lemma_row_step(before, prev, self.store(), l, ALIGN, i as int);
            }
            i += 1;
        }
    }

    /// Every bit becomes zero.
    fn clear(&mut self)
        requires
            old(self).layout().fits(ALIGN, old(self).store().len()),
        ensures
            final(self).layout() == old(self).layout(),
            final(self).logical_ncols() == old(self).logical_ncols(),
            unchanged_outside(old(self).store(), final(self).store(), old(self).layout(), ALIGN),
            rows_are_zero(
                final(self).store(),
                old(self).layout(),
                ALIGN,
                old(self).layout().nrows as int,
            ),
    {
        let ghost before = self.store();
        let ghost l = self.layout();
        let ghost ncols = self.logical_ncols();
        let nrows = self.nrows();
        let mut i: usize = 0;
        while i < nrows
            invariant
                i <= nrows,
                nrows == l.nrows,
                self.layout() == l,
                self.logical_ncols() == ncols,
                l.fits(ALIGN, before.len()),
                unchanged_outside(before, self.store(), l, ALIGN),
                rows_are_zero(self.store(), l, ALIGN, i as int),
            decreases nrows - i,
        {
            let ghost prev = self.store();
            proof {
                lemma_index_in_bounds(l, ALIGN, before.len(), i as int);
            }
            let dst = self.row_slice_mut_unchecked(i);
            let n = dst.len();
            let mut c: usize = 0;
            while c < n
                invariant
                    c <= n,
                    n == dst@.len(),
                    forall|k: int| 0 <= k < c ==> dst@[k] == 0u8,
                decreases n - c,
            {
                dst[c] = 0;
                c += 1;
            }
            proof {
                lemma_row_replaced(prev, self.store(), dst@, l, ALIGN, i as int);
                lemma_row_step(before, prev, self.store(), l, ALIGN, i as int);
            }
            i += 1;
        }
    }

    /// Every row becomes the same row of `src`.
    fn copy_from<S>(&mut self, src: &S) where S: GF2MatLike<ALIGN>
        requires
            old(self).layout().fits(ALIGN, old(self).store().len()),
            src.layout().fits(ALIGN, src.store().len()),
            old(self).layout().nrows == src.layout().nrows,
            old(self).layout().nchunk_cols == src.layout().nchunk_cols,
        ensures
            final(self).layout() == old(self).layout(),
            final(self).logical_ncols() == old(self).logical_ncols(),
            unchanged_outside(old(self).store(), final(self).store(), old(self).layout(), ALIGN),
            rows_are_copy(
                final(self).store(),
                old(self).layout(),
                ALIGN,
                0,
                old(self).layout().nrows as int,
                src.store(),
                src.layout(),
            ),
    {
        let ghost before = self.store();
        let ghost l = self.layout();
        let ghost ncols = self.logical_ncols();
        let nrows = src.nrows();
        let mut i: usize = 0;
        while i < nrows
            invariant
                i <= nrows,
                nrows == l.nrows,
                self.layout() == l,
                self.logical_ncols() == ncols,
                l.fits(ALIGN, before.len()),
                src.layout().fits(ALIGN, src.store().len()),
                l.nrows == src.layout().nrows,
                l.nchunk_cols == src.layout().nchunk_cols,
                unchanged_outside(before, self.store(), l, ALIGN),
                rows_are_copy(self.store(), l, ALIGN, 0, i as int, src.store(), src.layout()),
            decreases nrows - i,
        {
            let ghost prev = self.store();
            proof {
                lemma_index_in_bounds(l, ALIGN, before.len(), i as int);
                lemma_index_in_bounds(src.layout(), ALIGN, src.store().len(), i as int);
            }
            let src_row = src.row_slice_unchecked(i);
            let dst_row = self.row_slice_mut_unchecked(i);
            let n = src_row.len();
            let mut c: usize = 0;
            while c < n
                invariant
                    c <= n,
                    n == src_row@.len(),
                    n == dst_row@.len(),
                    forall|k: int| 0 <= k < c ==> dst_row@[k] == src_row@[k],
                decreases n - c,
            {
                dst_row[c] = src_row[c];
                c += 1;
            }
            proof {
                lemma_row_replaced(prev, self.store(), dst_row@, l, ALIGN, i as int);
                lemma_row_step(before, prev, self.store(), l, ALIGN, i as int);
                assert forall|c: int| 0 <= c < l.nbyte_cols(ALIGN) implies #[trigger] row_byte(
                    self.store(),
                    l,
                    i as int,
                    c,
                ) == row_byte(src.store(), src.layout(), i as int, c) by {
                    assert(src_row@[c] == src.store()[src.layout().index(i as int, 0) + c]);
                }
            }
            i += 1;
        }
    }
}

impl<const ALIGN: usize> GF2MatLikeMut<ALIGN> for GF2MatWindowMut<ALIGN> {
    fn data_mut(&mut self) -> (s: &mut [u8]) {
        bytes_as_mut_slice(&mut self.data)
    }

    fn take_data(&mut self) -> (buf: AlignedBytes) {
        let mut buf = empty_bytes();
        core::mem::swap(&mut self.data, &mut buf);
        buf
    }

    fn put_data(&mut self, buf: AlignedBytes) {
        self.data = buf;
    }
}

impl<const ALIGN: usize> GF2MatLikeMut<ALIGN> for AlignedGF2Mat<ALIGN> {
    fn data_mut(&mut self) -> (s: &mut [u8]) {
        bytes_as_mut_slice(&mut self.data)
    }

    fn take_data(&mut self) -> (buf: AlignedBytes) {
        let mut buf = empty_bytes();
        core::mem::swap(&mut self.data, &mut buf);
        buf
    }

    fn put_data(&mut self, buf: AlignedBytes) {
        self.data = buf;
    }
}

} // verus!
