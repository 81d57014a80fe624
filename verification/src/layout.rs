//! Where a matrix lies inside its backing buffer, and what its bits are.
use crate::algebra::{dot, entry};
use vstd::prelude::*;

verus! {

/// The placement of a matrix inside a row-major byte buffer. Lengths along
/// a row are in bytes but for `nchunk_cols`, which counts chunks of the
/// matrix's alignment.
#[derive(Clone, Copy, Debug, PartialEq, Eq, Structural)]
pub struct Layout {
    /// Number of rows of the matrix.
    pub nrows: usize,
    /// Number of aligned chunks in each row of the matrix.
    pub nchunk_cols: usize,
    /// Distance in bytes between the starts of two consecutive rows.
    pub row_stride: usize,
    /// Row of the buffer that holds row 0 of the matrix.
    pub first_row: usize,
    /// Byte within a row of the buffer at which each row of the matrix starts.
    pub first_col: usize,
}

impl Layout {
    /// Number of bytes in each row of the matrix, for chunks of `align` bytes.
    pub open spec fn nbyte_cols(self, align: usize) -> int {
        self.nchunk_cols * align
    }

    /// Number of bit columns of the matrix, padding included.
    pub open spec fn max_ncols(self, align: usize) -> int {
        self.nchunk_cols * align * 8
    }

    /// Index in the buffer of byte `c` of row `i`.
    pub open spec fn index(self, i: int, c: int) -> int {
        (self.first_row + i) * self.row_stride + self.first_col + c
    }

    /// The matrix lies inside a buffer of `len` bytes, and its widths fit
    /// the machine's integers.
    pub open spec fn fits(self, align: usize, len: nat) -> bool {
        &&& align > 0
        &&& self.first_col + self.nbyte_cols(align) <= self.row_stride
        &&& self.first_row + self.nrows <= usize::MAX
        &&& (self.first_row + self.nrows) * self.row_stride <= len
        &&& len <= isize::MAX
        &&& self.row_stride * 8 <= usize::MAX
    }

    /// The layout of the window of `nrows` rows and `nchunk_cols` chunks
    /// that starts at row `row` and byte `byte_col` of this matrix.
    pub open spec fn window(self, row: usize, byte_col: int, nrows: usize, nchunk_cols: usize) -> Layout {
        Layout {
            nrows,
            nchunk_cols,
            row_stride: self.row_stride,
            first_row: (self.first_row + row) as usize,
            first_col: (self.first_col + byte_col) as usize,
        }
    }

    /// Byte `c` of row `i` lies in the rectangle that the matrix covers.
    pub open spec fn covers(self, align: usize, r: int, c: int) -> bool {
        &&& self.first_row <= r < self.first_row + self.nrows
        &&& self.first_col <= c < self.first_col + self.nbyte_cols(align)
    }
}

/// Number of bytes in a row of `ncols` bits, rounded up to a whole number
/// of chunks of `align` bytes.
pub open spec fn stride_for(ncols: usize, align: usize) -> int {
    let nbytes = (ncols + 7) / 8;
    ((nbytes + align - 1) / (align as int)) * align
}

/// The row stride is a multiple of the alignment that holds all columns,
/// and is what rounding up in two steps computes.
pub proof fn lemma_stride_for(ncols: usize, align: usize)
    requires
        align > 0,
    ensures
        stride_for(ncols, align) % (align as int) == 0,
        stride_for(ncols, align) * 8 >= ncols,
        stride_for(ncols, align) >= 0,
        ({
            let nbytes = ncols / 8 + if ncols % 8 == 0 {
                0int
            } else {
                1int
            };
            let nchunks = nbytes / (align as int) + if nbytes % (align as int) == 0 {
                0int
            } else {
                1int
            };
            &&& nchunks * align == stride_for(ncols, align)
            &&& nchunks == stride_for(ncols, align) / (align as int)
            &&& 0 <= nchunks <= stride_for(ncols, align)
        }),
{
    let nbytes = (ncols + 7) / 8;
    let a = align as int;
    let q = (nbytes + a - 1) / a;
    assert(q * a <= nbytes + a - 1 < q * a + a) by (nonlinear_arith)
        requires
            q == (nbytes + a - 1) / a,
            a > 0,
    ;
    vstd::arithmetic::div_mod::lemma_mod_multiples_basic(q, a);
    vstd::arithmetic::div_mod::lemma_div_by_multiple(q, a);
    let nchunks = nbytes / a + if nbytes % a == 0 {
        0int
    } else {
        1int
    };
    assert(nchunks == q) by (nonlinear_arith)
        requires
            q == (nbytes + a - 1) / a,
            nchunks == nbytes / a + if nbytes % a == 0 {
                0int
            } else {
                1int
            },
            a > 0,
            nbytes >= 0,
    ;
    assert(0 <= q <= q * a) by (nonlinear_arith)
        requires
            a > 0,
            q * a >= 0,
            q * a <= nbytes + a - 1,
            q == (nbytes + a - 1) / a,
            nbytes >= 0,
    ;
}

/// Bit `b` of a byte, counted from the least significant.
pub open spec fn byte_bit(x: u8, b: int) -> bool {
    (x >> (b as u8)) & 1u8 == 1u8
}

/// Byte `c` of row `r` of a buffer whose rows are `stride` bytes apart; zero
/// where the buffer has no such byte.
pub open spec fn cell(store: Seq<u8>, stride: usize, r: int, c: int) -> u8 {
    if 0 <= r * stride + c < store.len() {
        store[r * stride + c]
    } else {
        0
    }
}

/// Byte `c` of row `i` of the matrix with layout `l` in `store`.
pub open spec fn row_byte(store: Seq<u8>, l: Layout, i: int, c: int) -> u8 {
    cell(store, l.row_stride, l.first_row + i, l.first_col + c)
}

/// Bit `j` of row `i` of the matrix with layout `l` in `store`.
pub open spec fn layout_bit(store: Seq<u8>, l: Layout, i: int, j: int) -> bool {
    byte_bit(row_byte(store, l, i, j / 8), j % 8)
}

/// The matrix with layout `l` in `store`, as a function from row and column
/// to bit.
pub open spec fn layout_bits(store: Seq<u8>, l: Layout) -> spec_fn(int, int) -> bool {
    |i: int, j: int| layout_bit(store, l, i, j)
}

/// `after` has the length of `before` and the same bytes in every cell
/// outside the rectangle that `l` covers.
pub open spec fn unchanged_outside(before: Seq<u8>, after: Seq<u8>, l: Layout, align: usize) -> bool {
    &&& after.len() == before.len()
    &&& forall|r: int, c: int|
        0 <= c < l.row_stride && !l.covers(align, r, c) ==> #[trigger] cell(
            after,
            l.row_stride,
            r,
            c,
        ) == cell(before, l.row_stride, r, c)
}

/// Row `i` of the matrix at `l` in `after` is, byte by byte, the exclusive
/// or of row `ai` of the matrix at `al` in `a` and row `bi` of that at `bl`
/// in `b`.
pub open spec fn row_is_xor(
    after: Seq<u8>,
    l: Layout,
    align: usize,
    i: int,
    a: Seq<u8>,
    al: Layout,
    ai: int,
    b: Seq<u8>,
    bl: Layout,
    bi: int,
) -> bool {
    forall|c: int|
        0 <= c < l.nbyte_cols(align) ==> #[trigger] row_byte(after, l, i, c) == row_byte(
            a,
            al,
            ai,
            c,
        ) ^ row_byte(b, bl, bi, c)
}

/// The first `n` rows of the matrix at `l` in `after` are, byte by byte, the
/// exclusive or of the same rows of the matrices at `al` in `a` and at `bl`
/// in `b`.
pub open spec fn rows_are_xor(
    after: Seq<u8>,
    l: Layout,
    align: usize,
    n: int,
    a: Seq<u8>,
    al: Layout,
    b: Seq<u8>,
    bl: Layout,
) -> bool {
    forall|r: int, c: int|
        0 <= r < n && 0 <= c < l.nbyte_cols(align) ==> #[trigger] row_byte(after, l, r, c)
            == row_byte(a, al, r, c) ^ row_byte(b, bl, r, c)
}

/// The rows from `from` up to `to` of the matrix at `l` in `after` are, byte
/// by byte, the same rows of the matrix at `al` in `a`.
pub open spec fn rows_are_copy(
    after: Seq<u8>,
    l: Layout,
    align: usize,
    from: int,
    to: int,
    a: Seq<u8>,
    al: Layout,
) -> bool {
    forall|r: int, c: int|
        from <= r < to && 0 <= c < l.nbyte_cols(align) ==> #[trigger] row_byte(after, l, r, c)
            == row_byte(a, al, r, c)
}

/// The first `n` rows of the matrix at `l` in `after` are zero.
pub open spec fn rows_are_zero(after: Seq<u8>, l: Layout, align: usize, n: int) -> bool {
    forall|r: int, c: int|
        0 <= r < n && 0 <= c < l.nbyte_cols(align) ==> #[trigger] row_byte(after, l, r, c) == 0u8
}

/// The layout of row `i` of the matrix at `l`, as a matrix of one row.
pub open spec fn row_layout(l: Layout, i: int) -> Layout {
    Layout {
        nrows: 1,
        nchunk_cols: l.nchunk_cols,
        row_stride: l.row_stride,
        first_row: (l.first_row + i) as usize,
        first_col: l.first_col,
    }
}

/// Two different rows of a matrix do not overlap in the buffer.
pub proof fn lemma_rows_apart(l: Layout, align: usize, i: int, j: int)
    requires
        l.first_col + l.nbyte_cols(align) <= l.row_stride,
        0 <= i < j,
    ensures
        l.index(i, 0) + l.nbyte_cols(align) <= l.index(j, 0),
{
    let s = l.row_stride as int;
    assert((l.first_row + i) * s + s <= (l.first_row + j) * s) by (nonlinear_arith)
        requires
            i < j,
            0 <= s,
    ;
}

/// A change confined to row `i` of a matrix is confined to the matrix, and
/// leaves the matrix's other rows as they were.
pub proof fn lemma_row_step(
    before: Seq<u8>,
    prev: Seq<u8>,
    cur: Seq<u8>,
    l: Layout,
    align: usize,
    i: int,
)
    requires
        l.fits(align, before.len()),
        0 <= i < l.nrows,
        unchanged_outside(before, prev, l, align),
        unchanged_outside(prev, cur, row_layout(l, i), align),
    ensures
        unchanged_outside(before, cur, l, align),
        forall|r: int, c: int|
            r != i && 0 <= c < l.nbyte_cols(align) ==> #[trigger] row_byte(cur, l, r, c)
                == row_byte(prev, l, r, c),
{
    let rl = row_layout(l, i);
    assert forall|r: int, c: int| 0 <= c < l.row_stride && !l.covers(align, r, c) implies #[trigger] cell(
        cur,
        l.row_stride,
        r,
        c,
    ) == cell(before, l.row_stride, r, c) by {
        assert(!rl.covers(align, r, c));
        assert(cell(cur, rl.row_stride, r, c) == cell(prev, rl.row_stride, r, c));
    }
    assert forall|r: int, c: int| r != i && 0 <= c < l.nbyte_cols(align) implies #[trigger] row_byte(
        cur,
        l,
        r,
        c,
    ) == row_byte(prev, l, r, c) by {
        assert(!rl.covers(align, l.first_row + r, l.first_col + c));
        assert(cell(cur, rl.row_stride, l.first_row + r, l.first_col + c) == cell(
            prev,
            rl.row_stride,
            l.first_row + r,
            l.first_col + c,
        ));
    }
}

/// In a buffer whose rows are `s` bytes apart, a byte index names one cell.
pub proof fn lemma_cell_unique(s: int, r1: int, c1: int, r2: int, c2: int)
    requires
        0 <= c1 < s,
        0 <= c2 < s,
        r1 * s + c1 == r2 * s + c2,
    ensures
        r1 == r2,
        c1 == c2,
{
    assert(r1 == r2) by (nonlinear_arith)
        requires
            0 <= c1 < s,
            0 <= c2 < s,
            r1 * s + c1 == r2 * s + c2,
    ;
}

/// Replacing the bytes of row `i` in a buffer leaves every cell outside
/// that row as it was, and puts the new bytes into the row's cells.
pub proof fn lemma_row_replaced(
    before: Seq<u8>,
    after: Seq<u8>,
    row: Seq<u8>,
    l: Layout,
    align: usize,
    i: int,
)
    requires
        l.fits(align, before.len()),
        0 <= i < l.nrows,
        row.len() == l.nbyte_cols(align),
        after == before.subrange(0, l.index(i, 0)) + row + before.subrange(
            l.index(i, 0) + l.nbyte_cols(align),
            before.len() as int,
        ),
    ensures
        unchanged_outside(before, after, row_layout(l, i), align),
        forall|c: int| 0 <= c < l.nbyte_cols(align) ==> #[trigger] row_byte(after, l, i, c) == row[c],
{
    lemma_index_in_bounds(l, align, before.len(), i);
    let start = l.index(i, 0);
    let n = l.nbyte_cols(align);
    let s = l.row_stride as int;
    let rl = row_layout(l, i);
    assert(after.len() == before.len());
    assert forall|r: int, c: int| 0 <= c < s && !rl.covers(align, r, c) implies #[trigger] cell(
        after,
        l.row_stride,
        r,
        c,
    ) == cell(
        before,
        l.row_stride,
        r,
        c,
    ) by {
        let k = r * s + c;
        if start <= k < start + n {
            lemma_cell_unique(s, r, c, l.first_row + i, l.first_col + (k - start));
        }
    }
    assert forall|c: int| 0 <= c < n implies #[trigger] row_byte(after, l, i, c) == row[c] by {
        assert(l.index(i, c) == start + c);
        assert(after[start + c] == row[c]);
    }
}


/// Rows stay inside the buffer: row `i` of the matrix starts and ends below
/// the buffer's length, and so does the buffer row that it is part of.
pub proof fn lemma_index_in_bounds(l: Layout, align: usize, len: nat, i: int)
    requires
        l.fits(align, len),
        0 <= i < l.nrows,
    ensures
        0 <= (l.first_row + i) * l.row_stride,
        l.index(i, 0) == (l.first_row + i) * l.row_stride + l.first_col,
        l.index(i, 0) + l.nbyte_cols(align) <= (l.first_row + i) * l.row_stride + l.row_stride,
        (l.first_row + i) * l.row_stride + l.row_stride <= len,
        0 <= l.nbyte_cols(align),
{
    let r = l.first_row + i;
    let s = l.row_stride as int;
    assert(r * s + s <= (l.first_row + l.nrows) * s) by (nonlinear_arith)
        requires
            0 <= r < l.first_row + l.nrows,
            0 <= s,
    ;
    assert(0 <= r * s) by (nonlinear_arith)
        requires
            0 <= r,
            0 <= s,
    ;
    assert(0 <= l.nchunk_cols * align) by (nonlinear_arith);
}

/// The widths of a matrix that fits its buffer fit a `usize`.
pub proof fn lemma_widths(l: Layout, align: usize, len: nat)
    requires
        l.fits(align, len),
    ensures
        0 <= l.nbyte_cols(align) <= l.row_stride,
        l.max_ncols(align) == l.nbyte_cols(align) * 8,
        l.max_ncols(align) <= usize::MAX,
{
    assert(0 <= l.nchunk_cols * align) by (nonlinear_arith);
}

/// A window inside a matrix lies inside the matrix's buffer.
pub proof fn lemma_window_fits(
    l: Layout,
    align: usize,
    len: nat,
    walign: usize,
    row: usize,
    chunk_col: usize,
    nrows: usize,
    nchunk_cols: usize,
)
    requires
        l.fits(align, len),
        walign > 0,
        row + nrows <= l.nrows,
        (chunk_col + nchunk_cols) * walign <= l.nbyte_cols(align),
    ensures
        l.window(row, chunk_col * walign, nrows, nchunk_cols).fits(walign, len),
        l.first_row + row <= usize::MAX,
        0 <= chunk_col * walign,
        chunk_col * walign + nchunk_cols * walign <= l.nbyte_cols(align),
        l.first_col + chunk_col * walign <= usize::MAX,
{
    lemma_widths(l, align, len);
    assert((chunk_col + nchunk_cols) * walign == chunk_col * walign + nchunk_cols * walign
        && 0 <= chunk_col * walign && 0 <= nchunk_cols * walign) by (nonlinear_arith);
    let s = l.row_stride as int;
    assert((l.first_row + row + nrows) * s <= (l.first_row + l.nrows) * s) by (nonlinear_arith)
        requires
            row + nrows <= l.nrows,
            0 <= s,
    ;
}

/// The bits of an exclusive or of two bytes are the sums of their bits, and
/// zero has no bit set.
pub proof fn lemma_xor_bits(x: u8, y: u8)
    ensures
        forall|b: int| 0 <= b < 8 ==> #[trigger] byte_bit(x ^ y, b) == (byte_bit(x, b) != byte_bit(y, b)),
        forall|b: int| 0 <= b < 8 ==> !#[trigger] byte_bit(0u8, b),
{
    assert forall|b: int| 0 <= b < 8 implies #[trigger] byte_bit(x ^ y, b) == (byte_bit(x, b)
        != byte_bit(y, b)) by {
        let s = b as u8;
        assert((((x ^ y) >> s) & 1u8 == 1u8) == (((x >> s) & 1u8 == 1u8) != ((y >> s) & 1u8 == 1u8)))
            by (bit_vector)
            requires
                s < 8,
        ;
    }
    assert forall|b: int| 0 <= b < 8 implies !#[trigger] byte_bit(0u8, b) by {
        let s = b as u8;
        assert((0u8 >> s) & 1u8 != 1u8) by (bit_vector)
            requires
                s < 8,
        ;
    }
}

/// A row of `n` chunks of `align` bytes needs no rounding up.
pub proof fn lemma_stride_exact(nchunks: usize, align: usize)
    requires
        align > 0,
        nchunks * align * 8 <= usize::MAX,
    ensures
        stride_for((nchunks * align * 8) as usize, align) == nchunks * align,
        (nchunks * align) / (align as int) == nchunks,
{
    let a = align as int;
    let n = nchunks as int;
    assert(0 <= n * a) by (nonlinear_arith)
        requires
            0 <= n,
            0 <= a,
    ;
    assert((n * a * 8 + 7) / 8 == n * a);
    vstd::arithmetic::div_mod::lemma_fundamental_div_mod_converse(n * a + a - 1, a, n, a - 1);
    vstd::arithmetic::div_mod::lemma_div_by_multiple(n, a);
}

/// The matrix at `l` in `after` is what it was in `before` plus the product
/// of `a` and `b` over an inner dimension of `k`, in every column up to the
/// end of the rows; outside the matrix the buffer is as it was.
pub open spec fn product_added(
    before: Seq<u8>,
    after: Seq<u8>,
    l: Layout,
    align: usize,
    a: spec_fn(int, int) -> bool,
    b: spec_fn(int, int) -> bool,
    k: int,
) -> bool {
    &&& unchanged_outside(before, after, l, align)
    &&& forall|i: int, j: int|
        0 <= i < l.nrows && 0 <= j < l.max_ncols(align) ==> #[trigger] layout_bit(after, l, i, j)
            == (layout_bit(before, l, i, j) != dot(a, b, i, j, k))
}

/// In the byte that holds the column before column `k`, the bits of `a`
/// from column `k` on are clear, in each of the first `m` rows.
pub open spec fn last_byte_clear(a: spec_fn(int, int) -> bool, m: int, k: int) -> bool {
    forall|i: int, j: int| 0 <= i < m && k <= j && (j / 8) * 8 < k ==> !#[trigger] entry(a, i, j)
}

/// Bit `t` of `x` set to `val`.
pub open spec fn with_bit(x: u8, t: u8, val: bool) -> u8 {
    if val {
        x | (1u8 << t)
    } else {
        x & !(1u8 << t)
    }
}

/// Setting or clearing bit `t` of a byte changes that bit and no other.
pub proof fn lemma_set_bit(x: u8, t: u8, val: bool)
    requires
        t < 8,
    ensures
        forall|b: int|
            0 <= b < 8 ==> #[trigger] byte_bit(with_bit(x, t, val), b) == (if b == t {
                val
            } else {
                byte_bit(x, b)
            }),
{
    assert forall|b: int| 0 <= b < 8 implies #[trigger] byte_bit(with_bit(x, t, val), b) == (if b
        == t {
        val
    } else {
        byte_bit(x, b)
    }) by {
        let s = b as u8;
        assert((((x | (1u8 << t)) >> s) & 1u8 == 1u8) == (s == t || ((x >> s) & 1u8 == 1u8)))
            by (bit_vector)
            requires
                s < 8,
                t < 8,
        ;
        assert((((x & !(1u8 << t)) >> s) & 1u8 == 1u8) == (s != t && ((x >> s) & 1u8 == 1u8)))
            by (bit_vector)
            requires
                s < 8,
                t < 8,
        ;
    }
}

/// Masking a byte to its `n` lowest bits keeps these and clears the rest.
pub proof fn lemma_mask_bits(x: u8, n: u8)
    requires
        0 < n < 8,
    ensures
        forall|b: int|
            0 <= b < 8 ==> #[trigger] byte_bit(x & (0xffu8 >> ((8 - n) as u8)), b) == (b < n
                && byte_bit(x, b)),
{
    let m = (8 - n) as u8;
    assert forall|b: int| 0 <= b < 8 implies #[trigger] byte_bit(x & (0xffu8 >> m), b) == (b < n
        && byte_bit(x, b)) by {
        let s = b as u8;
        assert((((x & (0xffu8 >> m)) >> s) & 1u8 == 1u8) == (s < n && ((x >> s) & 1u8 == 1u8)))
            by (bit_vector)
            requires
                s < 8,
                0 < n < 8,
                m == 8 - n,
        ;
    }
}

/// A row that is bytewise an exclusive or is bitwise a sum.
pub proof fn lemma_row_xor_bits(
    after: Seq<u8>,
    l: Layout,
    align: usize,
    i: int,
    a: Seq<u8>,
    al: Layout,
    ai: int,
    b: Seq<u8>,
    bl: Layout,
    bi: int,
)
    requires
        row_is_xor(after, l, align, i, a, al, ai, b, bl, bi),
    ensures
        forall|j: int|
            0 <= j < l.max_ncols(align) ==> #[trigger] layout_bit(after, l, i, j) == (layout_bit(
                a,
                al,
                ai,
                j,
            ) != layout_bit(b, bl, bi, j)),
{
    assert forall|j: int| 0 <= j < l.max_ncols(align) implies #[trigger] layout_bit(after, l, i, j)
        == (layout_bit(a, al, ai, j) != layout_bit(b, bl, bi, j)) by {
        let c = j / 8;
        assert(0 <= c < l.nbyte_cols(align));
        assert(row_byte(after, l, i, c) == row_byte(a, al, ai, c) ^ row_byte(b, bl, bi, c));
        lemma_xor_bits(row_byte(a, al, ai, c), row_byte(b, bl, bi, c));
    }
}

/// Rows that are bytewise exclusive ors are bitwise sums.
pub proof fn lemma_rows_xor_bits(
    after: Seq<u8>,
    l: Layout,
    align: usize,
    n: int,
    a: Seq<u8>,
    al: Layout,
    b: Seq<u8>,
    bl: Layout,
)
    requires
        rows_are_xor(after, l, align, n, a, al, b, bl),
    ensures
        forall|i: int, j: int|
            0 <= i < n && 0 <= j < l.max_ncols(align) ==> #[trigger] layout_bit(after, l, i, j) == (
            layout_bit(a, al, i, j) != layout_bit(b, bl, i, j)),
{
    assert forall|i: int, j: int| 0 <= i < n && 0 <= j < l.max_ncols(align) implies #[trigger] layout_bit(
        after,
        l,
        i,
        j,
    ) == (layout_bit(a, al, i, j) != layout_bit(b, bl, i, j)) by {
        let c = j / 8;
        assert(0 <= c < l.nbyte_cols(align));
        assert(row_byte(after, l, i, c) == row_byte(a, al, i, c) ^ row_byte(b, bl, i, c));
        lemma_xor_bits(row_byte(a, al, i, c), row_byte(b, bl, i, c));
    }
}

/// Rows that are zero bytes have no bit set.
pub proof fn lemma_rows_zero_bits(after: Seq<u8>, l: Layout, align: usize, n: int)
    requires
        rows_are_zero(after, l, align, n),
    ensures
        forall|i: int, j: int|
            0 <= i < n && 0 <= j < l.max_ncols(align) ==> !#[trigger] layout_bit(after, l, i, j),
{
    assert forall|i: int, j: int| 0 <= i < n && 0 <= j < l.max_ncols(align) implies !#[trigger] layout_bit(
        after,
        l,
        i,
        j,
    ) by {
        let c = j / 8;
        assert(0 <= c < l.nbyte_cols(align));
        assert(row_byte(after, l, i, c) == 0u8);
        lemma_xor_bits(0u8, 0u8);
    }
}

/// Where the cells of a row are the same in two buffers, so are its bits.
pub proof fn lemma_same_bytes_same_bits(
    after: Seq<u8>,
    l: Layout,
    align: usize,
    i: int,
    a: Seq<u8>,
    al: Layout,
    ai: int,
)
    requires
        forall|c: int|
            0 <= c < l.nbyte_cols(align) ==> #[trigger] row_byte(after, l, i, c) == row_byte(
                a,
                al,
                ai,
                c,
            ),
    ensures
        forall|j: int|
            0 <= j < l.max_ncols(align) ==> #[trigger] layout_bit(after, l, i, j) == layout_bit(
                a,
                al,
                ai,
                j,
            ),
{
    assert forall|j: int| 0 <= j < l.max_ncols(align) implies #[trigger] layout_bit(after, l, i, j)
        == layout_bit(a, al, ai, j) by {
        let c = j / 8;
        assert(0 <= c < l.nbyte_cols(align));
        assert(row_byte(after, l, i, c) == row_byte(a, al, ai, c));
    }
}

/// A window's bits are the matrix's bits, shifted by the window's place.
pub proof fn lemma_window_bits(
    store: Seq<u8>,
    l: Layout,
    row: usize,
    byte_col: int,
    nrows: usize,
    nchunk_cols: usize,
    i: int,
    j: int,
)
    requires
        0 <= byte_col,
        l.first_row + row <= usize::MAX,
        l.first_col + byte_col <= usize::MAX,
        0 <= j,
    ensures
        layout_bit(store, l.window(row, byte_col, nrows, nchunk_cols), i, j) == layout_bit(
            store,
            l,
            i + row,
            j + byte_col * 8,
        ),
{
    assert((j + byte_col * 8) / 8 == j / 8 + byte_col);
    assert((j + byte_col * 8) % 8 == j % 8);
}

/// Adding the matrix at `pl` in `p` to a window of the matrix at `l` adds
/// it to the matrix's bits inside the window and leaves the others.
pub proof fn lemma_block_added(
    prev: Seq<u8>,
    cur: Seq<u8>,
    l: Layout,
    align: usize,
    row: usize,
    byte_col: int,
    nrows: usize,
    nchunk_cols: usize,
    walign: usize,
    p: Seq<u8>,
    pl: Layout,
)
    requires
        l.fits(align, prev.len()),
        0 <= byte_col,
        row + nrows <= l.nrows,
        byte_col + nchunk_cols * walign <= l.nbyte_cols(align),
        unchanged_outside(prev, cur, l.window(row, byte_col, nrows, nchunk_cols), walign),
        rows_are_xor(
            cur,
            l.window(row, byte_col, nrows, nchunk_cols),
            walign,
            nrows as int,
            prev,
            l.window(row, byte_col, nrows, nchunk_cols),
            p,
            pl,
        ),
    ensures
        unchanged_outside(prev, cur, l, align),
        forall|r: int, j: int|
            0 <= r < l.nrows && 0 <= j < l.max_ncols(align) ==> #[trigger] layout_bit(cur, l, r, j)
                == (layout_bit(prev, l, r, j) != (row <= r < row + nrows && byte_col * 8 <= j < (
            byte_col + nchunk_cols * walign) * 8 && layout_bit(p, pl, r - row, j - byte_col * 8))),
{
    let wl = l.window(row, byte_col, nrows, nchunk_cols);
    lemma_widths(l, align, prev.len());
    assert(0 <= nchunk_cols * walign) by (nonlinear_arith);
    assert(wl.nbyte_cols(walign) == nchunk_cols * walign);
    assert(wl.max_ncols(walign) == nchunk_cols * walign * 8);
    assert forall|r: int, c: int| 0 <= c < l.row_stride && !l.covers(align, r, c) implies #[trigger] cell(
        cur,
        l.row_stride,
        r,
        c,
    ) == cell(prev, l.row_stride, r, c) by {
        assert(!wl.covers(walign, r, c));
        assert(cell(cur, wl.row_stride, r, c) == cell(prev, wl.row_stride, r, c));
    }
    lemma_rows_xor_bits(cur, wl, walign, nrows as int, prev, wl, p, pl);
    assert forall|r: int, j: int|
        0 <= r < l.nrows && 0 <= j < l.max_ncols(align) implies #[trigger] layout_bit(cur, l, r, j)
        == (layout_bit(prev, l, r, j) != (row <= r < row + nrows && byte_col * 8 <= j < (byte_col
        + nchunk_cols * walign) * 8 && layout_bit(p, pl, r - row, j - byte_col * 8))) by {
        if row <= r < row + nrows && byte_col * 8 <= j < (byte_col + nchunk_cols * walign) * 8 {
            let i = r - row;
            let jj = j - byte_col * 8;
            lemma_window_bits(cur, l, row, byte_col, nrows, nchunk_cols, i, jj);
            lemma_window_bits(prev, l, row, byte_col, nrows, nchunk_cols, i, jj);
            assert(layout_bit(cur, wl, i, jj) == (layout_bit(prev, wl, i, jj) != layout_bit(
                p,
                pl,
                i,
                jj,
            )));
        } else {
            let c = l.first_col + j / 8;
            assert(!wl.covers(walign, l.first_row + r, c));
            assert(cell(cur, wl.row_stride, l.first_row + r, c) == cell(
                prev,
                wl.row_stride,
                l.first_row + r,
                c,
            ));
        }
    }
}

/// A change confined to a window of a matrix is confined to the matrix,
/// and leaves the matrix's bits outside the window as they were.
pub proof fn lemma_window_frame(
    prev: Seq<u8>,
    cur: Seq<u8>,
    l: Layout,
    align: usize,
    row: usize,
    byte_col: int,
    nrows: usize,
    nchunk_cols: usize,
    walign: usize,
)
    requires
        l.fits(align, prev.len()),
        0 <= byte_col,
        row + nrows <= l.nrows,
        byte_col + nchunk_cols * walign <= l.nbyte_cols(align),
        unchanged_outside(prev, cur, l.window(row, byte_col, nrows, nchunk_cols), walign),
    ensures
        unchanged_outside(prev, cur, l, align),
        forall|r: int, j: int|
            0 <= r < l.nrows && 0 <= j < l.max_ncols(align) && !(row <= r < row + nrows && byte_col
                * 8 <= j < (byte_col + nchunk_cols * walign) * 8) ==> #[trigger] layout_bit(
                cur,
                l,
                r,
                j,
            ) == layout_bit(prev, l, r, j),
{
    let wl = l.window(row, byte_col, nrows, nchunk_cols);
    lemma_widths(l, align, prev.len());
    assert(0 <= nchunk_cols * walign) by (nonlinear_arith);
    assert(wl.nbyte_cols(walign) == nchunk_cols * walign);
    assert forall|r: int, c: int| 0 <= c < l.row_stride && !l.covers(align, r, c) implies #[trigger] cell(
        cur,
        l.row_stride,
        r,
        c,
    ) == cell(prev, l.row_stride, r, c) by {
        assert(!wl.covers(walign, r, c));
        assert(cell(cur, wl.row_stride, r, c) == cell(prev, wl.row_stride, r, c));
    }
    assert forall|r: int, j: int|
        0 <= r < l.nrows && 0 <= j < l.max_ncols(align) && !(row <= r < row + nrows && byte_col * 8
            <= j < (byte_col + nchunk_cols * walign) * 8) implies #[trigger] layout_bit(
        cur,
        l,
        r,
        j,
    ) == layout_bit(prev, l, r, j) by {
        let c = l.first_col + j / 8;
        assert(!wl.covers(walign, l.first_row + r, c));
        assert(cell(cur, wl.row_stride, l.first_row + r, c) == cell(
            prev,
            wl.row_stride,
            l.first_row + r,
            c,
        ));
    }
}

/// Block `i` of `count` blocks of `size` each starts and ends within the
/// `count * size` that the blocks take together.
pub proof fn lemma_grid_place(size: int, i: int, count: int)
    requires
        0 <= size,
        0 <= i < count,
    ensures
        0 <= size * i,
        size * i + size <= size * count,
{
    assert(0 <= size * i && size * i + size <= size * count) by (nonlinear_arith)
        requires
            0 <= size,
            0 <= i < count,
    ;
}

/// Block `i` of `count` blocks of `size` chunks of `w` bytes each ends
/// within the bytes that the blocks take together.
pub proof fn lemma_grid_bytes(size: int, i: int, count: int, w: int)
    requires
        0 <= size,
        0 <= i < count,
        0 < w,
    ensures
        (size * i + size) * w <= size * count * w,
        size * i * w == (size * i) * w,
        size * i + size <= size * count * w,
{
    lemma_grid_place(size, i, count);
    let x = size * i + size;
    let y = size * count;
    assert(x * w <= y * w && y <= y * w) by (nonlinear_arith)
        requires
            x <= y,
            0 <= y,
            0 < w,
    ;
}

/// A rectangle of rows and bytes inside a matrix is no larger than the
/// matrix's buffer.
pub proof fn lemma_area(l: Layout, align: usize, len: nat, r: int, c: int)
    requires
        l.fits(align, len),
        0 <= r <= l.nrows,
        0 <= c <= l.row_stride,
    ensures
        0 <= r * c <= len,
        r * c <= isize::MAX,
{
    let s = l.row_stride as int;
    let n = l.first_row + l.nrows;
    assert(0 <= r * c <= n * s) by (nonlinear_arith)
        requires
            0 <= r <= n,
            0 <= c <= s,
    ;
}

} // verus!
