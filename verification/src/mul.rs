//! The multiplication driver: it picks a cascade of block decompositions by
//! the operands' size, runs it on the largest aligned part of the product,
//! and finishes the strips that are left with the Method of Four Russians.
use crate::algebra::{dot, entry, lemma_dot_congruent, lemma_dot_split, shifted};
use crate::decomp::{addmul_decomp2x2, addmul_decomp4x4};
use crate::gf2mat::{bits_of, wf, GF2MatLike, GF2MatLikeMut, GF2MatWindow};
use crate::gray::MAX_CODE_LEN;
use crate::layout::{
    cell, last_byte_clear, layout_bit, layout_bits, lemma_widths, lemma_window_bits,
    lemma_window_fits, lemma_window_frame, product_added, unchanged_outside, Layout,
};
use crate::m4rm::{addmul_m4rm, addmul_pre};
use crate::storage::valid_alignment;
use vstd::prelude::*;
use vstd::slice::slice_subrange;

verus! {

/// Smallest dimension from which block decomposition pays.
pub const STRASSEN_CUTOFF: usize = 4096;

/// Size in bytes of the column chunks in which windows are measured.
pub const WINDOW_ALIGN: usize = 16;

/// Number of bit columns in a window chunk.
pub const WINDOW_BITS: usize = 128;

/// A way to multiply: either the base kernel, or a decomposition into blocks
/// whose products are left to the next way in the cascade.
#[derive(Debug, Clone, Copy, PartialEq, Eq, Structural)]
pub enum AddMulAlgo {
    M4RM,
    Decomp2x2,
    Decomp3x3,
    Decomp4x4,
    Decomp5x5,
}

impl AddMulAlgo {
    /// Whether the algorithm needs no other one to recurse into.
    pub fn is_independant(&self) -> (b: bool)
        ensures
            b == (*self == AddMulAlgo::M4RM),
    {
        match self {
            AddMulAlgo::M4RM => true,
            _ => false,
        }
    }
}

/// The dimensions `m`, `k`, `n` of a product can be cut into `d` by `d`
/// blocks whose widths are whole window chunks.
pub open spec fn divisible(d: int, m: int, k: int, n: int) -> bool {
    &&& m % d == 0
    &&& k % (WINDOW_BITS as int) == 0
    &&& (k / (WINDOW_BITS as int)) % d == 0
    &&& n % (WINDOW_BITS as int) == 0
    &&& (n / (WINDOW_BITS as int)) % d == 0
}

/// The cascade `algos` can multiply an `m` by `k` with a `k` by `n` matrix:
/// it is not empty, each decomposition in it is one that is implemented and
/// divides the dimensions that reach it, and it comes to the base kernel.
pub open spec fn cascade_ok(algos: Seq<AddMulAlgo>, m: int, k: int, n: int) -> bool
    decreases algos.len(),
{
    if algos.len() == 0 {
        false
    } else {
        match algos[0] {
            AddMulAlgo::M4RM => true,
            AddMulAlgo::Decomp2x2 => divisible(2, m, k, n) && cascade_ok(
                algos.drop_first(),
                m / 2,
                k / 2,
                n / 2,
            ),
            AddMulAlgo::Decomp4x4 => divisible(4, m, k, n) && cascade_ok(
                algos.drop_first(),
                m / 4,
                k / 4,
                n / 4,
            ),
            _ => false,
        }
    }
}

/// `levels` halvings followed by the cascade `algos` can multiply an `m` by
/// `k` with a `k` by `n` matrix.
pub open spec fn levels_ok(levels: nat, algos: Seq<AddMulAlgo>, m: int, k: int, n: int) -> bool
    decreases levels,
{
    if levels == 0 {
        cascade_ok(algos, m, k, n)
    } else {
        divisible(2, m, k, n) && levels_ok((levels - 1) as nat, algos, m / 2, k / 2, n / 2)
    }
}

/// The window `w` has `nrows` rows and `ncols` bit columns, and in these
/// its bits are those of `g`.
pub open spec fn block_matches(
    w: &GF2MatWindow<'_, WINDOW_ALIGN>,
    g: spec_fn(int, int) -> bool,
    nrows: int,
    ncols: int,
) -> bool {
    &&& wf(w)
    &&& w.layout.nrows == nrows
    &&& w.layout.max_ncols(WINDOW_ALIGN) == ncols
    &&& forall|i: int, j: int|
        0 <= i < nrows && 0 <= j < ncols ==> #[trigger] entry(bits_of(w), i, j) == entry(g, i, j)
}

/// A window placed at row `row` and chunk `chunk_col` of a matrix has the
/// matrix's bits, shifted by its place.
pub proof fn lemma_block_matches(
    store: Seq<u8>,
    l: Layout,
    w: &GF2MatWindow<'_, WINDOW_ALIGN>,
    row: usize,
    chunk_col: usize,
    rows: usize,
    chunks: usize,
)
    requires
        w.data@ == store,
        w.layout == l.window(row, chunk_col * WINDOW_ALIGN, rows, chunks),
        w.layout.fits(WINDOW_ALIGN, store.len()),
        l.first_row + row <= usize::MAX,
        l.first_col + chunk_col * WINDOW_ALIGN <= usize::MAX,
    ensures
        block_matches(
            w,
            shifted(layout_bits(store, l), row as int, chunk_col * WINDOW_BITS),
            rows as int,
            chunks * WINDOW_BITS,
        ),
{
    let g = shifted(layout_bits(store, l), row as int, chunk_col * WINDOW_BITS);
    assert forall|i: int, j: int|
        0 <= i < rows && 0 <= j < chunks * WINDOW_BITS implies #[trigger] entry(bits_of(w), i, j)
        == entry(g, i, j) by {
        lemma_window_bits(store, l, row, (chunk_col * WINDOW_ALIGN) as int, rows, chunks, i, j);
    }
    assert(w.layout.max_ncols(WINDOW_ALIGN) == chunks * WINDOW_BITS) by {
        assert(w.layout.nchunk_cols == chunks);
        assert(chunks * 16 * 8 == chunks * 128);
    }
}

/// The window of `rows` rows and `chunks` chunks at row `row` and chunk
/// `chunk_col` of `src`, with its bits as a shift of those of `src`.
pub fn block_of<'a, const ALIGN: usize, S>(
    src: &'a S,
    row: usize,
    chunk_col: usize,
    rows: usize,
    chunks: usize,
) -> (w: GF2MatWindow<'a, WINDOW_ALIGN>) where S: GF2MatLike<ALIGN>
    requires
        wf(src),
        ALIGN % WINDOW_ALIGN == 0,
        row + rows <= src.layout().nrows,
        (chunk_col + chunks) * WINDOW_ALIGN <= src.layout().nbyte_cols(ALIGN),
    ensures
        block_matches(
            &w,
            shifted(bits_of(src), row as int, chunk_col * WINDOW_BITS),
            rows as int,
            chunks * WINDOW_BITS,
        ),
{
    let w = src.get_window_unchecked::<WINDOW_ALIGN>(row, chunk_col, rows, chunks);
    proof {
        let l = src.layout();
        lemma_widths(l, ALIGN, src.store().len());
        lemma_window_fits(l, ALIGN, src.store().len(), WINDOW_ALIGN, row, chunk_col, rows, chunks);
        let g = shifted(bits_of(src), row as int, chunk_col * WINDOW_BITS);
        assert forall|i: int, j: int|
            0 <= i < rows && 0 <= j < chunks * WINDOW_BITS implies #[trigger] entry(
            bits_of(&w),
            i,
            j,
        ) == entry(g, i, j) by {
            lemma_window_bits(
                src.store(),
                l,
                row,
                (chunk_col * WINDOW_ALIGN) as int,
                rows,
                chunks,
                i,
                j,
            );
        }
    }
    w
}

/// `tgt += lhs * rhs` by the first algorithm of the cascade `algos`, which
/// leaves the products of its blocks to the rest of the cascade.
pub fn addmul_recurse<const ALIGN: usize, T, S1, S2>(
    tgt: &mut T,
    lhs: &S1,
    rhs: &S2,
    algos: &[AddMulAlgo],
) where T: GF2MatLikeMut<ALIGN>, S1: GF2MatLike<ALIGN>, S2: GF2MatLike<ALIGN>
    requires
        addmul_pre(old(tgt), lhs, rhs),
        ALIGN % WINDOW_ALIGN == 0,
        cascade_ok(
            algos@,
            lhs.layout().nrows as int,
            rhs.layout().nrows as int,
            rhs.layout().max_ncols(ALIGN),
        ),
    ensures
        final(tgt).layout() == old(tgt).layout(),
        final(tgt).logical_ncols() == old(tgt).logical_ncols(),
        product_added(
            old(tgt).store(),
            final(tgt).store(),
            old(tgt).layout(),
            ALIGN,
            bits_of(lhs),
            bits_of(rhs),
            rhs.layout().nrows as int,
        ),
    decreases algos@.len(), 0int, 0int,
{
    let algo = algos[0];
    let rest = slice_subrange(algos, 1, algos.len());
    proof {
        assert(rest@ == algos@.drop_first());
    }
    match algo {
        AddMulAlgo::M4RM => {
            addmul_m4rm(tgt, lhs, rhs);
        },
        AddMulAlgo::Decomp2x2 => {
            addmul_decomp2x2(tgt, lhs, rhs, rest);
        },
        AddMulAlgo::Decomp4x4 => {
            addmul_decomp4x4(tgt, lhs, rhs, rest);
        },
        _ => {},
    }
}

/// A part of a product: the rows of the target from `row` on and its
/// chunks from `chunk_col` on get the product of the same rows of the left
/// factor, in its chunks from `lhs_chunk_col` on, with the rows of the
/// right factor from `rhs_row` on, in the target's chunks.
struct Part {
    row: usize,
    nrows: usize,
    chunk_col: usize,
    nchunk_cols: usize,
    lhs_chunk_col: usize,
    lhs_nchunk_cols: usize,
    rhs_row: usize,
    rhs_nrows: usize,
}

impl Part {
    /// Whether row `r` and bit column `j` of the target lie in the part.
    spec fn holds(self, r: int, j: int) -> bool {
        &&& self.row <= r < self.row + self.nrows
        &&& self.chunk_col * WINDOW_BITS <= j < (self.chunk_col + self.nchunk_cols) * WINDOW_BITS
    }

    /// What the part adds to row `r` and bit column `j` of the target.
    spec fn term(
        self,
        a: spec_fn(int, int) -> bool,
        b: spec_fn(int, int) -> bool,
        r: int,
        j: int,
    ) -> bool {
        dot(
            shifted(a, 0, self.lhs_chunk_col * WINDOW_BITS),
            shifted(b, self.rhs_row as int, 0),
            r,
            j,
            self.rhs_nrows as int,
        )
    }

    /// The part lies inside the three operands, and its pieces fit together.
    spec fn fits(self, tl: Layout, ll: Layout, rl: Layout, align: usize) -> bool {
        &&& self.row + self.nrows <= tl.nrows
        &&& self.row + self.nrows <= ll.nrows
        &&& (self.chunk_col + self.nchunk_cols) * WINDOW_ALIGN <= tl.nbyte_cols(align)
        &&& (self.chunk_col + self.nchunk_cols) * WINDOW_ALIGN <= rl.nbyte_cols(align)
        &&& (self.lhs_chunk_col + self.lhs_nchunk_cols) * WINDOW_ALIGN <= ll.nbyte_cols(align)
        &&& self.rhs_row + self.rhs_nrows <= rl.nrows
        &&& self.lhs_nchunk_cols * WINDOW_BITS >= self.rhs_nrows
    }
}

/// The matrix at `l` in `after` is what it was in `before`, plus what the
/// part `p` of the product of `a` and `b` adds; outside the matrix the
/// buffer is as it was.
spec fn part_added(
    before: Seq<u8>,
    after: Seq<u8>,
    l: Layout,
    align: usize,
    p: Part,
    a: spec_fn(int, int) -> bool,
    b: spec_fn(int, int) -> bool,
) -> bool {
    &&& unchanged_outside(before, after, l, align)
    &&& forall|r: int, j: int|
        0 <= r < l.nrows && 0 <= j < l.max_ncols(align) ==> #[trigger] layout_bit(after, l, r, j)
            == (layout_bit(before, l, r, j) != (p.holds(r, j) && p.term(a, b, r, j)))
}

/// Computes one part of a product, by the cascade `algos` where there is
/// one and by the base kernel where there is none.
fn addmul_part<const ALIGN: usize, T, S1, S2>(
    tgt: &mut T,
    lhs: &S1,
    rhs: &S2,
    p: Part,
    algos: Option<&[AddMulAlgo]>,
) where T: GF2MatLikeMut<ALIGN>, S1: GF2MatLike<ALIGN>, S2: GF2MatLike<ALIGN>
    requires
        wf(old(tgt)),
        wf(lhs),
        wf(rhs),
        ALIGN % WINDOW_ALIGN == 0,
        p.fits(old(tgt).layout(), lhs.layout(), rhs.layout(), ALIGN),
        MAX_CODE_LEN * rhs.layout().nbyte_cols(ALIGN) <= isize::MAX,
        forall|i: int, j: int|
            p.row <= i < p.row + p.nrows && p.rhs_nrows <= j && (j / 8) * 8 < p.rhs_nrows
                ==> !#[trigger] entry(bits_of(lhs), i, j + p.lhs_chunk_col * WINDOW_BITS),
        algos matches Some(c) ==> cascade_ok(
            c@,
            p.nrows as int,
            p.rhs_nrows as int,
            p.nchunk_cols * WINDOW_BITS,
        ),
    ensures
        final(tgt).layout() == old(tgt).layout(),
        final(tgt).logical_ncols() == old(tgt).logical_ncols(),
        part_added(
            old(tgt).store(),
            final(tgt).store(),
            old(tgt).layout(),
            ALIGN,
            p,
            bits_of(lhs),
            bits_of(rhs),
        ),
{
    let ghost before = tgt.store();
    let ghost l = tgt.layout();
    let ghost a = bits_of(lhs);
    let ghost b = bits_of(rhs);
    proof {
        lemma_widths(l, ALIGN, before.len());
        lemma_widths(lhs.layout(), ALIGN, lhs.store().len());
        lemma_widths(rhs.layout(), ALIGN, rhs.store().len());
        lemma_window_fits(
            l,
            ALIGN,
            before.len(),
            WINDOW_ALIGN,
            p.row,
            p.chunk_col,
            p.nrows,
            p.nchunk_cols,
        );
    }
    let a_part = block_of(lhs, p.row, p.lhs_chunk_col, p.nrows, p.lhs_nchunk_cols);
    let b_part = block_of(rhs, p.rhs_row, p.chunk_col, p.rhs_nrows, p.nchunk_cols);
    let mut c_part = tgt.get_window_mut_unchecked::<WINDOW_ALIGN>(
        p.row,
        p.chunk_col,
        p.nrows,
        p.nchunk_cols,
    );
    let ghost wl = c_part.layout;
    proof {
        lemma_widths(a_part.layout, WINDOW_ALIGN, a_part.data@.len());
        lemma_widths(b_part.layout, WINDOW_ALIGN, b_part.data@.len());
        assert forall|i: int, j: int|
            0 <= i < p.nrows && p.rhs_nrows <= j && (j / 8) * 8 < p.rhs_nrows implies !#[trigger] entry(
            bits_of(&a_part),
            i,
            j,
        ) by {
            lemma_window_bits(
                lhs.store(),
                lhs.layout(),
                p.row,
                (p.lhs_chunk_col * WINDOW_ALIGN) as int,
                p.nrows,
                p.lhs_nchunk_cols,
                i,
                j,
            );
            assert(!entry(a, i + p.row, j + p.lhs_chunk_col * WINDOW_BITS));
        }
    }
    match algos {
        Some(cascade) => {
            addmul_recurse(&mut c_part, &a_part, &b_part, cascade);
        },
        None => {
            addmul_m4rm(&mut c_part, &a_part, &b_part);
        },
    }
    proof {
        let cur = c_part.store();
        let byte_col = (p.chunk_col * WINDOW_ALIGN) as int;
        lemma_window_frame(
            before,
            cur,
            l,
            ALIGN,
            p.row,
            byte_col,
            p.nrows,
            p.nchunk_cols,
            WINDOW_ALIGN,
        );
        assert forall|r: int, j: int|
            0 <= r < l.nrows && 0 <= j < l.max_ncols(ALIGN) implies #[trigger] layout_bit(
            cur,
            l,
            r,
            j,
        ) == (layout_bit(before, l, r, j) != (p.holds(r, j) && p.term(a, b, r, j))) by {
            if p.holds(r, j) {
                let i = r - p.row;
                let jj = j - p.chunk_col * WINDOW_BITS;
                lemma_window_bits(cur, l, p.row, byte_col, p.nrows, p.nchunk_cols, i, jj);
                lemma_window_bits(before, l, p.row, byte_col, p.nrows, p.nchunk_cols, i, jj);
                assert(layout_bit(cur, wl, i, jj) == (layout_bit(before, wl, i, jj) != dot(
                    bits_of(&a_part),
                    bits_of(&b_part),
                    i,
                    jj,
                    p.rhs_nrows as int,
                )));
                lemma_dot_congruent(
                    bits_of(&a_part),
                    bits_of(&b_part),
                    shifted(a, 0, p.lhs_chunk_col * WINDOW_BITS),
                    shifted(b, p.rhs_row as int, 0),
                    i,
                    jj,
                    r,
                    j,
                    p.rhs_nrows as int,
                );
            }
        }
    }
    tgt.return_window(c_part);
}

/// Two to the power `e`.
pub open spec fn pow2(e: nat) -> int
    decreases e,
{
    if e == 0 {
        1
    } else {
        2 * pow2((e - 1) as nat)
    }
}

/// Number of halvings that bring a dimension of twice `half` to the cutoff
/// or below: one, and one more for each further halving that `half` needs.
pub open spec fn cascade_depth(half: int) -> nat
    decreases half,
{
    if half > STRASSEN_CUTOFF {
        1 + cascade_depth(half / 2)
    } else {
        1
    }
}

/// The cascade of `n4` four by four decompositions, then `n2` two by two
/// decompositions, then the base kernel.
pub open spec fn cascade_seq(n4: nat, n2: nat) -> Seq<AddMulAlgo> {
    Seq::new(
        n4 + n2 + 1,
        |i: int|
            if i < n4 {
                AddMulAlgo::Decomp4x4
            } else if i < n4 + n2 {
                AddMulAlgo::Decomp2x2
            } else {
                AddMulAlgo::M4RM
            },
    )
}

/// The dimensions `m`, `k`, `n` can be cut `f` ways into blocks whose
/// widths are whole window chunks.
spec fn cuttable(m: int, k: int, n: int, f: int) -> bool {
    &&& m % f == 0
    &&& k % (WINDOW_BITS as int) == 0
    &&& (k / (WINDOW_BITS as int)) % f == 0
    &&& n % (WINDOW_BITS as int) == 0
    &&& (n / (WINDOW_BITS as int)) % f == 0
}

/// What is a multiple of `c * f` is a multiple of `c`, and its quotient by
/// `c` is a multiple of `f`.
proof fn lemma_multiple_split(x: int, c: int, f: int)
    requires
        x >= 0,
        c > 0,
        f > 0,
        x % (c * f) == 0,
    ensures
        x % c == 0,
        (x / c) % f == 0,
{
    let q = x / (c * f);
    assert(c * f > 0) by (nonlinear_arith)
        requires
            c > 0,
            f > 0,
    ;
    vstd::arithmetic::div_mod::lemma_fundamental_div_mod(x, c * f);
    vstd::arithmetic::div_mod::lemma_div_pos_is_pos(x, c * f);
    assert(x == (q * f) * c && q * f >= 0) by (nonlinear_arith)
        requires
            x == (c * f) * q,
            q >= 0,
            f > 0,
    ;
    vstd::arithmetic::div_mod::lemma_mod_multiples_basic(q * f, c);
    vstd::arithmetic::div_mod::lemma_div_by_multiple(q * f, c);
    vstd::arithmetic::div_mod::lemma_mod_multiples_basic(q, f);
}

/// Powers of two are positive.
proof fn lemma_pow2_positive(e: nat)
    ensures
        pow2(e) >= 1,
        pow2(e) >= e,
    decreases e,
{
    if e > 0 {
        lemma_pow2_positive((e - 1) as nat);
    }
}

/// Dimensions that can be cut `c * f` ways can be cut `c` ways into blocks
/// that can be cut `f` ways, for `c` two or four.
proof fn lemma_cut(m: int, k: int, n: int, c: int, f: int)
    requires
        c == 2 || c == 4,
        f > 0,
        m >= 0,
        k >= 0,
        n >= 0,
        cuttable(m, k, n, c * f),
    ensures
        divisible(c, m, k, n),
        cuttable(m / c, k / c, n / c, f),
        m / c >= 0,
        k / c >= 0,
        n / c >= 0,
{
    lemma_multiple_split(m, c, f);
    lemma_multiple_split(k / 128, c, f);
    lemma_multiple_split(n / 128, c, f);
    if c == 2 {
        assert((k / 2) % 128 == 0 && (k / 2) / 128 == (k / 128) / 2);
        assert((n / 2) % 128 == 0 && (n / 2) / 128 == (n / 128) / 2);
    } else {
        assert((k / 4) % 128 == 0 && (k / 4) / 128 == (k / 128) / 4);
        assert((n / 4) % 128 == 0 && (n / 4) / 128 == (n / 128) / 4);
    }
}

/// The cascade that the driver builds fits the dimensions it is built for.
proof fn lemma_cascade_fits(n4: nat, n2: nat, m: int, k: int, n: int)
    requires
        m >= 0,
        k >= 0,
        n >= 0,
        cuttable(m, k, n, pow2(2 * n4 + n2)),
    ensures
        cascade_ok(cascade_seq(n4, n2), m, k, n),
    decreases n4 + n2,
{
    let c = cascade_seq(n4, n2);
    if n4 > 0 {
        let f = pow2((2 * (n4 - 1) + n2) as nat);
        lemma_pow2_positive((2 * (n4 - 1) + n2) as nat);
        assert(pow2(2 * n4 + n2) == 4 * f) by {
            reveal_with_fuel(pow2, 3);
        }
        lemma_cut(m, k, n, 4, f);
        assert(c.drop_first() =~= cascade_seq((n4 - 1) as nat, n2));
        lemma_cascade_fits((n4 - 1) as nat, n2, m / 4, k / 4, n / 4);
    } else if n2 > 0 {
        let f = pow2((n2 - 1) as nat);
        lemma_pow2_positive((n2 - 1) as nat);
        lemma_cut(m, k, n, 2, f);
        assert(c.drop_first() =~= cascade_seq(0, (n2 - 1) as nat));
        lemma_cascade_fits(0, (n2 - 1) as nat, m / 2, k / 2, n / 2);
    }
}

/// What is rounded down to a multiple of `128 * f` can be cut `f` ways.
proof fn lemma_rounded_down(x: int, f: int)
    requires
        x >= 0,
        f > 0,
    ensures
        ({
            let y = x - x % (WINDOW_BITS * f);
            &&& 0 <= y <= x
            &&& y % f == 0
            &&& y % (WINDOW_BITS as int) == 0
            &&& (y / (WINDOW_BITS as int)) % f == 0
            &&& y % 8 == 0
        }),
{
    let w = WINDOW_BITS as int;
    let r = w * f;
    let q = x / r;
    vstd::arithmetic::div_mod::lemma_fundamental_div_mod(x, r);
    let y = x - x % r;
    assert(y == r * q);
    assert(y == (q * f) * w && y == (q * w) * f) by (nonlinear_arith)
        requires
            y == (w * f) * q,
    ;
    vstd::arithmetic::div_mod::lemma_mod_multiples_basic(q * f, w);
    vstd::arithmetic::div_mod::lemma_div_by_multiple(q * f, w);
    vstd::arithmetic::div_mod::lemma_mod_multiples_basic(q * w, f);
    vstd::arithmetic::div_mod::lemma_mod_multiples_basic(q, f);
}

/// The cascade for a product whose smallest dimension is `min_dim`, and
/// the size of the blocks that it needs the dimensions to be multiples of:
/// the dimension is halved until it is at the cutoff or below, by a four by
/// four decomposition for every two halvings and a two by two
/// decomposition for one that is left over.
pub fn choose_cascade(min_dim: usize) -> (plan: (Vec<AddMulAlgo>, usize))
    requires
        min_dim >= STRASSEN_CUTOFF,
    ensures
        plan.1 == WINDOW_BITS * pow2(cascade_depth(min_dim as int / 2)),
        plan.1 <= min_dim,
        plan.0@ == cascade_seq(
            cascade_depth(min_dim as int / 2) / 2,
            cascade_depth(min_dim as int / 2) % 2,
        ),
{
    let mut algos: Vec<AddMulAlgo> = Vec::with_capacity(8);
    let mut exp: usize = 1;
    let mut recurse_sz: usize = 2 * WINDOW_BITS;
    let mut res_block_sz: usize = min_dim / 2;
    let ghost depth = cascade_depth(min_dim as int / 2);
    proof {
        reveal_with_fuel(pow2, 2);
    }
    while res_block_sz > STRASSEN_CUTOFF
        invariant
            exp >= 1,
            exp <= recurse_sz,
            res_block_sz >= 2048,
            recurse_sz == WINDOW_BITS * pow2(exp as nat),
            recurse_sz * res_block_sz <= WINDOW_BITS * min_dim,
            exp + cascade_depth(res_block_sz as int) == 1 + depth,
        decreases res_block_sz,
    {
        proof {
            let r = recurse_sz as int;
            let b = res_block_sz as int;
            assert(r * 4096 < r * b && (2 * r) * (b / 2) <= r * b) by (nonlinear_arith)
                requires
                    r > 0,
                    b > 4096,
            ;
        }
        recurse_sz *= 2;
        res_block_sz /= 2;
        exp += 1;
    }
    proof {
        let r = recurse_sz as int;
        let b = res_block_sz as int;
        assert(r * 2048 <= r * b) by (nonlinear_arith)
            requires
                r > 0,
                b >= 2048,
        ;
    }
    let decomp4x4_times = exp / 2;
    let decomp2x2_times = exp - 2 * decomp4x4_times;
    let mut i: usize = 0;
    while i < decomp4x4_times
        invariant
            i <= decomp4x4_times,
            algos@.len() == i,
            forall|t: int| 0 <= t < i ==> algos@[t] == AddMulAlgo::Decomp4x4,
        decreases decomp4x4_times - i,
    {
        algos.push(AddMulAlgo::Decomp4x4);
        i += 1;
    }
    let mut i: usize = 0;
    while i < decomp2x2_times
        invariant
            i <= decomp2x2_times,
            algos@.len() == decomp4x4_times + i,
            forall|t: int| 0 <= t < decomp4x4_times ==> algos@[t] == AddMulAlgo::Decomp4x4,
            forall|t: int|
                decomp4x4_times <= t < decomp4x4_times + i ==> algos@[t] == AddMulAlgo::Decomp2x2,
        decreases decomp2x2_times - i,
    {
        algos.push(AddMulAlgo::Decomp2x2);
        i += 1;
    }
    algos.push(AddMulAlgo::M4RM);
    proof {
        assert(algos@ =~= cascade_seq((exp / 2) as nat, (exp % 2) as nat));
    }
    (algos, recurse_sz)
}

/// The four parts of the driver add up to the product: the aligned
/// interior over the aligned inner dimension, the columns to its right,
/// the rows below it, and the interior over the rest of the inner
/// dimension.
proof fn lemma_parts_sum(
    s0: Seq<u8>,
    s1: Seq<u8>,
    s2: Seq<u8>,
    s3: Seq<u8>,
    s4: Seq<u8>,
    l: Layout,
    align: usize,
    a: spec_fn(int, int) -> bool,
    b: spec_fn(int, int) -> bool,
    interior: Part,
    right: Part,
    below: Part,
    rest: Part,
    k: int,
)
    requires
        part_added(s0, s1, l, align, interior, a, b),
        part_added(s1, s2, l, align, right, a, b),
        part_added(s2, s3, l, align, below, a, b),
        part_added(s3, s4, l, align, rest, a, b),
        interior.row == 0 && interior.chunk_col == 0 && interior.lhs_chunk_col == 0
            && interior.rhs_row == 0,
        right.row == 0 && right.nrows == l.nrows && right.chunk_col == interior.nchunk_cols
            && right.lhs_chunk_col == 0 && right.rhs_row == 0 && right.rhs_nrows == k,
        (right.chunk_col + right.nchunk_cols) * WINDOW_BITS == l.max_ncols(align),
        below.row == interior.nrows && below.row + below.nrows == l.nrows && below.chunk_col == 0
            && below.nchunk_cols == interior.nchunk_cols && below.lhs_chunk_col == 0
            && below.rhs_row == 0 && below.rhs_nrows == k,
        rest.row == 0 && rest.nrows == interior.nrows && rest.chunk_col == 0 && rest.nchunk_cols
            == interior.nchunk_cols && rest.lhs_chunk_col * WINDOW_BITS == interior.rhs_nrows
            && rest.rhs_row == interior.rhs_nrows && interior.rhs_nrows + rest.rhs_nrows == k,
    ensures
        product_added(s0, s4, l, align, a, b, k),
{
    let kk = interior.rhs_nrows as int;
    assert forall|r: int, j: int|
        0 <= r < l.nrows && 0 <= j < l.max_ncols(align) implies #[trigger] layout_bit(s4, l, r, j)
        == (layout_bit(s0, l, r, j) != dot(a, b, r, j, k)) by {
        let t1 = layout_bit(s1, l, r, j);
        let t2 = layout_bit(s2, l, r, j);
        let t3 = layout_bit(s3, l, r, j);
        lemma_dot_split(a, b, r, j, kk, k - kk);
        lemma_dot_congruent(shifted(a, 0, 0), shifted(b, 0, 0), a, b, r, j, r, j, kk);
        lemma_dot_congruent(shifted(a, 0, 0), shifted(b, 0, 0), a, b, r, j, r, j, k);
    }
    assert forall|r: int, c: int| 0 <= c < l.row_stride && !l.covers(align, r, c) implies #[trigger] cell(
        s4,
        l.row_stride,
        r,
        c,
    ) == cell(s0, l.row_stride, r, c) by {
        assert(cell(s4, l.row_stride, r, c) == cell(s3, l.row_stride, r, c));
        assert(cell(s3, l.row_stride, r, c) == cell(s2, l.row_stride, r, c));
        assert(cell(s2, l.row_stride, r, c) == cell(s1, l.row_stride, r, c));
        assert(cell(s1, l.row_stride, r, c) == cell(s0, l.row_stride, r, c));
    }
}

/// A part without rows or without columns adds nothing.
proof fn lemma_empty_part(
    s: Seq<u8>,
    l: Layout,
    align: usize,
    p: Part,
    a: spec_fn(int, int) -> bool,
    b: spec_fn(int, int) -> bool,
)
    requires
        p.nrows == 0 || p.nchunk_cols == 0,
    ensures
        part_added(s, s, l, align, p, a, b),
{
}

/// A part over no rows of the right factor adds nothing.
proof fn lemma_void_part(
    s: Seq<u8>,
    l: Layout,
    align: usize,
    p: Part,
    a: spec_fn(int, int) -> bool,
    b: spec_fn(int, int) -> bool,
)
    requires
        p.rhs_nrows == 0,
    ensures
        part_added(s, s, l, align, p, a, b),
{
}

/// The four parts of a product: the interior, the strip to its right, the
/// strip below it, and the interior over the rest of the inner dimension.
struct Parts {
    interior: Part,
    right: Part,
    below: Part,
    rest: Part,
}

impl Parts {
    /// The parts are those of a product of `m` rows, `k` terms and
    /// `b_chunks` chunks of columns, with a left factor of `a_chunks`
    /// chunks, whose interior has dimensions rounded down to multiples of
    /// `recurse_sz`.
    spec fn split(
        self,
        m: int,
        k: int,
        a_chunks: int,
        b_chunks: int,
        recurse_sz: int,
    ) -> bool {
        let mm = m - m % recurse_sz;
        let kk = k - k % recurse_sz;
        let nn = b_chunks * WINDOW_BITS - (b_chunks * WINDOW_BITS) % recurse_sz;
        &&& self.interior == (Part {
            row: 0,
            nrows: mm as usize,
            chunk_col: 0,
            nchunk_cols: (nn / (WINDOW_BITS as int)) as usize,
            lhs_chunk_col: 0,
            lhs_nchunk_cols: (kk / (WINDOW_BITS as int)) as usize,
            rhs_row: 0,
            rhs_nrows: kk as usize,
        })
        &&& self.right == (Part {
            row: 0,
            nrows: m as usize,
            chunk_col: (nn / (WINDOW_BITS as int)) as usize,
            nchunk_cols: (b_chunks - nn / (WINDOW_BITS as int)) as usize,
            lhs_chunk_col: 0,
            lhs_nchunk_cols: a_chunks as usize,
            rhs_row: 0,
            rhs_nrows: k as usize,
        })
        &&& self.below == (Part {
            row: mm as usize,
            nrows: (m - mm) as usize,
            chunk_col: 0,
            nchunk_cols: (nn / (WINDOW_BITS as int)) as usize,
            lhs_chunk_col: 0,
            lhs_nchunk_cols: a_chunks as usize,
            rhs_row: 0,
            rhs_nrows: k as usize,
        })
        &&& self.rest == (Part {
            row: 0,
            nrows: mm as usize,
            chunk_col: 0,
            nchunk_cols: (nn / (WINDOW_BITS as int)) as usize,
            lhs_chunk_col: (kk / (WINDOW_BITS as int)) as usize,
            lhs_nchunk_cols: (a_chunks - kk / (WINDOW_BITS as int)) as usize,
            rhs_row: kk as usize,
            rhs_nrows: (k - kk) as usize,
        })
    }

    /// The parts lie inside a product of `m` rows, `k` terms and `b_chunks`
    /// chunks of columns with a left factor of `a_chunks` chunks, they
    /// cover it, and the interior can be cut `f` ways.
    spec fn cover(self, m: int, k: int, a_chunks: int, b_chunks: int, f: int) -> bool {
        let (i, r, b, t) = (self.interior, self.right, self.below, self.rest);
        &&& i.row == 0 && i.chunk_col == 0 && i.lhs_chunk_col == 0 && i.rhs_row == 0
        &&& i.nrows <= m && i.nchunk_cols <= b_chunks && i.rhs_nrows <= k
        &&& i.lhs_nchunk_cols * WINDOW_BITS == i.rhs_nrows
        &&& i.rhs_nrows % 8 == 0
        &&& cuttable(i.nrows as int, i.rhs_nrows as int, i.nchunk_cols * WINDOW_BITS, f)
        &&& r.row == 0 && r.nrows == m && r.chunk_col == i.nchunk_cols && r.lhs_chunk_col == 0
            && r.rhs_row == 0 && r.rhs_nrows == k
        &&& r.chunk_col + r.nchunk_cols == b_chunks
        &&& r.lhs_nchunk_cols == a_chunks
        &&& b.row == i.nrows && b.row + b.nrows == m && b.chunk_col == 0 && b.nchunk_cols
            == i.nchunk_cols && b.lhs_chunk_col == 0 && b.rhs_row == 0 && b.rhs_nrows == k
        &&& b.lhs_nchunk_cols == a_chunks
        &&& t.row == 0 && t.nrows == i.nrows && t.chunk_col == 0 && t.nchunk_cols == i.nchunk_cols
            && t.lhs_chunk_col == i.lhs_nchunk_cols && t.rhs_row == i.rhs_nrows && i.rhs_nrows
            + t.rhs_nrows == k
        &&& t.lhs_chunk_col + t.lhs_nchunk_cols == a_chunks
    }
}

/// Cuts a product of `m` rows, `k` terms and `b_chunks` chunks of columns,
/// with a left factor of `a_chunks` chunks, into its four parts, for an
/// interior whose dimensions are multiples of `recurse_sz`.
fn split_parts(
    m: usize,
    k: usize,
    a_chunks: usize,
    b_chunks: usize,
    recurse_sz: usize,
    Ghost(f): Ghost<int>,
) -> (parts: Parts)
    requires
        f > 0,
        recurse_sz == WINDOW_BITS * f,
        b_chunks * WINDOW_BITS <= usize::MAX,
        a_chunks * WINDOW_BITS <= usize::MAX,
        k <= a_chunks * WINDOW_BITS,
    ensures
        parts.split(m as int, k as int, a_chunks as int, b_chunks as int, recurse_sz as int),
        parts.cover(m as int, k as int, a_chunks as int, b_chunks as int, f),
{
    let n = b_chunks * WINDOW_BITS;
    proof {
        lemma_rounded_down(m as int, f);
        lemma_rounded_down(k as int, f);
        lemma_rounded_down(n as int, f);
    }
    let mm = m - (m % recurse_sz);
    let kk = k - (k % recurse_sz);
    let nn = n - (n % recurse_sz);
    let chunk_k = kk / WINDOW_BITS;
    let chunk_n = nn / WINDOW_BITS;
    let m_rem = m - mm;
    let k_rem = k - kk;
    Parts {
        interior: Part {
            row: 0,
            nrows: mm,
            chunk_col: 0,
            nchunk_cols: chunk_n,
            lhs_chunk_col: 0,
            lhs_nchunk_cols: chunk_k,
            rhs_row: 0,
            rhs_nrows: kk,
        },
        right: Part {
            row: 0,
            nrows: m,
            chunk_col: chunk_n,
            nchunk_cols: b_chunks - chunk_n,
            lhs_chunk_col: 0,
            lhs_nchunk_cols: a_chunks,
            rhs_row: 0,
            rhs_nrows: k,
        },
        below: Part {
            row: mm,
            nrows: m_rem,
            chunk_col: 0,
            nchunk_cols: chunk_n,
            lhs_chunk_col: 0,
            lhs_nchunk_cols: a_chunks,
            rhs_row: 0,
            rhs_nrows: k,
        },
        rest: Part {
            row: 0,
            nrows: mm,
            chunk_col: 0,
            nchunk_cols: chunk_n,
            lhs_chunk_col: chunk_k,
            lhs_nchunk_cols: a_chunks - chunk_k,
            rhs_row: kk,
            rhs_nrows: k_rem,
        },
    }
}

/// A number of chunks of an alignment that is a multiple of the window
/// alignment is a whole number of window chunks.
proof fn lemma_window_chunks(nchunks: usize, align: usize)
    requires
        valid_alignment(align),
        align % WINDOW_ALIGN == 0,
    ensures
        (nchunks * align) % (WINDOW_ALIGN as int) == 0,
        ((nchunks * align) / (WINDOW_ALIGN as int)) * WINDOW_ALIGN == nchunks * align,
{
    let x = nchunks as int;
    if align == 16 {
        assert((x * 16) % 16 == 0);
    } else if align == 32 {
        assert((x * 32) % 16 == 0);
    } else if align == 64 {
        assert((x * 64) % 16 == 0);
    } else {
        assert((x * 128) % 16 == 0);
    }
}

/// Shifting a column by whole bytes shifts the start of its byte alike.
proof fn lemma_shifted_byte(j: int, c: int)
    requires
        c % 8 == 0,
    ensures
        ((j + c) / 8) * 8 == (j / 8) * 8 + c,
{
    let q = c / 8;
    assert(c == 8 * q);
    assert((j + 8 * q) / 8 == j / 8 + q);
}

/// Where the left factor is clear behind its last column read, so is each
/// of the parts' left factors.
proof fn lemma_parts_clear(a: spec_fn(int, int) -> bool, m: int, k: int, p: Part)
    requires
        last_byte_clear(a, m, k),
        p.row + p.nrows <= m,
        (p.lhs_chunk_col == 0 && p.rhs_nrows % 8 == 0) || p.lhs_chunk_col * WINDOW_BITS
            + p.rhs_nrows == k,
    ensures
        forall|i: int, j: int|
            p.row <= i < p.row + p.nrows && p.rhs_nrows <= j && (j / 8) * 8 < p.rhs_nrows
                ==> !#[trigger] entry(a, i, j + p.lhs_chunk_col * WINDOW_BITS),
{
    let c: int = p.lhs_chunk_col * WINDOW_BITS;
    let n: int = p.rhs_nrows as int;
    assert(c % 8 == 0) by {
        let x = p.lhs_chunk_col as int;
        assert(x * 128 == 8 * (x * 16));
    }
    assert forall|i: int, j: int|
        p.row <= i < p.row + p.nrows && n <= j && (j / 8) * 8 < n implies !#[trigger] entry(
        a,
        i,
        j + c,
    ) by {
        if c + n == k {
            lemma_shifted_byte(j, c);
            assert(k <= j + c && ((j + c) / 8) * 8 < k);
        } else {
            let q = n / 8;
            assert(n == 8 * q);
            assert(j / 8 >= q);
        }
    }
}

/// `tgt += lhs * rhs`. Below the cutoff this is the base kernel. From the
/// cutoff on, the cascade of `choose_cascade` multiplies the largest part
/// of the operands whose dimensions are multiples of its block size, and
/// the base kernel adds what the strips beside that part contribute.
pub fn addmul<const ALIGN: usize, T, S1, S2>(tgt: &mut T, lhs: &S1, rhs: &S2) where
    T: GF2MatLikeMut<ALIGN>,
    S1: GF2MatLike<ALIGN>,
    S2: GF2MatLike<ALIGN>,

    requires
        addmul_pre(old(tgt), lhs, rhs),
        lhs.layout().nrows >= STRASSEN_CUTOFF && rhs.layout().nrows >= STRASSEN_CUTOFF
            && rhs.layout().max_ncols(ALIGN) >= STRASSEN_CUTOFF ==> ALIGN % WINDOW_ALIGN == 0,
    ensures
        final(tgt).layout() == old(tgt).layout(),
        final(tgt).logical_ncols() == old(tgt).logical_ncols(),
        product_added(
            old(tgt).store(),
            final(tgt).store(),
            old(tgt).layout(),
            ALIGN,
            bits_of(lhs),
            bits_of(rhs),
            rhs.layout().nrows as int,
        ),
{
    let ghost s0 = tgt.store();
    let ghost l = tgt.layout();
    let ghost a = bits_of(lhs);
    let ghost b = bits_of(rhs);
    proof {
        lemma_widths(l, ALIGN, s0.len());
        lemma_widths(lhs.layout(), ALIGN, lhs.store().len());
        lemma_widths(rhs.layout(), ALIGN, rhs.store().len());
    }
    let m = lhs.nrows();
    let k = rhs.nrows();
    let n = rhs.max_ncols();
    let min_mk = if m < k {
        m
    } else {
        k
    };
    let min_dim = if min_mk < n {
        min_mk
    } else {
        n
    };
    if min_dim < STRASSEN_CUTOFF {
        addmul_m4rm(tgt, lhs, rhs);
        return ;
    }
    let (algos, recurse_sz) = choose_cascade(min_dim);
    let ghost depth = cascade_depth(min_dim as int / 2);
    let ghost f = pow2(depth);
    proof {
        lemma_pow2_positive(depth);
        lemma_window_chunks(lhs.layout().nchunk_cols, ALIGN);
        lemma_window_chunks(rhs.layout().nchunk_cols, ALIGN);
    }
    let a_nwinchunk_cols = lhs.nbyte_cols() / WINDOW_ALIGN;
    let b_nwinchunk_cols = rhs.nbyte_cols() / WINDOW_ALIGN;
    let parts = split_parts(m, k, a_nwinchunk_cols, b_nwinchunk_cols, recurse_sz, Ghost(f));
    proof {
        assert(pow2((2 * (depth / 2) + depth % 2) as nat) == f);
        lemma_cascade_fits(
            depth / 2,
            depth % 2,
            parts.interior.nrows as int,
            parts.interior.rhs_nrows as int,
            parts.interior.nchunk_cols * WINDOW_BITS,
        );
        lemma_parts_clear(a, m as int, k as int, parts.interior);
        lemma_parts_clear(a, m as int, k as int, parts.right);
        lemma_parts_clear(a, m as int, k as int, parts.below);
        lemma_parts_clear(a, m as int, k as int, parts.rest);
    }
    addmul_part(tgt, lhs, rhs, parts.interior, Some(algos.as_slice()));
    let ghost s1 = tgt.store();
    if parts.right.nchunk_cols > 0 {
        addmul_part(tgt, lhs, rhs, parts.right, None);
    } else {
        proof {
            lemma_empty_part(s1, l, ALIGN, parts.right, a, b);
        }
    }
    let ghost s2 = tgt.store();
    if parts.below.nrows > 0 {
        addmul_part(tgt, lhs, rhs, parts.below, None);
    } else {
        proof {
            lemma_empty_part(s2, l, ALIGN, parts.below, a, b);
        }
    }
    let ghost s3 = tgt.store();
    if parts.rest.rhs_nrows > 0 {
        addmul_part(tgt, lhs, rhs, parts.rest, None);
    } else {
        proof {
            lemma_void_part(s3, l, ALIGN, parts.rest, a, b);
        }
    }
    proof {
        lemma_parts_sum(
            s0,
            s1,
            s2,
            s3,
            tgt.store(),
            l,
            ALIGN,
            a,
            b,
            parts.interior,
            parts.right,
            parts.below,
            parts.rest,
            k as int,
        );
    }
}

} // verus!
