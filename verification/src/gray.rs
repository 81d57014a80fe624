//! The reflected Gray code on bytes: its encoding and decoding, the bit in
//! which consecutive code words differ, and the sums that a code word names.
use crate::algebra::{dot, entry};
use crate::layout::byte_bit;
use vstd::prelude::*;

verus! {

/// Number of rows of the right factor that one lookup table covers.
pub const MAX_TBL_SZ: usize = 8;

/// Number of rows of a lookup table.
pub const MAX_CODE_LEN: usize = 256;

/// The Gray code word of rank `num`.
pub open spec fn gray(num: usize) -> usize {
    num ^ (num >> 1)
}

/// Bit `t` of `v`, counted from the least significant.
pub open spec fn word_bit(v: usize, t: int) -> bool {
    (v >> (t as usize)) & 1usize == 1usize
}

/// The Gray code word of rank `num`.
pub fn gray_encode(num: usize) -> (code: usize)
    ensures
        code == gray(num),
{
    num ^ (num >> 1)
}

/// The rank of the code word `num` in the Gray code.
pub fn gray_decode(num: usize) -> (rank: usize)
    ensures
        gray(rank) == num,
        num < 256 ==> rank < 256,
{
    let mut num = num;
    let ghost word = num;
    let mut p = num;
    loop
        invariant_except_break
            p ^ (p >> 1) == word ^ (num >> 1),
        invariant
            word < 256 ==> p < 256 && num < 256,
        ensures
            p ^ (p >> 1) == word,
        decreases num,
    {
        let ghost prev = num;
        let ghost prev_p = p;
        num = num >> 1;
        assert(num <= prev && (prev != 0 ==> num < prev) && (prev < 256 ==> num < 256)
            && (prev == 0 ==> num == 0)) by (bit_vector)
            requires
                num == prev >> 1,
        ;
        if num == 0 {
            assert(word ^ 0usize == word) by (bit_vector);
            break ;
        }
        p = p ^ num;
        assert(p ^ (p >> 1) == (prev_p ^ (prev_p >> 1)) ^ num ^ (num >> 1) && (prev_p < 256 && num
            < 256 ==> p < 256)) by (bit_vector)
            requires
                p == prev_p ^ num,
        ;
        assert((word ^ num) ^ num ^ (num >> 1) == word ^ (num >> 1)) by (bit_vector);
    }
    p
}

/// The table that gives each byte its rank as a Gray code word.
pub fn gray_rank_table() -> (tbl: Vec<u8>)
    ensures
        tbl@.len() == MAX_CODE_LEN,
        forall|v: int| 0 <= v < MAX_CODE_LEN ==> gray(#[trigger] tbl@[v] as usize) == v,
{
    let mut tbl: Vec<u8> = Vec::new();
    let mut v: usize = 0;
    while v < MAX_CODE_LEN
        invariant
            v <= MAX_CODE_LEN,
            tbl@.len() == v,
            forall|w: int| 0 <= w < v ==> gray(#[trigger] tbl@[w] as usize) == w,
        decreases MAX_CODE_LEN - v,
    {
        let rank = gray_decode(v);
        tbl.push(rank as u8);
        v += 1;
    }
    tbl
}

/// The bit in which the code words of ranks `i` and `i + 1` differ: the
/// number of ones at the low end of `i`.
pub fn inc_index(i: usize) -> (t: usize)
    requires
        i < 255,
    ensures
        t < 8,
        gray((i + 1) as usize) == gray(i) ^ (1usize << t),
        forall|n: usize| n <= 8 && i + 1 < (1usize << n) ==> t < n,
{
    let next = i + 1;
    let mut t: usize = 0;
    assert((next >> 0usize) << 0usize == next) by (bit_vector);
    while (next >> t) & 1 == 0
        invariant
            0 < next < 256,
            t < 8,
            (next >> t) << t == next,
        decreases 8 - t,
    {
        assert(t + 1 < 8 && (next >> ((t + 1) as usize)) << ((t + 1) as usize) == next) by (bit_vector)
            requires
                0 < next < 256,
                t < 8,
                (next >> t) << t == next,
                (next >> t) & 1 == 0,
        ;
        t = t + 1;
    }
    assert(gray(next) == gray(i) ^ (1usize << t)) by (bit_vector)
        requires
            next == i + 1,
            i < 255,
            t < 8,
            (next >> t) << t == next,
            (next >> t) & 1 != 0,
    ;
    assert forall|n: usize| n <= 8 && i + 1 < (1usize << n) implies t < n by {
        assert(t < n) by (bit_vector)
            requires
                n <= 8,
                next < (1usize << n),
                t < 8,
                (next >> t) & 1 != 0,
        ;
    }
    t
}

/// The sum, over the `n` lowest bits of `v` that are set, of the rows of `b`
/// from `row0` on that the bits name, in column `j`.
pub open spec fn selected_sum(
    v: usize,
    b: spec_fn(int, int) -> bool,
    row0: int,
    j: int,
    n: int,
) -> bool
    decreases n,
{
    if n <= 0 {
        false
    } else {
        selected_sum(v, b, row0, j, n - 1) != (word_bit(v, n - 1) && entry(b, row0 + n - 1, j))
    }
}

/// No bit of zero is set, so zero selects nothing.
pub proof fn lemma_selected_none(b: spec_fn(int, int) -> bool, row0: int, j: int, n: int)
    requires
        n <= 8,
    ensures
        !selected_sum(0, b, row0, j, n),
    decreases n,
{
    if n > 0 {
        lemma_selected_none(b, row0, j, n - 1);
        let s = (n - 1) as usize;
        assert((0usize >> s) & 1usize != 1usize) by (bit_vector)
            requires
                s < 8,
        ;
    }
}

/// Flipping bit `t` of `v` adds row `row0 + t` to the sum that `v` selects,
/// where that bit is among those summed over.
pub proof fn lemma_selected_flip(
    v: usize,
    t: usize,
    b: spec_fn(int, int) -> bool,
    row0: int,
    j: int,
    n: int,
)
    requires
        t < 8,
        n <= 8,
    ensures
        selected_sum(v ^ (1usize << t), b, row0, j, n) == (selected_sum(v, b, row0, j, n) != (t < n
            && entry(b, row0 + t, j))),
    decreases n,
{
    if n > 0 {
        lemma_selected_flip(v, t, b, row0, j, n - 1);
        let s = (n - 1) as usize;
        let w = v ^ (1usize << t);
        assert(((w >> s) & 1usize == 1usize) == (((v >> s) & 1usize == 1usize) != (s == t)))
            by (bit_vector)
            requires
                w == v ^ (1usize << t),
                s < 8,
                t < 8,
        ;
    }
}

/// Where the `n` low bits of `v` are the entries of row `i` of `a` in the
/// columns from `s` on, the sum that `v` selects continues the product's sum
/// from `s` terms to `s + n`.
pub proof fn lemma_dot_slice(
    a: spec_fn(int, int) -> bool,
    b: spec_fn(int, int) -> bool,
    i: int,
    j: int,
    s: int,
    v: usize,
    n: int,
)
    requires
        0 <= s,
        0 <= n,
        forall|t: int| 0 <= t < n ==> word_bit(v, t) == #[trigger] entry(a, i, s + t),
    ensures
        dot(a, b, i, j, s + n) == (dot(a, b, i, j, s) != selected_sum(v, b, s, j, n)),
    decreases n,
{
    if n > 0 {
        lemma_dot_slice(a, b, i, j, s, v, n - 1);
        assert(word_bit(v, n - 1) == entry(a, i, s + (n - 1)));
    }
}

/// A byte and the word of the same value have the same bits, and a byte
/// whose bits from `n` on are clear is below `2^n`.
pub proof fn lemma_byte_word(x: u8, n: usize)
    requires
        n <= 8,
    ensures
        forall|t: int| 0 <= t < 8 ==> #[trigger] word_bit(x as usize, t) == byte_bit(x, t),
        (forall|t: int| n <= t < 8 ==> !#[trigger] byte_bit(x, t)) ==> (x as usize) < (1usize << n),
{
    assert forall|t: int| 0 <= t < 8 implies #[trigger] word_bit(x as usize, t) == byte_bit(
        x,
        t,
    ) by {
        let s = t as u8;
        let w = x as usize;
        let su = t as usize;
        assert(((w >> su) & 1usize == 1usize) == ((x >> s) & 1u8 == 1u8)) by (bit_vector)
            requires
                w == x as usize,
                su == s as usize,
                s < 8,
        ;
    }
    if forall|t: int| n <= t < 8 ==> !#[trigger] byte_bit(x, t) {
        assert(!byte_bit(x, 0) || n > 0);
        assert(!byte_bit(x, 1) || n > 1);
        assert(!byte_bit(x, 2) || n > 2);
        assert(!byte_bit(x, 3) || n > 3);
        assert(!byte_bit(x, 4) || n > 4);
        assert(!byte_bit(x, 5) || n > 5);
        assert(!byte_bit(x, 6) || n > 6);
        assert(!byte_bit(x, 7) || n > 7);
        let w = x as usize;
        assert(w < (1usize << n)) by (bit_vector)
            requires
                w == x as usize,
                n <= 8,
                (x >> 0u8) & 1u8 != 1u8 || n > 0,
                (x >> 1u8) & 1u8 != 1u8 || n > 1,
                (x >> 2u8) & 1u8 != 1u8 || n > 2,
                (x >> 3u8) & 1u8 != 1u8 || n > 3,
                (x >> 4u8) & 1u8 != 1u8 || n > 4,
                (x >> 5u8) & 1u8 != 1u8 || n > 5,
                (x >> 6u8) & 1u8 != 1u8 || n > 6,
                (x >> 7u8) & 1u8 != 1u8 || n > 7,
        ;
    }
}

/// The Gray code maps the numbers below `2^n` onto themselves.
pub proof fn lemma_gray_range(rank: usize, n: usize)
    requires
        n <= 8,
        gray(rank) < (1usize << n),
    ensures
        rank < (1usize << n),
        (1usize << n) <= 256,
{
    assert(rank < (1usize << n) && (1usize << n) <= 256) by (bit_vector)
        requires
            n <= 8,
            (rank ^ (rank >> 1)) < (1usize << n),
    ;
}

} // verus!
