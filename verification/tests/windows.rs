use gf2mul::{addmul_m4rm, tabulate_m4rm, AlignedGF2Mat, GF2Mat, GF2MatLike, GF2MatLikeMut};
use gf2mul::{gray_decode, gray_encode, inc_index};

fn pattern(nrows: usize, ncols: usize, seed: usize) -> Vec<Vec<bool>> {
    (0..nrows)
        .map(|i| (0..ncols).map(|j| (i * 13 + j * 7 + seed + (i * j) % 5) % 3 == 1).collect())
        .collect()
}

fn matrix(nrows: usize, ncols: usize, seed: usize) -> GF2Mat {
    GF2Mat::from_rows(nrows, ncols, &pattern(nrows, ncols, seed))
}

fn bit_of(row: &[u8], j: usize) -> bool {
    (row[j / 8] >> (j % 8)) & 1 == 1
}

#[test]
fn windows_share_the_storage_of_their_matrix() {
    let m = matrix(10, 2048, 3);
    let bits = pattern(10, 2048, 3);
    let w = m.get_window_unchecked::<16>(2, 3, 5, 4);
    assert_eq!((w.nrows(), w.nchunk_cols(), w.row_stride()), (5, 4, 256));
    assert_eq!((w.first_row(), w.first_col()), (2, 48));
    assert_eq!((w.nbyte_cols(), w.max_ncols()), (64, 512));
    assert_eq!(w.data().len(), m.data().len());
    for i in 0..5 {
        let row = w.row_slice_unchecked(i);
        assert_eq!(row.len(), 64);
        for j in 0..512 {
            assert_eq!(bit_of(row, j), bits[i + 2][j + 3 * 128]);
        }
    }
    let inner = w.get_window_unchecked::<16>(1, 2, 3, 1);
    assert_eq!((inner.first_row(), inner.first_col()), (3, 80));
    for i in 0..3 {
        let row = inner.row_slice_unchecked(i);
        for j in 0..128 {
            assert_eq!(bit_of(row, j), bits[i + 3][j + 5 * 128]);
        }
    }
}

#[test]
fn a_matrix_is_divided_into_a_grid_of_windows() {
    let m = matrix(9, 2048, 8);
    let bits = pattern(9, 2048, 8);
    let grid = m.division_unchecked::<16, 3, 2>(3, 4);
    assert_eq!(grid.len(), 3);
    for (r, row) in grid.iter().enumerate() {
        assert_eq!(row.len(), 2);
        for (c, w) in row.iter().enumerate() {
            assert_eq!((w.nrows(), w.nchunk_cols()), (3, 4));
            assert_eq!((w.first_row(), w.first_col()), (3 * r, 64 * c));
            for i in 0..3 {
                let bytes = w.row_slice_unchecked(i);
                for j in 0..512 {
                    assert_eq!(bit_of(bytes, j), bits[3 * r + i][512 * c + j]);
                }
            }
        }
    }
}

#[test]
fn a_window_for_writing_holds_the_storage_until_it_is_returned() {
    let mut m = matrix(6, 2048, 1);
    let bits = pattern(6, 2048, 1);
    let places = m.division_mut_unchecked::<16, 2, 4>(3, 4);
    assert_eq!(
        places,
        vec![vec![(0, 0), (0, 4), (0, 8), (0, 12)], vec![(3, 0), (3, 4), (3, 8), (3, 12)]]
    );
    let len = m.data().len();
    let (row, chunk_col) = places[1][2];
    let mut w = m.get_window_mut_unchecked::<16>(row, chunk_col, 3, 4);
    assert_eq!(m.data().len(), 0);
    assert_eq!(w.data().len(), len);
    assert_eq!((w.nrows(), w.nchunk_cols(), w.first_row(), w.first_col()), (3, 4, 3, 128));
    w.clear();
    w.row_slice_mut_unchecked(1)[0] = 0x81;
    m.return_window(w);
    assert_eq!(m.data().len(), len);
    for i in 0..6 {
        for j in 0..2048 {
            let inside = i >= 3 && (1024..1536).contains(&j);
            let want = if inside { i == 4 && (j == 1024 || j == 1031) } else { bits[i][j] };
            assert_eq!(m.get_unchecked(i, j), want);
        }
    }
}

#[test]
fn the_base_kernel_multiplies_windows() {
    let a = matrix(7, 300, 2);
    let b = matrix(300, 2048, 4);
    let mut c = GF2Mat::zero(7, 2048);
    let mut whole = GF2Mat::zero(7, 2048);
    addmul_m4rm(&mut whole, &a, &b);
    let a_win = a.get_window_unchecked::<16>(0, 0, 7, 8);
    let b_win = b.get_window_unchecked::<16>(0, 4, 300, 8);
    let mut c_win = c.get_window_mut_unchecked::<16>(0, 4, 7, 8);
    addmul_m4rm(&mut c_win, &a_win, &b_win);
    c.return_window(c_win);
    for i in 0..7 {
        for j in 0..2048 {
            let inside = (512..1536).contains(&j);
            assert_eq!(c.get_unchecked(i, j), inside && whole.get_unchecked(i, j));
        }
    }
}

#[test]
fn gray_code_words_and_ranks() {
    let words: Vec<usize> = (0..8).map(gray_encode).collect();
    assert_eq!(words, vec![0, 1, 3, 2, 6, 7, 5, 4]);
    assert_eq!(gray_encode(255), 128);
    for rank in 0..1024 {
        assert_eq!(gray_decode(gray_encode(rank)), rank);
    }
    assert_eq!(gray_decode(4), 7);
    assert_eq!(gray_decode(128), 255);
    assert_eq!(gray_decode(0xff), 0xaa);
    assert_eq!(gray_encode(gray_decode(usize::MAX)), usize::MAX);
    let steps: Vec<usize> = (0..8).map(inc_index).collect();
    assert_eq!(steps, vec![0, 1, 0, 2, 0, 1, 0, 3]);
    assert_eq!(inc_index(127), 7);
    assert_eq!(inc_index(254), 0);
    for i in 0..255 {
        assert_eq!(gray_encode(i) ^ gray_encode(i + 1), 1 << inc_index(i));
    }
    let table = gf2mul::gray::gray_rank_table();
    assert_eq!(table.len(), 256);
    for v in 0..256 {
        assert_eq!(gray_encode(table[v] as usize), v);
    }
}

#[test]
fn the_table_holds_the_sums_in_gray_code_order() {
    let src = matrix(20, 100, 6);
    let rows = pattern(20, 100, 6);
    let mut tbl = AlignedGF2Mat::<128>::zero(256, 1024);
    tabulate_m4rm(&mut tbl, &src, 3, 5);
    for g in 0..32 {
        let word = gray_encode(g);
        for j in 0..100 {
            let want = (0..5).fold(false, |acc, t| acc ^ ((word >> t) & 1 == 1 && rows[3 + t][j]));
            assert_eq!(tbl.get_unchecked(g, j), want);
        }
    }
    for g in 32..256 {
        assert!(tbl.row_slice_unchecked(g).iter().all(|b| *b == 0));
    }
    tabulate_m4rm(&mut tbl, &src, 12, 8);
    for g in [0usize, 1, 2, 77, 255] {
        let word = gray_encode(g);
        for j in 0..100 {
            let want = (0..8).fold(false, |acc, t| acc ^ ((word >> t) & 1 == 1 && rows[12 + t][j]));
            assert_eq!(tbl.get_unchecked(g, j), want);
        }
    }
    tabulate_m4rm(&mut tbl, &src, 0, 0);
    assert!(tbl.row_slice_unchecked(0).iter().all(|b| *b == 0));
}
