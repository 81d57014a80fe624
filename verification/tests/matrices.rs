use gf2mul::gf2mat::to_mat;
use gf2mul::{
    xor_aligned_slices, xor_aligned_slices_to, AlignedGF2Mat, GF2Mat, GF2MatLike, GF2MatLikeMut,
    MatAccessError, MatAddError, MatMulError,
};

fn pattern(nrows: usize, ncols: usize, seed: usize) -> Vec<Vec<bool>> {
    (0..nrows)
        .map(|i| (0..ncols).map(|j| (i * 31 + j * 17 + seed + (i * j) % 7) % 3 == 0).collect())
        .collect()
}

fn matrix(nrows: usize, ncols: usize, seed: usize) -> GF2Mat {
    GF2Mat::from_rows(nrows, ncols, &pattern(nrows, ncols, seed))
}

#[test]
fn zero_has_rows_of_whole_chunks() {
    let m = GF2Mat::zero(3, 1);
    assert_eq!((m.nrows(), m.ncols(), m.row_stride(), m.nchunk_cols()), (3, 1, 128, 1));
    assert_eq!((m.nbyte_cols(), m.max_ncols()), (128, 1024));
    assert_eq!(m.data().len(), 3 * 128);
    assert!(m.data().iter().all(|b| *b == 0));
    let m = GF2Mat::zero(2, 1024);
    assert_eq!((m.row_stride(), m.nchunk_cols()), (128, 1));
    let m = GF2Mat::zero(2, 1025);
    assert_eq!((m.row_stride(), m.nchunk_cols()), (256, 2));
    let m = AlignedGF2Mat::<16>::zero(5, 129);
    assert_eq!((m.row_stride(), m.nchunk_cols(), m.max_ncols()), (32, 2, 256));
    let m = GF2Mat::zero(4, 0);
    assert_eq!((m.nrows(), m.ncols(), m.row_stride(), m.data().len()), (4, 0, 0, 0));
    let m = GF2Mat::zero(0, 9);
    assert_eq!((m.nrows(), m.ncols(), m.row_stride(), m.data().len()), (0, 9, 128, 0));
}

#[test]
fn bits_are_packed_from_the_low_end_of_each_byte() {
    let mut m = GF2Mat::zero(2, 20);
    m.set_unchecked(0, 0, true);
    m.set_unchecked(0, 9, true);
    m.set_unchecked(1, 19, true);
    assert_eq!(m.data()[0], 0b0000_0001);
    assert_eq!(m.data()[1], 0b0000_0010);
    assert_eq!(m.data()[128 + 2], 0b0000_1000);
    assert_eq!(m.row_slice_unchecked(1)[2], 0b0000_1000);
    m.set_unchecked(0, 9, false);
    assert_eq!(m.data()[1], 0);
    assert!(m.get_unchecked(0, 0));
    assert!(!m.get_unchecked(0, 9));
    assert!(m.get_unchecked(1, 19));
}

#[test]
fn checked_access_reports_the_position_and_the_size() {
    let mut m = matrix(3, 5, 1);
    let rows = pattern(3, 5, 1);
    for i in 0..3 {
        for j in 0..5 {
            assert_eq!(m.try_get(i, j), Ok(rows[i][j]));
        }
    }
    assert_eq!(m.try_get(3, 0), Err(MatAccessError::OutOfBounds(3, 0, 3, 5)));
    assert_eq!(m.try_get(0, 5), Err(MatAccessError::OutOfBounds(0, 5, 3, 5)));
    assert_eq!(m.try_get(7, 9), Err(MatAccessError::OutOfBounds(7, 9, 3, 5)));
    assert_eq!(m.try_set(3, 4, true), Err(MatAccessError::OutOfBounds(3, 4, 3, 5)));
    assert_eq!(m.try_set(2, 5, true), Err(MatAccessError::OutOfBounds(2, 5, 3, 5)));
    assert!(m == matrix(3, 5, 1));
    assert_eq!(m.try_set(2, 4, !rows[2][4]), Ok(()));
    assert_eq!(m.try_get(2, 4), Ok(!rows[2][4]));
    assert!(!(m == matrix(3, 5, 1)));
    assert_eq!(m.try_set(2, 4, rows[2][4]), Ok(()));
    assert!(m == matrix(3, 5, 1));
}

#[test]
fn checked_sums_report_the_dimensions() {
    let a = matrix(4, 9, 1);
    let b = matrix(4, 9, 2);
    let mut c = GF2Mat::zero(4, 9);
    assert_eq!(c.try_set_to_sum(&a, &b), Ok(()));
    let want: Vec<Vec<bool>> = pattern(4, 9, 1)
        .iter()
        .zip(pattern(4, 9, 2).iter())
        .map(|(x, y)| x.iter().zip(y.iter()).map(|(p, q)| p != q).collect())
        .collect();
    assert!(c == GF2Mat::from_rows(4, 9, &want));
    assert_eq!(c.try_add(&b), Ok(()));
    assert!(c == a);
    assert_eq!(c.try_add(&matrix(4, 8, 0)), Err(MatAddError::IncompatibleMatrices(4, 9, 4, 8)));
    assert_eq!(c.try_add(&matrix(5, 9, 0)), Err(MatAddError::IncompatibleMatrices(4, 9, 5, 9)));
    assert_eq!(
        c.try_set_to_sum(&a, &matrix(3, 9, 0)),
        Err(MatAddError::IncompatibleMatrices(4, 9, 3, 9))
    );
    assert_eq!(
        c.try_set_to_sum(&matrix(4, 10, 0), &matrix(4, 10, 1)),
        Err(MatAddError::DimMismatch(4, 10, 4, 9))
    );
    assert!(c == a);
}

#[test]
fn checked_product_reports_the_dimensions() {
    let a = matrix(4, 9, 1);
    let b = matrix(9, 6, 2);
    let mut c = GF2Mat::zero(4, 6);
    assert_eq!(c.try_addmul(&a, &b), Ok(()));
    let mut want = GF2Mat::zero(4, 6);
    gf2mul::addmul(&mut want, &a, &b);
    assert!(c == want);
    assert!(!(c == GF2Mat::zero(4, 6)));
    assert_eq!(
        c.try_addmul(&a, &matrix(8, 6, 0)),
        Err(MatMulError::IncompatibleMatrices(4, 9, 8, 6))
    );
    assert_eq!(c.try_addmul(&matrix(5, 9, 0), &b), Err(MatMulError::DimMismatch(5, 6, 4, 6)));
    assert_eq!(c.try_addmul(&a, &matrix(9, 7, 0)), Err(MatMulError::DimMismatch(4, 7, 4, 6)));
    assert!(c == want);
}

#[test]
fn slices_are_xored_bytewise() {
    let mut dst = [0b1100u8, 0xff, 0, 7];
    xor_aligned_slices::<4>(&mut dst, &[0b1010, 0x0f, 5, 7]);
    assert_eq!(dst, [0b0110, 0xf0, 5, 0]);
    let mut dst = [9u8, 9, 9];
    xor_aligned_slices_to::<1>(&mut dst, &[1, 2, 4], &[1, 1, 3]);
    assert_eq!(dst, [0, 3, 7]);
}

#[test]
fn rows_are_added_from_other_matrices() {
    let src = matrix(3, 40, 5);
    let mut dst = matrix(4, 40, 6);
    let before = pattern(4, 40, 6);
    let from = pattern(3, 40, 5);
    dst.add_row_from_mat(&src, 2, 1);
    for j in 0..40 {
        assert_eq!(dst.get_unchecked(1, j), before[1][j] != from[2][j]);
        assert_eq!(dst.get_unchecked(0, j), before[0][j]);
        assert_eq!(dst.get_unchecked(3, j), before[3][j]);
    }
    dst.add_row_row_from_mat(&src, 0, 3, 0);
    for j in 0..40 {
        assert_eq!(dst.get_unchecked(0, j), before[3][j] != from[0][j]);
        assert_eq!(dst.get_unchecked(3, j), before[3][j]);
    }
    let (row, other) = dst.distinct_row_slices_mut_immut(2, 3);
    assert_eq!(row.len(), 128);
    row[0] = other[0] ^ 0xff;
    assert_eq!(dst.data()[2 * 128], dst.data()[3 * 128] ^ 0xff);
    let (row, other) = dst.distinct_row_slices_mut_immut(3, 0);
    row[1] = other[1];
    assert_eq!(dst.data()[3 * 128 + 1], dst.data()[1]);
    dst.row_slice_mut_unchecked(1)[4] = 0x5a;
    assert_eq!(dst.data()[128 + 4], 0x5a);
}

#[test]
fn whole_matrices_are_added_copied_and_cleared() {
    let a = matrix(5, 70, 1);
    let b = matrix(5, 70, 2);
    let pa = pattern(5, 70, 1);
    let pb = pattern(5, 70, 2);
    let mut c = GF2Mat::zero(5, 70);
    c.copy_from(&a);
    assert!(c == a);
    c.add_unchecked(&b);
    for i in 0..5 {
        for j in 0..70 {
            assert_eq!(c.get_unchecked(i, j), pa[i][j] != pb[i][j]);
        }
    }
    let mut d = matrix(5, 70, 3);
    d.set_to_sum_unchecked(&a, &b);
    assert!(d == c);
    d.clear();
    assert!(d == GF2Mat::zero(5, 70));
    let copy = to_mat(&a);
    assert_eq!((copy.nrows(), copy.ncols()), (5, 1024));
    for i in 0..5 {
        for j in 0..1024 {
            assert_eq!(copy.get_unchecked(i, j), j < 70 && pa[i][j]);
        }
    }
}

#[test]
fn padding_is_cleared_and_columns_are_kept() {
    let mut m = matrix(3, 13, 4);
    let rows = pattern(3, 13, 4);
    for b in m.data_mut().iter_mut() {
        *b ^= 0xa5;
    }
    let mixed: Vec<Vec<bool>> = (0..3).map(|i| (0..13).map(|j| m.bit_or_zero(i, j)).collect()).collect();
    assert!(mixed != rows);
    assert!(m.bit_or_zero(0, 13) || m.bit_or_zero(0, 14) || m.bit_or_zero(0, 16));
    m.clear_padding();
    for i in 0..3 {
        for j in 0..13 {
            assert_eq!(m.get_unchecked(i, j), mixed[i][j]);
        }
        for j in 13..1024 {
            assert!(!m.bit_or_zero(i, j));
        }
    }
    assert!(!m.bit_or_zero(3, 0));
    assert!(!m.bit_or_zero(usize::MAX, usize::MAX));
}

#[test]
fn random_matrices_have_their_dimensions() {
    let mut rng = rand::thread_rng();
    let m = GF2Mat::random(9, 200, &mut rng);
    assert_eq!((m.nrows(), m.ncols(), m.row_stride()), (9, 200, 128));
    let other = GF2Mat::random(9, 200, &mut rng);
    assert!(!(m == other));
    assert!(!(m == GF2Mat::zero(9, 200)));
    let empty = GF2Mat::random(3, 0, &mut rng);
    assert_eq!((empty.nrows(), empty.ncols()), (3, 0));
    assert!(empty == GF2Mat::zero(3, 0));
}
