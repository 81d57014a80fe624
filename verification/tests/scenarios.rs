use gf2mul::decomp::{addmul_decomp2x2, addmul_decomp4x4};
use gf2mul::mul::choose_cascade;
use gf2mul::{addmul, addmul_m4rm, addmul_recurse, AddMulAlgo, GF2Mat};
use rand::Rng;

fn from_bits(rows: &[&[u8]]) -> GF2Mat {
    let ncols = rows[0].len();
    let rows: Vec<Vec<bool>> = rows.iter().map(|r| r.iter().map(|b| *b == 1).collect()).collect();
    GF2Mat::from_rows(rows.len(), ncols, &rows)
}

fn random_rows(rng: &mut rand::rngs::ThreadRng, nrows: usize, ncols: usize) -> Vec<Vec<bool>> {
    (0..nrows).map(|_| (0..ncols).map(|_| rng.gen::<bool>()).collect()).collect()
}

fn product_row(a_row: &Vec<bool>, b: &Vec<Vec<bool>>, ncols: usize) -> Vec<bool> {
    let mut acc = vec![false; ncols];
    for (t, bit) in a_row.iter().enumerate() {
        if *bit {
            for j in 0..ncols {
                acc[j] ^= b[t][j];
            }
        }
    }
    acc
}

#[test]
fn identity_times_small_matrix() {
    let a = from_bits(&[&[1, 0], &[0, 1]]);
    let b = from_bits(&[&[1, 1], &[1, 0]]);
    let mut c = GF2Mat::zero(2, 2);
    addmul(&mut c, &a, &b);
    assert!(c == from_bits(&[&[1, 1], &[1, 0]]));
    assert_eq!(c.try_get(0, 0), Ok(true));
    assert_eq!(c.try_get(0, 1), Ok(true));
    assert_eq!(c.try_get(1, 0), Ok(true));
    assert_eq!(c.try_get(1, 1), Ok(false));
}

#[test]
fn all_ones_squared_is_zero() {
    let j4 = from_bits(&[&[1, 1, 1, 1], &[1, 1, 1, 1], &[1, 1, 1, 1], &[1, 1, 1, 1]]);
    let mut c = GF2Mat::zero(4, 4);
    addmul(&mut c, &j4, &j4);
    assert!(c == GF2Mat::zero(4, 4));
}

#[test]
fn product_accumulates_into_the_target() {
    let a = from_bits(&[&[1, 1, 0], &[0, 1, 1]]);
    let b = from_bits(&[&[1, 0], &[1, 1], &[0, 1]]);
    let mut c = from_bits(&[&[1, 1], &[1, 1]]);
    addmul(&mut c, &a, &b);
    assert!(c == from_bits(&[&[1, 0], &[0, 1]]));
    addmul_m4rm(&mut c, &a, &b);
    assert!(c == from_bits(&[&[1, 1], &[1, 1]]));
}

#[test]
fn cascade_is_chosen_by_the_smallest_dimension() {
    let (algos, recurse_sz) = choose_cascade(4096);
    assert_eq!(algos, vec![AddMulAlgo::Decomp2x2, AddMulAlgo::M4RM]);
    assert_eq!(recurse_sz, 256);
    let (algos, recurse_sz) = choose_cascade(8193);
    assert_eq!(algos, vec![AddMulAlgo::Decomp2x2, AddMulAlgo::M4RM]);
    assert_eq!(recurse_sz, 256);
    let (algos, recurse_sz) = choose_cascade(8194);
    assert_eq!(algos, vec![AddMulAlgo::Decomp4x4, AddMulAlgo::M4RM]);
    assert_eq!(recurse_sz, 512);
    let (algos, recurse_sz) = choose_cascade(16388);
    assert_eq!(algos, vec![AddMulAlgo::Decomp4x4, AddMulAlgo::Decomp2x2, AddMulAlgo::M4RM]);
    assert_eq!(recurse_sz, 1024);
    let (algos, recurse_sz) = choose_cascade(40000);
    assert_eq!(
        algos,
        vec![AddMulAlgo::Decomp4x4, AddMulAlgo::Decomp4x4, AddMulAlgo::M4RM]
    );
    assert_eq!(recurse_sz, 2048);
}

#[test]
fn only_the_base_kernel_is_independent() {
    assert!(AddMulAlgo::M4RM.is_independant());
    assert!(!AddMulAlgo::Decomp2x2.is_independant());
    assert!(!AddMulAlgo::Decomp3x3.is_independant());
    assert!(!AddMulAlgo::Decomp4x4.is_independant());
    assert!(!AddMulAlgo::Decomp5x5.is_independant());
}

fn check_cascade(algos: &[AddMulAlgo], m: usize, k: usize, n: usize) {
    let mut rng = rand::thread_rng();
    let a = GF2Mat::random(m, k, &mut rng);
    let b = GF2Mat::random(k, n, &mut rng);
    let start = GF2Mat::random(m, n, &mut rng);
    let mut by_cascade = GF2Mat::zero(m, n);
    assert_eq!(by_cascade.try_add(&start), Ok(()));
    let mut by_kernel = GF2Mat::zero(m, n);
    assert_eq!(by_kernel.try_add(&start), Ok(()));
    addmul_recurse(&mut by_cascade, &a, &b, algos);
    addmul_m4rm(&mut by_kernel, &a, &b);
    assert!(by_cascade == by_kernel);
    assert!(!(by_cascade == start));
}

#[test]
fn two_by_two_blocks_agree_with_the_base_kernel() {
    check_cascade(&[AddMulAlgo::Decomp2x2, AddMulAlgo::M4RM], 6, 256, 1024);
    check_cascade(&[AddMulAlgo::Decomp2x2, AddMulAlgo::M4RM], 130, 512, 2048);
}

#[test]
fn four_by_four_blocks_agree_with_the_base_kernel() {
    check_cascade(&[AddMulAlgo::Decomp4x4, AddMulAlgo::M4RM], 8, 512, 1024);
    check_cascade(&[AddMulAlgo::Decomp4x4, AddMulAlgo::M4RM], 260, 1024, 1024);
}

#[test]
fn nested_decompositions_agree_with_the_base_kernel() {
    check_cascade(
        &[AddMulAlgo::Decomp2x2, AddMulAlgo::Decomp2x2, AddMulAlgo::M4RM],
        12,
        512,
        1024,
    );
    check_cascade(
        &[AddMulAlgo::Decomp4x4, AddMulAlgo::Decomp2x2, AddMulAlgo::M4RM],
        16,
        1024,
        1024,
    );
    check_cascade(&[AddMulAlgo::M4RM, AddMulAlgo::Decomp2x2], 5, 77, 300);
}

#[test]
fn decompositions_can_be_called_directly() {
    let mut rng = rand::thread_rng();
    let (m, k, n) = (64, 512, 1024);
    let a = GF2Mat::random(m, k, &mut rng);
    let b = GF2Mat::random(k, n, &mut rng);
    let mut by_kernel = GF2Mat::zero(m, n);
    addmul_m4rm(&mut by_kernel, &a, &b);
    let mut by_two = GF2Mat::zero(m, n);
    addmul_decomp2x2(&mut by_two, &a, &b, &[AddMulAlgo::M4RM]);
    assert!(by_two == by_kernel);
    let mut by_four = GF2Mat::zero(m, n);
    addmul_decomp4x4(&mut by_four, &a, &b, &[AddMulAlgo::M4RM]);
    assert!(by_four == by_kernel);
}

#[test]
fn strips_beside_the_interior_are_multiplied() {
    let mut rng = rand::thread_rng();
    let (m, k, n) = (4096 + 77, 4096 + 300, 4096 + 513);
    let a_rows = random_rows(&mut rng, m, k);
    let b_rows = random_rows(&mut rng, k, n);
    let a = GF2Mat::from_rows(m, k, &a_rows);
    let b = GF2Mat::from_rows(k, n, &b_rows);
    let mut c = GF2Mat::zero(m, n);
    addmul(&mut c, &a, &b);
    for i in [0, 1, 2047, 4095, 4096, 4097, m - 1] {
        let want = product_row(&a_rows[i], &b_rows, n);
        for j in 0..n {
            assert_eq!(c.get_unchecked(i, j), want[j]);
        }
    }
}
