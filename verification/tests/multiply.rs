use gf2mul::{addmul, addmul_m4rm, GF2Mat, GF2MatLikeMut};
use rand::Rng;

fn random_rows(rng: &mut rand::rngs::ThreadRng, nrows: usize, ncols: usize) -> Vec<Vec<bool>> {
    (0..nrows).map(|_| (0..ncols).map(|_| rng.gen::<bool>()).collect()).collect()
}

fn naive_product(a: &Vec<Vec<bool>>, b: &Vec<Vec<bool>>, ncols: usize) -> Vec<Vec<bool>> {
    let words = (ncols + 63) / 64;
    let packed: Vec<Vec<u64>> = b
        .iter()
        .map(|row| {
            let mut w = vec![0u64; words];
            for (j, bit) in row.iter().enumerate() {
                if *bit {
                    w[j / 64] |= 1u64 << (j % 64);
                }
            }
            w
        })
        .collect();
    a.iter()
        .map(|row| {
            let mut acc = vec![0u64; words];
            for (t, bit) in row.iter().enumerate() {
                if *bit {
                    for (x, y) in acc.iter_mut().zip(packed[t].iter()) {
                        *x ^= *y;
                    }
                }
            }
            (0..ncols).map(|j| (acc[j / 64] >> (j % 64)) & 1 == 1).collect()
        })
        .collect()
}

const MAT_TEST_SIZES: &[usize] = &[
    1, 2, 3, 4, 5, 6, 7, 8, 9, 10, 11, 12, 13, 14, 15, 16, 64, 65, 66, 67, 68, 69, 70, 71, 72, 73,
    74, 75, 76, 77, 78, 79, 256, 512, 513, 647,
];

#[test]
fn test_mul_strassen() {
    let mut rng = rand::thread_rng();
    for _ in 0..1 {
        let n = rng.gen_range(2048..4096);
        let k = rng.gen_range(2048..4096);
        let m = rng.gen_range(2048..4096);

        let m1_rows = random_rows(&mut rng, n, k);
        let m2_rows = random_rows(&mut rng, k, m);

        let m1 = GF2Mat::from_rows(n, k, &m1_rows);
        let m2 = GF2Mat::from_rows(k, m, &m2_rows);
        let mut diff = GF2Mat::zero(n, m);
        addmul(&mut diff, &m1, &m2);
        let tgt = GF2Mat::from_rows(n, m, &naive_product(&m1_rows, &m2_rows, m));
        diff.add_unchecked(&tgt);
        assert!(diff == GF2Mat::zero(n, m));
    }
}

#[test]
fn test_mul_consistent() {
    let mut rng = rand::thread_rng();
    for mat_sz in MAT_TEST_SIZES {
        println!("Testing mat_sz: {}", mat_sz);
        let m1_rows = random_rows(&mut rng, *mat_sz, *mat_sz);
        let m2_rows = random_rows(&mut rng, *mat_sz, *mat_sz);
        let m1 = GF2Mat::from_rows(*mat_sz, *mat_sz, &m1_rows);
        let m2 = GF2Mat::from_rows(*mat_sz, *mat_sz, &m2_rows);
        let tgt = GF2Mat::from_rows(*mat_sz, *mat_sz, &naive_product(&m1_rows, &m2_rows, *mat_sz));
        let mut diff = GF2Mat::zero(*mat_sz, *mat_sz);
        addmul(&mut diff, &m1, &m2);
        diff.add_unchecked(&tgt);
        assert!(diff == GF2Mat::zero(*mat_sz, *mat_sz));
    }

    for _ in 0..100 {
        let nrows = rng.gen_range(1..512);
        let conn = rng.gen_range(1..512);
        let ncols = rng.gen_range(1..512);
        let m1_rows = random_rows(&mut rng, nrows, conn);
        let m2_rows = random_rows(&mut rng, conn, ncols);
        let m1 = GF2Mat::from_rows(nrows, conn, &m1_rows);
        let m2 = GF2Mat::from_rows(conn, ncols, &m2_rows);
        let mut prod = GF2Mat::zero(nrows, ncols);
        addmul(&mut prod, &m1, &m2);
        let tgt = naive_product(&m1_rows, &m2_rows, ncols);
        assert!(prod == GF2Mat::from_rows(nrows, ncols, &tgt));
    }
}

#[test]
fn cascade_agrees_with_base_kernel() {
    let mut rng = rand::thread_rng();
    let (m, k, n) = (4096 + 3, 4096 + 129, 4096 + 257);
    let a = GF2Mat::random(m, k, &mut rng);
    let b = GF2Mat::random(k, n, &mut rng);
    let mut by_cascade = GF2Mat::zero(m, n);
    let mut by_kernel = GF2Mat::zero(m, n);
    addmul(&mut by_cascade, &a, &b);
    addmul_m4rm(&mut by_kernel, &a, &b);
    assert!(by_cascade == by_kernel);
}
