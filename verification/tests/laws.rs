use gf2mul::{addmul, GF2Mat, GF2MatLike, GF2MatLikeMut};
use rand::Rng;

fn bits(rng: &mut rand::rngs::ThreadRng, nrows: usize, ncols: usize) -> Vec<Vec<bool>> {
    (0..nrows).map(|_| (0..ncols).map(|_| rng.gen::<bool>()).collect()).collect()
}

fn matrix(rows: &Vec<Vec<bool>>, ncols: usize) -> GF2Mat {
    GF2Mat::from_rows(rows.len(), ncols, rows)
}

fn xor_rows(a: &Vec<Vec<bool>>, b: &Vec<Vec<bool>>) -> Vec<Vec<bool>> {
    a.iter().zip(b.iter()).map(|(x, y)| x.iter().zip(y.iter()).map(|(p, q)| p != q).collect()).collect()
}

fn identity(n: usize) -> Vec<Vec<bool>> {
    (0..n).map(|i| (0..n).map(|j| i == j).collect()).collect()
}

fn padding_is_clear(m: &GF2Mat) -> bool {
    let max_ncols = m.max_ncols();
    (0..m.nrows()).all(|i| (m.ncols()..max_ncols).all(|j| !m.bit_or_zero(i, j)))
}

#[test]
fn product_is_additive_in_the_left_factor() {
    let mut rng = rand::thread_rng();
    let (m, k, n) = (37, 53, 71);
    let a1 = bits(&mut rng, m, k);
    let a2 = bits(&mut rng, m, k);
    let b = matrix(&bits(&mut rng, k, n), n);
    let start = bits(&mut rng, m, n);
    let mut twice = matrix(&start, n);
    addmul(&mut twice, &matrix(&a1, k), &b);
    addmul(&mut twice, &matrix(&a2, k), &b);
    let mut once = matrix(&start, n);
    addmul(&mut once, &matrix(&xor_rows(&a1, &a2), k), &b);
    assert!(twice == once);
}

#[test]
fn product_is_additive_in_the_right_factor() {
    let mut rng = rand::thread_rng();
    let (m, k, n) = (41, 19, 130);
    let a = matrix(&bits(&mut rng, m, k), k);
    let b1 = bits(&mut rng, k, n);
    let b2 = bits(&mut rng, k, n);
    let start = bits(&mut rng, m, n);
    let mut twice = matrix(&start, n);
    addmul(&mut twice, &a, &matrix(&b1, n));
    addmul(&mut twice, &a, &matrix(&b2, n));
    let mut once = matrix(&start, n);
    addmul(&mut once, &a, &matrix(&xor_rows(&b1, &b2), n));
    assert!(twice == once);
}

#[test]
fn zero_factor_leaves_the_target() {
    let mut rng = rand::thread_rng();
    let (m, k, n) = (20, 33, 65);
    let start = bits(&mut rng, m, n);
    let mut c = matrix(&start, n);
    addmul(&mut c, &GF2Mat::zero(m, k), &matrix(&bits(&mut rng, k, n), n));
    assert!(c == matrix(&start, n));
    addmul(&mut c, &matrix(&bits(&mut rng, m, k), k), &GF2Mat::zero(k, n));
    assert!(c == matrix(&start, n));
}

#[test]
fn identity_on_the_left_gives_the_right_factor() {
    let mut rng = rand::thread_rng();
    let (k, n) = (45, 29);
    let b = bits(&mut rng, k, n);
    let mut c = GF2Mat::zero(k, n);
    addmul(&mut c, &matrix(&identity(k), k), &matrix(&b, n));
    assert!(c == matrix(&b, n));
}

#[test]
fn identity_on_the_right_gives_the_left_factor() {
    let mut rng = rand::thread_rng();
    let (m, k) = (23, 70);
    let a = bits(&mut rng, m, k);
    let mut c = GF2Mat::zero(m, k);
    addmul(&mut c, &matrix(&a, k), &matrix(&identity(k), k));
    assert!(c == matrix(&a, k));
}

#[test]
fn product_is_associative() {
    let mut rng = rand::thread_rng();
    let (m, k1, k2, n) = (17, 40, 9, 66);
    let a = matrix(&bits(&mut rng, m, k1), k1);
    let b = matrix(&bits(&mut rng, k1, k2), k2);
    let c = matrix(&bits(&mut rng, k2, n), n);
    let mut ab = GF2Mat::zero(m, k2);
    addmul(&mut ab, &a, &b);
    let mut ab_c = GF2Mat::zero(m, n);
    addmul(&mut ab_c, &ab, &c);
    let mut bc = GF2Mat::zero(k1, n);
    addmul(&mut bc, &b, &c);
    let mut a_bc = GF2Mat::zero(m, n);
    addmul(&mut a_bc, &a, &bc);
    assert!(ab_c == a_bc);
}

#[test]
fn padding_stays_clear() {
    let mut rng = rand::thread_rng();
    for (m, k, n) in [(5, 9, 13), (64, 65, 1), (33, 7, 1023), (1, 1, 1)] {
        let a = GF2Mat::random(m, k, &mut rng);
        let b = GF2Mat::random(k, n, &mut rng);
        assert!(padding_is_clear(&a));
        assert!(padding_is_clear(&b));
        let mut c = GF2Mat::random(m, n, &mut rng);
        assert!(padding_is_clear(&c));
        addmul(&mut c, &a, &b);
        assert!(padding_is_clear(&c));
        assert_eq!(c.try_addmul(&a, &b), Ok(()));
        assert!(padding_is_clear(&c));
    }
}

#[test]
fn clear_gives_the_zero_matrix() {
    let mut rng = rand::thread_rng();
    assert!(GF2Mat::zero(7, 77) == GF2Mat::zero(7, 77));
    assert!(!(GF2Mat::zero(7, 77) == GF2Mat::zero(7, 78)));
    assert!(!(GF2Mat::zero(8, 77) == GF2Mat::zero(7, 77)));
    let mut c = GF2Mat::random(7, 77, &mut rng);
    let a = GF2Mat::random(7, 12, &mut rng);
    let b = GF2Mat::random(12, 77, &mut rng);
    addmul(&mut c, &a, &b);
    c.set_unchecked(3, 76, true);
    assert!(!(c == GF2Mat::zero(7, 77)));
    c.clear();
    assert!(c == GF2Mat::zero(7, 77));
    c.clear();
    assert!(c == GF2Mat::zero(7, 77));
}
