use matrix_mult::driver::{multiply, Policy};
use matrix_mult::matrix::multiply_basic;
use matrix_mult::naive_sequential::{cut_in_blocks, mult, mult_blocks, mult_index_optimized, scalar_mult};
use matrix_mult::scalar::Scalar;
use matrix_mult::vectorisation::multiply_add_rows;
use matrix_mult::view::Window;

#[test]
fn unsigned_arithmetic_wraps_at_the_width_of_the_type() {
    assert_eq!(<u32 as Scalar>::zero(), 0);
    assert_eq!(7u32.plus(5), 12);
    assert_eq!(u32::MAX.plus(2), 1);
    assert_eq!(7u32.mul_acc(3, 4), 19);
    assert_eq!(1u32.mul_acc(0x1_0000, 0x1_0000), 1);
    assert_eq!(u32::MAX.mul_acc(u32::MAX, u32::MAX), 0);
    assert_eq!(<u64 as Scalar>::zero(), 0);
    assert_eq!(u64::MAX.plus(2), 1);
    assert_eq!(1u64.mul_acc(0x1_0000, 0x1_0000), 0x1_0000_0001);
    assert_eq!(1u64.mul_acc(1 << 32, 1 << 32), 1);
    assert_eq!(5u64.mul_acc(u64::MAX, 2), 3);
}

#[test]
fn signed_arithmetic_wraps_into_the_range_of_the_type() {
    assert_eq!(<i32 as Scalar>::zero(), 0);
    assert_eq!(7i32.plus(-9), -2);
    assert_eq!(i32::MAX.plus(1), i32::MIN);
    assert_eq!(i32::MIN.plus(-1), i32::MAX);
    assert_eq!(7i32.mul_acc(-3, 4), -5);
    assert_eq!(0i32.mul_acc(0x1_0000, 0x8000), i32::MIN);
    assert_eq!(1i32.mul_acc(i32::MIN, -1), i32::MIN + 1);
    assert_eq!(<i64 as Scalar>::zero(), 0);
    assert_eq!(i64::MAX.plus(1), i64::MIN);
    assert_eq!(i64::MIN.plus(-1), i64::MAX);
    assert_eq!(7i64.mul_acc(-3, 4), -5);
    assert_eq!(0i64.mul_acc(1 << 32, 1 << 31), i64::MIN);
    assert_eq!((-1i64).mul_acc(i64::MAX, 2), -3);
}

fn signed(len: usize, seed: i64) -> Vec<i64> {
    let mut x = seed;
    (0..len)
        .map(|_| {
            x = x.wrapping_mul(6364136223846793005).wrapping_add(1442695040888963407);
            x >> 20
        })
        .collect()
}

#[test]
fn signed_matrices_multiply_under_every_policy() {
    let (m, k, n) = (9, 14, 11);
    let a = signed(m * k, 1);
    let b = signed(k * n, 2);
    let start = signed(m * n, 3);
    let mut expected = start.clone();
    for i in 0..m {
        for j in 0..n {
            for l in 0..k {
                expected[i * n + j] = expected[i * n + j].wrapping_add(a[i * k + l].wrapping_mul(b[l * n + j]));
            }
        }
    }
    assert!(a.iter().any(|x| *x < 0) && expected.iter().any(|x| *x < 0));
    let (aw, bw, dw) = (Window::new(m, k), Window::new(k, n), Window::new(m, n));
    for policy in [
        Policy::Sequential,
        Policy::FixedGranularity(4),
        Policy::WorkStealingBatch(10),
        Policy::Adaptive(1, usize::MAX),
    ] {
        let mut out = start.clone();
        multiply(&a, aw, &b, bw, &mut out, dw, policy, mult);
        assert_eq!(out, expected);
        let mut out = start.clone();
        multiply(&a, aw, &b, bw, &mut out, dw, policy, mult_index_optimized);
        assert_eq!(out, expected);
        let mut out = start.clone();
        multiply_basic(&a, aw, &b, bw, &mut out, dw, policy, mult);
        assert_eq!(out, expected);
    }
    let (ag, bg, cg) = cut_in_blocks(aw, bw, dw, 4, 3);
    let mut out = start.clone();
    mult_blocks(&a, aw, &b, bw, &mut out, dw, ag, bg, cg, mult);
    assert_eq!(out, expected);
    let mut out = start.clone();
    multiply_add_rows(&mut out, &a, &b, k, m, n, k, n, m, k, n, n);
    assert_eq!(out, expected);
    assert_eq!(scalar_mult(&a, aw, 2, &b, bw, 3).wrapping_add(start[2 * n + 3]), expected[2 * n + 3]);
}

#[test]
fn small_integers_give_the_exact_product() {
    // A = [[1, -2], [3, 4]], B = [[5, 6], [-7, 8]].
    let a: Vec<i32> = vec![1, -2, 3, 4];
    let b: Vec<i32> = vec![5, 6, -7, 8];
    let w = Window::new(2, 2);
    let mut out = vec![0i32; 4];
    multiply(&a, w, &b, w, &mut out, w, Policy::FixedGranularity(1), mult);
    assert_eq!(out, vec![19, -10, -13, 50]);
    let a: Vec<u64> = vec![1, 2, 3, 4];
    let b: Vec<u64> = vec![5, 6, 7, 8];
    let mut out = vec![1u64; 4];
    multiply(&a, w, &b, w, &mut out, w, Policy::Adaptive(1, 2), mult_index_optimized);
    assert_eq!(out, vec![20, 23, 44, 51]);
}
