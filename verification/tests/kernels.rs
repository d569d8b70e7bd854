use matrix_mult::driver::{multiply, Policy};
use matrix_mult::linalg::general_mat_mul;
use matrix_mult::naive_sequential::{mult, mult_index_optimized, scalar_mult};
use matrix_mult::view::Window;

fn pattern_a(rows: usize, cols: usize) -> Vec<u32> {
    let mut v = Vec::with_capacity(rows * cols);
    for i in 0..rows {
        for j in 0..cols {
            v.push(((j + i * cols) % 3) as u32);
        }
    }
    v
}

fn pattern_b(rows: usize, cols: usize) -> Vec<u32> {
    let mut v = Vec::with_capacity(rows * cols);
    for i in 0..rows {
        for j in 0..cols {
            v.push(((j + 7 + i * cols) % 3) as u32);
        }
    }
    v
}

fn reference(a: &[u32], b: &[u32], m: usize, k: usize, n: usize) -> Vec<u32> {
    let mut c = vec![0u32; m * n];
    for i in 0..m {
        for j in 0..n {
            let mut s = 0u32;
            for l in 0..k {
                s = s.wrapping_add(a[i * k + l].wrapping_mul(b[l * n + j]));
            }
            c[i * n + j] = s;
        }
    }
    c
}

#[test]
fn four_by_four_scenario_under_every_policy() {
    let a = pattern_a(4, 4);
    let b = pattern_b(4, 4);
    let expected: Vec<u32> = vec![2, 2, 5, 2, 6, 4, 2, 6, 4, 9, 2, 4, 2, 2, 5, 2];
    assert_eq!(reference(&a, &b, 4, 4, 4), expected);
    let w = Window::new(4, 4);
    for policy in [
        Policy::Sequential,
        Policy::FixedGranularity(4),
        Policy::FixedGranularity(1),
        Policy::WorkStealingBatch(3),
        Policy::Adaptive(1, 64),
    ] {
        let mut out = vec![0u32; 16];
        multiply(&a, w, &b, w, &mut out, w, policy, mult);
        assert_eq!(out, expected, "{:?}", policy);
    }
}

#[test]
fn kernels_agree_with_the_reference() {
    let (m, k, n) = (7, 5, 9);
    let a = pattern_a(m, k);
    let b = pattern_b(k, n);
    let expected = reference(&a, &b, m, k, n);
    let (aw, bw, dw) = (Window::new(m, k), Window::new(k, n), Window::new(m, n));
    let mut out = vec![0u32; m * n];
    mult(&a, aw, &b, bw, &mut out, dw);
    assert_eq!(out, expected);
    let mut out = vec![0u32; m * n];
    mult_index_optimized(&a, aw, &b, bw, &mut out, dw);
    assert_eq!(out, expected);
    let mut out = vec![0u32; m * n];
    general_mat_mul(&a, aw, &b, bw, &mut out, dw);
    assert_eq!(out, expected);
    assert_eq!(scalar_mult(&a, aw, 2, &b, bw, 3), expected[2 * n + 3]);
}
