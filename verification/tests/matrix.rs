use matrix_mult::driver::Policy;
use matrix_mult::linalg::general_mat_mul;
use matrix_mult::matrix::{divide, multiply_basic, Matrix};
use matrix_mult::naive_sequential::mult;
use matrix_mult::view::Window;
use ndarray::{linalg, Array};
use rand::Rng;
use std::num::Wrapping;

fn verify(an: &[u32], bn: &[u32], height: usize, width: usize) -> Vec<u32> {
    let a = Array::from_shape_fn((height, width), |(i, j)| Wrapping(an[i * width + j]));
    let b = Array::from_shape_fn((width, height), |(i, j)| Wrapping(bn[i * height + j]));
    let mut verif = Array::from_elem((height, height), Wrapping(0u32));
    linalg::general_mat_mul(Wrapping(1u32), &a, &b, Wrapping(1u32), &mut verif);
    verif.iter().map(|x| x.0).collect()
}

#[test]
fn matrix_test_mult() {
    let mut rng = rand::thread_rng();
    let random: u32 = rng.gen_range(0..4);
    let height = 1000;
    let width = 1000;
    let mut an = Vec::with_capacity(height * width);
    for i in 0..height {
        for j in 0..width {
            an.push(((j + i * width) % 3) as u32 + random);
        }
    }
    let mut bn = Vec::with_capacity(height * width);
    for i in 0..width {
        for j in 0..height {
            bn.push(((j + 7 + i * height) % 3) as u32 + 4 - random);
        }
    }
    let mut dest = vec![0u32; height * height];
    multiply_basic(
        &an,
        Window::new(height, width),
        &bn,
        Window::new(width, height),
        &mut dest,
        Window::new(height, height),
        Policy::WorkStealingBatch(1000),
        general_mat_mul,
    );
    let verif = verify(&an, &bn, height, width);
    assert_eq!(dest, verif);
}

fn window(offset: usize, rows: usize, cols: usize, row_stride: usize) -> Window {
    Window { offset, rows, cols, row_stride, col_stride: 1 }
}

#[test]
fn divide_quarters_the_output_and_pairs_the_quarters() {
    // A is 4 x 6, B is 6 x 2, the output 4 x 2.
    let a = Window::new(4, 6);
    let b = Window::new(6, 2);
    let d = Window::new(4, 2);
    let (v1, v2, v3, v4) = divide((vec![(a, b)], d));
    assert_eq!(v1.1, window(0, 2, 1, 2));
    assert_eq!(v2.1, window(1, 2, 1, 2));
    assert_eq!(v3.1, window(4, 2, 1, 2));
    assert_eq!(v4.1, window(5, 2, 1, 2));
    let (a1, a2, a3, a4) = (window(0, 2, 3, 6), window(3, 2, 3, 6), window(12, 2, 3, 6), window(15, 2, 3, 6));
    let (b1, b2, b3, b4) = (window(0, 3, 1, 2), window(1, 3, 1, 2), window(6, 3, 1, 2), window(7, 3, 1, 2));
    assert_eq!(v1.0, vec![(a1, b1), (a2, b3)]);
    assert_eq!(v2.0, vec![(a1, b2), (a2, b4)]);
    assert_eq!(v3.0, vec![(a3, b1), (a4, b3)]);
    assert_eq!(v4.0, vec![(a3, b2), (a4, b4)]);
    // With two pairs, the quarters of the last pair come first.
    let (w1, _, _, _) = divide((vec![(a, b), (a1, b1)], window(0, 2, 1, 2)));
    assert_eq!(w1.0.len(), 4);
    assert_eq!(w1.0[0], (window(0, 1, 1, 6), window(0, 1, 0, 2)));
    assert_eq!(w1.0[2], (a1, b1));
    assert_eq!(w1.0[3], (a2, b3));
}

#[test]
fn divide_at_quarters_one_entry_and_pops_from_many() {
    let d = Window::new(4, 2);
    let one = Matrix { matrix: vec![(vec![(Window::new(4, 6), Window::new(6, 2))], d)] };
    assert_eq!(one.base_length(), Some(8));
    let (first, second) = one.divide_at(5);
    assert_eq!(first.matrix.len(), 2);
    assert_eq!(second.matrix.len(), 2);
    assert_eq!(first.matrix[0].1, window(0, 2, 1, 2));
    assert_eq!(first.matrix[1].1, window(1, 2, 1, 2));
    assert_eq!(second.matrix[0].1, window(4, 2, 1, 2));
    assert_eq!(second.matrix[1].1, window(5, 2, 1, 2));
    assert_eq!(first.base_length(), Some(4));
    let (left, right) = first.divide_at(0);
    assert_eq!(left.matrix.len(), 1);
    assert_eq!(right.matrix.len(), 1);
    assert_eq!(left.matrix[0].1, window(0, 2, 1, 2));
    assert_eq!(right.matrix[0].1, window(1, 2, 1, 2));
    let none = Matrix { matrix: Vec::new() };
    assert_eq!(none.base_length(), Some(0));
    let (left, right) = none.divide_at(3);
    assert!(left.matrix.is_empty() && right.matrix.is_empty());
}

#[test]
fn multiply_basic_agrees_under_every_policy() {
    let (m, k, n) = (13, 9, 21);
    let an: Vec<u32> = (0..m * k).map(|x| (x % 5) as u32).collect();
    let bn: Vec<u32> = (0..k * n).map(|x| (x % 7) as u32).collect();
    let (aw, bw, dw) = (Window::new(m, k), Window::new(k, n), Window::new(m, n));
    let mut expected = vec![1u32; m * n];
    mult(&an, aw, &bn, bw, &mut expected, dw);
    for policy in [
        Policy::Sequential,
        Policy::FixedGranularity(0),
        Policy::FixedGranularity(1),
        Policy::FixedGranularity(20),
        Policy::WorkStealingBatch(7),
        Policy::Adaptive(3, 50),
    ] {
        let mut dest = vec![1u32; m * n];
        multiply_basic(&an, aw, &bn, bw, &mut dest, dw, policy, mult);
        assert_eq!(dest, expected, "{:?}", policy);
    }
}
