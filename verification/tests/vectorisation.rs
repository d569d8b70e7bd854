use matrix_mult::naive_sequential::{cut_in_blocks, mult, mult_blocks};
use matrix_mult::vectorisation::{mult_faster_from_ndarray, multiply_add, multiply_add_local, multiply_add_rows};
use matrix_mult::view::Window;
use ndarray::{linalg, Array};
use rand::Rng;
use std::num::Wrapping;

fn verify(an: &[u32], bn: &[u32], height: usize, width: usize) -> Vec<u32> {
    let a = Array::from_shape_fn((height, width), |(i, j)| Wrapping(an[i * width + j]));
    let b = Array::from_shape_fn((width, height), |(i, j)| Wrapping(bn[i * height + j]));
    let mut verif = Array::from_elem((height, height), Wrapping(0u32));
    linalg::general_mat_mul(Wrapping(1u32), &a, &b, Wrapping(1u32), &mut verif);
    verif.iter().map(|x| x.0).collect()
}

fn operands(height: usize, width: usize) -> (Vec<u32>, Vec<u32>) {
    let mut rng = rand::thread_rng();
    let random: u32 = rng.gen_range(0..4);
    let mut an = Vec::with_capacity(height * width);
    for i in 0..height {
        for j in 0..width {
            an.push(((j + i * width) % 3) as u32 + random);
        }
    }
    let mut bn = Vec::with_capacity(height * width);
    for i in 0..width {
        for j in 0..height {
            bn.push(((j + 7 + i * height) % 3) as u32 + 4 - random);
        }
    }
    (an, bn)
}

#[test]
fn vectorisation_test_mult_blocked() {
    let height = 1000;
    let width = 1000;
    let (an, bn) = operands(height, width);
    let mut dn = vec![0u32; height * height];
    let (aw, bw, dw) = (Window::new(height, width), Window::new(width, height), Window::new(height, height));
    let (avec, bvec, rvec) = cut_in_blocks(aw, bw, dw, 300, 300);
    mult_blocks(&an, aw, &bn, bw, &mut dn, dw, avec, bvec, rvec, |a: &[u32], aw, b: &[u32], bw, c: &mut [u32], cw| {
        mult_faster_from_ndarray(a, aw, b, bw, c, cw)
    });

    let verif = verify(&an, &bn, height, width);
    assert_eq!(dn, verif);
}

#[test]
fn vectorisation_test_mult_faster() {
    let height = 1000;
    let width = 1000;
    let (an, bn) = operands(height, width);
    let mut dn = vec![0u32; height * height];
    mult_faster_from_ndarray(
        &an,
        Window::new(height, width),
        &bn,
        Window::new(width, height),
        &mut dn,
        Window::new(height, height),
    );

    let verif = verify(&an, &bn, height, width);
    assert_eq!(dn, verif);
}

#[test]
fn row_kernel_adds_a_scaled_row() {
    let mut into = vec![1, 2, 3, u32::MAX];
    multiply_add_local(&mut into, 3, &[10, 20, 30, 1], 0, 0, 0, 0, 0, 0);
    assert_eq!(into, vec![31, 62, 93, 2]);
    let mut none: Vec<u32> = Vec::new();
    multiply_add_local(&mut none, 3, &[], 0, 0, 0, 0, 0, 0);
    assert!(none.is_empty());
}

#[test]
fn multiply_add_hands_every_element_of_a_to_the_row_kernel() {
    // A is 2 x 3 with rows 5 apart, B 3 x 2 with rows 4 apart, the output 2 x 2 with rows 3 apart.
    let a = vec![1, 2, 3, 0, 0, 4, 5, 6];
    let b = vec![1, 2, 0, 0, 3, 4, 0, 0, 5, 6];
    let seen = std::cell::RefCell::new(Vec::new());
    let recording = |row: &mut [u32], x: u32, other: &[u32], aw, ah, bw, bh, iw, ih| {
        seen.borrow_mut().push((x, other.to_vec()));
        assert_eq!((aw, ah, bw, bh, iw, ih), (3, 2, 2, 3, 2, 2));
        multiply_add_local(row, x, other, aw, ah, bw, bh, iw, ih)
    };
    let mut into = vec![100, 200, 9, 300, 400];
    multiply_add(&mut into, &a, &b, 3, 2, 2, 3, 2, 2, 5, 4, 3, &recording);
    assert_eq!(into, vec![100 + 22, 200 + 28, 9, 300 + 49, 400 + 64]);
    assert_eq!(
        *seen.borrow(),
        vec![(1, vec![1, 2]), (2, vec![3, 4]), (3, vec![5, 6]), (4, vec![1, 2]), (5, vec![3, 4]), (6, vec![5, 6])]
    );
    let mut into = vec![100, 200, 9, 300, 400];
    multiply_add_rows(&mut into, &a, &b, 3, 2, 2, 3, 2, 2, 5, 4, 3);
    assert_eq!(into, vec![122, 228, 9, 349, 464]);
    // Without cells nothing is done.
    let mut into = vec![7u32; 4];
    multiply_add_rows(&mut into, &[], &[], 0, 2, 2, 0, 2, 2, 0, 2, 2);
    assert_eq!(into, vec![7u32; 4]);
}

#[test]
fn windows_with_spread_columns_fall_back_to_the_plain_kernel() {
    let a: Vec<u32> = (0..40).collect();
    let b: Vec<u32> = (0..40).map(|x| 2 * x + 1).collect();
    let aw = Window { offset: 1, rows: 3, cols: 2, row_stride: 9, col_stride: 3 };
    let bw = Window { offset: 2, rows: 2, cols: 4, row_stride: 1, col_stride: 5 };
    let dw = Window { offset: 0, rows: 3, cols: 4, row_stride: 8, col_stride: 2 };
    let mut expected = vec![5u32; 24];
    mult(&a, aw, &b, bw, &mut expected, dw);
    let mut out = vec![5u32; 24];
    mult_faster_from_ndarray(&a, aw, &b, bw, &mut out, dw);
    assert_eq!(out, expected);
    let mut out = vec![5u32; 24];
    matrix_mult::faster_vec::mult_faster_from_ndarray(&a, aw, &b, bw, &mut out, dw);
    assert_eq!(out, expected);
    let mut out = vec![5u32; 24];
    matrix_mult::vectorisation_packed_simd::mult_faster_from_ndarray(&a, aw, &b, bw, &mut out, dw);
    assert_eq!(out, expected);
}
