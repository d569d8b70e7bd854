use matrix_mult::naive_sequential::{cut_in_blocks, mult_blocks};
use matrix_mult::vectorisation_packed_simd::{mult_faster_from_ndarray, multiply_add_packed, multiply_add_packed_sim};
use matrix_mult::view::Window;
use ndarray::{linalg, Array};
use rand::Rng;
use std::num::Wrapping;

fn verify(an: &[u32], bn: &[u32], height: usize, width: usize) -> Vec<u32> {
    let a = Array::from_shape_fn((height, width), |(i, j)| Wrapping(an[i * width + j]));
    let b = Array::from_shape_fn((width, height), |(i, j)| Wrapping(bn[i * height + j]));
    let mut verif = Array::from_elem((height, height), Wrapping(0u32));
    linalg::general_mat_mul(Wrapping(1u32), &a, &b, Wrapping(1u32), &mut verif);
    verif.iter().map(|x| x.0).collect()
}

fn operands(height: usize, width: usize) -> (Vec<u32>, Vec<u32>) {
    let mut rng = rand::thread_rng();
    let random: u32 = rng.gen_range(0..4);
    let mut an = Vec::with_capacity(height * width);
    for i in 0..height {
        for j in 0..width {
            an.push(((j + i * width) % 3) as u32 + random);
        }
    }
    let mut bn = Vec::with_capacity(height * width);
    for i in 0..width {
        for j in 0..height {
            bn.push(((j + 7 + i * height) % 3) as u32 + 4 - random);
        }
    }
    (an, bn)
}

#[test]
fn vectorisation_packed_simd_test_mult_blocked() {
    let height = 1000;
    let width = 1000;
    let (an, bn) = operands(height, width);
    let mut dn = vec![0u32; height * height];
    let (aw, bw, dw) = (Window::new(height, width), Window::new(width, height), Window::new(height, height));
    let (avec, bvec, rvec) = cut_in_blocks(aw, bw, dw, 300, 300);
    mult_blocks(&an, aw, &bn, bw, &mut dn, dw, avec, bvec, rvec, |a: &[u32], aw, b: &[u32], bw, c: &mut [u32], cw| {
        mult_faster_from_ndarray(a, aw, b, bw, c, cw)
    });

    let verif = verify(&an, &bn, height, width);
    assert_eq!(dn, verif);
}

#[test]
fn vectorisation_packed_simd_test_mult_faster() {
    let height = 1000;
    let width = 1000;
    let (an, bn) = operands(height, width);
    let mut dn = vec![0u32; height * height];
    mult_faster_from_ndarray(
        &an,
        Window::new(height, width),
        &bn,
        Window::new(width, height),
        &mut dn,
        Window::new(height, height),
    );

    let verif = verify(&an, &bn, height, width);
    assert_eq!(dn, verif);
}

#[test]
fn packed_row_kernel_handles_whole_chunks_and_the_rest() {
    for len in [0usize, 1, 7, 8, 9, 16, 19] {
        let b: Vec<u32> = (0..len as u32).map(|x| x + 1).collect();
        let mut into: Vec<u32> = (0..len as u32).map(|x| 100 * x).collect();
        multiply_add_packed_sim(&mut into, 3, &b, 0, 0, 0, 0, 0, 0);
        let expected: Vec<u32> = (0..len as u32).map(|x| 100 * x + 3 * (x + 1)).collect();
        assert_eq!(into, expected);
    }
    let mut into = vec![u32::MAX; 9];
    multiply_add_packed_sim(&mut into, 2, &[1; 9], 0, 0, 0, 0, 0, 0);
    assert_eq!(into, vec![1; 9]);
}

#[test]
fn packed_kernel_multiplies_strided_matrices() {
    let a = vec![1, 2, 3, 0, 0, 4, 5, 6];
    let b = vec![1, 2, 0, 0, 3, 4, 0, 0, 5, 6];
    let mut into = vec![100, 200, 9, 300, 400];
    multiply_add_packed(&mut into, &a, &b, 3, 2, 2, 3, 2, 2, 5, 4, 3);
    assert_eq!(into, vec![122, 228, 9, 349, 464]);
}
