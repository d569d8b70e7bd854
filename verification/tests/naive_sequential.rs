use matrix_mult::naive_sequential::{cut_in_blocks, mult, mult_blocks, mult_index_optimized};
use matrix_mult::view::Window;
use ndarray::{linalg, Array};
use rand::Rng;
use std::num::Wrapping;

fn verify(an: &[u32], bn: &[u32], height: usize, width: usize) -> Vec<u32> {
    let a = Array::from_shape_fn((height, width), |(i, j)| Wrapping(an[i * width + j]));
    let b = Array::from_shape_fn((width, height), |(i, j)| Wrapping(bn[i * height + j]));
    let mut verif = Array::from_elem((height, height), Wrapping(0u32));
    linalg::general_mat_mul(Wrapping(1u32), &a, &b, Wrapping(1u32), &mut verif);
    verif.iter().map(|x| x.0).collect()
}

fn operands(height: usize, width: usize) -> (Vec<u32>, Vec<u32>) {
    let mut rng = rand::thread_rng();
    let random: u32 = rng.gen_range(0..4);
    let mut an = Vec::with_capacity(height * width);
    for i in 0..height {
        for j in 0..width {
            an.push(((j + i * width) % 3) as u32 + random);
        }
    }
    let mut bn = Vec::with_capacity(height * width);
    for i in 0..width {
        for j in 0..height {
            bn.push(((j + 7 + i * height) % 3) as u32 + 4 - random);
        }
    }
    (an, bn)
}

#[test]
fn naive_sequential_test_mult() {
    let height = 1000;
    let width = 1000;
    let (an, bn) = operands(height, width);
    let mut dest = vec![0u32; height * height];
    mult(
        &an,
        Window::new(height, width),
        &bn,
        Window::new(width, height),
        &mut dest,
        Window::new(height, height),
    );
    let verif = verify(&an, &bn, height, width);
    assert_eq!(dest, verif);
}

#[test]
fn test_mult_indexed_optimized() {
    let height = 1000;
    let width = 1000;
    let (an, bn) = operands(height, width);
    let mut dest = vec![0u32; height * height];
    mult_index_optimized(
        &an,
        Window::new(height, width),
        &bn,
        Window::new(width, height),
        &mut dest,
        Window::new(height, height),
    );
    let verif = verify(&an, &bn, height, width);
    assert_eq!(dest, verif);
}

#[test]
fn test_mult_blocks() {
    let height = 1000;
    let width = 1000;
    let (an, bn) = operands(height, width);
    let mut dest = vec![0u32; height * height];
    let (aw, bw, dw) = (Window::new(height, width), Window::new(width, height), Window::new(height, height));
    let (avec, bvec, rvec) = cut_in_blocks(aw, bw, dw, 10, 10);
    mult_blocks(&an, aw, &bn, bw, &mut dest, dw, avec, bvec, rvec, mult_index_optimized);
    let verif = verify(&an, &bn, height, width);
    assert_eq!(dest, verif);
}
