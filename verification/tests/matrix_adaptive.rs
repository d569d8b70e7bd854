use matrix_mult::driver::{multiply, Policy};
use matrix_mult::linalg::general_mat_mul;
use matrix_mult::matrix_adaptive::{Matrix, ShapeMismatch};
use matrix_mult::view::{Axis, Window};
use ndarray::{linalg, Array};
use rand::Rng;
use std::num::Wrapping;

fn verify(an: &[u32], bn: &[u32], height: usize, width: usize) -> Vec<u32> {
    let a = Array::from_shape_fn((height, width), |(i, j)| Wrapping(an[i * width + j]));
    let b = Array::from_shape_fn((width, height), |(i, j)| Wrapping(bn[i * height + j]));
    let mut verif = Array::from_elem((height, height), Wrapping(0u32));
    linalg::general_mat_mul(Wrapping(1u32), &a, &b, Wrapping(1u32), &mut verif);
    verif.iter().map(|x| x.0).collect()
}

fn operands(height: usize, width: usize) -> (Vec<u32>, Vec<u32>) {
    let mut rng = rand::thread_rng();
    let random: u32 = rng.gen_range(0..4);
    let mut an = Vec::with_capacity(height * width);
    for i in 0..height {
        for j in 0..width {
            an.push(((j + i * width) % 3) as u32 + 4 - random);
        }
    }
    let mut bn = Vec::with_capacity(height * width);
    for i in 0..width {
        for j in 0..height {
            bn.push(((j + 7 + i * height) % 3) as u32 + random);
        }
    }
    (an, bn)
}

#[test]
fn test_mult_join() {
    let height = 200;
    let width = 2000;
    let (an, bn) = operands(height, width);
    let mut dest = vec![0u32; height * height];
    multiply(
        &an,
        Window::new(height, width),
        &bn,
        Window::new(width, height),
        &mut dest,
        Window::new(height, height),
        Policy::FixedGranularity(height * height / 32),
        general_mat_mul,
    );
    let verif = verify(&an, &bn, height, width);
    assert_eq!(dest, verif);
}

#[test]
fn matrix_adaptive_test_mult() {
    let height = 200;
    let width = 2000;
    let (an, bn) = operands(height, width);
    let mut dest = vec![0u32; height * height];
    multiply(
        &an,
        Window::new(height, width),
        &bn,
        Window::new(width, height),
        &mut dest,
        Window::new(height, height),
        Policy::Adaptive(20, 2000),
        general_mat_mul,
    );
    let verif = verify(&an, &bn, height, width);
    assert_eq!(dest, verif);
}

fn problem(m: usize, k: usize, n: usize) -> Matrix {
    Matrix::new(Window::new(m, k), Window::new(k, n), Window::new(m, n)).unwrap()
}

#[test]
fn new_reports_the_broken_shape_rule() {
    let w = Window::new;
    assert_eq!(Matrix::new(w(2, 3), w(4, 5), w(2, 5)).err(), Some(ShapeMismatch::Inner));
    assert_eq!(Matrix::new(w(2, 3), w(3, 5), w(1, 5)).err(), Some(ShapeMismatch::Rows));
    assert_eq!(Matrix::new(w(2, 3), w(3, 5), w(2, 4)).err(), Some(ShapeMismatch::Columns));
    let m = Matrix::new(w(2, 3), w(3, 5), w(2, 5)).unwrap();
    assert_eq!((m.asize, m.bsize, m.dsize), ((2, 3), (3, 5), (2, 5)));
    assert_eq!((m.a, m.b, m.d), (w(2, 3), w(3, 5), w(2, 5)));
}

#[test]
fn base_length_counts_output_cells() {
    assert_eq!(problem(6, 4, 5).base_length(), Some(30));
    assert_eq!(problem(6, 2, 5).base_length(), Some(30));
    assert_eq!(problem(6, 1, 5).base_length(), Some(1));
    assert_eq!(problem(6, 0, 5).base_length(), Some(1));
    assert_eq!(problem(1, 9, 1).base_length(), Some(1));
}

#[test]
fn divide_cuts_the_longer_side_near_a_power_of_two() {
    // 1000 rows: of 256 and 512 the latter is nearer to 500.
    let (l, r) = problem(1000, 7, 900).divide();
    assert_eq!((l.d.dim(), r.d.dim()), ((512, 900), (488, 900)));
    assert_eq!((l.a.dim(), r.a.dim()), ((512, 7), (488, 7)));
    assert_eq!((l.b, r.b), (Window::new(7, 900), Window::new(7, 900)));
    assert_eq!(r.d.offset, 512 * 900);
    assert_eq!(r.a.offset, 512 * 7);
    // 600 rows: 256 is nearer to 300 than 512.
    let (l, r) = problem(600, 7, 3).divide();
    assert_eq!((l.d.rows, r.d.rows), (256, 344));
    // 768 columns: 256 and 512 are equally near to 384, the larger wins.
    let (l, r) = problem(5, 7, 768).divide();
    assert_eq!((l.d.dim(), r.d.dim()), ((5, 512), (5, 256)));
    assert_eq!((l.b.dim(), r.b.dim()), ((7, 512), (7, 256)));
    assert_eq!((l.a, r.a), (Window::new(5, 7), Window::new(5, 7)));
    assert_eq!((r.d.offset, r.b.offset), (512, 512));
    // A power of two is halved.
    let (l, r) = problem(64, 3, 64).divide();
    assert_eq!((l.d.dim(), r.d.dim()), ((32, 64), (32, 64)));
    // Two cells.
    let (l, r) = problem(2, 3, 1).divide();
    assert_eq!((l.d.dim(), r.d.dim()), ((1, 1), (1, 1)));
    let (l, r) = problem(3, 3, 1).divide();
    assert_eq!((l.d.rows, r.d.rows), (1, 2));
}

#[test]
fn divide_keeps_the_shape_rules() {
    for (m, k, n) in [(1000, 777, 513), (2, 1, 1), (1, 5, 2), (17, 3, 17), (33, 2, 65)] {
        let mut parts = vec![problem(m, k, n)];
        let mut cells = 0;
        while let Some(p) = parts.pop() {
            assert_eq!(p.a.cols, p.b.rows);
            assert_eq!(p.d.rows, p.a.rows);
            assert_eq!(p.d.cols, p.b.cols);
            assert!(p.d.rows > 0 && p.d.cols > 0);
            if p.is_divisible() {
                let (l, r) = p.divide();
                parts.push(l);
                parts.push(r);
            } else {
                cells += p.d.rows * p.d.cols;
            }
        }
        assert_eq!(cells, m * n);
    }
}

#[test]
fn divide_at_takes_whole_rows_or_columns() {
    // 6 rows of 4 cells: 9 cells need 3 rows.
    let (l, r) = problem(6, 2, 4).divide_at(9);
    assert_eq!((l.d.dim(), r.d.dim()), ((3, 4), (3, 4)));
    assert_eq!((l.a.dim(), r.a.dim()), ((3, 2), (3, 2)));
    assert_eq!((r.d.offset, r.a.offset), (12, 6));
    let (l, r) = problem(6, 2, 4).divide_at(8);
    assert_eq!((l.d.rows, r.d.rows), (2, 4));
    let (l, r) = problem(6, 2, 4).divide_at(1);
    assert_eq!((l.d.rows, r.d.rows), (1, 5));
    // All the rows: the second part is left without cells.
    let (l, r) = problem(6, 2, 4).divide_at(24);
    assert_eq!((l.d.rows, r.d.rows), (6, 0));
    assert!(r.is_degenerate() && !l.is_degenerate());
    // 4 rows, 6 columns: 9 cells need 3 columns.
    let (l, r) = problem(4, 2, 6).divide_at(9);
    assert_eq!((l.d.dim(), r.d.dim()), ((4, 3), (4, 3)));
    assert_eq!((l.b.dim(), r.b.dim()), ((2, 3), (2, 3)));
    assert_eq!((r.d.offset, r.b.offset), (3, 3));
    // All the columns: the count wraps to 0 and the first part is empty.
    let (l, r) = problem(4, 2, 6).divide_at(24);
    assert_eq!((l.d.cols, r.d.cols), (0, 6));
    assert!(l.is_degenerate());
}

#[test]
fn extract_iter_takes_a_power_of_two_of_inner_positions() {
    // 3 x 4 output: 12 cells. A size hint of 60 is 5 times that: 4 columns.
    let mut m = problem(3, 10, 4);
    let chunk = m.extract_iter(60);
    assert_eq!((chunk.a.dim(), chunk.b.dim(), chunk.d.dim()), ((3, 4), (4, 4), (3, 4)));
    assert_eq!((m.a.dim(), m.b.dim(), m.d.dim()), ((3, 6), (6, 4), (3, 4)));
    assert_eq!((m.a.offset, m.b.offset, m.d.offset), (4, 16, 0));
    // A hint of 48 is 4 times the cells: 4 columns.
    let chunk = m.extract_iter(48);
    assert_eq!(chunk.a.cols, 4);
    assert_eq!((chunk.a.offset, chunk.b.offset), (4, 16));
    assert_eq!(m.a.cols, 2);
    // A hint below the number of cells still takes one column.
    let chunk = m.extract_iter(0);
    assert_eq!((chunk.a.cols, m.a.cols), (1, 1));
    // A large hint takes no more than is left.
    let chunk = m.extract_iter(usize::MAX);
    assert_eq!((chunk.a.cols, m.a.cols), (1, 0));
    assert!(m.is_degenerate());
    // Nothing is left: the chunk is empty.
    let chunk = m.extract_iter(12);
    assert_eq!((chunk.a.cols, m.a.cols), (0, 0));
    assert_eq!(chunk.a.len_of(Axis(1)), 0);
}
