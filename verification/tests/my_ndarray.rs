use matrix_mult::my_ndarray::{
    divide, divide_at_id_along_axis, divide_mut, divide_mut_at_id_along_axis, mult, mult_nd_faster_u32, view_ptr,
};
use matrix_mult::view::{Axis, Window};
use ndarray::{linalg, Array};
use std::num::Wrapping;

#[test]
fn my_ndarray_test_mult() {
    let a = Array::from_shape_fn((25, 25), |(i, j)| Wrapping((i + j) as u32));
    let b = Array::from_shape_fn((25, 25), |(i, j)| Wrapping((i + j) as u32));
    let (a_r, _a_c) = a.dim();
    let (_b_r, b_c) = b.dim();
    let an: Vec<u32> = a.iter().map(|x| x.0).collect();
    let bn: Vec<u32> = b.iter().map(|x| x.0).collect();
    let mut result = vec![0u32; a_r * b_c];

    mult(&an, Window::new(25, 25), &bn, Window::new(25, 25), &mut result, Window::new(a_r, b_c));
    let mut verif = Array::from_elem((25, 25), Wrapping(0u32));
    linalg::general_mat_mul(Wrapping(1), &a, &b, Wrapping(1), &mut verif);
    let verif: Vec<u32> = verif.iter().map(|x| x.0).collect();
    assert_eq!(verif, result);
}

fn reference(a: &[u32], b: &[u32], m: usize, k: usize, n: usize) -> Vec<u32> {
    let mut c = vec![0u32; m * n];
    for i in 0..m {
        for j in 0..n {
            for l in 0..k {
                c[i * n + j] = c[i * n + j].wrapping_add(a[i * k + l].wrapping_mul(b[l * n + j]));
            }
        }
    }
    c
}

#[test]
fn mult_quarters_large_operands() {
    // A has 60 * 70 cells, more than the 1024 below which the product is not cut.
    let (m, k, n) = (60, 70, 50);
    let an: Vec<u32> = (0..m * k).map(|x| (x % 11) as u32).collect();
    let bn: Vec<u32> = (0..k * n).map(|x| (x % 13) as u32).collect();
    let expected = reference(&an, &bn, m, k, n);
    let mut result = vec![0u32; m * n];
    mult(&an, Window::new(m, k), &bn, Window::new(k, n), &mut result, Window::new(m, n));
    assert_eq!(result, expected);
    let mut result = vec![0u32; m * n];
    mult_nd_faster_u32(&an, Window::new(m, k), &bn, Window::new(k, n), &mut result, Window::new(m, n));
    assert_eq!(result, expected);
}

#[test]
fn divide_cuts_quadrants() {
    let w = Window::new(5, 7);
    let (q1, q2, q3, q4) = divide(w);
    let q = |offset, rows, cols| Window { offset, rows, cols, row_stride: 7, col_stride: 1 };
    assert_eq!((q1, q2, q3, q4), (q(0, 2, 3), q(3, 2, 4), q(14, 3, 3), q(17, 3, 4)));
    assert_eq!(divide_mut(w), (q1, q2, q3, q4));
    // A single row has an empty upper half, whose windows keep the offset.
    let (q1, q2, q3, q4) = divide(Window::new(1, 4));
    let q = |offset, rows, cols| Window { offset, rows, cols, row_stride: 4, col_stride: 1 };
    assert_eq!((q1, q2, q3, q4), (q(0, 0, 2), q(0, 0, 2), q(0, 1, 2), q(2, 1, 2)));
}

#[test]
fn divide_at_id_counts_cells_along_rows_and_wraps_along_columns() {
    let w = Window::new(4, 3);
    let rows = |offset, rows| Window { offset, rows, cols: 3, row_stride: 3, col_stride: 1 };
    let cols = |offset, cols| Window { offset, rows: 4, cols, row_stride: 3, col_stride: 1 };
    // Cell 0 is in row 0: the cut falls after that row.
    assert_eq!(divide_at_id_along_axis(w, 0, Axis(0)), (rows(0, 1), rows(3, 3)));
    assert_eq!(divide_at_id_along_axis(w, 2, Axis(0)), (rows(0, 1), rows(3, 3)));
    assert_eq!(divide_at_id_along_axis(w, 3, Axis(0)), (rows(0, 2), rows(6, 2)));
    assert_eq!(divide_at_id_along_axis(w, 11, Axis(0)), (rows(0, 4), rows(0, 0)));
    assert_eq!(divide_at_id_along_axis(w, 1, Axis(1)), (cols(0, 1), cols(1, 2)));
    assert_eq!(divide_at_id_along_axis(w, 2, Axis(1)), (cols(0, 2), cols(2, 1)));
    assert_eq!(divide_at_id_along_axis(w, 3, Axis(1)), (cols(0, 0), cols(0, 3)));
    assert_eq!(divide_at_id_along_axis(w, 7, Axis(1)), (cols(0, 1), cols(1, 2)));
    assert_eq!(divide_mut_at_id_along_axis(w, 3, Axis(0)), (rows(0, 2), rows(6, 2)));
    assert_eq!(divide_mut_at_id_along_axis(w, 5, Axis(1)), (cols(0, 2), cols(2, 1)));
}

#[test]
fn view_ptr_spans_the_cells() {
    assert_eq!(view_ptr(Window::new(4, 3)), (0, 12));
    let right = Window { offset: 2, rows: 4, cols: 2, row_stride: 4, col_stride: 1 };
    assert_eq!(view_ptr(right), (2, 14));
    let strided = Window { offset: 5, rows: 3, cols: 2, row_stride: 10, col_stride: 3 };
    assert_eq!(view_ptr(strided), (5, 24));
    let empty = Window { offset: 9, rows: 0, cols: 2, row_stride: 4, col_stride: 1 };
    assert_eq!(view_ptr(empty), (9, 0));
}
