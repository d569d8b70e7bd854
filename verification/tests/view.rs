use matrix_mult::pow2::floor_pow2;
use matrix_mult::split::split;
use matrix_mult::view::{Axis, Window};

fn window(offset: usize, rows: usize, cols: usize, row_stride: usize, col_stride: usize) -> Window {
    Window { offset, rows, cols, row_stride, col_stride }
}

#[test]
fn new_window_is_dense_and_row_major() {
    let w = Window::new(3, 5);
    assert_eq!(w, window(0, 3, 5, 5, 1));
    assert_eq!(w.dim(), (3, 5));
    assert_eq!(w.strides(), (5, 1));
    assert_eq!((w.len_of(Axis(0)), w.len_of(Axis(1))), (3, 5));
    assert!(!w.is_empty());
    assert!(Window::new(0, 5).is_empty());
    assert!(Window::new(3, 0).is_empty());
    assert_eq!(Axis(1).index(), 1);
}

#[test]
fn position_follows_the_strides() {
    let w = window(7, 3, 4, 10, 2);
    assert_eq!(w.position(0, 0), 7);
    assert_eq!(w.position(0, 3), 13);
    assert_eq!(w.position(2, 0), 27);
    assert_eq!(w.position(2, 3), 33);
}

#[test]
fn split_at_partitions_the_rows() {
    let w = window(7, 5, 4, 10, 2);
    let (top, bottom) = w.split_at(Axis(0), 2);
    assert_eq!(top, window(7, 2, 4, 10, 2));
    assert_eq!(bottom, window(27, 3, 4, 10, 2));
    // Every cell of the parent is a cell of exactly one part, at the same place.
    for i in 0..5 {
        for j in 0..4 {
            let p = w.position(i, j);
            if i < 2 {
                assert_eq!(top.position(i, j), p);
            } else {
                assert_eq!(bottom.position(i - 2, j), p);
            }
        }
    }
}

#[test]
fn split_at_partitions_the_columns() {
    let w = window(7, 5, 4, 10, 2);
    let (left, right) = w.split_at(Axis(1), 3);
    assert_eq!(left, window(7, 5, 3, 10, 2));
    assert_eq!(right, window(13, 5, 1, 10, 2));
    let mut seen = std::collections::BTreeSet::new();
    for i in 0..5 {
        for j in 0..3 {
            assert!(seen.insert(left.position(i, j)));
        }
        assert!(seen.insert(right.position(i, 0)));
    }
    let mut all = std::collections::BTreeSet::new();
    for i in 0..5 {
        for j in 0..4 {
            all.insert(w.position(i, j));
        }
    }
    assert_eq!(seen, all);
}

#[test]
fn split_at_the_ends_leaves_an_empty_part() {
    let w = window(7, 5, 4, 10, 2);
    let (top, bottom) = w.split_at(Axis(0), 0);
    assert_eq!((top, bottom), (window(7, 0, 4, 10, 2), w));
    assert!(top.is_empty());
    let (top, bottom) = w.split_at(Axis(0), 5);
    assert_eq!((top, bottom), (w, window(7, 0, 4, 10, 2)));
    assert!(bottom.is_empty());
    let (left, right) = w.split_at(Axis(1), 0);
    assert_eq!((left, right), (window(7, 5, 0, 10, 2), w));
    let (left, right) = w.split_at(Axis(1), 4);
    assert_eq!((left, right), (w, window(7, 5, 0, 10, 2)));
    // The second part of a window without cells keeps the offset.
    let hollow = window(usize::MAX, 4, 0, usize::MAX, 1);
    let (top, bottom) = hollow.split_at(Axis(0), 2);
    assert_eq!((top, bottom), (window(usize::MAX, 2, 0, usize::MAX, 1), window(usize::MAX, 2, 0, usize::MAX, 1)));
}

#[test]
fn floor_pow2_rounds_down() {
    let cases = [(0, 0), (1, 1), (2, 2), (3, 2), (4, 4), (5, 4), (7, 4), (8, 8), (1000, 512), (1024, 1024), (1025, 1024)];
    for (q, p) in cases {
        assert_eq!(floor_pow2(q), p, "{}", q);
    }
    let top = usize::MAX / 2 + 1;
    assert_eq!(floor_pow2(top), top);
    assert_eq!(floor_pow2(top - 1), top / 2);
    assert_eq!(floor_pow2(top + 1), top);
    assert_eq!(floor_pow2(usize::MAX), top);
}

#[test]
fn split_cuts_with_the_splitter() {
    let s = split(10usize, |n: usize| (n / 2, n - n / 2), |n: &usize| *n);
    assert_eq!(s.base_length(), Some(10));
    let (l, r) = s.divide_at(3);
    assert_eq!((l.data, r.data), (5, 5));
    assert_eq!(r.base_length(), Some(5));
    let (l, r) = r.divide_at(0);
    assert_eq!((l.base_length(), r.base_length()), (Some(2), Some(3)));
    assert_eq!((l.to_sequential(), r.to_sequential()), (2, 3));
}

#[test]
fn windows_know_whether_their_cells_are_distinct() {
    assert!(Window::new(3, 5).is_row_major() && Window::new(3, 5).is_distinct());
    let column_major = window(0, 3, 5, 1, 3);
    assert!(!column_major.is_row_major() && column_major.is_distinct());
    let padded = window(4, 3, 5, 2, 7);
    assert!(padded.is_distinct());
    // Rows 4 apart hold only 4 of the 5 cells of a row; columns 2 apart hold only 2 of the 3 rows.
    assert!(!window(0, 3, 5, 4, 1).is_distinct());
    assert!(!window(0, 3, 5, 1, 2).is_distinct());
    // A stride of 0 puts every cell of a row in one place.
    assert!(!window(0, 3, 5, 5, 0).is_distinct());
    assert!(Window::new(3, 5).fits_in(15) && !Window::new(3, 5).fits_in(14));
    assert!(column_major.fits_in(15) && !column_major.fits_in(14));
    assert!(padded.fits_in(37) && !padded.fits_in(36));
    assert!(window(9, 0, 5, 1, 1).fits_in(9) && !window(9, 0, 5, 1, 1).fits_in(8));
    assert!(!window(1, 2, 2, usize::MAX, 1).fits_in(usize::MAX));
}
