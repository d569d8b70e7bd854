use matrix_mult::driver::{batches, chunks, fork_join, multiply, parts, run_leaf, size_hint, Policy};
use matrix_mult::faster_vec::multiply_add_u32;
use matrix_mult::linalg::{gather, general_mat_mul};
use matrix_mult::matrix::multiply_basic;
use matrix_mult::matrix_adaptive::Matrix;
use matrix_mult::my_ndarray::mult_nd_faster_u32;
use matrix_mult::naive_sequential::{cut_in_blocks, mult, mult_blocks, mult_index_optimized};
use matrix_mult::view::Window;
use std::cell::Cell;

const POLICIES: [Policy; 10] = [
    Policy::Sequential,
    Policy::FixedGranularity(0),
    Policy::FixedGranularity(1),
    Policy::FixedGranularity(1000),
    Policy::WorkStealingBatch(0),
    Policy::WorkStealingBatch(1),
    Policy::WorkStealingBatch(777),
    Policy::Adaptive(1, 1),
    Policy::Adaptive(30, 3000),
    Policy::Adaptive(0, usize::MAX),
];

fn fill(len: usize, seed: u32) -> Vec<u32> {
    let mut x = seed;
    (0..len)
        .map(|_| {
            x = x.wrapping_mul(1664525).wrapping_add(1013904223);
            x >> 24
        })
        .collect()
}

fn reference(a: &[u32], b: &[u32], c: &[u32], m: usize, k: usize, n: usize) -> Vec<u32> {
    let mut c = c.to_vec();
    for i in 0..m {
        for j in 0..n {
            for l in 0..k {
                c[i * n + j] = c[i * n + j].wrapping_add(a[i * k + l].wrapping_mul(b[l * n + j]));
            }
        }
    }
    c
}

fn check_all_policies(m: usize, k: usize, n: usize) {
    let a = fill(m * k, 1);
    let b = fill(k * n, 2);
    let start = fill(m * n, 3);
    let expected = reference(&a, &b, &start, m, k, n);
    let (aw, bw, dw) = (Window::new(m, k), Window::new(k, n), Window::new(m, n));
    for policy in POLICIES {
        let mut out = start.clone();
        multiply(&a, aw, &b, bw, &mut out, dw, policy, mult_index_optimized);
        assert_eq!(out, expected, "{}x{}x{} {:?}", m, k, n, policy);
    }
}

#[test]
fn every_policy_adds_the_product_to_the_output() {
    for (m, k, n) in [(1, 1, 1), (2, 3, 4), (5, 1, 5), (7, 13, 3), (16, 16, 16), (33, 17, 65), (3, 100, 2)] {
        check_all_policies(m, k, n);
    }
}

#[test]
fn shapes_that_are_not_powers_of_two() {
    let (m, k, n) = (1000, 777, 513);
    let a: Vec<u32> = (0..m * k).map(|x| ((x % k + (x / k) * k) % 3) as u32).collect();
    let b: Vec<u32> = (0..k * n).map(|x| ((x % n + 7 + (x / n) * n) % 3) as u32).collect();
    let (aw, bw, dw) = (Window::new(m, k), Window::new(k, n), Window::new(m, n));
    let mut expected = vec![0u32; m * n];
    mult_index_optimized(&a, aw, &b, bw, &mut expected, dw);
    for policy in [
        Policy::Sequential,
        Policy::FixedGranularity(m * n / 32),
        Policy::WorkStealingBatch(m * n / 10),
        Policy::Adaptive(m * n * 100, m * n * 300),
    ] {
        let mut out = vec![0u32; m * n];
        multiply(&a, aw, &b, bw, &mut out, dw, policy, mult_index_optimized);
        assert!(out == expected, "{:?}", policy);
    }
    let mut out = vec![0u32; m * n];
    multiply_basic(&a, aw, &b, bw, &mut out, dw, Policy::FixedGranularity(m * n / 32), mult_index_optimized);
    assert!(out == expected);
}

#[test]
fn a_row_times_a_column_is_a_dot_product_and_is_not_cut() {
    let k = 9;
    let a: Vec<u32> = (1..=k as u32).collect();
    let b: Vec<u32> = (1..=k as u32).map(|x| 2 * x).collect();
    let dot: u32 = (1..=k as u32).map(|x| 2 * x * x).sum();
    let calls = Cell::new(0);
    let counting = |a: &[u32], aw: Window, b: &[u32], bw: Window, out: &mut [u32], dw: Window| {
        calls.set(calls.get() + 1);
        assert_eq!((aw.dim(), bw.dim(), dw.dim()), ((1, 9), (9, 1), (1, 1)));
        mult(a, aw, b, bw, out, dw)
    };
    for policy in [Policy::Sequential, Policy::FixedGranularity(1), Policy::WorkStealingBatch(1)] {
        let mut out = vec![0u32];
        calls.set(0);
        multiply(&a, Window::new(1, k), &b, Window::new(k, 1), &mut out, Window::new(1, 1), policy, &counting);
        assert_eq!(out, vec![dot]);
        assert_eq!(calls.get(), 1, "{:?}", policy);
    }
    let mut out = vec![0u32];
    multiply(&a, Window::new(1, k), &b, Window::new(k, 1), &mut out, Window::new(1, 1), Policy::Adaptive(1, 8), mult);
    assert_eq!(out, vec![dot]);
}

#[test]
fn parts_without_cells_never_reach_the_kernel() {
    let seen_empty = Cell::new(false);
    let watching = |a: &[u32], aw: Window, b: &[u32], bw: Window, out: &mut [u32], dw: Window| {
        if aw.is_empty() || bw.is_empty() || dw.is_empty() {
            seen_empty.set(true);
        }
        mult(a, aw, b, bw, out, dw)
    };
    for (m, k, n) in [(0, 3, 4), (3, 0, 4), (3, 4, 0), (0, 0, 0), (2, 3, 3), (4, 2, 6), (1, 1, 7)] {
        let a = fill(m * k, 5);
        let b = fill(k * n, 6);
        let start = fill(m * n, 7);
        let expected = reference(&a, &b, &start, m, k, n);
        for policy in POLICIES {
            let mut out = start.clone();
            multiply(&a, Window::new(m, k), &b, Window::new(k, n), &mut out, Window::new(m, n), policy, &watching);
            assert_eq!(out, expected);
            let mut out = start.clone();
            multiply_basic(&a, Window::new(m, k), &b, Window::new(k, n), &mut out, Window::new(m, n), policy, &watching);
            assert_eq!(out, expected);
        }
    }
    assert!(!seen_empty.get());
    // A batch that would take every column takes none: the whole problem is solved as one part.
    let problem = Matrix::new(Window::new(2, 2), Window::new(2, 3), Window::new(2, 3)).unwrap();
    let (first, rest) = problem.divide_at(5);
    assert!(first.is_degenerate());
    assert_eq!(rest.d, problem.d);
    // A degenerate leaf leaves the output as it is.
    let mut out = vec![9u32; 6];
    run_leaf(&[], &[1, 2, 3], &mut out, first, mult);
    assert_eq!(out, vec![9u32; 6]);
}

#[test]
fn only_the_cells_of_the_output_window_change() {
    // The operands and the output are windows in the middle of larger buffers.
    let a = fill(100, 11);
    let b = fill(100, 12);
    let aw = Window { offset: 11, rows: 3, cols: 4, row_stride: 10, col_stride: 2 };
    let bw = Window { offset: 3, rows: 4, cols: 5, row_stride: 1, col_stride: 20 };
    let dw = Window { offset: 12, rows: 3, cols: 5, row_stride: 15, col_stride: 2 };
    let start = fill(60, 13);
    let mut expected = start.clone();
    for i in 0..3 {
        for j in 0..5 {
            for l in 0..4 {
                let p = dw.position(i, j);
                expected[p] = expected[p].wrapping_add(a[aw.position(i, l)].wrapping_mul(b[bw.position(l, j)]));
            }
        }
    }
    for policy in POLICIES {
        for kernel in 0..3 {
            let mut out = start.clone();
            match kernel {
                0 => multiply(&a, aw, &b, bw, &mut out, dw, policy, mult),
                1 => multiply(&a, aw, &b, bw, &mut out, dw, policy, mult_index_optimized),
                _ => multiply(&a, aw, &b, bw, &mut out, dw, policy, general_mat_mul),
            }
            assert_eq!(out, expected, "{:?} {}", policy, kernel);
        }
        let mut out = start.clone();
        multiply_basic(&a, aw, &b, bw, &mut out, dw, policy, general_mat_mul);
        assert_eq!(out, expected);
    }
    assert_eq!(gather(&a, aw, 12), vec![a[11], a[13], a[15], a[17], a[21], a[23], a[25], a[27], a[31], a[33], a[35], a[37]]);
}

#[test]
fn sums_wrap_around() {
    let a = vec![u32::MAX, 2, 3, u32::MAX - 1];
    let b = vec![u32::MAX, 5, 7, 0x8000_0000];
    let start = vec![u32::MAX, 1, 2, 3];
    let w = Window::new(2, 2);
    let expected = reference(&a, &b, &start, 2, 2, 2);
    assert_eq!(expected[0], u32::MAX.wrapping_add(1).wrapping_add(14));
    for policy in POLICIES {
        let mut out = start.clone();
        multiply(&a, w, &b, w, &mut out, w, policy, general_mat_mul);
        assert_eq!(out, expected);
        let mut out = start.clone();
        multiply(&a, w, &b, w, &mut out, w, policy, mult);
        assert_eq!(out, expected);
    }
    let mut out = start.clone();
    multiply_add_u32(&mut out, &a, &b, 2, 2, 2, 2, 2, 2, 2, 2, 2);
    assert_eq!(out, expected);
}

#[test]
fn the_drivers_of_each_policy_agree() {
    let (m, k, n) = (12, 10, 9);
    let a = fill(m * k, 21);
    let b = fill(k * n, 22);
    let start = fill(m * n, 23);
    let expected = reference(&a, &b, &start, m, k, n);
    let problem = Matrix::new(Window::new(m, k), Window::new(k, n), Window::new(m, n)).unwrap();
    let mut out = start.clone();
    run_leaf(&a, &b, &mut out, problem, mult);
    assert_eq!(out, expected);
    let mut out = start.clone();
    fork_join(&a, &b, &mut out, problem, 5, mult);
    assert_eq!(out, expected);
    let mut out = start.clone();
    batches(&a, &b, &mut out, problem, 5, mult);
    assert_eq!(out, expected);
    let mut out = start.clone();
    chunks(&a, &b, &mut out, problem, 100, 500, mult);
    assert_eq!(out, expected);
}

#[test]
fn size_hint_is_the_remaining_work_between_the_bounds() {
    let problem = Matrix::new(Window::new(3, 10), Window::new(10, 4), Window::new(3, 4)).unwrap();
    assert_eq!(size_hint(&problem, 0, usize::MAX), 120);
    assert_eq!(size_hint(&problem, 200, 1000), 200);
    assert_eq!(size_hint(&problem, 1, 50), 50);
    assert_eq!(size_hint(&problem, 120, 120), 120);
    // Bounds in the wrong order: the upper one wins.
    assert_eq!(size_hint(&problem, 500, 60), 60);
    let none = Matrix::new(Window::new(3, 0), Window::new(0, 4), Window::new(3, 4)).unwrap();
    assert_eq!(size_hint(&none, 0, 9), 0);
    assert_eq!(size_hint(&none, 5, 9), 5);
}

#[test]
fn the_chunks_of_the_adaptive_policy_shrink_with_the_work() {
    // 2 x 2 output, 21 inner positions: the work is 84, 20 times the cells, so the
    // first chunk takes 16 positions, then 4, then 1.
    let widths = std::cell::RefCell::new(Vec::new());
    let recording = |a: &[u32], aw: Window, b: &[u32], bw: Window, out: &mut [u32], dw: Window| {
        widths.borrow_mut().push(aw.cols);
        mult(a, aw, b, bw, out, dw)
    };
    let a = fill(42, 31);
    let b = fill(42, 32);
    let mut out = vec![0u32; 4];
    multiply(&a, Window::new(2, 21), &b, Window::new(21, 2), &mut out, Window::new(2, 2), Policy::Adaptive(0, usize::MAX), &recording);
    assert_eq!(*widths.borrow(), vec![16, 4, 1]);
    assert_eq!(out, reference(&a, &b, &[0; 4], 2, 21, 2));
    // With the hint capped at 8, twice the cells, every chunk takes 2 positions.
    widths.borrow_mut().clear();
    let mut out = vec![0u32; 4];
    multiply(&a, Window::new(2, 21), &b, Window::new(21, 2), &mut out, Window::new(2, 2), Policy::Adaptive(0, 8), &recording);
    assert_eq!(*widths.borrow(), vec![2, 2, 2, 2, 2, 2, 2, 2, 2, 2, 1]);
}

#[test]
fn block_partition_gives_the_same_result_as_recursive_cutting() {
    for (m, k, n, chunkw, chunkh) in [(10, 10, 10, 3, 3), (17, 5, 9, 2, 4), (8, 8, 8, 8, 8), (9, 7, 5, 1, 1), (4, 30, 6, 7, 2), (6, 6, 6, 0, 0)] {
        let a = fill(m * k, 41);
        let b = fill(k * n, 42);
        let start = fill(m * n, 43);
        let (aw, bw, dw) = (Window::new(m, k), Window::new(k, n), Window::new(m, n));
        let mut recursive = start.clone();
        multiply(&a, aw, &b, bw, &mut recursive, dw, Policy::FixedGranularity(4), mult);
        let (ag, bg, cg) = cut_in_blocks(aw, bw, dw, chunkw, chunkh);
        let mut blocked = start.clone();
        mult_blocks(&a, aw, &b, bw, &mut blocked, dw, ag, bg, cg, mult);
        assert_eq!(blocked, recursive);
        assert_eq!(blocked, reference(&a, &b, &start, m, k, n));
    }
}

#[test]
fn cut_in_blocks_halves_until_the_blocks_are_small() {
    let (aw, bw, dw) = (Window::new(5, 7), Window::new(7, 3), Window::new(5, 3));
    let (ag, bg, cg) = cut_in_blocks(aw, bw, dw, 2, 3);
    // The 5 rows of A are cut into 2 + 3, its 7 columns into 1 + 2, 2 + 2.
    let heights: Vec<usize> = ag.iter().map(|line| line[0].rows).collect();
    assert_eq!(heights, vec![2, 3]);
    let widths: Vec<usize> = ag[0].iter().map(|w| w.cols).collect();
    assert_eq!(widths, vec![1, 2, 2, 2]);
    let offsets: Vec<usize> = ag[1].iter().map(|w| w.offset).collect();
    assert_eq!(offsets, vec![14, 15, 17, 19]);
    assert!(ag.iter().flatten().all(|w| w.strides() == (7, 1)));
    // The 7 rows of B are cut like the columns of A, its 3 columns are one strip.
    let heights: Vec<usize> = bg.iter().map(|line| line[0].rows).collect();
    assert_eq!(heights, vec![1, 2, 2, 2]);
    assert!(bg.iter().all(|line| line.len() == 1 && line[0].cols == 3));
    // The output has the rows of A and the columns of B.
    assert_eq!(cg.len(), 2);
    assert_eq!(cg[0], vec![Window { offset: 0, rows: 2, cols: 3, row_stride: 3, col_stride: 1 }]);
    assert_eq!(cg[1], vec![Window { offset: 6, rows: 3, cols: 3, row_stride: 3, col_stride: 1 }]);
}

#[test]
fn blocks_of_a_strip_are_visited_in_alternating_directions() {
    // One row strip, 6 inner strips and 2 column strips: strips 2 and 3 of B
    // (2 / 2 and 3 / 2 are odd) are visited from right to left.
    let (m, k, n) = (1, 6, 2);
    let a = fill(m * k, 51);
    let b = fill(k * n, 52);
    let (aw, bw, dw) = (Window::new(m, k), Window::new(k, n), Window::new(m, n));
    let (ag, bg, cg) = cut_in_blocks(aw, bw, dw, 1, 1);
    assert_eq!((ag.len(), ag[0].len(), bg.len(), bg[0].len()), (1, 6, 6, 2));
    let visits = std::cell::RefCell::new(Vec::new());
    let recording = |a: &[u32], aw: Window, b: &[u32], bw: Window, out: &mut [u32], dw: Window| {
        visits.borrow_mut().push((aw.offset, dw.offset));
        mult(a, aw, b, bw, out, dw)
    };
    let mut out = vec![0u32; 2];
    mult_blocks(&a, aw, &b, bw, &mut out, dw, ag, bg, cg, &recording);
    assert_eq!(
        *visits.borrow(),
        vec![(0, 0), (0, 1), (1, 0), (1, 1), (2, 1), (2, 0), (3, 1), (3, 0), (4, 0), (4, 1), (5, 0), (5, 1)]
    );
    assert_eq!(out, reference(&a, &b, &[0; 2], m, k, n));
}

#[test]
fn strided_kernel_follows_the_row_strides() {
    let a = fill(40, 61);
    let b = fill(40, 62);
    let start = fill(40, 63);
    let mut out = start.clone();
    // A is 3 x 4 with rows 7 apart, B 4 x 5 with rows 6 apart, the output 3 x 5 with rows 9 apart.
    multiply_add_u32(&mut out, &a, &b, 4, 3, 5, 4, 5, 3, 7, 6, 9);
    let mut expected = start.clone();
    for i in 0..3 {
        for j in 0..5 {
            for l in 0..4 {
                expected[i * 9 + j] = expected[i * 9 + j].wrapping_add(a[i * 7 + l].wrapping_mul(b[l * 6 + j]));
            }
        }
    }
    assert_eq!(out, expected);
    // The same through windows that start inside the buffers.
    let aw = Window { offset: 2, rows: 3, cols: 4, row_stride: 7, col_stride: 1 };
    let bw = Window { offset: 5, rows: 4, cols: 5, row_stride: 6, col_stride: 1 };
    let dw = Window { offset: 3, rows: 3, cols: 5, row_stride: 9, col_stride: 1 };
    let mut out = start.clone();
    mult_nd_faster_u32(&a, aw, &b, bw, &mut out, dw);
    let mut expected = start.clone();
    mult(&a, aw, &b, bw, &mut expected, dw);
    assert_eq!(out, expected);
    assert_ne!(out, start);
}

#[test]
fn the_output_may_be_stored_column_by_column() {
    let (m, k, n) = (5, 4, 6);
    let a = fill(m * k, 71);
    let b = fill(k * n, 72);
    let start = fill(m * n, 73);
    let expected = reference(&a, &b, &vec![0; m * n], m, k, n);
    let dw = Window { offset: 0, rows: m, cols: n, row_stride: 1, col_stride: m };
    for policy in POLICIES {
        let mut out = start.clone();
        multiply(&a, Window::new(m, k), &b, Window::new(k, n), &mut out, dw, policy, general_mat_mul);
        for i in 0..m {
            for j in 0..n {
                assert_eq!(out[j * m + i], start[j * m + i].wrapping_add(expected[i * n + j]));
            }
        }
        let mut other = start.clone();
        multiply_basic(&a, Window::new(m, k), &b, Window::new(k, n), &mut other, dw, policy, mult);
        assert_eq!(other, out);
    }
    let (ag, bg, cg) = cut_in_blocks(Window::new(m, k), Window::new(k, n), dw, 2, 2);
    let mut blocked = start.clone();
    mult_blocks(&a, Window::new(m, k), &b, Window::new(k, n), &mut blocked, dw, ag, bg, cg, mult_index_optimized);
    let mut plain = start.clone();
    mult_nd_faster_u32(&a, Window::new(m, k), &b, Window::new(k, n), &mut plain, dw);
    assert_eq!(blocked, plain);
}

#[test]
fn an_outer_cut_can_hand_its_parts_to_an_inner_policy() {
    // Cut the output first, then take chunks off the inner dimension of every part.
    let (m, k, n) = (12, 20, 10);
    let a = fill(m * k, 81);
    let b = fill(k * n, 82);
    let start = fill(m * n, 83);
    let expected = reference(&a, &b, &start, m, k, n);
    let leaves = Cell::new(0);
    let chunks_seen = Cell::new(0);
    let inner = |a: &[u32], aw: Window, b: &[u32], bw: Window, out: &mut [u32], dw: Window| {
        chunks_seen.set(chunks_seen.get() + 1);
        mult(a, aw, b, bw, out, dw)
    };
    let outer = |a: &[u32], aw: Window, b: &[u32], bw: Window, out: &mut [u32], dw: Window| {
        leaves.set(leaves.get() + 1);
        multiply(a, aw, b, bw, out, dw, Policy::Adaptive(0, usize::MAX), &inner)
    };
    let mut out = start.clone();
    multiply(&a, Window::new(m, k), &b, Window::new(k, n), &mut out, Window::new(m, n), Policy::FixedGranularity(30), &outer);
    assert_eq!(out, expected);
    let problem = Matrix::new(Window::new(m, k), Window::new(k, n), Window::new(m, n)).unwrap();
    let outer_parts = parts(problem, Policy::FixedGranularity(30));
    assert_eq!(leaves.get(), outer_parts.len());
    assert!(outer_parts.len() > 1 && outer_parts.iter().all(|p| p.d.rows * p.d.cols <= 30));
    // 20 inner positions are taken as 16 and 4 in every part.
    assert_eq!(chunks_seen.get(), 2 * outer_parts.len());
}
