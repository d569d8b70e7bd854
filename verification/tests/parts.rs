use matrix_mult::driver::{multiply, parts, Policy};
use matrix_mult::matrix_adaptive::Matrix;
use matrix_mult::naive_sequential::mult;
use matrix_mult::view::Window;
use std::cell::RefCell;

fn problem(m: usize, k: usize, n: usize) -> Matrix {
    Matrix::new(Window::new(m, k), Window::new(k, n), Window::new(m, n)).unwrap()
}

fn windows(list: &[Matrix]) -> Vec<(Window, Window, Window)> {
    list.iter().filter(|p| !p.is_degenerate()).map(|p| (p.a, p.b, p.d)).collect()
}

#[test]
fn the_kernel_sees_the_parts_of_the_policy_in_order() {
    let policies = [
        Policy::Sequential,
        Policy::FixedGranularity(0),
        Policy::FixedGranularity(1),
        Policy::FixedGranularity(6),
        Policy::FixedGranularity(1000),
        Policy::WorkStealingBatch(0),
        Policy::WorkStealingBatch(1),
        Policy::WorkStealingBatch(5),
        Policy::WorkStealingBatch(1000),
        Policy::Adaptive(1, 1),
        Policy::Adaptive(0, usize::MAX),
        Policy::Adaptive(40, 90),
        Policy::Adaptive(90, 40),
    ];
    for (m, k, n) in [(1, 1, 1), (5, 3, 7), (7, 9, 5), (1, 6, 1), (2, 1, 9), (6, 0, 4), (0, 3, 4), (4, 4, 0), (9, 2, 2)] {
        let a: Vec<u32> = (0..(m * k) as u32).collect();
        let b: Vec<u32> = (0..(k * n) as u32).collect();
        for policy in policies {
            let seen = RefCell::new(Vec::new());
            let recording = |a: &[u32], aw: Window, b: &[u32], bw: Window, out: &mut [u32], dw: Window| {
                seen.borrow_mut().push((aw, bw, dw));
                mult(a, aw, b, bw, out, dw)
            };
            let mut out = vec![0u32; m * n];
            multiply(&a, Window::new(m, k), &b, Window::new(k, n), &mut out, Window::new(m, n), policy, &recording);
            let plan = parts(problem(m, k, n), policy);
            assert_eq!(*seen.borrow(), windows(&plan), "{}x{}x{} {:?}", m, k, n, policy);
        }
    }
}

#[test]
fn fork_join_cuts_until_the_parts_are_small() {
    // 5 x 7 output: columns are cut at 4, then the 5 x 4 part by rows at 2.
    let plan = parts(problem(5, 3, 7), Policy::FixedGranularity(12));
    let dims: Vec<(usize, usize)> = plan.iter().map(|p| p.d.dim()).collect();
    assert_eq!(dims, vec![(2, 4), (3, 4), (2, 3), (3, 3)]);
    let offsets: Vec<usize> = plan.iter().map(|p| p.d.offset).collect();
    assert_eq!(offsets, vec![0, 14, 4, 18]);
    // A granularity of 0 cuts down to single cells.
    let plan = parts(problem(3, 2, 3), Policy::FixedGranularity(0));
    assert_eq!(plan.len(), 9);
    assert!(plan.iter().all(|p| p.d.dim() == (1, 1) && p.a.dim() == (1, 2) && p.b.dim() == (2, 1)));
    // A problem whose A has one column is never cut.
    let plan = parts(problem(8, 1, 8), Policy::FixedGranularity(1));
    assert_eq!(plan, vec![problem(8, 1, 8)]);
    let plan = parts(problem(8, 2, 8), Policy::Sequential);
    assert_eq!(plan, vec![problem(8, 2, 8)]);
}

#[test]
fn batches_take_whole_rows_or_columns_off_the_front() {
    // 6 rows of 4 cells, batches of 10 cells: 3 rows, then what is left.
    let plan = parts(problem(6, 2, 4), Policy::WorkStealingBatch(10));
    let dims: Vec<(usize, usize)> = plan.iter().map(|p| p.d.dim()).collect();
    assert_eq!(dims, vec![(3, 4), (3, 4)]);
    // Batches of 4 cells: one row each until 3 x 4 is left, which has more columns than
    // rows and gives up 2 columns; the 3 x 2 that is left gives up 2 rows.
    let plan = parts(problem(6, 2, 4), Policy::WorkStealingBatch(4));
    let dims: Vec<(usize, usize)> = plan.iter().map(|p| p.d.dim()).collect();
    assert_eq!(dims, vec![(1, 4), (1, 4), (1, 4), (3, 2), (2, 2), (1, 2)]);
    // A batch size of 0 counts as 1.
    assert_eq!(parts(problem(2, 2, 2), Policy::WorkStealingBatch(0)), parts(problem(2, 2, 2), Policy::WorkStealingBatch(1)));
}

#[test]
fn adaptive_chunks_follow_the_remaining_work() {
    let plan = parts(problem(2, 21, 2), Policy::Adaptive(0, usize::MAX));
    let widths: Vec<usize> = plan.iter().map(|p| p.a.cols).collect();
    assert_eq!(widths, vec![16, 4, 1]);
    assert!(plan.iter().all(|p| p.d == Window::new(2, 2)));
    let starts: Vec<(usize, usize)> = plan.iter().map(|p| (p.a.offset, p.b.offset)).collect();
    assert_eq!(starts, vec![(0, 0), (16, 32), (20, 40)]);
    // A lower bound of 33 cells' worth keeps the chunks at 8 positions while work is left.
    let plan = parts(problem(2, 21, 2), Policy::Adaptive(33, 35));
    let widths: Vec<usize> = plan.iter().map(|p| p.a.cols).collect();
    assert_eq!(widths, vec![8, 8, 5]);
    assert!(parts(problem(2, 0, 2), Policy::Adaptive(1, 9)).is_empty());
    assert!(parts(problem(0, 3, 2), Policy::Adaptive(1, 9)).is_empty());
}
