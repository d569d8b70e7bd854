//! The kernel that hands the product to `ndarray`.
//!
//! `ndarray` multiplies matrices of any element type that has the usual
//! arithmetic. The elements here are `u32` with wrapping arithmetic, which
//! `std::num::Wrapping<u32>` provides. The kernel copies the three windows
//! into dense row-major buffers, lets `ndarray` multiply those, and adds the
//! product into the output window.

use vstd::prelude::*;
use std::num::Wrapping;
use ndarray::ArrayView2;
use ndarray::ArrayViewMut2;
use crate::algebra::Operands;
use crate::algebra::accumulated;
use crate::algebra::block;
use crate::algebra::cell;
use crate::algebra::cells_of;
use crate::algebra::conformable;
use crate::algebra::dot;
use crate::algebra::lemma_block_inside;
use crate::algebra::lemma_block_rows;
use crate::algebra::lemma_dot_congruent;
use crate::algebra::lemma_updated_cell;
use crate::algebra::lemma_updated_nothing;
use crate::algebra::lemma_updated_union;
use crate::algebra::updated;
use crate::naive_sequential::mult_index_optimized;
use crate::scalar::Scalar;
use crate::view::Window;

verus! {

/// The window of a dense `rows` x `cols` matrix stored row after row from
/// the start of its buffer.
pub open spec fn dense(rows: usize, cols: usize) -> Window {
    Window { offset: 0, rows, cols, row_stride: cols, col_stride: 1 }
}

/// The operands of a product of dense matrices: `a` is `m` x `k`, `b` is
/// `k` x `n`.
pub open spec fn dense_operands(a: Seq<u32>, b: Seq<u32>, m: usize, k: usize, n: usize) -> Operands<u32> {
    Operands { a, aw: dense(m, k), b, bw: dense(k, n) }
}

/// A buffer of `len` elements holds exactly a dense `rows` x `cols` matrix
/// that has cells, and no more of them than `isize::MAX`.
pub open spec fn holds_dense(len: nat, rows: usize, cols: usize) -> bool {
    rows > 0 && cols > 0 && len == rows * cols <= isize::MAX
}

/// `ndarray::linalg::general_mat_mul` with both factors 1, on dense
/// row-major matrices of `std::num::Wrapping<u32>`: `C <- A B + C`.
///
/// The contract claims what the documentation of `general_mat_mul` states,
/// `C <- alpha A B + beta C`, read in the arithmetic of `Wrapping<u32>`,
/// which is arithmetic modulo 2^32: every cell of `c` grows by the dot
/// product of its row of `a` and its column of `b`. The three buffers hold
/// exactly an `m` x `k`, a `k` x `n` and an `m` x `n` matrix, no side is 0
/// and no matrix has more than `isize::MAX` cells, so that the views can be
/// built.
#[verifier::external_body]
fn gemm_dense(a: &Vec<u32>, b: &Vec<u32>, c: Vec<u32>, m: usize, k: usize, n: usize) -> (r: Vec<u32>)
    requires
        holds_dense(a@.len(), m, k),
        holds_dense(b@.len(), k, n),
        holds_dense(c@.len(), m, n),
    ensures
        accumulated(c@, r@, dense(m, n), dense_operands(a@, b@, m, k, n)),
{
    let av: Vec<_> = a.iter().map(|x| Wrapping(*x)).collect();
    let bv: Vec<_> = b.iter().map(|x| Wrapping(*x)).collect();
    let mut cv: Vec<_> = c.into_iter().map(Wrapping).collect();
    let lhs = ArrayView2::from_shape((m, k), &av).unwrap();
    let rhs = ArrayView2::from_shape((k, n), &bv).unwrap();
    let mut acc = ArrayViewMut2::from_shape((m, n), &mut cv).unwrap();
    ndarray::linalg::general_mat_mul(Wrapping(1u32), &lhs, &rhs, Wrapping(1u32), &mut acc);
    cv.into_iter().map(|x| x.0).collect()
}

/// In a dense matrix, a cell that comes earlier in row-major order has a
/// smaller buffer position, and every cell lies below `rows * cols`.
pub proof fn lemma_dense_order(rows: int, cols: int, i1: int, j1: int, i2: int, j2: int)
    requires
        0 <= i1,
        0 <= j1 < cols,
        0 <= j2 <= cols,
        i1 < i2 || (i1 == i2 && j1 < j2),
        i2 < rows || (i2 == rows && j2 == 0),
    ensures
        0 <= i1 * cols + j1 < i2 * cols + j2 <= rows * cols,
{
    assert(0 <= i1 * cols + j1 < i2 * cols + j2) by (nonlinear_arith)
        requires
            0 <= i1,
            0 <= j1 < cols,
            0 <= j2 <= cols,
            i1 < i2 || (i1 == i2 && j1 < j2),
    {
        if i1 < i2 {
            assert((i1 + 1) * cols <= i2 * cols);
            assert((i1 + 1) * cols == i1 * cols + cols);
        }
    }
    assert(i2 * cols + j2 <= rows * cols) by (nonlinear_arith)
        requires
            0 <= j2 <= cols,
            0 <= i2,
            i2 < rows || (i2 == rows && j2 == 0),
    {
        if i2 < rows {
            assert((i2 + 1) * cols <= rows * cols);
            assert((i2 + 1) * cols == i2 * cols + cols);
        }
    }
}

/// Copies the cells of a window, row after row, into a dense buffer.
pub fn gather<T: Scalar>(buf: &[T], w: Window, size: usize) -> (v: Vec<T>)
    requires
        w.fits(buf@.len() as int),
        size == w.rows * w.cols,
    ensures
        v@.len() == size,
        forall|i: int, j: int|
            w.contains(i, j) ==> #[trigger] cell(v@, dense(w.rows, w.cols), i, j) == cell(buf@, w, i, j),
{
    let ghost rows = w.rows as int;
    let ghost cols = w.cols as int;
    let ghost d = dense(w.rows, w.cols);
    let mut v: Vec<T> = Vec::with_capacity(size);
    let mut i: usize = 0;
    while i < w.rows
        invariant
            w.fits(buf@.len() as int),
            rows == w.rows,
            cols == w.cols,
            d == dense(w.rows, w.cols),
            i <= w.rows,
            v@.len() == i * cols,
            forall|i1: int, j1: int|
                0 <= i1 < i && 0 <= j1 < cols ==> #[trigger] cell(v@, d, i1, j1) == cell(buf@, w, i1, j1),
        decreases w.rows - i,
    {
        let mut j: usize = 0;
        while j < w.cols
            invariant
                w.fits(buf@.len() as int),
                rows == w.rows,
                cols == w.cols,
                d == dense(w.rows, w.cols),
                i < w.rows,
                j <= w.cols,
                v@.len() == i * cols + j,
                forall|i1: int, j1: int|
                    0 <= j1 < cols && (0 <= i1 < i || (i1 == i && j1 < j)) ==> #[trigger] cell(v@, d, i1, j1) == cell(
                        buf@,
                        w,
                        i1,
                        j1,
                    ),
            decreases w.cols - j,
        {
            let x = buf[w.position(i, j)];
            let ghost before = v@;
            v.push(x);
            proof {
                assert forall|i1: int, j1: int|
                    0 <= j1 < cols && (0 <= i1 < i || (i1 == i && j1 < j + 1)) implies #[trigger] cell(
                    v@,
                    d,
                    i1,
                    j1,
                ) == cell(buf@, w, i1, j1) by {
                    if i1 == i && j1 == j {
                    } else {
                        lemma_dense_order(rows, cols, i1, j1, i as int, j as int);
                        assert(cell(before, d, i1, j1) == cell(buf@, w, i1, j1));
                    }
                }
            }
            j += 1;
        }
        proof {
            assert((i + 1) * cols == i * cols + cols) by (nonlinear_arith);
        }
        i += 1;
    }
    proof {
        assert(i * cols == w.rows * w.cols);
    }
    v
}

/// Kernel on top of `ndarray`: multiplies dense copies of the operands with
/// `general_mat_mul` and adds the product into the output window.
///
/// Where a dense copy cannot be made, because a window names more cells than
/// a buffer can hold, the work goes to [`mult_index_optimized`].
pub fn general_mat_mul(a: &[u32], aw: Window, b: &[u32], bw: Window, result: &mut [u32], dw: Window)
    requires
        conformable(a@.len() as int, aw, b@.len() as int, bw, old(result)@.len() as int, dw),
    ensures
        accumulated(old(result)@, final(result)@, dw, (Operands::<u32> { a: a@, aw, b: b@, bw })),
{
    let ghost ops: Operands<u32> = Operands { a: a@, aw, b: b@, bw };
    let ghost s0 = result@;
    let (m, k) = aw.dim();
    let n = bw.cols;
    let limit = isize::MAX as usize;
    let sizes = (m.checked_mul(k), k.checked_mul(n), m.checked_mul(n));
    let (mk, kn, mn) = match sizes {
        (Some(mk), Some(kn), Some(mn)) if m > 0 && k > 0 && n > 0 && mk <= limit && kn <= limit && mn <= limit => (
            mk,
            kn,
            mn,
        ),
        _ => {
            mult_index_optimized(a, aw, b, bw, result, dw);
            return ;
        },
    };
    let av = gather(a, aw, mk);
    let bv = gather(b, bw, kn);
    let mut zero: Vec<u32> = Vec::with_capacity(mn);
    while zero.len() < mn
        invariant
            zero@.len() <= mn,
            forall|q: int| 0 <= q < zero@.len() ==> zero@[q] == 0,
        decreases mn - zero@.len(),
    {
        zero.push(0);
    }
    let ghost dense_ops: Operands<u32> = Operands { a: av@, aw: dense(m, k), b: bv@, bw: dense(k, n) };
    let ghost z = zero@;
    let product = gemm_dense(&av, &bv, zero, m, k, n);
    let ghost dd = dense(m, n);
    let ghost inner = k as int;
    let ghost width = n as int;
    proof {
        lemma_updated_nothing(s0, dw, ops, block(0, 0, 0, width), 0, inner);
    }
    let mut i: usize = 0;
    while i < m
        invariant
            conformable(a@.len() as int, aw, b@.len() as int, bw, s0.len() as int, dw),
            ops == (Operands::<u32> { a: a@, aw, b: b@, bw }),
            dense_ops == (Operands::<u32> { a: av@, aw: dense(m, k), b: bv@, bw: dense(k, n) }),
            dd == dense(m, n),
            m == aw.rows,
            k == aw.cols,
            n == bw.cols,
            inner == k,
            width == n,
            mn == m * n,
            i <= m,
            forall|i1: int, l: int| aw.contains(i1, l) ==> #[trigger] cell(av@, dense(m, k), i1, l) == cell(a@, aw, i1, l),
            forall|l: int, j1: int| bw.contains(l, j1) ==> #[trigger] cell(bv@, dense(k, n), l, j1) == cell(b@, bw, l, j1),
            accumulated(z, product@, dd, dense_ops),
            forall|q: int| 0 <= q < z.len() ==> z[q] == 0,
            product@.len() == mn,
            z.len() == mn,
            updated(s0, result@, dw, ops, block(0, i as int, 0, width), 0, inner),
        decreases m - i,
    {
        let ghost s_row = result@;
        let mut j: usize = 0;
        proof {
            lemma_updated_nothing(s_row, dw, ops, block(i as int, i + 1, 0, 0), 0, inner);
        }
        while j < n
            invariant
                conformable(a@.len() as int, aw, b@.len() as int, bw, s0.len() as int, dw),
                ops == (Operands::<u32> { a: a@, aw, b: b@, bw }),
                dense_ops == (Operands::<u32> { a: av@, aw: dense(m, k), b: bv@, bw: dense(k, n) }),
                dd == dense(m, n),
                m == aw.rows,
                k == aw.cols,
                n == bw.cols,
                inner == k,
                width == n,
                mn == m * n,
                i < m,
                j <= n,
                forall|i1: int, l: int|
                    aw.contains(i1, l) ==> #[trigger] cell(av@, dense(m, k), i1, l) == cell(a@, aw, i1, l),
                forall|l: int, j1: int|
                    bw.contains(l, j1) ==> #[trigger] cell(bv@, dense(k, n), l, j1) == cell(b@, bw, l, j1),
                accumulated(z, product@, dd, dense_ops),
                forall|q: int| 0 <= q < z.len() ==> z[q] == 0,
                product@.len() == mn,
                z.len() == mn,
                s_row.len() == s0.len(),
                updated(s_row, result@, dw, ops, block(i as int, i + 1, 0, j as int), 0, inner),
            decreases n - j,
        {
            proof {
                lemma_dense_order(m as int, n as int, i as int, j as int, i as int, j + 1);
            }
            let s = product[i * n + j];
            let p = dw.position(i, j);
            let c = result[p];
            let v = c.plus(s);
            proof {
                let done = block(i as int, i + 1, 0, j as int);
                lemma_block_inside(dw, i as int, i + 1, 0, j as int);
                assert(cells_of(dd).contains((i as int, j as int)));
                assert(dd.index(i as int, j as int) == i * n + j);
                assert(s as int == u32::reduce(dot(dense_ops, i as int, j as int, 0, inner)));
                assert forall|l: int| 0 <= l < inner implies #[trigger] cell(
                    dense_ops.a,
                    dense_ops.aw,
                    i as int,
                    l,
                ) == cell(ops.a, ops.aw, i as int, l) by {
                    assert(aw.contains(i as int, l));
                }
                assert forall|l: int| 0 <= l < inner implies #[trigger] cell(
                    dense_ops.b,
                    dense_ops.bw,
                    l,
                    j as int,
                ) == cell(ops.b, ops.bw, l, j as int) by {
                    assert(bw.contains(l, j as int));
                }
                lemma_dot_congruent(dense_ops, ops, i as int, j as int, inner);
                u32::lemma_reduce_add(dot(ops, i as int, j as int, 0, inner), c as int);
                lemma_updated_cell(s_row, result@, dw, ops, done, i as int, j as int, v, 0, inner);
                assert(done.insert((i as int, j as int)) =~= block(i as int, i + 1, 0, j + 1));
            }
            result[p] = v;
            j += 1;
        }
        proof {
            lemma_block_inside(dw, 0, i as int, 0, width);
            lemma_block_inside(dw, i as int, i + 1, 0, width);
            lemma_block_rows(0, i as int, i + 1, 0, width);
            lemma_updated_union(
                s0,
                s_row,
                result@,
                dw,
                ops,
                block(0, i as int, 0, width),
                block(i as int, i + 1, 0, width),
                0,
                inner,
            );
        }
        i += 1;
    }
}

} // verus!
