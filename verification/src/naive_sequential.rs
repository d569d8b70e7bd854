//! Sequential kernels that add a product into an output window, and the
//! block-partition strategy built on them.

use vstd::prelude::*;
use crate::algebra::Operands;
use crate::algebra::accumulated;
use crate::algebra::block;
use crate::algebra::cell;
use crate::algebra::conformable;
use crate::algebra::dot;
use crate::algebra::lemma_accumulated_within;
use crate::algebra::lemma_block_cols;
use crate::algebra::lemma_block_inside;
use crate::algebra::lemma_block_rows;
use crate::algebra::lemma_reduce_sum;
use crate::algebra::lemma_updated_cell;
use crate::algebra::lemma_updated_inner;
use crate::algebra::lemma_updated_nothing;
use crate::algebra::lemma_updated_union;
use crate::algebra::updated;
use crate::blocks::column;
use crate::blocks::grid_of;
use crate::blocks::grid_view;
use crate::blocks::lemma_partition_block;
use crate::blocks::lemma_partition_ends;
use crate::blocks::lemma_start_of_grows;
use crate::blocks::lemma_strips;
use crate::blocks::partitioned;
use crate::blocks::start_of;
use crate::blocks::strips;
use crate::driver::kernel_accepts;
use crate::driver::run_leaf;
use crate::matrix_adaptive::Matrix;
use crate::scalar::Scalar;
use crate::split::split;
use crate::view::Axis;
use crate::view::Window;

verus! {

/// Row-times-column kernel: for every output cell, computes the dot product
/// of a row of A and a column of B and adds it to the cell.
pub fn mult<T: Scalar>(a: &[T], aw: Window, b: &[T], bw: Window, result: &mut [T], dw: Window)
    requires
        conformable(a@.len() as int, aw, b@.len() as int, bw, old(result)@.len() as int, dw),
    ensures
        accumulated(old(result)@, final(result)@, dw, (Operands { a: a@, aw, b: b@, bw })),
{
    let ghost ops = Operands { a: a@, aw, b: b@, bw };
    let ghost s0 = result@;
    let ghost inner = aw.cols as int;
    let mut i: usize = 0;
    proof {
        lemma_updated_nothing(s0, dw, ops, block(0, 0, 0, dw.cols as int), 0, inner);
    }
    while i < dw.rows
        invariant
            conformable(a@.len() as int, aw, b@.len() as int, bw, s0.len() as int, dw),
            ops == (Operands { a: a@, aw, b: b@, bw }),
            inner == aw.cols,
            i <= dw.rows,
            updated(s0, result@, dw, ops, block(0, i as int, 0, dw.cols as int), 0, inner),
        decreases dw.rows - i,
    {
        let ghost s_row = result@;
        let mut j: usize = 0;
        proof {
            lemma_updated_nothing(s_row, dw, ops, block(i as int, i + 1, 0, 0), 0, inner);
        }
        while j < dw.cols
            invariant
                conformable(a@.len() as int, aw, b@.len() as int, bw, s0.len() as int, dw),
                ops == (Operands { a: a@, aw, b: b@, bw }),
                inner == aw.cols,
                i < dw.rows,
                j <= dw.cols,
                s_row.len() == s0.len(),
                updated(s_row, result@, dw, ops, block(i as int, i + 1, 0, j as int), 0, inner),
            decreases dw.cols - j,
        {
            let s = scalar_mult(a, aw, i, b, bw, j);
            let p = dw.position(i, j);
            let c = result[p];
            let v = c.plus(s);
            proof {
                let done = block(i as int, i + 1, 0, j as int);
                lemma_block_inside(dw, i as int, i + 1, 0, j as int);
                T::lemma_reduce_add(dot(ops, i as int, j as int, 0, inner), c.value());
                lemma_updated_cell(s_row, result@, dw, ops, done, i as int, j as int, v, 0, inner);
                assert(done.insert((i as int, j as int)) =~= block(i as int, i + 1, 0, j + 1));
            }
            result[p] = v;
            j += 1;
        }
        proof {
            lemma_block_inside(dw, 0, i as int, 0, dw.cols as int);
            lemma_block_inside(dw, i as int, i + 1, 0, dw.cols as int);
            lemma_block_rows(0, i as int, i + 1, 0, dw.cols as int);
            lemma_updated_union(
                s0,
                s_row,
                result@,
                dw,
                ops,
                block(0, i as int, 0, dw.cols as int),
                block(i as int, i + 1, 0, dw.cols as int),
                0,
                inner,
            );
        }
        i += 1;
    }
}

/// Dot product of row `i` of A and column `j` of B.
pub fn scalar_mult<T: Scalar>(a: &[T], aw: Window, i: usize, b: &[T], bw: Window, j: usize) -> (sum: T)
    requires
        aw.cols == bw.rows,
        i < aw.rows,
        j < bw.cols,
        aw.fits(a@.len() as int),
        bw.fits(b@.len() as int),
    ensures
        sum.value() == T::reduce(dot((Operands { a: a@, aw, b: b@, bw }), i as int, j as int, 0, aw.cols as int)),
{
    let ghost ops = Operands { a: a@, aw, b: b@, bw };
    let mut sum = T::zero();
    let mut l: usize = 0;
    proof {
        sum.lemma_reduce_value();
    }
    while l < aw.cols
        invariant
            aw.cols == bw.rows,
            i < aw.rows,
            j < bw.cols,
            aw.fits(a@.len() as int),
            bw.fits(b@.len() as int),
            ops == (Operands { a: a@, aw, b: b@, bw }),
            l <= aw.cols,
            sum.value() == T::reduce(dot(ops, i as int, j as int, 0, l as int)),
        decreases aw.cols - l,
    {
        let x = a[aw.position(i, l)];
        let y = b[bw.position(l, j)];
        proof {
            lemma_reduce_sum::<T>(0, dot(ops, i as int, j as int, 0, l as int), x.value() * y.value());
            assert(x.value() * y.value() == cell(ops.a, ops.aw, i as int, l as int) * cell(
                ops.b,
                ops.bw,
                l as int,
                j as int,
            ));
        }
        sum = sum.mul_acc(x, y);
        l += 1;
    }
    sum
}

/// Kernel with the loops in the order rows of A, inner position, columns of
/// B: each element of A is read once and spread over a row of the output.
pub fn mult_index_optimized<T: Scalar>(a: &[T], aw: Window, b: &[T], bw: Window, result: &mut [T], dw: Window)
    requires
        conformable(a@.len() as int, aw, b@.len() as int, bw, old(result)@.len() as int, dw),
    ensures
        accumulated(old(result)@, final(result)@, dw, (Operands { a: a@, aw, b: b@, bw })),
{
    let ghost ops = Operands { a: a@, aw, b: b@, bw };
    let ghost s0 = result@;
    let ghost inner = aw.cols as int;
    let ghost width = dw.cols as int;
    let mut i: usize = 0;
    proof {
        lemma_updated_nothing(s0, dw, ops, block(0, 0, 0, width), 0, inner);
    }
    while i < aw.rows
        invariant
            conformable(a@.len() as int, aw, b@.len() as int, bw, s0.len() as int, dw),
            ops == (Operands { a: a@, aw, b: b@, bw }),
            inner == aw.cols,
            width == dw.cols,
            i <= aw.rows,
            updated(s0, result@, dw, ops, block(0, i as int, 0, width), 0, inner),
        decreases aw.rows - i,
    {
        let ghost s_row = result@;
        let ghost row = block(i as int, i + 1, 0, width);
        let mut k: usize = 0;
        proof {
            lemma_updated_nothing(s_row, dw, ops, row, 0, 0);
        }
        while k < aw.cols
            invariant
                conformable(a@.len() as int, aw, b@.len() as int, bw, s0.len() as int, dw),
                ops == (Operands { a: a@, aw, b: b@, bw }),
                inner == aw.cols,
                width == dw.cols,
                i < aw.rows,
                k <= aw.cols,
                row == block(i as int, i + 1, 0, width),
                s_row.len() == s0.len(),
                updated(s_row, result@, dw, ops, row, 0, k as int),
            decreases aw.cols - k,
        {
            let ghost s_k = result@;
            let r = a[aw.position(i, k)];
            let mut j: usize = 0;
            proof {
                lemma_updated_nothing(s_k, dw, ops, block(i as int, i + 1, 0, 0), k as int, k + 1);
            }
            while j < bw.cols
                invariant
                    conformable(a@.len() as int, aw, b@.len() as int, bw, s0.len() as int, dw),
                    ops == (Operands { a: a@, aw, b: b@, bw }),
                    width == dw.cols,
                    i < aw.rows,
                    k < aw.cols,
                    j <= bw.cols,
                    r == a@[aw.index(i as int, k as int)],
                    s_k.len() == s0.len(),
                    updated(s_k, result@, dw, ops, block(i as int, i + 1, 0, j as int), k as int, k + 1),
                decreases bw.cols - j,
            {
                let bel = b[bw.position(k, j)];
                let p = dw.position(i, j);
                let c = result[p];
                let v = c.mul_acc(r, bel);
                proof {
                    let done = block(i as int, i + 1, 0, j as int);
                    lemma_block_inside(dw, i as int, i + 1, 0, j as int);
                    assert(dot(ops, i as int, j as int, k as int, k + 1) == r.value() * bel.value()) by {
                        assert(dot(ops, i as int, j as int, k as int, k as int) == 0);
                        assert(cell(ops.a, ops.aw, i as int, k as int) == r.value());
                        assert(cell(ops.b, ops.bw, k as int, j as int) == bel.value());
                    }
                    lemma_updated_cell(s_k, result@, dw, ops, done, i as int, j as int, v, k as int, k + 1);
                    assert(done.insert((i as int, j as int)) =~= block(i as int, i + 1, 0, j + 1));
                }
                result[p] = v;
                j += 1;
            }
            proof {
                lemma_updated_inner(s_row, s_k, result@, dw, ops, row, 0, k as int, k + 1);
            }
            k += 1;
        }
        proof {
            lemma_block_inside(dw, 0, i as int, 0, width);
            lemma_block_inside(dw, i as int, i + 1, 0, width);
            lemma_block_rows(0, i as int, i + 1, 0, width);
            lemma_updated_union(s0, s_row, result@, dw, ops, block(0, i as int, 0, width), row, 0, inner);
        }
        i += 1;
    }
}

/// Cuts a window before the middle row.
pub fn halve_rows(w: Window) -> (r: (Window, Window))
    requires
        w.fits(usize::MAX as int),
    ensures
        r == w.spec_split_at(Axis(0), (w.rows / 2) as usize),
{
    let (ar, _ac) = w.dim();
    w.split_at(Axis(0), ar / 2)
}

/// Cuts a window before the middle column.
pub fn halve_cols(w: Window) -> (r: (Window, Window))
    requires
        w.fits(usize::MAX as int),
    ensures
        r == w.spec_split_at(Axis(1), (w.cols / 2) as usize),
{
    let (_ar, ac) = w.dim();
    w.split_at(Axis(1), ac / 2)
}

/// The number of rows of a window.
pub fn rows_of(w: &Window) -> (r: usize)
    ensures
        r == w.rows,
{
    let (ar, _ac) = w.dim();
    ar
}

/// The number of columns of a window.
pub fn cols_of(w: &Window) -> (r: usize)
    ensures
        r == w.cols,
{
    let (_ar, ac) = w.dim();
    ac
}

/// Appends to `parts` the row strips of `w` of at most `chunk` rows.
pub fn cut_rows(w: Window, chunk: usize, parts: &mut Vec<Window>)
    requires
        w.fits(usize::MAX as int),
    ensures
        final(parts)@ == old(parts)@ + strips(w, Axis(0), chunk),
    decreases w.rows,
{
    let piece = split(w, halve_rows, rows_of);
    let len = piece.base_length().unwrap();
    if len <= chunk || len <= 1 {
        parts.push(piece.to_sequential());
        assert(parts@ =~= old(parts)@ + strips(w, Axis(0), chunk));
    } else {
        proof {
            crate::view::lemma_split_indices(w, Axis(0), (len / 2) as usize);
        }
        let (first, second) = piece.divide_at(len / 2);
        cut_rows(first.to_sequential(), chunk, parts);
        cut_rows(second.to_sequential(), chunk, parts);
        assert(parts@ =~= old(parts)@ + strips(w, Axis(0), chunk));
    }
}

/// Appends to `parts` the column strips of `w` of at most `chunk` columns.
pub fn cut_cols(w: Window, chunk: usize, parts: &mut Vec<Window>)
    requires
        w.fits(usize::MAX as int),
    ensures
        final(parts)@ == old(parts)@ + strips(w, Axis(1), chunk),
    decreases w.cols,
{
    let piece = split(w, halve_cols, cols_of);
    let len = piece.base_length().unwrap();
    if len <= chunk || len <= 1 {
        parts.push(piece.to_sequential());
        assert(parts@ =~= old(parts)@ + strips(w, Axis(1), chunk));
    } else {
        proof {
            crate::view::lemma_split_indices(w, Axis(1), (len / 2) as usize);
        }
        let (first, second) = piece.divide_at(len / 2);
        cut_cols(first.to_sequential(), chunk, parts);
        cut_cols(second.to_sequential(), chunk, parts);
        assert(parts@ =~= old(parts)@ + strips(w, Axis(1), chunk));
    }
}

/// Cuts a window into its grid of blocks of at most `row_chunk` rows and
/// `col_chunk` columns.
pub fn cut_grid(w: Window, row_chunk: usize, col_chunk: usize) -> (g: Vec<Vec<Window>>)
    requires
        w.fits(usize::MAX as int),
    ensures
        grid_view(g) == grid_of(w, row_chunk, col_chunk),
{
    let mut rows: Vec<Window> = Vec::new();
    cut_rows(w, row_chunk, &mut rows);
    assert(rows@ =~= strips(w, Axis(0), row_chunk));
    let mut g: Vec<Vec<Window>> = Vec::new();
    let mut t: usize = 0;
    proof {
        lemma_strips(w, Axis(0), row_chunk);
    }
    while t < rows.len()
        invariant
            rows@ == strips(w, Axis(0), row_chunk),
            t <= rows.len(),
            g@.len() == t,
            forall|u: int| 0 <= u < rows@.len() ==> (#[trigger] rows@[u]).fits(usize::MAX as int),
            forall|u: int| 0 <= u < t ==> (#[trigger] g@[u])@ == strips(rows@[u], Axis(1), col_chunk),
        decreases rows.len() - t,
    {
        let mut line: Vec<Window> = Vec::new();
        cut_cols(rows[t], col_chunk, &mut line);
        assert(line@ =~= strips(rows@[t as int], Axis(1), col_chunk));
        g.push(line);
        t += 1;
    }
    assert(grid_view(g) =~~= grid_of(w, row_chunk, col_chunk));
    g
}

/// Block partition of a multiplication: cuts A into blocks of at most
/// `chunkh` rows and `chunkw` columns, B into blocks of at most `chunkw`
/// rows and `chunkh` columns, and the output into blocks of at most `chunkh`
/// rows and columns, each by repeated halving.
pub fn cut_in_blocks(a: Window, b: Window, result: Window, chunkw: usize, chunkh: usize) -> (r: (
    Vec<Vec<Window>>,
    Vec<Vec<Window>>,
    Vec<Vec<Window>>,
))
    requires
        a.fits(usize::MAX as int),
        b.fits(usize::MAX as int),
        result.fits(usize::MAX as int),
    ensures
        grid_view(r.0) == grid_of(a, chunkh, chunkw),
        grid_view(r.1) == grid_of(b, chunkw, chunkh),
        grid_view(r.2) == grid_of(result, chunkh, chunkh),
{
    let avec_blocks = cut_grid(a, chunkh, chunkw);
    let bvec_blocks = cut_grid(b, chunkw, chunkh);
    let rvec_blocks = cut_grid(result, chunkh, chunkh);
    (avec_blocks, bvec_blocks, rvec_blocks)
}

/// Multiplies block by block: for every row strip of A and every block in
/// it, runs the kernel on the block and each block of the matching row strip
/// of B, adding into the block of the output that the two name.
///
/// The blocks of a strip of B are visited from left to right, or from right
/// to left when the number of the strip divided by the number of its blocks
/// is odd. The order does not change the result.
pub fn mult_blocks<T: Scalar, K>(
    a: &[T],
    aw: Window,
    b: &[T],
    bw: Window,
    result: &mut [T],
    dw: Window,
    ablocks: Vec<Vec<Window>>,
    bblocks: Vec<Vec<Window>>,
    cblocks: Vec<Vec<Window>>,
    kernel: K,
) where K: Fn(&[T], Window, &[T], Window, &mut [T], Window) + Copy
    requires
        partitioned(
            grid_view(ablocks),
            grid_view(bblocks),
            grid_view(cblocks),
            aw,
            bw,
            dw,
            a@.len() as int,
            b@.len() as int,
            old(result)@.len() as int,
        ),
        kernel_accepts(kernel),
        forall|ka: &[T], kaw: Window, kb: &[T], kbw: Window, kout: &mut [T], kdw: Window|
            conformable(ka@.len() as int, kaw, kb@.len() as int, kbw, (*kout)@.len() as int, kdw)
                && !kaw.empty() && !kbw.empty() && !kdw.empty() && #[trigger] call_ensures(
                kernel,
                (ka, kaw, kb, kbw, kout, kdw),
                (),
            ) ==> accumulated((*kout)@, (*final(kout))@, kdw, (Operands { a: ka@, aw: kaw, b: kb@, bw: kbw })),
    ensures
        accumulated(old(result)@, final(result)@, dw, (Operands { a: a@, aw, b: b@, bw })),
{
    let ghost ops = Operands { a: a@, aw, b: b@, bw };
    let ghost s0 = result@;
    let ghost ag = grid_view(ablocks);
    let ghost bg = grid_view(bblocks);
    let ghost cg = grid_view(cblocks);
    let ghost rows = dw.rows as int;
    let ghost cols = dw.cols as int;
    let ghost inner = aw.cols as int;
    proof {
        lemma_partition_ends(ag, bg, cg, aw, bw, dw, a@.len() as int, b@.len() as int, s0.len() as int);
        lemma_updated_nothing(s0, dw, ops, block(0, 0, 0, cols), 0, inner);
    }
    let mut line_a: usize = 0;
    while line_a < ablocks.len()
        invariant
            partitioned(ag, bg, cg, aw, bw, dw, a@.len() as int, b@.len() as int, s0.len() as int),
            ag == grid_view(ablocks),
            bg == grid_view(bblocks),
            cg == grid_view(cblocks),
            ops == (Operands { a: a@, aw, b: b@, bw }),
            rows == dw.rows,
            cols == dw.cols,
            inner == aw.cols,
            line_a <= ablocks.len(),
            kernel_accepts(kernel),
            forall|ka: &[T], kaw: Window, kb: &[T], kbw: Window, kout: &mut [T], kdw: Window|
                conformable(ka@.len() as int, kaw, kb@.len() as int, kbw, (*kout)@.len() as int, kdw)
                    && !kaw.empty() && !kbw.empty() && !kdw.empty() && #[trigger] call_ensures(
                    kernel,
                    (ka, kaw, kb, kbw, kout, kdw),
                    (),
                ) ==> accumulated((*kout)@, (*final(kout))@, kdw, (Operands { a: ka@, aw: kaw, b: kb@, bw: kbw })),
            updated(s0, result@, dw, ops, block(0, start_of(column(cg), Axis(0), line_a as int), 0, cols), 0, inner),
        decreases ablocks.len() - line_a,
    {
        let aline = &ablocks[line_a];
        let ghost s_row = result@;
        let ghost top = start_of(column(cg), Axis(0), line_a as int);
        let ghost bottom = start_of(column(cg), Axis(0), line_a + 1);
        let ghost strip = block(top, bottom, 0, cols);
        let steps = if aline.len() < bblocks.len() {
            aline.len()
        } else {
            bblocks.len()
        };
        proof {
            lemma_partition_ends(ag, bg, cg, aw, bw, dw, a@.len() as int, b@.len() as int, s0.len() as int);
            assert(ag[line_a as int].len() == bg.len());
            lemma_start_of_grows(column(cg), Axis(0), line_a as int, line_a + 1);
            lemma_start_of_grows(column(cg), Axis(0), line_a + 1, cg.len() as int);
            lemma_updated_nothing(s_row, dw, ops, strip, 0, 0);
        }
        let mut line_b: usize = 0;
        while line_b < steps
            invariant
                partitioned(ag, bg, cg, aw, bw, dw, a@.len() as int, b@.len() as int, s0.len() as int),
                ag == grid_view(ablocks),
                bg == grid_view(bblocks),
                cg == grid_view(cblocks),
                ops == (Operands { a: a@, aw, b: b@, bw }),
                rows == dw.rows,
                cols == dw.cols,
                inner == aw.cols,
                line_a < ablocks.len(),
                *aline == ablocks@[line_a as int],
                steps == bblocks.len(),
                steps <= aline@.len(),
                cblocks@.len() == ablocks@.len(),
                line_b <= steps,
                top == start_of(column(cg), Axis(0), line_a as int),
                bottom == start_of(column(cg), Axis(0), line_a + 1),
                0 <= top <= bottom <= rows,
                strip == block(top, bottom, 0, cols),
                s_row.len() == s0.len(),
                kernel_accepts(kernel),
                forall|ka: &[T], kaw: Window, kb: &[T], kbw: Window, kout: &mut [T], kdw: Window|
                    conformable(ka@.len() as int, kaw, kb@.len() as int, kbw, (*kout)@.len() as int, kdw)
                        && !kaw.empty() && !kbw.empty() && !kdw.empty() && #[trigger] call_ensures(
                        kernel,
                        (ka, kaw, kb, kbw, kout, kdw),
                        (),
                    ) ==> accumulated((*kout)@, (*final(kout))@, kdw, (Operands { a: ka@, aw: kaw, b: kb@, bw: kbw })),
                updated(s_row, result@, dw, ops, strip, 0, start_of(ag[0], Axis(1), line_b as int)),
            decreases steps - line_b,
        {
            let idx_a = line_b;
            let a_block = aline[idx_a];
            let bline = &bblocks[line_b];
            let nb_col_b = bline.len();
            assert(a_block == ag[line_a as int][line_b as int]);
            let ghost s_inner = result@;
            let ghost lo = start_of(ag[0], Axis(1), line_b as int);
            let ghost hi = start_of(ag[0], Axis(1), line_b + 1);
            let ghost reversed = nb_col_b > 0 && (line_b / nb_col_b) % 2 == 1;
            proof {
                lemma_partition_ends(ag, bg, cg, aw, bw, dw, a@.len() as int, b@.len() as int, s0.len() as int);
                assert(bg[line_b as int].len() == cg[0].len());
                assert(cg[line_a as int].len() == cg[0].len());
                lemma_start_of_grows(cg[0], Axis(1), 0, cg[0].len() as int);
                if reversed {
                    lemma_updated_nothing(s_inner, dw, ops, block(top, bottom, cols, cols), lo, hi);
                } else {
                    lemma_updated_nothing(s_inner, dw, ops, block(top, bottom, 0, 0), lo, hi);
                }
            }
            let mut idx_b: usize = 0;
            while idx_b < nb_col_b
                invariant
                    partitioned(ag, bg, cg, aw, bw, dw, a@.len() as int, b@.len() as int, s0.len() as int),
                    ag == grid_view(ablocks),
                    bg == grid_view(bblocks),
                    cg == grid_view(cblocks),
                    ops == (Operands { a: a@, aw, b: b@, bw }),
                    rows == dw.rows,
                    cols == dw.cols,
                    inner == aw.cols,
                    line_a < ablocks.len(),
                    line_b < bblocks.len(),
                    a_block == ag[line_a as int][line_b as int],
                    *bline == bblocks@[line_b as int],
                    nb_col_b == bline@.len(),
                    cblocks@.len() == ablocks@.len(),
                    cblocks@.len() >= 1,
                    nb_col_b == cg[0].len(),
                    nb_col_b == cblocks@[line_a as int]@.len(),
                    idx_b <= nb_col_b,
                    reversed == (nb_col_b > 0 && (line_b / nb_col_b) % 2 == 1),
                    top == start_of(column(cg), Axis(0), line_a as int),
                    bottom == start_of(column(cg), Axis(0), line_a + 1),
                    0 <= top <= bottom <= rows,
                    lo == start_of(ag[0], Axis(1), line_b as int),
                    hi == start_of(ag[0], Axis(1), line_b + 1),
                    s_inner.len() == s0.len(),
                    kernel_accepts(kernel),
                    forall|ka: &[T], kaw: Window, kb: &[T], kbw: Window, kout: &mut [T], kdw: Window|
                        conformable(ka@.len() as int, kaw, kb@.len() as int, kbw, (*kout)@.len() as int, kdw)
                            && !kaw.empty() && !kbw.empty() && !kdw.empty() && #[trigger] call_ensures(
                            kernel,
                            (ka, kaw, kb, kbw, kout, kdw),
                            (),
                        ) ==> accumulated((*kout)@, (*final(kout))@, kdw, (Operands { a: ka@, aw: kaw, b: kb@, bw: kbw })),
                    updated(
                        s_inner,
                        result@,
                        dw,
                        ops,
                        if reversed {
                            block(top, bottom, start_of(cg[0], Axis(1), nb_col_b - idx_b), cols)
                        } else {
                            block(top, bottom, 0, start_of(cg[0], Axis(1), idx_b as int))
                        },
                        lo,
                        hi,
                    ),
                decreases nb_col_b - idx_b,
            {
                let mut calc_b = idx_b;
                if (line_b / nb_col_b) % 2 == 1 {
                    calc_b = nb_col_b - idx_b - 1;
                }
                let b_block = bline[calc_b];
                let resline = &cblocks[line_a];
                let res = resline[calc_b];
                let ghost before = result@;
                let ghost left = start_of(cg[0], Axis(1), calc_b as int);
                let ghost right = start_of(cg[0], Axis(1), calc_b + 1);
                proof {
                    lemma_partition_ends(ag, bg, cg, aw, bw, dw, a@.len() as int, b@.len() as int, s0.len() as int);
                    assert(cg[line_a as int].len() == cg[0].len());
                    assert(res == cg[line_a as int][calc_b as int]);
                    assert(b_block == bg[line_b as int][calc_b as int]);
                    lemma_partition_block(
                        ag,
                        bg,
                        cg,
                        aw,
                        bw,
                        dw,
                        a@.len() as int,
                        b@.len() as int,
                        s0.len() as int,
                        line_a as int,
                        line_b as int,
                        calc_b as int,
                    );
                    lemma_start_of_grows(cg[0], Axis(1), calc_b as int, calc_b + 1);
                    lemma_start_of_grows(cg[0], Axis(1), calc_b + 1, cg[0].len() as int);
                }
                let problem = Matrix {
                    a: a_block,
                    b: b_block,
                    d: res,
                    asize: a_block.dim(),
                    bsize: b_block.dim(),
                    dsize: res.dim(),
                };
                run_leaf(a, b, result, problem, kernel);
                proof {
                    lemma_accumulated_within(before, result@, res, problem.operands(a@, b@), dw, ops, top, left, lo);
                    let fresh = block(top, bottom, left, right);
                    lemma_block_inside(dw, top, bottom, left, right);
                    if reversed {
                        let done = block(top, bottom, right, cols);
                        lemma_block_inside(dw, top, bottom, right, cols);
                        lemma_block_cols(top, bottom, left, right, cols);
                        lemma_updated_union(s_inner, before, result@, dw, ops, done, fresh, lo, hi);
                        assert(done.union(fresh) =~= block(top, bottom, left, cols));
                    } else {
                        let done = block(top, bottom, 0, left);
                        lemma_block_inside(dw, top, bottom, 0, left);
                        lemma_block_cols(top, bottom, 0, left, right);
                        lemma_updated_union(s_inner, before, result@, dw, ops, done, fresh, lo, hi);
                    }
                }
                idx_b += 1;
            }
            proof {
                lemma_partition_ends(ag, bg, cg, aw, bw, dw, a@.len() as int, b@.len() as int, s0.len() as int);
                lemma_start_of_grows(ag[0], Axis(1), 0, line_b as int);
                lemma_start_of_grows(ag[0], Axis(1), line_b as int, line_b + 1);
                assert(start_of(cg[0], Axis(1), 0) == 0);
                lemma_updated_inner(s_row, s_inner, result@, dw, ops, strip, 0, lo, hi);
            }
            line_b += 1;
        }
        proof {
            lemma_partition_ends(ag, bg, cg, aw, bw, dw, a@.len() as int, b@.len() as int, s0.len() as int);
            lemma_block_inside(dw, 0, top, 0, cols);
            lemma_block_inside(dw, top, bottom, 0, cols);
            lemma_block_rows(0, top, bottom, 0, cols);
            lemma_updated_union(s0, s_row, result@, dw, ops, block(0, top, 0, cols), strip, 0, inner);
        }
        line_a += 1;
    }
}

/// The block partition gives the same result as recursive cutting: the
/// output that [`mult_blocks`] leaves and the output that
/// [`multiply`](crate::driver::multiply) leaves, for the same operands and
/// the same earlier contents of the output, are equal.
pub proof fn lemma_block_partition_equivalence<T: Scalar>(
    old: Seq<T>,
    blocked: Seq<T>,
    recursive: Seq<T>,
    d: Window,
    ops: Operands<T>,
)
    requires
        accumulated(old, blocked, d, ops),
        accumulated(old, recursive, d, ops),
    ensures
        blocked == recursive,
{
    crate::algebra::lemma_accumulated_unique(old, blocked, recursive, d, ops);
}

} // verus!
