//! Cuts of a window into halves and quadrants, and multiplication by
//! recursive quartering.

use vstd::prelude::*;
use crate::algebra::Operands;
use crate::algebra::accumulated;
use crate::algebra::cells_of;
use crate::algebra::conformable;
use crate::algebra::lemma_accumulated_within;
use crate::algebra::lemma_updated_inner;
use crate::algebra::lemma_updated_quadrants;
use crate::faster_vec::mult_faster_from_ndarray;
use crate::linalg::general_mat_mul;
use crate::view::Axis;
use crate::view::Window;
use crate::view::lemma_index_bounds;
use crate::view::lemma_split_indices;
use crate::view::lemma_split_within;
use crate::view::lemma_within_trans;
use crate::view::within;

verus! {

/// Where [`divide_at_id_along_axis`] cuts: counting the cells of `a` row by
/// row, a cut along the rows falls after the row that holds cell number
/// `index`; a cut along the columns falls before column `index` modulo the
/// number of columns.
pub open spec fn cut_position(a: Window, index: usize, axis: Axis) -> usize {
    if axis.0 == 0 {
        (index / a.cols + 1) as usize
    } else {
        (index % a.cols) as usize
    }
}

/// The four quadrants of `a`, cut at half its rows and half its columns:
/// top-left, top-right, bottom-left, bottom-right.
pub open spec fn quadrants(a: Window) -> (Window, Window, Window, Window) {
    let (top, bottom) = a.spec_split_at(Axis(0), a.rows / 2);
    let (a11, a12) = top.spec_split_at(Axis(1), a.cols / 2);
    let (a21, a22) = bottom.spec_split_at(Axis(1), a.cols / 2);
    (a11, a12, a21, a22)
}

/// Cuts an output window into its four quadrants.
pub fn divide_mut(a: Window) -> (r: (Window, Window, Window, Window))
    requires
        a.fits(usize::MAX as int),
    ensures
        r == quadrants(a),
{
    divide(a)
}

/// Cuts a window into its four quadrants.
pub fn divide(a: Window) -> (r: (Window, Window, Window, Window))
    requires
        a.fits(usize::MAX as int),
    ensures
        r == quadrants(a),
{
    let (arow, acol) = a.dim();
    let l_row = arow / 2;
    let l_col = acol / 2;
    proof {
        lemma_split_indices(a, Axis(0), l_row);
    }
    let (a1, a2) = a.split_at(Axis(0), l_row);
    let (a11, a12) = a1.split_at(Axis(1), l_col);
    let (a21, a22) = a2.split_at(Axis(1), l_col);
    (a11, a12, a21, a22)
}

/// Cuts a window in two along `axis` at the place that cell number `index`
/// names (see [`cut_position`]).
pub fn divide_at_id_along_axis(a: Window, index: usize, axis: Axis) -> (r: (Window, Window))
    requires
        axis.0 <= 1,
        a.fits(usize::MAX as int),
        a.cols > 0,
        axis.0 == 0 ==> index / a.cols < a.rows,
    ensures
        r == a.spec_split_at(axis, cut_position(a, index, axis)),
{
    let (_arow, acol) = a.dim();
    if axis.index() == 0 {
        let l_row = index / acol + 1;
        a.split_at(axis, l_row)
    } else {
        let l_col = index % acol;
        a.split_at(axis, l_col)
    }
}

/// Cuts an output window in two along `axis` at the place that cell number
/// `index` names (see [`cut_position`]).
pub fn divide_mut_at_id_along_axis(a: Window, index: usize, axis: Axis) -> (r: (Window, Window))
    requires
        axis.0 <= 1,
        a.fits(usize::MAX as int),
        a.cols > 0,
        axis.0 == 0 ==> index / a.cols < a.rows,
    ensures
        r == a.spec_split_at(axis, cut_position(a, index, axis)),
{
    divide_at_id_along_axis(a, index, axis)
}

/// The quadrants of a window have half its rows and columns (the lower and
/// right ones the larger half), start at the four corners of the cut, and
/// stay inside the buffer and free of overlap if the window is.
pub proof fn lemma_quadrants(w: Window)
    requires
        w.fits(usize::MAX as int),
    ensures
        ({
            let (q1, q2, q3, q4) = quadrants(w);
            let kr = w.rows / 2;
            let kc = w.cols / 2;
            &&& q1.rows == kr && q1.cols == kc && within(q1, w, 0, 0)
            &&& q2.rows == kr && q2.cols == w.cols - kc && within(q2, w, 0, kc as int)
            &&& q3.rows == w.rows - kr && q3.cols == kc && within(q3, w, kr as int, 0)
            &&& q4.rows == w.rows - kr && q4.cols == w.cols - kc && within(q4, w, kr as int, kc as int)
            &&& forall|n: int| w.fits(n) ==> q1.fits(n) && q2.fits(n) && q3.fits(n) && q4.fits(n)
            &&& w.distinct() ==> q1.distinct() && q2.distinct() && q3.distinct() && q4.distinct()
            &&& q1.col_stride == w.col_stride && q2.col_stride == w.col_stride
            &&& q3.col_stride == w.col_stride && q4.col_stride == w.col_stride
        }),
{
    let kr = (w.rows / 2) as usize;
    let kc = (w.cols / 2) as usize;
    let (top, bottom) = w.spec_split_at(Axis(0), kr);
    let (q1, q2, q3, q4) = quadrants(w);
    lemma_split_indices(w, Axis(0), kr);
    lemma_split_within(w, Axis(0), kr);
    lemma_split_indices(top, Axis(1), kc);
    lemma_split_within(top, Axis(1), kc);
    lemma_split_indices(bottom, Axis(1), kc);
    lemma_split_within(bottom, Axis(1), kc);
    lemma_within_trans(q1, top, w, 0, 0, 0, 0);
    lemma_within_trans(q2, top, w, 0, kc as int, 0, 0);
    lemma_within_trans(q3, bottom, w, 0, 0, kr as int, 0);
    lemma_within_trans(q4, bottom, w, 0, kc as int, kr as int, 0);
}

/// Below this number of cells of A, [`mult`] stops cutting.
pub const MULT_CHUNK: usize = 1024;

/// Multiplies by recursive quartering: cuts A, B and the output into
/// quadrants and multiplies the eight pairs of quadrants, first those that
/// use the left half of A, then those that use the right half. When A has at
/// most [`MULT_CHUNK`] cells, the product is left to
/// [`general_mat_mul`](crate::linalg::general_mat_mul).
pub fn mult(a: &[u32], aw: Window, b: &[u32], bw: Window, result: &mut [u32], dw: Window)
    requires
        conformable(a@.len() as int, aw, b@.len() as int, bw, old(result)@.len() as int, dw),
    ensures
        accumulated(old(result)@, final(result)@, dw, (Operands::<u32> { a: a@, aw, b: b@, bw })),
    decreases aw.rows + aw.cols,
{
    let dima = aw.dim();
    let small = match dima.0.checked_mul(dima.1) {
        Some(cells) => cells <= MULT_CHUNK,
        None => false,
    };
    if small {
        general_mat_mul(a, aw, b, bw, result, dw);
        return ;
    }
    let ghost ops: Operands<u32> = Operands { a: a@, aw, b: b@, bw };
    let ghost s0 = result@;
    let ghost kr = (dw.rows / 2) as int;
    let ghost kc = (dw.cols / 2) as int;
    let ghost ki = (aw.cols / 2) as int;
    let ghost rows = dw.rows as int;
    let ghost cols = dw.cols as int;
    let ghost inner = aw.cols as int;
    proof {
        assert(aw.rows >= 1 && aw.cols >= 1 && (aw.rows >= 2 || aw.cols >= 2)) by (nonlinear_arith)
            requires
                aw.rows * aw.cols > 1024,
        ;
        lemma_quadrants(aw);
        lemma_quadrants(bw);
        lemma_quadrants(dw);
    }
    let (a1, a2, a3, a4) = divide(aw);
    let (b1, b2, b3, b4) = divide(bw);
    let (d1, d2, d3, d4) = divide_mut(dw);

    mult(a, a1, b, b1, result, d1);
    let ghost s1 = result@;
    mult(a, a1, b, b2, result, d2);
    let ghost s2 = result@;
    mult(a, a3, b, b1, result, d3);
    let ghost s3 = result@;
    mult(a, a3, b, b2, result, d4);
    let ghost s4 = result@;
    proof {
        lemma_accumulated_within(s0, s1, d1, Operands { a: a@, aw: a1, b: b@, bw: b1 }, dw, ops, 0, 0, 0);
        lemma_accumulated_within(s1, s2, d2, Operands { a: a@, aw: a1, b: b@, bw: b2 }, dw, ops, 0, kc, 0);
        lemma_accumulated_within(s2, s3, d3, Operands { a: a@, aw: a3, b: b@, bw: b1 }, dw, ops, kr, 0, 0);
        lemma_accumulated_within(s3, s4, d4, Operands { a: a@, aw: a3, b: b@, bw: b2 }, dw, ops, kr, kc, 0);
        lemma_updated_quadrants(s0, s1, s2, s3, s4, dw, ops, kr, kc, 0, ki);
    }

    mult(a, a2, b, b3, result, d1);
    let ghost s5 = result@;
    mult(a, a2, b, b4, result, d2);
    let ghost s6 = result@;
    mult(a, a4, b, b3, result, d3);
    let ghost s7 = result@;
    mult(a, a4, b, b4, result, d4);
    proof {
        let s8 = result@;
        lemma_accumulated_within(s4, s5, d1, Operands { a: a@, aw: a2, b: b@, bw: b3 }, dw, ops, 0, 0, ki);
        lemma_accumulated_within(s5, s6, d2, Operands { a: a@, aw: a2, b: b@, bw: b4 }, dw, ops, 0, kc, ki);
        lemma_accumulated_within(s6, s7, d3, Operands { a: a@, aw: a4, b: b@, bw: b3 }, dw, ops, kr, 0, ki);
        lemma_accumulated_within(s7, s8, d4, Operands { a: a@, aw: a4, b: b@, bw: b4 }, dw, ops, kr, kc, ki);
        lemma_updated_quadrants(s4, s5, s6, s7, s8, dw, ops, kr, kc, ki, inner);
        lemma_updated_inner(s0, s4, s8, dw, ops, cells_of(dw), 0, ki, inner);
    }
}

/// Where in its buffer a window starts, and how many elements lie between
/// its first and its last cell, both included: 0 for a window without cells.
pub fn view_ptr(view: Window) -> (r: (usize, usize))
    requires
        view.fits(usize::MAX as int),
    ensures
        r.0 == view.offset,
        r.0 + r.1 == view.extent(),
{
    let (row, col) = view.dim();
    let strides = view.strides();
    if row == 0 || col == 0 {
        (view.offset, 0)
    } else {
        proof {
            lemma_index_bounds(view, row - 1, col - 1);
        }
        let len = (row - 1) * strides.0 + (col - 1) * strides.1 + 1;
        (view.offset, len)
    }
}

/// Multiplies by recursive quartering like [`mult`], and leaves the product
/// of at most [`MULT_CHUNK`] cells of A to
/// [`mult_faster_from_ndarray`](crate::faster_vec::mult_faster_from_ndarray).
pub fn mult_nd_faster_u32(a: &[u32], aw: Window, b: &[u32], bw: Window, result: &mut [u32], dw: Window)
    requires
        conformable(a@.len() as int, aw, b@.len() as int, bw, old(result)@.len() as int, dw),
    ensures
        accumulated(old(result)@, final(result)@, dw, (Operands::<u32> { a: a@, aw, b: b@, bw })),
    decreases aw.rows + aw.cols,
{
    let ghost ops: Operands<u32> = Operands { a: a@, aw, b: b@, bw };
    let ghost s0 = result@;
    let dim = aw.dim();
    let small = match dim.0.checked_mul(dim.1) {
        Some(cells) => cells <= MULT_CHUNK,
        None => false,
    };
    if small {
        mult_faster_from_ndarray(a, aw, b, bw, result, dw);
        return ;
    }
    let ghost kr = (dw.rows / 2) as int;
    let ghost kc = (dw.cols / 2) as int;
    let ghost ki = (aw.cols / 2) as int;
    let ghost inner = aw.cols as int;
    proof {
        assert(aw.rows >= 1 && aw.cols >= 1 && (aw.rows >= 2 || aw.cols >= 2)) by (nonlinear_arith)
            requires
                aw.rows * aw.cols > 1024,
        ;
        lemma_quadrants(aw);
        lemma_quadrants(bw);
        lemma_quadrants(dw);
    }
    let (a1, a2, a3, a4) = divide(aw);
    let (b1, b2, b3, b4) = divide(bw);
    let (d1, d2, d3, d4) = divide_mut(dw);

    mult_nd_faster_u32(a, a1, b, b1, result, d1);
    let ghost s1 = result@;
    mult_nd_faster_u32(a, a1, b, b2, result, d2);
    let ghost s2 = result@;
    mult_nd_faster_u32(a, a3, b, b1, result, d3);
    let ghost s3 = result@;
    mult_nd_faster_u32(a, a3, b, b2, result, d4);
    let ghost s4 = result@;
    proof {
        lemma_accumulated_within(s0, s1, d1, Operands { a: a@, aw: a1, b: b@, bw: b1 }, dw, ops, 0, 0, 0);
        lemma_accumulated_within(s1, s2, d2, Operands { a: a@, aw: a1, b: b@, bw: b2 }, dw, ops, 0, kc, 0);
        lemma_accumulated_within(s2, s3, d3, Operands { a: a@, aw: a3, b: b@, bw: b1 }, dw, ops, kr, 0, 0);
        lemma_accumulated_within(s3, s4, d4, Operands { a: a@, aw: a3, b: b@, bw: b2 }, dw, ops, kr, kc, 0);
        lemma_updated_quadrants(s0, s1, s2, s3, s4, dw, ops, kr, kc, 0, ki);
    }

    mult_nd_faster_u32(a, a2, b, b3, result, d1);
    let ghost s5 = result@;
    mult_nd_faster_u32(a, a2, b, b4, result, d2);
    let ghost s6 = result@;
    mult_nd_faster_u32(a, a4, b, b3, result, d3);
    let ghost s7 = result@;
    mult_nd_faster_u32(a, a4, b, b4, result, d4);
    proof {
        let s8 = result@;
        lemma_accumulated_within(s4, s5, d1, Operands { a: a@, aw: a2, b: b@, bw: b3 }, dw, ops, 0, 0, ki);
        lemma_accumulated_within(s5, s6, d2, Operands { a: a@, aw: a2, b: b@, bw: b4 }, dw, ops, 0, kc, ki);
        lemma_accumulated_within(s6, s7, d3, Operands { a: a@, aw: a4, b: b@, bw: b3 }, dw, ops, kr, 0, ki);
        lemma_accumulated_within(s7, s8, d4, Operands { a: a@, aw: a4, b: b@, bw: b4 }, dw, ops, kr, kc, ki);
        lemma_updated_quadrants(s4, s5, s6, s7, s8, dw, ops, kr, kc, ki, inner);
        lemma_updated_inner(s0, s4, s8, dw, ops, cells_of(dw), 0, ki, inner);
    }
}

} // verus!
