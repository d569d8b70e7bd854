//! Kernel on flat slices with row strides: the product is computed one
//! column of B at a time, with the column gathered into a scratch buffer.

use vstd::prelude::*;
use smallvec::SmallVec;
use crate::algebra::Operands;
use crate::algebra::accumulated;
use crate::algebra::block;
use crate::algebra::cell;
use crate::algebra::conformable;
use crate::algebra::dot;
use crate::algebra::lemma_accumulate_nothing;
use crate::algebra::lemma_accumulated_rebased;
use crate::algebra::lemma_block_cols;
use crate::algebra::lemma_block_inside;
use crate::algebra::lemma_reduce_sum;
use crate::algebra::lemma_updated_cell;
use crate::algebra::lemma_updated_nothing;
use crate::algebra::lemma_updated_union;
use crate::algebra::rebased;
use crate::algebra::updated;
use crate::my_ndarray::view_ptr;
use crate::naive_sequential::mult_index_optimized;
use crate::scalar::Scalar;
use crate::view::Window;

verus! {

/// A scratch column: a `smallvec::SmallVec` that keeps up to 512 elements
/// inline. Nothing is known of the field; [`column_items`] names what the
/// vector holds.
#[verifier::external_body]
pub struct Column {
    items: SmallVec<[u32; 512]>,
}

/// The items that a scratch column holds, in order.
pub uninterp spec fn column_items(v: Column) -> Seq<u32>;

/// `SmallVec::new`: an empty vector.
#[verifier::external_body]
fn column_new() -> (v: Column)
    ensures
        column_items(v) == Seq::<u32>::empty(),
{
    Column { items: SmallVec::new() }
}

/// `SmallVec::push`: appends one item at the end.
#[verifier::external_body]
fn column_push(v: &mut Column, x: u32)
    ensures
        column_items(*final(v)) == column_items(*old(v)).push(x),
{
    v.items.push(x)
}

/// Indexing of a `SmallVec` as a slice: the item at position `i`.
#[verifier::external_body]
fn column_get(v: &Column, i: usize) -> (x: u32)
    requires
        i < column_items(*v).len(),
    ensures
        x == column_items(*v)[i as int],
{
    v.items[i]
}

/// The window of a matrix of `height` rows and `width` columns whose rows
/// start `stride` elements apart, from the start of its buffer.
pub open spec fn strided(width: usize, height: usize, stride: usize) -> Window {
    Window { offset: 0, rows: height, cols: width, row_stride: stride, col_stride: 1 }
}

/// Adds the product of `a` and `b` into `into`. The three matrices lie at the
/// start of their slices, row after row, with consecutive elements of a row
/// next to each other and rows `stridesa`, `stridesb` and `stridesinto`
/// elements apart.
pub fn multiply_add_u32(
    into: &mut [u32],
    a: &[u32],
    b: &[u32],
    awidth: usize,
    aheight: usize,
    bwidth: usize,
    bheight: usize,
    intowidth: usize,
    intoheight: usize,
    stridesa: usize,
    stridesb: usize,
    stridesinto: usize,
)
    requires
        conformable(
            a@.len() as int,
            strided(awidth, aheight, stridesa),
            b@.len() as int,
            strided(bwidth, bheight, stridesb),
            old(into)@.len() as int,
            strided(intowidth, intoheight, stridesinto),
        ),
    ensures
        accumulated(
            old(into)@,
            final(into)@,
            strided(intowidth, intoheight, stridesinto),
            (Operands::<u32> {
                a: a@,
                aw: strided(awidth, aheight, stridesa),
                b: b@,
                bw: strided(bwidth, bheight, stridesb),
            }),
        ),
{
    let aw = Window { offset: 0, rows: aheight, cols: awidth, row_stride: stridesa, col_stride: 1 };
    let bw = Window { offset: 0, rows: bheight, cols: bwidth, row_stride: stridesb, col_stride: 1 };
    let dw = Window { offset: 0, rows: intoheight, cols: intowidth, row_stride: stridesinto, col_stride: 1 };
    let ghost ops: Operands<u32> = Operands { a: a@, aw, b: b@, bw };
    let ghost s0 = into@;
    let ghost rows = dw.rows as int;
    let ghost inner = aw.cols as int;
    let h = intoheight;
    let l = awidth;
    proof {
        lemma_updated_nothing(s0, dw, ops, block(0, rows, 0, 0), 0, inner);
    }
    let mut x: usize = 0;
    while x < bwidth
        invariant
            conformable(a@.len() as int, aw, b@.len() as int, bw, s0.len() as int, dw),
            aw == strided(awidth, aheight, stridesa),
            bw == strided(bwidth, bheight, stridesb),
            dw == strided(intowidth, intoheight, stridesinto),
            ops == (Operands::<u32> { a: a@, aw, b: b@, bw }),
            rows == dw.rows,
            inner == aw.cols,
            h == intoheight,
            l == awidth,
            x <= bwidth,
            updated(s0, into@, dw, ops, block(0, rows, 0, x as int), 0, inner),
        decreases bwidth - x,
    {
        let ghost s_col = into@;
        let mut column_data = column_new();
        let mut r: usize = 0;
        while r < bheight
            invariant
                bw == strided(bwidth, bheight, stridesb),
                bw.fits(b@.len() as int),
                x < bwidth,
                r <= bheight,
                column_items(column_data).len() == r,
                forall|t: int| 0 <= t < r ==> #[trigger] column_items(column_data)[t] == b@[bw.index(t, x as int)],
            decreases bheight - r,
        {
            column_push(&mut column_data, b[bw.position(r, x)]);
            r += 1;
        }
        proof {
            lemma_updated_nothing(s_col, dw, ops, block(0, 0, x as int, x + 1), 0, inner);
        }
        let mut y: usize = 0;
        while y < h
            invariant
                conformable(a@.len() as int, aw, b@.len() as int, bw, s0.len() as int, dw),
                aw == strided(awidth, aheight, stridesa),
                bw == strided(bwidth, bheight, stridesb),
                dw == strided(intowidth, intoheight, stridesinto),
                ops == (Operands::<u32> { a: a@, aw, b: b@, bw }),
                rows == dw.rows,
                inner == aw.cols,
                h == intoheight,
                l == awidth,
                x < bwidth,
                y <= h,
                s_col.len() == s0.len(),
                column_items(column_data).len() == bheight,
                forall|t: int|
                    0 <= t < bheight ==> #[trigger] column_items(column_data)[t] == b@[bw.index(t, x as int)],
                updated(s_col, into@, dw, ops, block(0, y as int, x as int, x + 1), 0, inner),
            decreases h - y,
        {
            let mut sum: u32 = 0;
            let mut t: usize = 0;
            while t < l
                invariant
                    aw == strided(awidth, aheight, stridesa),
                    bw == strided(bwidth, bheight, stridesb),
                    aw.fits(a@.len() as int),
                    awidth == bheight,
                    ops == (Operands::<u32> { a: a@, aw, b: b@, bw }),
                    l == awidth,
                    x < bwidth,
                    y < aheight,
                    t <= l,
                    column_items(column_data).len() == bheight,
                    forall|u: int|
                        0 <= u < bheight ==> #[trigger] column_items(column_data)[u] == b@[bw.index(u, x as int)],
                    sum as int == u32::reduce(dot(ops, y as int, x as int, 0, t as int)),
                decreases l - t,
            {
                let p = a[aw.position(y, t)];
                let q = column_get(&column_data, t);
                proof {
                    lemma_reduce_sum::<u32>(0, dot(ops, y as int, x as int, 0, t as int), p * q);
                    assert(p * q == cell(ops.a, ops.aw, y as int, t as int) * cell(ops.b, ops.bw, t as int, x as int));
                }
                sum = sum.mul_acc(p, q);
                t += 1;
            }
            let pos = dw.position(y, x);
            let c = into[pos];
            let v = c.plus(sum);
            proof {
                let done = block(0, y as int, x as int, x + 1);
                lemma_block_inside(dw, 0, y as int, x as int, x + 1);
                u32::lemma_reduce_add(dot(ops, y as int, x as int, 0, inner), c as int);
                lemma_updated_cell(s_col, into@, dw, ops, done, y as int, x as int, v, 0, inner);
                assert(done.insert((y as int, x as int)) =~= block(0, y + 1, x as int, x + 1));
            }
            into[pos] = v;
            y += 1;
        }
        proof {
            lemma_block_inside(dw, 0, rows, 0, x as int);
            lemma_block_inside(dw, 0, rows, x as int, x + 1);
            lemma_block_cols(0, rows, 0, x as int, x + 1);
            lemma_updated_union(
                s0,
                s_col,
                into@,
                dw,
                ops,
                block(0, rows, 0, x as int),
                block(0, rows, x as int, x + 1),
                0,
                inner,
            );
        }
        x += 1;
    }
}

/// What a kernel on slices with row strides owes: it can be called on every
/// multiplication of matrices that lie at the start of their slices.
pub open spec fn slice_kernel_accepts<T: Scalar, K: Fn(
    &mut [T],
    &[T],
    &[T],
    usize,
    usize,
    usize,
    usize,
    usize,
    usize,
    usize,
    usize,
    usize,
)>(kernel: K) -> bool {
    forall|
        into: &mut [T],
        a: &[T],
        b: &[T],
        awidth: usize,
        aheight: usize,
        bwidth: usize,
        bheight: usize,
        intowidth: usize,
        intoheight: usize,
        stridesa: usize,
        stridesb: usize,
        stridesinto: usize,
    |
        conformable(
            a@.len() as int,
            strided(awidth, aheight, stridesa),
            b@.len() as int,
            strided(bwidth, bheight, stridesb),
            (*into)@.len() as int,
            strided(intowidth, intoheight, stridesinto),
        ) ==> #[trigger] call_requires(
            kernel,
            (
                into,
                a,
                b,
                awidth,
                aheight,
                bwidth,
                bheight,
                intowidth,
                intoheight,
                stridesa,
                stridesb,
                stridesinto,
            ),
        )
}

/// Runs a kernel on slices on the parts of the three buffers that the
/// windows span. Where the elements of a row do not lie next to each other
/// in one of the windows, the work goes to
/// [`mult_index_optimized`](crate::naive_sequential::mult_index_optimized);
/// where a window has no cell, nothing is done.
pub fn on_spans<T: Scalar, K>(a: &[T], aw: Window, b: &[T], bw: Window, output: &mut [T], dw: Window, kernel: K) where
    K: Fn(&mut [T], &[T], &[T], usize, usize, usize, usize, usize, usize, usize, usize, usize),

    requires
        conformable(a@.len() as int, aw, b@.len() as int, bw, old(output)@.len() as int, dw),
        slice_kernel_accepts(kernel),
        forall|
            kinto: &mut [T],
            ka: &[T],
            kb: &[T],
            awidth: usize,
            aheight: usize,
            bwidth: usize,
            bheight: usize,
            intowidth: usize,
            intoheight: usize,
            stridesa: usize,
            stridesb: usize,
            stridesinto: usize,
        |
            conformable(
                ka@.len() as int,
                strided(awidth, aheight, stridesa),
                kb@.len() as int,
                strided(bwidth, bheight, stridesb),
                (*kinto)@.len() as int,
                strided(intowidth, intoheight, stridesinto),
            ) && #[trigger] call_ensures(
                kernel,
                (
                    kinto,
                    ka,
                    kb,
                    awidth,
                    aheight,
                    bwidth,
                    bheight,
                    intowidth,
                    intoheight,
                    stridesa,
                    stridesb,
                    stridesinto,
                ),
                (),
            ) ==> accumulated(
                (*kinto)@,
                (*final(kinto))@,
                strided(intowidth, intoheight, stridesinto),
                (Operands {
                    a: ka@,
                    aw: strided(awidth, aheight, stridesa),
                    b: kb@,
                    bw: strided(bwidth, bheight, stridesb),
                }),
            ),
    ensures
        accumulated(old(output)@, final(output)@, dw, (Operands { a: a@, aw, b: b@, bw })),
{
    let ghost ops = Operands { a: a@, aw, b: b@, bw };
    let ghost s0 = output@;
    if aw.is_empty() || bw.is_empty() || dw.is_empty() {
        proof {
            lemma_accumulate_nothing(s0, dw, ops);
        }
        return ;
    }
    let stridesa = aw.strides();
    let stridesb = bw.strides();
    let strides = dw.strides();
    if stridesa.1 != 1 || stridesb.1 != 1 || strides.1 != 1 {
        mult_index_optimized(a, aw, b, bw, output, dw);
        return ;
    }
    let (start_a, len_a) = view_ptr(aw);
    let (start_b, len_b) = view_ptr(bw);
    let dimr = dw.dim();
    let dima = aw.dim();
    let dimb = bw.dim();
    let slicea = vstd::slice::slice_subrange(a, start_a, start_a + len_a);
    let sliceb = vstd::slice::slice_subrange(b, start_b, start_b + len_b);
    let (head, slicer) = output.split_at_mut(dw.offset);
    assert(rebased(aw).extent() == aw.extent() - aw.offset);
    assert(rebased(bw).extent() == bw.extent() - bw.offset);
    assert(rebased(dw).extent() == dw.extent() - dw.offset);
    assert(rebased(aw) == strided(dima.1, dima.0, stridesa.0));
    assert(rebased(bw) == strided(dimb.1, dimb.0, stridesb.0));
    assert(rebased(dw) == strided(dimr.1, dimr.0, strides.0));
    kernel(
        slicer,
        slicea,
        sliceb,
        dima.1,
        dima.0,
        dimb.1,
        dimb.0,
        dimr.1,
        dimr.0,
        stridesa.0,
        stridesb.0,
        strides.0,
    );
    proof {
        assert(head@ =~= s0.subrange(0, dw.offset as int));
        lemma_accumulated_rebased(s0, output@, slicer@, dw, ops, start_a + len_a, start_b + len_b);
    }
}

/// Kernel on windows that runs [`multiply_add_u32`] on the parts of the
/// buffers that the windows span (see [`on_spans`]).
pub fn mult_faster_from_ndarray(a: &[u32], aw: Window, b: &[u32], bw: Window, output: &mut [u32], dw: Window)
    requires
        conformable(a@.len() as int, aw, b@.len() as int, bw, old(output)@.len() as int, dw),
    ensures
        accumulated(old(output)@, final(output)@, dw, (Operands::<u32> { a: a@, aw, b: b@, bw })),
{
    on_spans(a, aw, b, bw, output, dw, multiply_add_u32);
}

} // verus!
