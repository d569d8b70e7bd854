//! Kernel that walks A element by element and spreads each element over a
//! row of the output: `into[r] += a[r][l] * b[l]` for every row `r` of A and
//! every inner position `l`. How a row is combined is left to a row kernel.

use vstd::prelude::*;
use crate::algebra::Operands;
use crate::algebra::accumulated;
use crate::algebra::block;
use crate::algebra::cell;
use crate::algebra::conformable;
use crate::algebra::dot;
use crate::algebra::lemma_accumulate_nothing;
use crate::algebra::lemma_block_inside;
use crate::algebra::lemma_block_rows;
use crate::algebra::lemma_updated_inner;
use crate::algebra::lemma_updated_nothing;
use crate::algebra::lemma_updated_union;
use crate::algebra::touched;
use crate::algebra::updated;
use crate::faster_vec::on_spans;
use crate::faster_vec::strided;
use crate::scalar::Scalar;
use crate::view::Window;
use crate::view::lemma_index_bounds;

verus! {

/// `new` is the row `old` after the row `b`, scaled by `a`, was added to it
/// element by element.
pub open spec fn row_added<T: Scalar>(old: Seq<T>, new: Seq<T>, a: T, b: Seq<T>) -> bool {
    &&& new.len() == old.len()
    &&& forall|j: int| 0 <= j < old.len() ==> #[trigger] new[j].value() == T::reduce(old[j].value() + a.value() * b[j].value())
}

/// A row of the output that grew by one element of A times a row of B is the
/// output after one inner position of the product was added into that row.
pub proof fn lemma_row_updated<T: Scalar>(old: Seq<T>, new: Seq<T>, d: Window, ops: Operands<T>, r: int, l: int)
    requires
        d.col_stride == 1,
        d.fits(old.len() as int),
        d.rows == ops.aw.rows,
        d.cols == ops.bw.cols,
        ops.aw.cols == ops.bw.rows,
        ops.bw.col_stride == 1,
        ops.bw.fits(ops.b.len() as int),
        0 <= r < d.rows,
        0 <= l < ops.aw.cols,
        d.cols >= 1,
        new.len() == old.len(),
        forall|p: int| 0 <= p < d.index(r, 0) ==> new[p] == old[p],
        forall|p: int| d.index(r, 0) + d.cols <= p < old.len() ==> new[p] == old[p],
        row_added(
            old.subrange(d.index(r, 0), d.index(r, 0) + d.cols),
            new.subrange(d.index(r, 0), d.index(r, 0) + d.cols),
            ops.a[ops.aw.index(r, l)],
            ops.b.subrange(ops.bw.index(l, 0), ops.bw.index(l, 0) + d.cols),
        ),
    ensures
        updated(old, new, d, ops, block(r, r + 1, 0, d.cols as int), l, l + 1),
{
    let start = d.index(r, 0);
    let width = d.cols as int;
    let from = ops.bw.index(l, 0);
    let row_old = old.subrange(start, start + width);
    let row_new = new.subrange(start, start + width);
    let other = ops.b.subrange(from, from + width);
    let x = ops.a[ops.aw.index(r, l)];
    let cells = block(r, r + 1, 0, width);
    lemma_index_bounds(d, r, width - 1);
    lemma_index_bounds(ops.bw, l, width - 1);
    assert forall|i: int, j: int| #[trigger] cells.contains((i, j)) implies new[d.index(i, j)].value() == T::reduce(
        old[d.index(i, j)].value() + dot(ops, i, j, l, l + 1),
    ) by {
        assert(d.index(r, j) == start + j);
        assert(ops.bw.index(l, j) == from + j);
        assert(row_new[j].value() == T::reduce(row_old[j].value() + x.value() * other[j].value()));
        assert(dot(ops, r, j, l, l) == 0);
        assert(dot(ops, r, j, l, l + 1) == cell(ops.a, ops.aw, r, l) * cell(ops.b, ops.bw, l, j));
    }
    assert forall|p: int| 0 <= p < old.len() && !touched(d, cells, p) implies #[trigger] new[p] == old[p] by {
        if start <= p < start + width {
            assert(cells.contains((r, p - start)));
            assert(d.index(r, p - start) == p);
        }
    }
}

/// Adds the product of `a` and `b` into `into`, one element of A at a time:
/// for every row of A and every element in it, `resolution` adds the
/// matching row of B, scaled by the element, to the matching row of the
/// output. The three matrices lie at the start of their slices, with
/// consecutive elements of a row next to each other and rows `stridesa`,
/// `stridesb` and `stridesinto` elements apart.
pub fn multiply_add<T: Scalar, F>(
    into: &mut [T],
    a: &[T],
    b: &[T],
    awidth: usize,
    aheight: usize,
    bwidth: usize,
    bheight: usize,
    intowidth: usize,
    intoheight: usize,
    stridesa: usize,
    stridesb: usize,
    stridesinto: usize,
    resolution: F,
) where F: Fn(&mut [T], T, &[T], usize, usize, usize, usize, usize, usize)
    requires
        conformable(
            a@.len() as int,
            strided(awidth, aheight, stridesa),
            b@.len() as int,
            strided(bwidth, bheight, stridesb),
            old(into)@.len() as int,
            strided(intowidth, intoheight, stridesinto),
        ),
        forall|row: &mut [T], x: T, other: &[T], d1: usize, d2: usize, d3: usize, d4: usize, d5: usize, d6: usize|
            (*row)@.len() == other@.len() ==> #[trigger] call_requires(
                resolution,
                (row, x, other, d1, d2, d3, d4, d5, d6),
            ),
        forall|row: &mut [T], x: T, other: &[T], d1: usize, d2: usize, d3: usize, d4: usize, d5: usize, d6: usize|
            (*row)@.len() == other@.len() && #[trigger] call_ensures(
                resolution,
                (row, x, other, d1, d2, d3, d4, d5, d6),
                (),
            ) ==> row_added((*row)@, (*final(row))@, x, other@),
    ensures
        accumulated(
            old(into)@,
            final(into)@,
            strided(intowidth, intoheight, stridesinto),
            (Operands {
                a: a@,
                aw: strided(awidth, aheight, stridesa),
                b: b@,
                bw: strided(bwidth, bheight, stridesb),
            }),
        ),
{
    let aw = Window { offset: 0, rows: aheight, cols: awidth, row_stride: stridesa, col_stride: 1 };
    let bw = Window { offset: 0, rows: bheight, cols: bwidth, row_stride: stridesb, col_stride: 1 };
    let dw = Window { offset: 0, rows: intoheight, cols: intowidth, row_stride: stridesinto, col_stride: 1 };
    let ghost ops = Operands { a: a@, aw, b: b@, bw };
    let ghost s0 = into@;
    let ghost width = dw.cols as int;
    let ghost inner = aw.cols as int;
    if awidth == 0 || aheight == 0 || intowidth == 0 || intoheight == 0 || bwidth == 0 || bheight == 0 {
        proof {
            lemma_accumulate_nothing(s0, dw, ops);
        }
        return ;
    }
    proof {
        lemma_updated_nothing(s0, dw, ops, block(0, 0, 0, width), 0, inner);
    }
    let mut r: usize = 0;
    while r < aheight
        invariant
            conformable(a@.len() as int, aw, b@.len() as int, bw, s0.len() as int, dw),
            aw == strided(awidth, aheight, stridesa),
            bw == strided(bwidth, bheight, stridesb),
            dw == strided(intowidth, intoheight, stridesinto),
            ops == (Operands { a: a@, aw, b: b@, bw }),
            width == dw.cols,
            inner == aw.cols,
            bwidth >= 1,
            r <= aheight,
            forall|row: &mut [T], x: T, other: &[T], d1: usize, d2: usize, d3: usize, d4: usize, d5: usize, d6: usize|
                (*row)@.len() == other@.len() ==> #[trigger] call_requires(
                    resolution,
                    (row, x, other, d1, d2, d3, d4, d5, d6),
                ),
            forall|row: &mut [T], x: T, other: &[T], d1: usize, d2: usize, d3: usize, d4: usize, d5: usize, d6: usize|
                (*row)@.len() == other@.len() && #[trigger] call_ensures(
                    resolution,
                    (row, x, other, d1, d2, d3, d4, d5, d6),
                    (),
                ) ==> row_added((*row)@, (*final(row))@, x, other@),
            updated(s0, into@, dw, ops, block(0, r as int, 0, width), 0, inner),
        decreases aheight - r,
    {
        let ghost s_row = into@;
        let ghost strip = block(r as int, r + 1, 0, width);
        proof {
            lemma_updated_nothing(s_row, dw, ops, strip, 0, 0);
        }
        let mut l: usize = 0;
        while l < awidth
            invariant
                conformable(a@.len() as int, aw, b@.len() as int, bw, s0.len() as int, dw),
                aw == strided(awidth, aheight, stridesa),
                bw == strided(bwidth, bheight, stridesb),
                dw == strided(intowidth, intoheight, stridesinto),
                ops == (Operands { a: a@, aw, b: b@, bw }),
                width == dw.cols,
                inner == aw.cols,
                bwidth >= 1,
                r < aheight,
                l <= awidth,
                strip == block(r as int, r + 1, 0, width),
                s_row.len() == s0.len(),
                forall|row: &mut [T], x: T, other: &[T], d1: usize, d2: usize, d3: usize, d4: usize, d5: usize, d6: usize|
                    (*row)@.len() == other@.len() ==> #[trigger] call_requires(
                        resolution,
                        (row, x, other, d1, d2, d3, d4, d5, d6),
                    ),
                forall|row: &mut [T], x: T, other: &[T], d1: usize, d2: usize, d3: usize, d4: usize, d5: usize, d6: usize|
                    (*row)@.len() == other@.len() && #[trigger] call_ensures(
                        resolution,
                        (row, x, other, d1, d2, d3, d4, d5, d6),
                        (),
                    ) ==> row_added((*row)@, (*final(row))@, x, other@),
                updated(s_row, into@, dw, ops, strip, 0, l as int),
            decreases awidth - l,
        {
            let ghost s_l = into@;
            let i = aw.position(r, l);
            let k = bw.position(l, 0);
            let j = dw.position(r, 0);
            proof {
                lemma_index_bounds(bw, l as int, bwidth - 1);
                lemma_index_bounds(dw, r as int, intowidth - 1);
            }
            let other = vstd::slice::slice_subrange(b, k, k + bwidth);
            let (head, rest) = into.split_at_mut(j);
            let (row, tail) = rest.split_at_mut(intowidth);
            let ghost row_before = row@;
            resolution(row, a[i], other, awidth, aheight, bwidth, bheight, intowidth, intoheight);
            proof {
                assert(into@ =~= head@ + (row@ + tail@));
                assert(head@ =~= s_l.subrange(0, j as int));
                assert(tail@ =~= s_l.subrange(j + intowidth, s_l.len() as int));
                assert(row_before =~= s_l.subrange(j as int, j + intowidth));
                assert(into@.subrange(j as int, j + intowidth) =~= row@);
                lemma_row_updated(s_l, into@, dw, ops, r as int, l as int);
                lemma_updated_inner(s_row, s_l, into@, dw, ops, strip, 0, l as int, l + 1);
            }
            l += 1;
        }
        proof {
            lemma_block_inside(dw, 0, r as int, 0, width);
            lemma_block_inside(dw, r as int, r + 1, 0, width);
            lemma_block_rows(0, r as int, r + 1, 0, width);
            lemma_updated_union(s0, s_row, into@, dw, ops, block(0, r as int, 0, width), strip, 0, inner);
        }
        r += 1;
    }
}

/// Row kernel: `into = b * a + into`, element by element.
pub fn multiply_add_local<T: Scalar>(
    into: &mut [T],
    a: T,
    b: &[T],
    _awidth: usize,
    _aheight: usize,
    _bwidth: usize,
    _bheight: usize,
    _intowidth: usize,
    _intoheight: usize,
)
    requires
        old(into)@.len() == b@.len(),
    ensures
        row_added(old(into)@, final(into)@, a, b@),
{
    let ghost s0 = into@;
    let mut j: usize = 0;
    while j < b.len()
        invariant
            into@.len() == s0.len(),
            s0.len() == b@.len(),
            j <= b@.len(),
            forall|t: int| 0 <= t < j ==> #[trigger] into@[t].value() == T::reduce(s0[t].value() + a.value() * b@[t].value()),
            forall|t: int| j <= t < s0.len() ==> into@[t] == s0[t],
        decreases b@.len() - j,
    {
        let x = b[j];
        let y = into[j];
        into[j] = y.mul_acc(a, x);
        j += 1;
    }
}

/// [`multiply_add`] with [`multiply_add_local`] as its row kernel.
pub fn multiply_add_rows<T: Scalar>(
    into: &mut [T],
    a: &[T],
    b: &[T],
    awidth: usize,
    aheight: usize,
    bwidth: usize,
    bheight: usize,
    intowidth: usize,
    intoheight: usize,
    stridesa: usize,
    stridesb: usize,
    stridesinto: usize,
)
    requires
        conformable(
            a@.len() as int,
            strided(awidth, aheight, stridesa),
            b@.len() as int,
            strided(bwidth, bheight, stridesb),
            old(into)@.len() as int,
            strided(intowidth, intoheight, stridesinto),
        ),
    ensures
        accumulated(
            old(into)@,
            final(into)@,
            strided(intowidth, intoheight, stridesinto),
            (Operands {
                a: a@,
                aw: strided(awidth, aheight, stridesa),
                b: b@,
                bw: strided(bwidth, bheight, stridesb),
            }),
        ),
{
    multiply_add(
        into,
        a,
        b,
        awidth,
        aheight,
        bwidth,
        bheight,
        intowidth,
        intoheight,
        stridesa,
        stridesb,
        stridesinto,
        multiply_add_local,
    );
}

/// Kernel on windows that runs [`multiply_add`], with
/// [`multiply_add_local`] as its row kernel, on the parts of the buffers that
/// the windows span (see [`on_spans`](crate::faster_vec::on_spans)).
pub fn mult_faster_from_ndarray<T: Scalar>(a: &[T], aw: Window, b: &[T], bw: Window, output: &mut [T], dw: Window)
    requires
        conformable(a@.len() as int, aw, b@.len() as int, bw, old(output)@.len() as int, dw),
    ensures
        accumulated(old(output)@, final(output)@, dw, (Operands { a: a@, aw, b: b@, bw })),
{
    on_spans(a, aw, b, bw, output, dw, multiply_add_rows);
}

} // verus!
