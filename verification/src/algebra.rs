//! What it means to add a matrix product into a buffer, and the laws by which
//! partial updates combine.
//!
//! Elements are [`Scalar`]s: all statements are about the integers that the
//! elements stand for, and [`Scalar::reduce`] brings a sum back into the
//! range of an element.

use vstd::prelude::*;
use crate::scalar::Scalar;
use crate::view::Axis;
use crate::view::Window;
use crate::view::lemma_index_bounds;
use crate::view::lemma_distinct_injective;
use crate::view::lemma_split_indices;
use crate::view::lemma_split_within;
use crate::view::lemma_within_self;
use crate::view::within;

verus! {

/// The two operands of a product: their buffers and the windows that say
/// where each matrix lies in its buffer.
pub struct Operands<T> {
    pub a: Seq<T>,
    pub aw: Window,
    pub b: Seq<T>,
    pub bw: Window,
}

/// Value of cell `(i, j)` of the matrix that `w` cuts out of `buf`.
pub open spec fn cell<T: Scalar>(buf: Seq<T>, w: Window, i: int, j: int) -> int {
    buf[w.index(i, j)].value()
}

/// The part of the dot product of row `i` of A and column `j` of B that
/// comes from the inner positions `lo <= l < hi`:
/// the sum of `A[i][l] * B[l][j]` over those `l`.
pub open spec fn dot<T: Scalar>(ops: Operands<T>, i: int, j: int, lo: int, hi: int) -> int
    decreases hi - lo,
{
    if hi <= lo {
        0
    } else {
        dot(ops, i, j, lo, hi - 1) + cell(ops.a, ops.aw, i, hi - 1) * cell(ops.b, ops.bw, hi - 1, j)
    }
}

/// The index pairs `(i, j)` with `top <= i < bottom` and `left <= j < right`.
pub open spec fn block(top: int, bottom: int, left: int, right: int) -> Set<(int, int)> {
    Set::new(|c: (int, int)| top <= c.0 < bottom && left <= c.1 < right)
}

/// All index pairs of a window.
pub open spec fn cells_of(w: Window) -> Set<(int, int)> {
    block(0, w.rows as int, 0, w.cols as int)
}

/// Buffer position `p` is where `d` puts one of the index pairs in `cells`.
pub open spec fn touched(d: Window, cells: Set<(int, int)>, p: int) -> bool {
    exists|i: int, j: int| #[trigger] cells.contains((i, j)) && d.index(i, j) == p
}

/// `new` is `old` after the inner positions `lo..hi` of the product were
/// added into the output cells named by `cells`: each of those cells grew by
/// its share of the dot product, and every other buffer position kept its
/// value.
pub open spec fn updated<T: Scalar>(
    old: Seq<T>,
    new: Seq<T>,
    d: Window,
    ops: Operands<T>,
    cells: Set<(int, int)>,
    lo: int,
    hi: int,
) -> bool {
    &&& new.len() == old.len()
    &&& forall|i: int, j: int| #[trigger]
        cells.contains((i, j)) ==> new[d.index(i, j)].value() == T::reduce(
            old[d.index(i, j)].value() + dot(ops, i, j, lo, hi),
        )
    &&& forall|p: int| 0 <= p < old.len() && !touched(d, cells, p) ==> #[trigger] new[p] == old[p]
}

/// `new` is `old` plus the whole product A x B, added into the output window
/// `d`: `new[i][j] == old[i][j] + sum over l of A[i][l] * B[l][j]`, reduced
/// into the range of an element, for every cell of `d`, and nothing else
/// changed.
pub open spec fn accumulated<T: Scalar>(old: Seq<T>, new: Seq<T>, d: Window, ops: Operands<T>) -> bool {
    updated(old, new, d, ops, cells_of(d), 0, ops.aw.cols as int)
}

/// The three windows describe one multiplication on buffers of the given
/// lengths: the shapes agree, every window lies inside its buffer, and the
/// rows or the columns of the output window do not overlap, so that its
/// cells do not alias.
pub open spec fn conformable(a_len: int, aw: Window, b_len: int, bw: Window, out_len: int, d: Window) -> bool {
    &&& aw.cols == bw.rows
    &&& d.rows == aw.rows
    &&& d.cols == bw.cols
    &&& aw.fits(a_len)
    &&& bw.fits(b_len)
    &&& d.fits(out_len)
    &&& d.distinct()
}

/// Whether three windows describe one multiplication on buffers of the
/// given lengths.
pub fn is_conformable(a_len: usize, aw: Window, b_len: usize, bw: Window, out_len: usize, d: Window) -> (r: bool)
    ensures
        r == conformable(a_len as int, aw, b_len as int, bw, out_len as int, d),
{
    aw.cols == bw.rows && d.rows == aw.rows && d.cols == bw.cols && aw.fits_in(a_len) && bw.fits_in(b_len)
        && d.fits_in(out_len) && d.is_distinct()
}

/// Every index pair of `cells` names a cell of `d`.
pub open spec fn inside(cells: Set<(int, int)>, d: Window) -> bool {
    forall|i: int, j: int| #[trigger] cells.contains((i, j)) ==> d.contains(i, j)
}

/// Adding to a reduced sum and reducing again is reducing the whole sum.
pub proof fn lemma_reduce_sum<T: Scalar>(x: int, s: int, t: int)
    ensures
        T::reduce(T::reduce(x + s) + t) == T::reduce(x + s + t),
{
    T::lemma_reduce_add(x + s, t);
}

/// A dot product over `lo..hi` is the sum of its parts over `lo..mid` and
/// `mid..hi`.
pub proof fn lemma_dot_split<T: Scalar>(ops: Operands<T>, i: int, j: int, lo: int, mid: int, hi: int)
    requires
        lo <= mid <= hi,
    ensures
        dot(ops, i, j, lo, hi) == dot(ops, i, j, lo, mid) + dot(ops, i, j, mid, hi),
    decreases hi - mid,
{
    if mid < hi {
        lemma_dot_split(ops, i, j, lo, mid, hi - 1);
    }
}

/// A dot product of sub-windows is the matching part of the dot product of
/// the windows they were cut from.
pub proof fn lemma_dot_within<T: Scalar>(sub: Operands<T>, ops: Operands<T>, i: int, j: int, top: int, left: int, lo: int, n: int)
    requires
        sub.a == ops.a,
        sub.b == ops.b,
        0 <= n <= sub.aw.cols,
        n <= sub.bw.rows,
        sub.aw.contains(i, 0) || n == 0,
        sub.bw.contains(0, j) || n == 0,
        within(sub.aw, ops.aw, top, lo),
        within(sub.bw, ops.bw, lo, left),
    ensures
        dot(sub, i, j, 0, n) == dot(ops, i + top, j + left, lo, lo + n),
    decreases n,
{
    if n > 0 {
        lemma_dot_within(sub, ops, i, j, top, left, lo, n - 1);
        assert(sub.aw.contains(i, n - 1));
        assert(sub.bw.contains(n - 1, j));
        assert(sub.aw.index(i, n - 1) == ops.aw.index(i + top, n - 1 + lo));
        assert(sub.bw.index(n - 1, j) == ops.bw.index(n - 1 + lo, j + left));
    }
}

/// Nothing changes when no inner position is added, or when no cell is
/// named.
pub proof fn lemma_updated_nothing<T: Scalar>(s: Seq<T>, d: Window, ops: Operands<T>, cells: Set<(int, int)>, lo: int, hi: int)
    requires
        hi <= lo || cells =~= Set::empty(),
    ensures
        updated(s, s, d, ops, cells, lo, hi),
{
    assert forall|i: int, j: int| #[trigger] cells.contains((i, j)) implies s[d.index(i, j)].value() == T::reduce(
        s[d.index(i, j)].value() + dot(ops, i, j, lo, hi),
    ) by {
        s[d.index(i, j)].lemma_reduce_value();
    }
}

/// Two updates of disjoint sets of cells, one after the other, are one
/// update of their union.
pub proof fn lemma_updated_union<T: Scalar>(
    s0: Seq<T>,
    s1: Seq<T>,
    s2: Seq<T>,
    d: Window,
    ops: Operands<T>,
    c1: Set<(int, int)>,
    c2: Set<(int, int)>,
    lo: int,
    hi: int,
)
    requires
        updated(s0, s1, d, ops, c1, lo, hi),
        updated(s1, s2, d, ops, c2, lo, hi),
        d.distinct(),
        d.fits(s0.len() as int),
        inside(c1, d),
        inside(c2, d),
        c1.disjoint(c2),
    ensures
        updated(s0, s2, d, ops, c1.union(c2), lo, hi),
{
    let u = c1.union(c2);
    assert forall|i: int, j: int| #[trigger] u.contains((i, j)) implies s2[d.index(i, j)].value() == T::reduce(
        s0[d.index(i, j)].value() + dot(ops, i, j, lo, hi),
    ) by {
        let p = d.index(i, j);
        assert(c1.contains((i, j)) || c2.contains((i, j)));
        assert(d.contains(i, j));
        lemma_index_bounds(d, i, j);
        if c1.contains((i, j)) {
            if touched(d, c2, p) {
                let (i2, j2) = choose|i2: int, j2: int| #[trigger] c2.contains((i2, j2)) && d.index(i2, j2) == p;
                lemma_distinct_injective(d, i, j, i2, j2);
            }
            assert(s2[p] == s1[p]);
        } else {
            if touched(d, c1, p) {
                let (i1, j1) = choose|i1: int, j1: int| #[trigger] c1.contains((i1, j1)) && d.index(i1, j1) == p;
                lemma_distinct_injective(d, i, j, i1, j1);
            }
            assert(s1[p] == s0[p]);
        }
    }
    assert forall|p: int| 0 <= p < s0.len() && !touched(d, u, p) implies #[trigger] s2[p] == s0[p] by {
        if touched(d, c1, p) {
            let (i1, j1) = choose|i1: int, j1: int| #[trigger] c1.contains((i1, j1)) && d.index(i1, j1) == p;
            assert(u.contains((i1, j1)));
        }
        if touched(d, c2, p) {
            let (i2, j2) = choose|i2: int, j2: int| #[trigger] c2.contains((i2, j2)) && d.index(i2, j2) == p;
            assert(u.contains((i2, j2)));
        }
        assert(s1[p] == s0[p]);
        assert(s2[p] == s1[p]);
    }
}

/// Two updates of the same cells with adjacent ranges of inner positions,
/// one after the other, are one update with the whole range.
pub proof fn lemma_updated_inner<T: Scalar>(
    s0: Seq<T>,
    s1: Seq<T>,
    s2: Seq<T>,
    d: Window,
    ops: Operands<T>,
    cells: Set<(int, int)>,
    lo: int,
    mid: int,
    hi: int,
)
    requires
        updated(s0, s1, d, ops, cells, lo, mid),
        updated(s1, s2, d, ops, cells, mid, hi),
        lo <= mid <= hi,
    ensures
        updated(s0, s2, d, ops, cells, lo, hi),
{
    assert forall|i: int, j: int| #[trigger] cells.contains((i, j)) implies s2[d.index(i, j)].value() == T::reduce(
        s0[d.index(i, j)].value() + dot(ops, i, j, lo, hi),
    ) by {
        lemma_dot_split(ops, i, j, lo, mid, hi);
        lemma_reduce_sum::<T>(s0[d.index(i, j)].value(), dot(ops, i, j, lo, mid), dot(ops, i, j, mid, hi));
    }
    assert forall|p: int| 0 <= p < s0.len() && !touched(d, cells, p) implies #[trigger] s2[p] == s0[p] by {
        assert(s1[p] == s0[p]);
        assert(s2[p] == s1[p]);
    }
}

/// A whole product added into a sub-window of `d`, from sub-windows of the
/// operands, is an update of one block of `d` with one range of inner
/// positions.
pub proof fn lemma_accumulated_within<T: Scalar>(
    s0: Seq<T>,
    s1: Seq<T>,
    dsub: Window,
    sub: Operands<T>,
    d: Window,
    ops: Operands<T>,
    top: int,
    left: int,
    lo: int,
)
    requires
        accumulated(s0, s1, dsub, sub),
        sub.a == ops.a,
        sub.b == ops.b,
        sub.aw.cols == sub.bw.rows,
        dsub.rows == sub.aw.rows,
        dsub.cols == sub.bw.cols,
        within(dsub, d, top, left),
        within(sub.aw, ops.aw, top, lo),
        within(sub.bw, ops.bw, lo, left),
    ensures
        updated(
            s0,
            s1,
            d,
            ops,
            block(top, top + dsub.rows, left, left + dsub.cols),
            lo,
            lo + sub.aw.cols,
        ),
{
    let cells = block(top, top + dsub.rows, left, left + dsub.cols);
    let n = sub.aw.cols as int;
    assert forall|i: int, j: int| #[trigger] cells.contains((i, j)) implies s1[d.index(i, j)].value() == T::reduce(
        s0[d.index(i, j)].value() + dot(ops, i, j, lo, lo + n),
    ) by {
        let i0 = i - top;
        let j0 = j - left;
        assert(cells_of(dsub).contains((i0, j0)));
        assert(dsub.contains(i0, j0));
        assert(dsub.index(i0, j0) == d.index(i0 + top, j0 + left));
        lemma_dot_within(sub, ops, i0, j0, top, left, lo, n);
    }
    assert forall|p: int| 0 <= p < s0.len() && !touched(d, cells, p) implies #[trigger] s1[p] == s0[p] by {
        if touched(dsub, cells_of(dsub), p) {
            let (i0, j0) = choose|i0: int, j0: int| #[trigger]
                cells_of(dsub).contains((i0, j0)) && dsub.index(i0, j0) == p;
            assert(dsub.contains(i0, j0));
            assert(dsub.index(i0, j0) == d.index(i0 + top, j0 + left));
            assert(cells.contains((i0 + top, j0 + left)));
        }
    }
}

/// Writing the grown value of one more cell extends an update by that cell.
pub proof fn lemma_updated_cell<T: Scalar>(
    s0: Seq<T>,
    s1: Seq<T>,
    d: Window,
    ops: Operands<T>,
    cells: Set<(int, int)>,
    i: int,
    j: int,
    v: T,
    lo: int,
    hi: int,
)
    requires
        updated(s0, s1, d, ops, cells, lo, hi),
        d.distinct(),
        d.fits(s0.len() as int),
        inside(cells, d),
        d.contains(i, j),
        !cells.contains((i, j)),
        v.value() == T::reduce(s1[d.index(i, j)].value() + dot(ops, i, j, lo, hi)),
    ensures
        updated(s0, s1.update(d.index(i, j), v), d, ops, cells.insert((i, j)), lo, hi),
{
    let p = d.index(i, j);
    let s2 = s1.update(p, v);
    let one = Set::<(int, int)>::empty().insert((i, j));
    lemma_index_bounds(d, i, j);
    assert forall|q: int| 0 <= q < s1.len() && !touched(d, one, q) implies #[trigger] s2[q] == s1[q] by {
        assert(one.contains((i, j)));
    }
    assert(updated(s1, s2, d, ops, one, lo, hi));
    lemma_updated_union(s0, s1, s2, d, ops, cells, one, lo, hi);
    assert(cells.union(one) =~= cells.insert((i, j)));
}

/// Two blocks that meet along a row boundary make up one block.
pub proof fn lemma_block_rows(top: int, mid: int, bottom: int, left: int, right: int)
    requires
        top <= mid <= bottom,
    ensures
        block(top, mid, left, right).union(block(mid, bottom, left, right)) == block(top, bottom, left, right),
        block(top, mid, left, right).disjoint(block(mid, bottom, left, right)),
{
    assert(block(top, mid, left, right).union(block(mid, bottom, left, right)) =~= block(
        top,
        bottom,
        left,
        right,
    ));
}

/// Two blocks that meet along a column boundary make up one block.
pub proof fn lemma_block_cols(top: int, bottom: int, left: int, mid: int, right: int)
    requires
        left <= mid <= right,
    ensures
        block(top, bottom, left, mid).union(block(top, bottom, mid, right)) == block(top, bottom, left, right),
        block(top, bottom, left, mid).disjoint(block(top, bottom, mid, right)),
{
    assert(block(top, bottom, left, mid).union(block(top, bottom, mid, right)) =~= block(
        top,
        bottom,
        left,
        right,
    ));
}

/// A block that stays between the bounds of a window names cells of it.
pub proof fn lemma_block_inside(d: Window, top: int, bottom: int, left: int, right: int)
    requires
        0 <= top,
        bottom <= d.rows,
        0 <= left,
        right <= d.cols,
    ensures
        inside(block(top, bottom, left, right), d),
{
}

/// Cutting a conformable multiplication along the rows of the output, the
/// columns of the output or the inner dimension leaves two conformable
/// multiplications.
pub proof fn lemma_split_conformable(a_len: int, aw: Window, b_len: int, bw: Window, out_len: int, d: Window, k: usize)
    requires
        conformable(a_len, aw, b_len, bw, out_len, d),
    ensures
        k <= d.rows ==> conformable(
            a_len,
            aw.spec_split_at(Axis(0), k).0,
            b_len,
            bw,
            out_len,
            d.spec_split_at(Axis(0), k).0,
        ) && conformable(
            a_len,
            aw.spec_split_at(Axis(0), k).1,
            b_len,
            bw,
            out_len,
            d.spec_split_at(Axis(0), k).1,
        ),
        k <= d.cols ==> conformable(
            a_len,
            aw,
            b_len,
            bw.spec_split_at(Axis(1), k).0,
            out_len,
            d.spec_split_at(Axis(1), k).0,
        ) && conformable(
            a_len,
            aw,
            b_len,
            bw.spec_split_at(Axis(1), k).1,
            out_len,
            d.spec_split_at(Axis(1), k).1,
        ),
        k <= aw.cols ==> conformable(
            a_len,
            aw.spec_split_at(Axis(1), k).0,
            b_len,
            bw.spec_split_at(Axis(0), k).0,
            out_len,
            d,
        ) && conformable(
            a_len,
            aw.spec_split_at(Axis(1), k).1,
            b_len,
            bw.spec_split_at(Axis(0), k).1,
            out_len,
            d,
        ),
{
    if k <= d.rows {
        lemma_split_indices(aw, Axis(0), k);
        lemma_split_indices(d, Axis(0), k);
    }
    if k <= d.cols {
        lemma_split_indices(bw, Axis(1), k);
        lemma_split_indices(d, Axis(1), k);
    }
    if k <= aw.cols {
        lemma_split_indices(aw, Axis(1), k);
        lemma_split_indices(bw, Axis(0), k);
    }
}

/// Adding the products of the upper and the lower part of a row cut, one
/// after the other, adds the whole product.
pub proof fn lemma_accumulate_rows<T: Scalar>(s0: Seq<T>, s1: Seq<T>, s2: Seq<T>, d: Window, ops: Operands<T>, k: usize)
    requires
        conformable(ops.a.len() as int, ops.aw, ops.b.len() as int, ops.bw, s0.len() as int, d),
        k <= d.rows,
        accumulated(
            s0,
            s1,
            d.spec_split_at(Axis(0), k).0,
            (Operands { aw: ops.aw.spec_split_at(Axis(0), k).0, ..ops }),
        ),
        accumulated(
            s1,
            s2,
            d.spec_split_at(Axis(0), k).1,
            (Operands { aw: ops.aw.spec_split_at(Axis(0), k).1, ..ops }),
        ),
    ensures
        accumulated(s0, s2, d, ops),
{
    let (d1, d2) = d.spec_split_at(Axis(0), k);
    let (a1, a2) = ops.aw.spec_split_at(Axis(0), k);
    let rows = d.rows as int;
    let cols = d.cols as int;
    lemma_split_indices(d, Axis(0), k);
    lemma_split_indices(ops.aw, Axis(0), k);
    lemma_split_within(d, Axis(0), k);
    lemma_split_within(ops.aw, Axis(0), k);
    lemma_within_self(ops.bw);
    lemma_accumulated_within(s0, s1, d1, Operands { aw: a1, ..ops }, d, ops, 0, 0, 0);
    lemma_accumulated_within(s1, s2, d2, Operands { aw: a2, ..ops }, d, ops, k as int, 0, 0);
    lemma_block_rows(0, k as int, rows, 0, cols);
    lemma_block_inside(d, 0, k as int, 0, cols);
    lemma_block_inside(d, k as int, rows, 0, cols);
    lemma_updated_union(
        s0,
        s1,
        s2,
        d,
        ops,
        block(0, k as int, 0, cols),
        block(k as int, rows, 0, cols),
        0,
        ops.aw.cols as int,
    );
}

/// Adding the products of the left and the right part of a column cut, one
/// after the other, adds the whole product.
pub proof fn lemma_accumulate_cols<T: Scalar>(s0: Seq<T>, s1: Seq<T>, s2: Seq<T>, d: Window, ops: Operands<T>, k: usize)
    requires
        conformable(ops.a.len() as int, ops.aw, ops.b.len() as int, ops.bw, s0.len() as int, d),
        k <= d.cols,
        accumulated(
            s0,
            s1,
            d.spec_split_at(Axis(1), k).0,
            (Operands { bw: ops.bw.spec_split_at(Axis(1), k).0, ..ops }),
        ),
        accumulated(
            s1,
            s2,
            d.spec_split_at(Axis(1), k).1,
            (Operands { bw: ops.bw.spec_split_at(Axis(1), k).1, ..ops }),
        ),
    ensures
        accumulated(s0, s2, d, ops),
{
    let (d1, d2) = d.spec_split_at(Axis(1), k);
    let (b1, b2) = ops.bw.spec_split_at(Axis(1), k);
    let rows = d.rows as int;
    let cols = d.cols as int;
    lemma_split_indices(d, Axis(1), k);
    lemma_split_indices(ops.bw, Axis(1), k);
    lemma_split_within(d, Axis(1), k);
    lemma_split_within(ops.bw, Axis(1), k);
    lemma_within_self(ops.aw);
    lemma_accumulated_within(s0, s1, d1, Operands { bw: b1, ..ops }, d, ops, 0, 0, 0);
    lemma_accumulated_within(s1, s2, d2, Operands { bw: b2, ..ops }, d, ops, 0, k as int, 0);
    lemma_block_cols(0, rows, 0, k as int, cols);
    lemma_block_inside(d, 0, rows, 0, k as int);
    lemma_block_inside(d, 0, rows, k as int, cols);
    lemma_updated_union(
        s0,
        s1,
        s2,
        d,
        ops,
        block(0, rows, 0, k as int),
        block(0, rows, k as int, cols),
        0,
        ops.aw.cols as int,
    );
}

/// Adding the products of the first and the second part of a cut of the
/// inner dimension, one after the other into the same output, adds the whole
/// product.
pub proof fn lemma_accumulate_inner<T: Scalar>(s0: Seq<T>, s1: Seq<T>, s2: Seq<T>, d: Window, ops: Operands<T>, k: usize)
    requires
        conformable(ops.a.len() as int, ops.aw, ops.b.len() as int, ops.bw, s0.len() as int, d),
        k <= ops.aw.cols,
        accumulated(
            s0,
            s1,
            d,
            (Operands {
                aw: ops.aw.spec_split_at(Axis(1), k).0,
                bw: ops.bw.spec_split_at(Axis(0), k).0,
                ..ops
            }),
        ),
        accumulated(
            s1,
            s2,
            d,
            (Operands {
                aw: ops.aw.spec_split_at(Axis(1), k).1,
                bw: ops.bw.spec_split_at(Axis(0), k).1,
                ..ops
            }),
        ),
    ensures
        accumulated(s0, s2, d, ops),
{
    let (a1, a2) = ops.aw.spec_split_at(Axis(1), k);
    let (b1, b2) = ops.bw.spec_split_at(Axis(0), k);
    lemma_split_indices(ops.aw, Axis(1), k);
    lemma_split_indices(ops.bw, Axis(0), k);
    lemma_split_within(ops.aw, Axis(1), k);
    lemma_split_within(ops.bw, Axis(0), k);
    lemma_within_self(d);
    lemma_accumulated_within(s0, s1, d, Operands { aw: a1, bw: b1, ..ops }, d, ops, 0, 0, 0);
    lemma_accumulated_within(s1, s2, d, Operands { aw: a2, bw: b2, ..ops }, d, ops, 0, 0, k as int);
    lemma_updated_inner(s0, s1, s2, d, ops, cells_of(d), 0, k as int, ops.aw.cols as int);
}

/// A product with an empty output or an empty inner dimension adds nothing.
pub proof fn lemma_accumulate_nothing<T: Scalar>(s: Seq<T>, d: Window, ops: Operands<T>)
    requires
        d.empty() || ops.aw.cols == 0,
    ensures
        accumulated(s, s, d, ops),
{
    if d.empty() {
        assert(cells_of(d) =~= Set::empty());
    }
    lemma_updated_nothing(s, d, ops, cells_of(d), 0, ops.aw.cols as int);
}

/// Two pairs of operands whose cells agree along a row of A and a column of
/// B have the same dot product there.
pub proof fn lemma_dot_congruent<T: Scalar>(x: Operands<T>, y: Operands<T>, i: int, j: int, n: int)
    requires
        forall|l: int| 0 <= l < n ==> #[trigger] cell(x.a, x.aw, i, l) == cell(y.a, y.aw, i, l),
        forall|l: int| 0 <= l < n ==> #[trigger] cell(x.b, x.bw, l, j) == cell(y.b, y.bw, l, j),
    ensures
        dot(x, i, j, 0, n) == dot(y, i, j, 0, n),
    decreases n,
{
    if n > 0 {
        lemma_dot_congruent(x, y, i, j, n - 1);
        assert(cell(x.a, x.aw, i, n - 1) == cell(y.a, y.aw, i, n - 1));
        assert(cell(x.b, x.bw, n - 1, j) == cell(y.b, y.bw, n - 1, j));
    }
}

/// Four updates, one for each quadrant of the output, one after the other,
/// are one update of every cell.
pub proof fn lemma_updated_quadrants<T: Scalar>(
    s0: Seq<T>,
    s1: Seq<T>,
    s2: Seq<T>,
    s3: Seq<T>,
    s4: Seq<T>,
    d: Window,
    ops: Operands<T>,
    kr: int,
    kc: int,
    lo: int,
    hi: int,
)
    requires
        d.distinct(),
        d.fits(s0.len() as int),
        0 <= kr <= d.rows,
        0 <= kc <= d.cols,
        updated(s0, s1, d, ops, block(0, kr, 0, kc), lo, hi),
        updated(s1, s2, d, ops, block(0, kr, kc, d.cols as int), lo, hi),
        updated(s2, s3, d, ops, block(kr, d.rows as int, 0, kc), lo, hi),
        updated(s3, s4, d, ops, block(kr, d.rows as int, kc, d.cols as int), lo, hi),
    ensures
        updated(s0, s4, d, ops, cells_of(d), lo, hi),
{
    let rows = d.rows as int;
    let cols = d.cols as int;
    lemma_block_inside(d, 0, kr, 0, kc);
    lemma_block_inside(d, 0, kr, kc, cols);
    lemma_block_inside(d, kr, rows, 0, kc);
    lemma_block_inside(d, kr, rows, kc, cols);
    lemma_block_inside(d, 0, kr, 0, cols);
    lemma_block_inside(d, kr, rows, 0, cols);
    lemma_block_cols(0, kr, 0, kc, cols);
    lemma_block_cols(kr, rows, 0, kc, cols);
    lemma_block_rows(0, kr, rows, 0, cols);
    lemma_updated_union(s0, s1, s2, d, ops, block(0, kr, 0, kc), block(0, kr, kc, cols), lo, hi);
    lemma_updated_union(s2, s3, s4, d, ops, block(kr, rows, 0, kc), block(kr, rows, kc, cols), lo, hi);
    lemma_updated_union(s0, s2, s4, d, ops, block(0, kr, 0, cols), block(kr, rows, 0, cols), lo, hi);
}

/// A window moved to the start of its buffer.
pub open spec fn rebased(w: Window) -> Window {
    Window { offset: 0, ..w }
}

/// A product added into the part of the output buffer that starts at the
/// output window, from the parts of the operand buffers that start at the
/// operand windows, is the product added into the whole buffer.
pub proof fn lemma_accumulated_rebased<T: Scalar>(
    old: Seq<T>,
    new: Seq<T>,
    tail: Seq<T>,
    d: Window,
    ops: Operands<T>,
    a_end: int,
    b_end: int,
)
    requires
        conformable(ops.a.len() as int, ops.aw, ops.b.len() as int, ops.bw, old.len() as int, d),
        ops.aw.offset <= a_end <= ops.a.len(),
        ops.bw.offset <= b_end <= ops.b.len(),
        rebased(ops.aw).fits(a_end - ops.aw.offset),
        rebased(ops.bw).fits(b_end - ops.bw.offset),
        d.offset <= old.len(),
        new == old.subrange(0, d.offset as int) + tail,
        accumulated(
            old.subrange(d.offset as int, old.len() as int),
            tail,
            rebased(d),
            (Operands {
                a: ops.a.subrange(ops.aw.offset as int, a_end),
                aw: rebased(ops.aw),
                b: ops.b.subrange(ops.bw.offset as int, b_end),
                bw: rebased(ops.bw),
            }),
        ),
    ensures
        accumulated(old, new, d, ops),
{
    let off = d.offset as int;
    let d0 = rebased(d);
    let told = old.subrange(off, old.len() as int);
    let sub = Operands {
        a: ops.a.subrange(ops.aw.offset as int, a_end),
        aw: rebased(ops.aw),
        b: ops.b.subrange(ops.bw.offset as int, b_end),
        bw: rebased(ops.bw),
    };
    let inner = ops.aw.cols as int;
    assert forall|i: int, j: int| #[trigger] cells_of(d).contains((i, j)) implies new[d.index(i, j)].value() == T::reduce(
        old[d.index(i, j)].value() + dot(ops, i, j, 0, inner),
    ) by {
        assert(cells_of(d0).contains((i, j)));
        assert(d.contains(i, j) && d0.contains(i, j));
        lemma_index_bounds(d, i, j);
        lemma_index_bounds(d0, i, j);
        assert(d.index(i, j) == off + d0.index(i, j));
        assert(new[off + d0.index(i, j)] == tail[d0.index(i, j)]);
        assert(told[d0.index(i, j)] == old[off + d0.index(i, j)]);
        assert forall|l: int| 0 <= l < inner implies #[trigger] cell(sub.a, sub.aw, i, l) == cell(
            ops.a,
            ops.aw,
            i,
            l,
        ) by {
            assert(ops.aw.contains(i, l) && sub.aw.contains(i, l));
            lemma_index_bounds(ops.aw, i, l);
            lemma_index_bounds(sub.aw, i, l);
            assert(ops.aw.index(i, l) == ops.aw.offset + sub.aw.index(i, l));
        }
        assert forall|l: int| 0 <= l < inner implies #[trigger] cell(sub.b, sub.bw, l, j) == cell(
            ops.b,
            ops.bw,
            l,
            j,
        ) by {
            assert(ops.bw.contains(l, j) && sub.bw.contains(l, j));
            lemma_index_bounds(ops.bw, l, j);
            lemma_index_bounds(sub.bw, l, j);
            assert(ops.bw.index(l, j) == ops.bw.offset + sub.bw.index(l, j));
        }
        lemma_dot_congruent(sub, ops, i, j, inner);
    }
    assert forall|p: int| 0 <= p < old.len() && !touched(d, cells_of(d), p) implies #[trigger] new[p] == old[p] by {
        if p >= off {
            if touched(d0, cells_of(d0), p - off) {
                let (i, j) = choose|i: int, j: int| #[trigger]
                    cells_of(d0).contains((i, j)) && d0.index(i, j) == p - off;
                assert(cells_of(d).contains((i, j)));
                assert(d.index(i, j) == p);
            }
            assert(tail[p - off] == told[p - off]);
            assert(new[p] == tail[p - off]);
        }
    }
}

/// The earlier contents of the output and the operands determine the result:
/// two buffers that both hold the earlier contents plus the product are
/// equal.
pub proof fn lemma_accumulated_unique<T: Scalar>(old: Seq<T>, first: Seq<T>, second: Seq<T>, d: Window, ops: Operands<T>)
    requires
        accumulated(old, first, d, ops),
        accumulated(old, second, d, ops),
    ensures
        first == second,
{
    assert forall|p: int| 0 <= p < first.len() implies first[p] == second[p] by {
        if touched(d, cells_of(d), p) {
            let (i, j) = choose|i: int, j: int| #[trigger] cells_of(d).contains((i, j)) && d.index(i, j) == p;
            first[d.index(i, j)].lemma_value_unique(second[d.index(i, j)]);
        } else {
            assert(first[p] == old[p]);
            assert(second[p] == old[p]);
        }
    }
    assert(first =~= second);
}

/// A product added into cells that held 0 is the product itself: each such
/// cell holds the dot product of its row of A and its column of B, reduced,
/// and the dot product itself where that is in the range of an element.
pub proof fn lemma_accumulated_from_zero<T: Scalar>(old: Seq<T>, new: Seq<T>, d: Window, ops: Operands<T>, i: int, j: int)
    requires
        accumulated(old, new, d, ops),
        d.contains(i, j),
        old[d.index(i, j)].value() == 0,
    ensures
        new[d.index(i, j)].value() == T::reduce(dot(ops, i, j, 0, ops.aw.cols as int)),
        T::reduce(dot(ops, i, j, 0, ops.aw.cols as int)) == dot(ops, i, j, 0, ops.aw.cols as int)
            ==> new[d.index(i, j)].value() == dot(ops, i, j, 0, ops.aw.cols as int),
{
    assert(cells_of(d).contains((i, j)));
}

/// A multiplication with a window that has no cell changes nothing.
pub proof fn lemma_accumulated_degenerate<T: Scalar>(old: Seq<T>, new: Seq<T>, d: Window, ops: Operands<T>)
    requires
        accumulated(old, new, d, ops),
        d.empty() || ops.aw.cols == 0,
    ensures
        new == old,
{
    lemma_accumulate_nothing(old, d, ops);
    lemma_accumulated_unique(old, new, old, d, ops);
}

} // verus!
