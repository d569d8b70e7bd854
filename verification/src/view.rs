//! Strided two-dimensional windows into a flat buffer, and the primitive that
//! cuts one window into two along an axis.
//!
//! A [`Window`] carries no data. It names the cells of a buffer that make up a
//! matrix: cell `(i, j)` of the window is element
//! `offset + i * row_stride + j * col_stride` of the buffer.

use vstd::prelude::*;

verus! {

/// An axis of a two-dimensional window: `Axis(0)` runs over rows, `Axis(1)`
/// over columns.
#[derive(Clone, Copy, Debug, PartialEq, Eq, Structural)]
pub struct Axis(pub usize);

impl Axis {
    /// The number of the axis.
    pub fn index(&self) -> (r: usize)
        ensures
            r == self.0,
    {
        self.0
    }
}

/// The shape, strides and base offset of a matrix laid out in a flat buffer.
#[derive(Clone, Copy, Debug, PartialEq, Eq, Structural)]
pub struct Window {
    /// Buffer position of cell `(0, 0)`.
    pub offset: usize,
    /// Number of rows.
    pub rows: usize,
    /// Number of columns.
    pub cols: usize,
    /// Distance in the buffer between vertically adjacent cells.
    pub row_stride: usize,
    /// Distance in the buffer between horizontally adjacent cells.
    pub col_stride: usize,
}

impl Window {
    /// Buffer position of cell `(i, j)`.
    pub open spec fn index(self, i: int, j: int) -> int {
        self.offset + i * self.row_stride + j * self.col_stride
    }

    /// `(i, j)` names a cell of the window.
    pub open spec fn contains(self, i: int, j: int) -> bool {
        0 <= i < self.rows && 0 <= j < self.cols
    }

    /// The window has no cell.
    pub open spec fn empty(self) -> bool {
        self.rows == 0 || self.cols == 0
    }

    /// One past the largest buffer position of a cell; the offset itself for
    /// a window without cells.
    pub open spec fn extent(self) -> int {
        if self.empty() {
            self.offset as int
        } else {
            self.offset + (self.rows - 1) * self.row_stride + (self.cols - 1) * self.col_stride + 1
        }
    }

    /// Every cell lies inside a buffer of `len` elements, and a buffer can be
    /// that long.
    pub open spec fn fits(self, len: int) -> bool {
        self.extent() <= len <= usize::MAX
    }

    /// Rows do not overlap: each row ends before the next one starts, and the
    /// cells of a row are distinct.
    pub open spec fn row_major(self) -> bool {
        self.col_stride >= 1 && self.row_stride >= self.cols * self.col_stride
    }

    /// Columns do not overlap: each column ends before the next one starts,
    /// and the cells of a column are distinct.
    pub open spec fn col_major(self) -> bool {
        self.row_stride >= 1 && self.col_stride >= self.rows * self.row_stride
    }

    /// The rows do not overlap, or the columns do not: either way distinct
    /// cells have distinct buffer positions (see
    /// [`lemma_distinct_injective`]).
    pub open spec fn distinct(self) -> bool {
        self.row_major() || self.col_major()
    }

    /// The window read with rows and columns exchanged.
    pub open spec fn transposed(self) -> Window {
        Window {
            offset: self.offset,
            rows: self.cols,
            cols: self.rows,
            row_stride: self.col_stride,
            col_stride: self.row_stride,
        }
    }

    /// Buffer position `p` belongs to some cell of the window.
    pub open spec fn covers(self, p: int) -> bool {
        exists|i: int, j: int| self.contains(i, j) && #[trigger] self.index(i, j) == p
    }

    /// Length of the window along `axis`.
    pub open spec fn spec_len_of(self, axis: Axis) -> usize {
        if axis.0 == 0 {
            self.rows
        } else {
            self.cols
        }
    }

    /// The two windows that a cut before position `index` of `axis` leaves.
    ///
    /// The second window starts `index` strides further into the buffer,
    /// unless it has no cell, in which case its offset is the parent's.
    pub open spec fn spec_split_at(self, axis: Axis, index: usize) -> (Window, Window) {
        if axis.0 == 0 {
            (
                Window { rows: index, ..self },
                Window {
                    offset: if index < self.rows && self.cols > 0 {
                        (self.offset + index * self.row_stride) as usize
                    } else {
                        self.offset
                    },
                    rows: (self.rows - index) as usize,
                    ..self
                },
            )
        } else {
            (
                Window { cols: index, ..self },
                Window {
                    offset: if index < self.cols && self.rows > 0 {
                        (self.offset + index * self.col_stride) as usize
                    } else {
                        self.offset
                    },
                    cols: (self.cols - index) as usize,
                    ..self
                },
            )
        }
    }

    /// A window over a whole `rows` x `cols` matrix stored row after row.
    pub fn new(rows: usize, cols: usize) -> (w: Window)
        ensures
            w == (Window { offset: 0, rows, cols, row_stride: cols, col_stride: 1 }),
            w.row_major(),
    {
        let w = Window { offset: 0, rows, cols, row_stride: cols, col_stride: 1 };
        assert(w.cols * w.col_stride == w.cols) by (nonlinear_arith)
            requires
                w.col_stride == 1,
        ;
        w
    }

    /// `(rows, cols)`.
    pub fn dim(&self) -> (r: (usize, usize))
        ensures
            r == (self.rows, self.cols),
    {
        (self.rows, self.cols)
    }

    /// `(row_stride, col_stride)`.
    pub fn strides(&self) -> (r: (usize, usize))
        ensures
            r == (self.row_stride, self.col_stride),
    {
        (self.row_stride, self.col_stride)
    }

    /// Length of the window along `axis`.
    pub fn len_of(&self, axis: Axis) -> (r: usize)
        ensures
            r == self.spec_len_of(axis),
    {
        if axis.0 == 0 {
            self.rows
        } else {
            self.cols
        }
    }

    /// Whether the window has no cell.
    pub fn is_empty(&self) -> (r: bool)
        ensures
            r == self.empty(),
    {
        self.rows == 0 || self.cols == 0
    }

    /// Whether every cell lies inside a buffer of `len` elements.
    pub fn fits_in(&self, len: usize) -> (r: bool)
        ensures
            r == self.fits(len as int),
    {
        if self.rows == 0 || self.cols == 0 {
            return self.offset <= len;
        }
        let down = match (self.rows - 1).checked_mul(self.row_stride) {
            Some(x) => x,
            None => {
                return false;
            },
        };
        let across = match (self.cols - 1).checked_mul(self.col_stride) {
            Some(x) => x,
            None => {
                return false;
            },
        };
        let last = match self.offset.checked_add(down) {
            Some(x) => x.checked_add(across),
            None => None,
        };
        match last {
            Some(x) => x < len,
            None => false,
        }
    }

    /// Whether the rows of the window do not overlap.
    pub fn is_row_major(&self) -> (r: bool)
        ensures
            r == self.row_major(),
    {
        if self.col_stride == 0 {
            return false;
        }
        match self.cols.checked_mul(self.col_stride) {
            Some(x) => self.row_stride >= x,
            None => false,
        }
    }

    /// Whether the rows of the window do not overlap, or its columns do not.
    pub fn is_distinct(&self) -> (r: bool)
        ensures
            r == self.distinct(),
    {
        if self.is_row_major() {
            return true;
        }
        if self.row_stride == 0 {
            return false;
        }
        match self.rows.checked_mul(self.row_stride) {
            Some(x) => self.col_stride >= x,
            None => false,
        }
    }

    /// Buffer position of cell `(i, j)`.
    pub fn position(&self, i: usize, j: usize) -> (p: usize)
        requires
            self.contains(i as int, j as int),
            self.fits(usize::MAX as int),
        ensures
            p == self.index(i as int, j as int),
            p < self.extent(),
    {
        proof {
            lemma_index_bounds(*self, i as int, j as int);
        }
        self.offset + i * self.row_stride + j * self.col_stride
    }

    /// Cuts the window before position `index` of `axis`.
    ///
    /// The two parts together hold every cell of the window exactly once
    /// (see [`lemma_split_indices`] and [`lemma_split_cells`]).
    pub fn split_at(self, axis: Axis, index: usize) -> (r: (Window, Window))
        requires
            axis.0 <= 1,
            index <= self.spec_len_of(axis),
            self.fits(usize::MAX as int),
        ensures
            r == self.spec_split_at(axis, index),
    {
        if axis.0 == 0 {
            let offset = if index < self.rows && self.cols > 0 {
                proof {
                    lemma_index_bounds(self, index as int, 0);
                }
                self.offset + index * self.row_stride
            } else {
                self.offset
            };
            (
                Window { rows: index, ..self },
                Window { offset, rows: self.rows - index, ..self },
            )
        } else {
            let offset = if index < self.cols && self.rows > 0 {
                proof {
                    lemma_index_bounds(self, 0, index as int);
                }
                self.offset + index * self.col_stride
            } else {
                self.offset
            };
            (
                Window { cols: index, ..self },
                Window { offset, cols: self.cols - index, ..self },
            )
        }
    }
}

/// The buffer position of a cell lies between the window's offset and its
/// extent, and so do the partial sums that lead to it.
pub proof fn lemma_index_bounds(w: Window, i: int, j: int)
    requires
        w.contains(i, j),
    ensures
        0 <= i * w.row_stride <= (w.rows - 1) * w.row_stride,
        0 <= j * w.col_stride <= (w.cols - 1) * w.col_stride,
        w.offset <= w.index(i, j) < w.extent(),
{
    let rs = w.row_stride as int;
    let cs = w.col_stride as int;
    let r = w.rows as int;
    let c = w.cols as int;
    assert(0 <= i * rs <= (r - 1) * rs) by (nonlinear_arith)
        requires
            0 <= i < r,
            0 <= rs,
    ;
    assert(0 <= j * cs <= (c - 1) * cs) by (nonlinear_arith)
        requires
            0 <= j < c,
            0 <= cs,
    ;
}

/// In a row-major window two cells with the same buffer position are the same
/// cell.
proof fn lemma_row_major_injective(w: Window, i1: int, j1: int, i2: int, j2: int)
    requires
        w.row_major(),
        w.contains(i1, j1),
        w.contains(i2, j2),
        w.index(i1, j1) == w.index(i2, j2),
    ensures
        i1 == i2,
        j1 == j2,
{
    let rs = w.row_stride as int;
    let cs = w.col_stride as int;
    let c = w.cols as int;
    if i1 < i2 {
        assert(false) by (nonlinear_arith)
            requires
                i1 < i2,
                0 <= j1 < c,
                0 <= j2 < c,
                cs >= 1,
                rs >= c * cs,
                i1 * rs + j1 * cs == i2 * rs + j2 * cs,
        {
            assert((i2 - i1) * rs >= rs);
            assert((j1 - j2) * cs <= (c - 1) * cs);
            assert((i2 - i1) * rs == (j1 - j2) * cs);
        }
    } else if i2 < i1 {
        assert(false) by (nonlinear_arith)
            requires
                i2 < i1,
                0 <= j1 < c,
                0 <= j2 < c,
                cs >= 1,
                rs >= c * cs,
                i1 * rs + j1 * cs == i2 * rs + j2 * cs,
        {
            assert((i1 - i2) * rs >= rs);
            assert((j2 - j1) * cs <= (c - 1) * cs);
            assert((i1 - i2) * rs == (j2 - j1) * cs);
        }
    } else {
        assert(j1 == j2) by (nonlinear_arith)
            requires
                cs >= 1,
                j1 * cs == j2 * cs,
        ;
    }
}

/// In a window whose rows or whose columns do not overlap, two cells with the
/// same buffer position are the same cell.
pub proof fn lemma_distinct_injective(w: Window, i1: int, j1: int, i2: int, j2: int)
    requires
        w.distinct(),
        w.contains(i1, j1),
        w.contains(i2, j2),
        w.index(i1, j1) == w.index(i2, j2),
    ensures
        i1 == i2,
        j1 == j2,
{
    if w.row_major() {
        lemma_row_major_injective(w, i1, j1, i2, j2);
    } else {
        lemma_row_major_injective(w.transposed(), j1, i1, j2, i2);
    }
}

/// A row-major window has at most as many cells as buffer positions up to
/// its extent.
proof fn lemma_row_major_size(w: Window)
    requires
        w.row_major(),
    ensures
        w.offset + w.rows * w.cols <= w.extent(),
{
    let rs = w.row_stride as int;
    let cs = w.col_stride as int;
    let r = w.rows as int;
    let c = w.cols as int;
    if w.empty() {
        assert(r * c == 0) by (nonlinear_arith)
            requires
                r == 0 || c == 0,
        ;
    } else {
        assert(r * c <= (r - 1) * rs + (c - 1) * cs + 1) by (nonlinear_arith)
            requires
                r >= 1,
                c >= 1,
                cs >= 1,
                rs >= c * cs,
        {
            assert(c * cs >= c);
            assert((r - 1) * rs >= (r - 1) * c);
            assert((c - 1) * cs >= c - 1);
            assert(r * c == (r - 1) * c + c);
        }
    }
}

/// A window whose rows or whose columns do not overlap has at most as many
/// cells as buffer positions up to its extent.
pub proof fn lemma_distinct_size(w: Window)
    requires
        w.distinct(),
    ensures
        w.offset + w.rows * w.cols <= w.extent(),
{
    if w.row_major() {
        lemma_row_major_size(w);
    } else {
        lemma_row_major_size(w.transposed());
        assert(w.rows * w.cols == w.cols * w.rows) by (nonlinear_arith);
        assert(w.transposed().extent() == w.extent());
    }
}

/// How the cells of the two parts of a cut sit in the parent: the first part
/// keeps the parent's indices, the second is shifted by `index` along the
/// axis. Every index of the parent along the axis falls in exactly one part,
/// so the parts leave no gap and do not overlap. A cut keeps a window inside
/// its buffer, and keeps its rows and its columns from overlapping.
pub proof fn lemma_split_indices(w: Window, axis: Axis, index: usize)
    requires
        axis.0 <= 1,
        index <= w.spec_len_of(axis),
        w.fits(usize::MAX as int),
    ensures
        ({
            let (l, r) = w.spec_split_at(axis, index);
            &&& l.spec_len_of(axis) == index
            &&& l.spec_len_of(axis) + r.spec_len_of(axis) == w.spec_len_of(axis)
            &&& l.spec_len_of(Axis((1 - axis.0) as usize)) == w.spec_len_of(Axis((1 - axis.0) as usize))
            &&& r.spec_len_of(Axis((1 - axis.0) as usize)) == w.spec_len_of(Axis((1 - axis.0) as usize))
            &&& l.row_stride == w.row_stride && l.col_stride == w.col_stride
            &&& r.row_stride == w.row_stride && r.col_stride == w.col_stride
            &&& forall|i: int, j: int| l.contains(i, j) ==> #[trigger] l.index(i, j) == w.index(i, j)
            &&& forall|i: int, j: int|
                r.contains(i, j) ==> #[trigger] r.index(i, j) == if axis.0 == 0 {
                    w.index(i + index, j)
                } else {
                    w.index(i, j + index)
                }
            &&& forall|i: int, j: int|
                #![trigger w.contains(i, j)]
                w.contains(i, j) ==> if axis.0 == 0 {
                    (i < index ==> l.contains(i, j)) && (i >= index ==> r.contains(i - index, j))
                } else {
                    (j < index ==> l.contains(i, j)) && (j >= index ==> r.contains(i, j - index))
                }
            &&& forall|n: int| w.fits(n) ==> l.fits(n) && r.fits(n)
            &&& w.row_major() ==> l.row_major() && r.row_major()
            &&& w.col_major() ==> l.col_major() && r.col_major()
            &&& w.distinct() ==> l.distinct() && r.distinct()
        }),
{
    let (l, r) = w.spec_split_at(axis, index);
    let rs = w.row_stride as int;
    let cs = w.col_stride as int;
    let rows = w.rows as int;
    let cols = w.cols as int;
    let k = index as int;
    if axis.0 == 0 {
        if k < rows && cols > 0 {
            lemma_index_bounds(w, k, 0);
            assert(r.offset == w.offset + k * rs);
        }
        assert forall|i: int, j: int| r.contains(i, j) implies #[trigger] r.index(i, j) == w.index(
            i + index,
            j,
        ) by {
            assert((i + k) * rs == i * rs + k * rs) by (nonlinear_arith);
        }
        assert forall|n: int| w.fits(n) implies l.fits(n) && r.fits(n) by {
            if !l.empty() {
                assert((k - 1) * rs <= (rows - 1) * rs) by (nonlinear_arith)
                    requires
                        1 <= k <= rows,
                        0 <= rs,
                ;
            }
            if !r.empty() {
                assert(k * rs + (rows - k - 1) * rs == (rows - 1) * rs) by (nonlinear_arith);
            }
        }
        if w.col_major() {
            assert(k * rs <= rows * rs) by (nonlinear_arith)
                requires
                    0 <= k <= rows,
                    0 <= rs,
            ;
            assert((rows - k) * rs <= rows * rs) by (nonlinear_arith)
                requires
                    0 <= k <= rows,
                    0 <= rs,
            ;
        }
    } else {
        if k < cols && rows > 0 {
            lemma_index_bounds(w, 0, k);
            assert(r.offset == w.offset + k * cs);
        }
        assert forall|i: int, j: int| r.contains(i, j) implies #[trigger] r.index(i, j) == w.index(
            i,
            j + index,
        ) by {
            assert((j + k) * cs == j * cs + k * cs) by (nonlinear_arith);
        }
        assert forall|n: int| w.fits(n) implies l.fits(n) && r.fits(n) by {
            if !l.empty() {
                assert((k - 1) * cs <= (cols - 1) * cs) by (nonlinear_arith)
                    requires
                        1 <= k <= cols,
                        0 <= cs,
                ;
            }
            if !r.empty() {
                assert(k * cs + (cols - k - 1) * cs == (cols - 1) * cs) by (nonlinear_arith);
            }
        }
        if w.row_major() {
            assert(k * cs <= cols * cs) by (nonlinear_arith)
                requires
                    0 <= k <= cols,
                    0 <= cs,
            ;
            assert((cols - k) * cs <= cols * cs) by (nonlinear_arith)
                requires
                    0 <= k <= cols,
                    0 <= cs,
            ;
        }
    }
}

/// The two parts of a cut of a window with distinct cells partition its
/// cells: a buffer position belongs to the parent exactly if it belongs to
/// one of the parts, and it never belongs to both.
pub proof fn lemma_split_cells(w: Window, axis: Axis, index: usize, p: int)
    requires
        axis.0 <= 1,
        index <= w.spec_len_of(axis),
        w.fits(usize::MAX as int),
        w.distinct(),
    ensures
        ({
            let (l, r) = w.spec_split_at(axis, index);
            &&& w.covers(p) <==> l.covers(p) || r.covers(p)
            &&& !(l.covers(p) && r.covers(p))
        }),
{
    let (l, r) = w.spec_split_at(axis, index);
    lemma_split_indices(w, axis, index);
    if w.covers(p) {
        let (i, j) = choose|i: int, j: int| w.contains(i, j) && #[trigger] w.index(i, j) == p;
        if axis.0 == 0 {
            if i < index {
                assert(l.contains(i, j) && l.index(i, j) == p);
            } else {
                assert(r.contains(i - index, j) && r.index(i - index, j) == p);
            }
        } else {
            if j < index {
                assert(l.contains(i, j) && l.index(i, j) == p);
            } else {
                assert(r.contains(i, j - index) && r.index(i, j - index) == p);
            }
        }
    }
    if l.covers(p) {
        let (i, j) = choose|i: int, j: int| l.contains(i, j) && #[trigger] l.index(i, j) == p;
        assert(w.contains(i, j) && w.index(i, j) == p);
    }
    if r.covers(p) {
        let (i, j) = choose|i: int, j: int| r.contains(i, j) && #[trigger] r.index(i, j) == p;
        if axis.0 == 0 {
            assert(w.contains(i + index, j) && w.index(i + index, j) == p);
        } else {
            assert(w.contains(i, j + index) && w.index(i, j + index) == p);
        }
    }
    if l.covers(p) && r.covers(p) {
        let (i1, j1) = choose|i: int, j: int| l.contains(i, j) && #[trigger] l.index(i, j) == p;
        let (i2, j2) = choose|i: int, j: int| r.contains(i, j) && #[trigger] r.index(i, j) == p;
        if axis.0 == 0 {
            lemma_distinct_injective(w, i1, j1, i2 + index, j2);
        } else {
            lemma_distinct_injective(w, i1, j1, i2, j2 + index);
        }
    }
}

/// The window `w` is the part of `parent` that starts at row `di` and column
/// `dj`: cell `(i, j)` of `w` is cell `(i + di, j + dj)` of `parent`.
pub open spec fn within(w: Window, parent: Window, di: int, dj: int) -> bool {
    &&& 0 <= di
    &&& 0 <= dj
    &&& w.rows + di <= parent.rows
    &&& w.cols + dj <= parent.cols
    &&& forall|i: int, j: int| w.contains(i, j) ==> #[trigger] w.index(i, j) == parent.index(i + di, j + dj)
}

/// A window is the part of itself that starts at `(0, 0)`.
pub proof fn lemma_within_self(w: Window)
    ensures
        within(w, w, 0, 0),
{
}

/// A part of a part is a part, at the sum of the two starting points.
pub proof fn lemma_within_trans(w: Window, mid: Window, root: Window, di: int, dj: int, ei: int, ej: int)
    requires
        within(w, mid, di, dj),
        within(mid, root, ei, ej),
    ensures
        within(w, root, di + ei, dj + ej),
{
    assert forall|i: int, j: int| w.contains(i, j) implies #[trigger] w.index(i, j) == root.index(
        i + (di + ei),
        j + (dj + ej),
    ) by {
        assert(mid.contains(i + di, j + dj));
        assert(mid.index(i + di, j + dj) == root.index(i + di + ei, j + dj + ej));
    }
}

/// The first part of a cut starts at `(0, 0)` of the parent, the second at
/// position `index` of the cut axis.
pub proof fn lemma_split_within(w: Window, axis: Axis, index: usize)
    requires
        axis.0 <= 1,
        index <= w.spec_len_of(axis),
        w.fits(usize::MAX as int),
    ensures
        within(w.spec_split_at(axis, index).0, w, 0, 0),
        axis.0 == 0 ==> within(w.spec_split_at(axis, index).1, w, index as int, 0),
        axis.0 == 1 ==> within(w.spec_split_at(axis, index).1, w, 0, index as int),
{
    lemma_split_indices(w, axis, index);
}

} // verus!
