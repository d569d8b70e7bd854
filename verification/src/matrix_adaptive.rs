//! The divisible multiplication problem: three windows (A, B and the output)
//! that are cut in step, so that every part is again a multiplication.
//!
//! A problem is cut across the longer side of its output, at a row or column
//! near the middle that favours powers of two, or it gives up a slice of its
//! inner dimension as a chunk to be added into the same output.

use vstd::prelude::*;
use vstd::arithmetic::div_mod::lemma_fundamental_div_mod_converse;
use vstd::arithmetic::div_mod::lemma_small_mod;
use crate::algebra::Operands;
use crate::algebra::accumulated;
use crate::algebra::block;
use crate::algebra::cells_of;
use crate::algebra::conformable;
use crate::algebra::is_conformable;
use crate::algebra::lemma_accumulate_cols;
use crate::algebra::lemma_accumulate_inner;
use crate::algebra::lemma_accumulate_rows;
use crate::algebra::lemma_accumulated_within;
use crate::algebra::lemma_block_cols;
use crate::algebra::lemma_block_inside;
use crate::algebra::lemma_block_rows;
use crate::algebra::lemma_split_conformable;
use crate::algebra::lemma_updated_union;
use crate::my_ndarray::cut_position;
use crate::my_ndarray::divide_at_id_along_axis;
use crate::my_ndarray::divide_mut_at_id_along_axis;
use crate::pow2::floor_pow2;
use crate::pow2::lemma_next_pow2;
use crate::pow2::lemma_next_pow2_unique;
use crate::pow2::lemma_pow2_double;
use crate::pow2::lemma_top_pow2;
use crate::pow2::next_pow2;
use crate::pow2::prev_pow2;
use crate::scalar::Scalar;
use crate::view::Axis;
use crate::view::Window;
use crate::view::lemma_distinct_size;
use crate::view::lemma_split_cells;
use crate::view::lemma_split_indices;
use crate::view::lemma_split_within;
use crate::view::lemma_within_self;

verus! {

/// Which of the shape rules of a multiplication three windows break.
#[derive(Clone, Copy, Debug, PartialEq, Eq, Structural)]
pub enum ShapeMismatch {
    /// The columns of A are not the rows of B.
    Inner,
    /// The rows of the output are not the rows of A.
    Rows,
    /// The columns of the output are not the columns of B.
    Columns,
}

/// One multiplication `output += A x B`, given by the windows of its three
/// matrices, with the shapes that the matrices had when the work began.
#[derive(Clone, Copy, Debug, PartialEq, Eq)]
pub struct Matrix {
    pub a: Window,
    pub b: Window,
    pub d: Window,
    pub asize: (usize, usize),
    pub bsize: (usize, usize),
    pub dsize: (usize, usize),
}

/// The row or column near the middle of a side of length `n` at which the
/// side is cut: with `p` the smallest power of two that is at least `n`, the
/// one of `p / 4` and `p / 2` that is nearer to `n / 2`, and `p / 2` when
/// both are equally near.
pub open spec fn split_point(n: nat) -> nat {
    let p = next_pow2(n);
    if n / 2 - p / 4 < p / 2 - n / 2 {
        p / 4
    } else {
        p / 2
    }
}

impl Matrix {
    /// The shapes of the three windows agree: the columns of A are the rows
    /// of B, and the output has the rows of A and the columns of B.
    pub open spec fn consistent(self) -> bool {
        &&& self.a.cols == self.b.rows
        &&& self.d.rows == self.a.rows
        &&& self.d.cols == self.b.cols
    }

    /// The shapes agree, every window can lie in a buffer, and the cells of
    /// the output do not alias.
    pub open spec fn wf(self) -> bool {
        conformable(usize::MAX as int, self.a, usize::MAX as int, self.b, usize::MAX as int, self.d)
    }

    /// The problem is one multiplication on buffers of the given lengths.
    pub open spec fn valid(self, a_len: int, b_len: int, out_len: int) -> bool {
        conformable(a_len, self.a, b_len, self.b, out_len, self.d)
    }

    /// The operands of the problem, read from the buffers `a` and `b`.
    pub open spec fn operands<T: Scalar>(self, a: Seq<T>, b: Seq<T>) -> Operands<T> {
        Operands { a, aw: self.a, b, bw: self.b }
    }

    /// One of the windows has no cell: there is nothing to multiply.
    pub open spec fn degenerate(self) -> bool {
        self.a.empty() || self.b.empty() || self.d.empty()
    }

    /// The size reported to a scheduler: the number of output cells, and 1
    /// for a problem whose A has at most one column, which is not cut further.
    pub open spec fn spec_base_length(self) -> int {
        if self.a.cols <= 1 {
            1
        } else {
            self.d.rows * self.d.cols
        }
    }

    /// The axis across which the output is cut: the rows unless there are
    /// more columns than rows.
    pub open spec fn split_axis(self) -> Axis {
        if self.d.cols > self.d.rows {
            Axis(1)
        } else {
            Axis(0)
        }
    }

    /// The row or column before which [`Matrix::divide_at`] cuts the output
    /// when asked for the first `index` cells: enough whole rows (or
    /// columns) to hold them. A column count that would take every column
    /// is taken modulo the number of columns, so the first part is then
    /// empty.
    pub open spec fn cut_of(self, index: usize) -> usize {
        if self.d.cols > self.d.rows {
            cut_position(self.d, ((index - 1) / (self.d.rows as int) + 1) as usize, Axis(1))
        } else {
            cut_position(self.d, (index - 1) as usize, Axis(0))
        }
    }

    /// The two problems that a cut of the output before row or column `k`
    /// leaves. A row cut also cuts A and shares B; a column cut also cuts B
    /// and shares A.
    pub open spec fn cut(self, k: usize) -> (Matrix, Matrix) {
        if self.d.cols > self.d.rows {
            let (d1, d2) = self.d.spec_split_at(Axis(1), k);
            let (b1, b2) = self.b.spec_split_at(Axis(1), k);
            (Matrix { b: b1, d: d1, ..self }, Matrix { b: b2, d: d2, ..self })
        } else {
            let (d1, d2) = self.d.spec_split_at(Axis(0), k);
            let (a1, a2) = self.a.spec_split_at(Axis(0), k);
            (Matrix { a: a1, d: d1, ..self }, Matrix { a: a2, d: d2, ..self })
        }
    }

    /// What [`Matrix::divide_at`] returns.
    pub open spec fn spec_divide_at(self, index: usize) -> (Matrix, Matrix) {
        self.cut(self.cut_of(index))
    }

    /// [`Matrix::divide_at`] can cut: the output has cells, `index` is at
    /// least 1, and a row cut stays within the rows.
    pub open spec fn can_divide_at(self, index: usize) -> bool {
        &&& self.wf()
        &&& self.d.rows >= 1
        &&& self.d.cols >= 1
        &&& index >= 1
        &&& self.d.cols <= self.d.rows ==> (index - 1) / (self.d.cols as int) < self.d.rows
    }

    /// Static fork-join with granularity `n` cuts the problem: it can be
    /// cut, its A has more than one column, and it reports a size above `n`.
    pub open spec fn divides(self, n: usize) -> bool {
        self.can_divide() && self.a.cols > 1 && self.spec_base_length() > n
    }

    /// The work-stealing policy takes a batch of about `n` cells off the
    /// problem: the problem has output cells and reports a size above `n`,
    /// and the batch has cells.
    pub open spec fn gives_batch(self, n: usize) -> bool {
        &&& self.wf()
        &&& n >= 1
        &&& !self.d.empty()
        &&& self.spec_base_length() > n
        &&& !self.spec_divide_at(n).0.d.empty()
    }

    /// Length of the longer side of the output.
    pub open spec fn long_side(self) -> usize {
        if self.d.cols > self.d.rows {
            self.d.cols
        } else {
            self.d.rows
        }
    }

    /// [`Matrix::divide`] can cut: the output has cells, its longer side has
    /// at least two of them, and the power of two above that side fits in a
    /// `usize`.
    pub open spec fn can_divide(self) -> bool {
        &&& self.wf()
        &&& self.d.rows >= 1
        &&& self.d.cols >= 1
        &&& self.long_side() >= 2
        &&& next_pow2(self.long_side() as nat) <= usize::MAX
    }

    /// What [`Matrix::divide`] returns: the cut across the longer side of
    /// the output at its [`split_point`].
    pub open spec fn spec_divide(self) -> (Matrix, Matrix) {
        self.cut(split_point(self.long_side() as nat) as usize)
    }

    /// The number of inner positions that [`Matrix::extract_iter`] takes for
    /// a size hint: the hint divided by the number of output cells, rounded
    /// down to a power of two, at least 1 and at most the columns of A.
    pub open spec fn chunk_width(self, size: usize) -> usize {
        let p = prev_pow2((size as int / (self.a.rows * self.b.cols)) as nat);
        let at_least_one = if p == 0 {
            1
        } else {
            p
        };
        if at_least_one > self.a.cols {
            self.a.cols
        } else {
            at_least_one as usize
        }
    }

    /// The chunk that [`Matrix::extract_iter`] hands out and the problem
    /// that it leaves: the first `k` inner positions (columns of A, rows of
    /// B) and the rest, both with the whole output.
    pub open spec fn cut_inner(self, k: usize) -> (Matrix, Matrix) {
        let (a1, a2) = self.a.spec_split_at(Axis(1), k);
        let (b1, b2) = self.b.spec_split_at(Axis(0), k);
        (Matrix { a: a1, b: b1, ..self }, Matrix { a: a2, b: b2, ..self })
    }

    /// A problem over three windows, or the shape rule that they break.
    pub fn new(a: Window, b: Window, d: Window) -> (r: Result<Matrix, ShapeMismatch>)
        ensures
            match r {
                Ok(m) => m.consistent() && m == (Matrix {
                    a,
                    b,
                    d,
                    asize: (a.rows, a.cols),
                    bsize: (b.rows, b.cols),
                    dsize: (d.rows, d.cols),
                }),
                Err(ShapeMismatch::Inner) => a.cols != b.rows,
                Err(ShapeMismatch::Rows) => a.cols == b.rows && d.rows != a.rows,
                Err(ShapeMismatch::Columns) => a.cols == b.rows && d.rows == a.rows && d.cols != b.cols,
            },
    {
        if a.cols != b.rows {
            Err(ShapeMismatch::Inner)
        } else if d.rows != a.rows {
            Err(ShapeMismatch::Rows)
        } else if d.cols != b.cols {
            Err(ShapeMismatch::Columns)
        } else {
            Ok(Matrix { a, b, d, asize: a.dim(), bsize: b.dim(), dsize: d.dim() })
        }
    }

    /// Whether the shapes agree, every window can lie in a buffer and the
    /// cells of the output do not alias.
    pub fn is_wf(&self) -> (r: bool)
        ensures
            r == self.wf(),
    {
        is_conformable(usize::MAX, self.a, usize::MAX, self.b, usize::MAX, self.d)
    }

    /// Whether [`Matrix::divide_at`] can cut the problem for this index.
    pub fn may_divide_at(&self, index: usize) -> (r: bool)
        ensures
            r == self.can_divide_at(index),
    {
        if !self.is_wf() || self.d.rows == 0 || self.d.cols == 0 || index == 0 {
            return false;
        }
        self.d.cols > self.d.rows || (index - 1) / self.d.cols < self.d.rows
    }

    /// The axis across which the output is cut.
    pub fn axis(&self) -> (r: Axis)
        ensures
            r == self.split_axis(),
    {
        if self.d.cols > self.d.rows {
            Axis(1)
        } else {
            Axis(0)
        }
    }

    /// Whether one of the windows has no cell.
    pub fn is_degenerate(&self) -> (r: bool)
        ensures
            r == self.degenerate(),
    {
        self.a.is_empty() || self.b.is_empty() || self.d.is_empty()
    }

    /// Whether the problem is cut further: [`Matrix::divide`] can cut it, and
    /// its A has more than one column.
    pub fn is_divisible(&self) -> (r: bool)
        requires
            self.wf(),
        ensures
            r == (self.can_divide() && self.a.cols > 1),
    {
        let (row, col) = self.d.dim();
        let long = if col > row {
            col
        } else {
            row
        };
        proof {
            lemma_top_pow2();
            lemma_next_pow2(long as nat);
        }
        row >= 1 && col >= 1 && long >= 2 && long <= usize::MAX / 2 + 1 && self.a.cols > 1
    }

    /// Whether static fork-join with granularity `n` cuts the problem:
    /// it can be cut, and it reports a size above `n`.
    pub fn should_divide(&self, n: usize) -> (r: bool)
        requires
            self.wf(),
        ensures
            r == self.divides(n),
    {
        if self.is_divisible() {
            match self.base_length() {
                Some(size) => size > n,
                None => false,
            }
        } else {
            false
        }
    }

    /// Cuts the next batch of about `n` cells off the problem, if the
    /// work-stealing policy takes one: returns the batch and the rest, or
    /// `None` if the problem is solved as it is.
    pub fn next_batch(&self, n: usize) -> (r: Option<(Matrix, Matrix)>)
        requires
            self.wf(),
        ensures
            r == if self.gives_batch(n) {
                Some(self.spec_divide_at(n))
            } else {
                None::<(Matrix, Matrix)>
            },
    {
        if n == 0 || self.d.is_empty() {
            return None;
        }
        match self.base_length() {
            Some(size) => {
                if size <= n {
                    return None;
                }
            },
            None => {
                return None;
            },
        }
        proof {
            lemma_batch_cut(*self, n);
        }
        let (batch, rest) = self.divide_at(n);
        if batch.d.is_empty() {
            None
        } else {
            Some((batch, rest))
        }
    }

    /// The size of the problem as a scheduler sees it.
    pub fn base_length(&self) -> (r: Option<usize>)
        requires
            self.wf(),
        ensures
            r == Some(self.spec_base_length() as usize),
            self.spec_base_length() <= usize::MAX,
    {
        let dim = self.d.dim();
        let dima = self.a.dim();
        proof {
            lemma_distinct_size(self.d);
        }
        if dima.1 <= 1 {
            Some(1)
        } else {
            Some(dim.0 * dim.1)
        }
    }

    /// Cuts the problem in two near the middle of the longer side of its
    /// output.
    pub fn divide(self) -> (r: (Matrix, Matrix))
        requires
            self.can_divide(),
        ensures
            r == self.spec_divide(),
    {
        let mut axis: usize = 0;
        let (row, col) = self.d.dim();
        if col > row {
            axis = 1;
        }
        proof {
            lemma_distinct_size(self.d);
            lemma_split_point(self.long_side() as nat);
        }
        if axis == 0 {
            let mut r2 = row;
            proof {
                lemma_next_pow2(row as nat);
            }
            if !row.is_power_of_two() {
                r2 = row.next_power_of_two();
            }
            proof {
                lemma_next_pow2_unique(row as nat, r2 as int);
            }
            let rowbef = r2 / 4;
            let rownext = r2 / 2;
            let diff1 = row / 2 - rowbef;
            let diff2 = rownext - row / 2;
            if diff1 < diff2 {
                proof {
                    lemma_whole_rows(rowbef as int, row as int, col as int);
                    assert(self.cut_of((rowbef * col) as usize) == rowbef);
                }
                self.divide_at(rowbef * col)
            } else {
                proof {
                    lemma_whole_rows(rownext as int, row as int, col as int);
                    assert(self.cut_of((rownext * col) as usize) == rownext);
                }
                self.divide_at(rownext * col)
            }
        } else {
            let mut c2 = col;
            proof {
                lemma_next_pow2(col as nat);
            }
            if !col.is_power_of_two() {
                c2 = col.next_power_of_two();
            }
            proof {
                lemma_next_pow2_unique(col as nat, c2 as int);
            }
            let colbef = c2 / 4;
            let colnext = c2 / 2;
            let diff1 = col / 2 - colbef;
            let diff2 = colnext - col / 2;
            if diff1 < diff2 {
                proof {
                    lemma_whole_rows(colbef as int, col as int, row as int);
                    lemma_small_mod(colbef as nat, col as nat);
                    assert(self.cut_of((colbef * row) as usize) == colbef);
                }
                self.divide_at(colbef * row)
            } else {
                proof {
                    lemma_whole_rows(colnext as int, col as int, row as int);
                    lemma_small_mod(colnext as nat, col as nat);
                    assert(self.cut_of((colnext * row) as usize) == colnext);
                }
                self.divide_at(colnext * row)
            }
        }
    }

    /// Cuts the problem in two so that the first part holds the first
    /// `index` cells of the output, rounded up to whole rows or columns of
    /// the longer side.
    pub fn divide_at(self, index: usize) -> (r: (Matrix, Matrix))
        requires
            self.can_divide_at(index),
        ensures
            r == self.spec_divide_at(index),
    {
        let mut axis: usize = 0;
        let (row, col) = self.d.dim();
        if col > row {
            axis = 1;
        }
        if axis == 0 {
            let (d1, d2) = divide_mut_at_id_along_axis(self.d, index - 1, Axis(axis));
            let dim_temp = d1.dim().0;
            let (a1, a2) = self.a.split_at(Axis(axis), dim_temp);
            (
                Matrix { a: a1, b: self.b, d: d1, asize: self.asize, bsize: self.bsize, dsize: self.dsize },
                Matrix { a: a2, b: self.b, d: d2, asize: self.asize, bsize: self.bsize, dsize: self.dsize },
            )
        } else {
            let ind_calc = (index - 1) / row + 1;
            let (d1, d2) = divide_mut_at_id_along_axis(self.d, ind_calc, Axis(axis));
            let (b1, b2) = divide_at_id_along_axis(self.b, ind_calc, Axis(axis));
            (
                Matrix { a: self.a, b: b1, d: d1, asize: self.asize, bsize: self.bsize, dsize: self.dsize },
                Matrix { a: self.a, b: b2, d: d2, asize: self.asize, bsize: self.bsize, dsize: self.dsize },
            )
        }
    }

    /// Takes a chunk of the inner dimension off the problem: returns the
    /// multiplication of the first columns of A by the first rows of B, into
    /// the whole output, and keeps the rest as the remaining work. The chunk
    /// and the remaining work write the same output cells, so the chunk has
    /// to be finished before the next one is taken.
    pub fn extract_iter(&mut self, size: usize) -> (chunk: Matrix)
        requires
            old(self).wf(),
            old(self).d.rows >= 1,
            old(self).d.cols >= 1,
        ensures
            chunk == old(self).cut_inner(old(self).chunk_width(size)).0,
            *final(self) == old(self).cut_inner(old(self).chunk_width(size)).1,
    {
        let (ar, ac) = self.a.dim();
        let (_br, bc) = self.b.dim();
        proof {
            lemma_distinct_size(self.d);
            assert(ar * bc >= 1) by (nonlinear_arith)
                requires
                    ar >= 1,
                    bc >= 1,
            ;
        }
        let mut idx = size / (ar * bc);
        idx = floor_pow2(idx);
        if idx == 0 {
            idx = 1;
        }
        if idx > ac {
            idx = ac;
        }
        let (a1, a2) = self.a.split_at(Axis(1), idx);
        let (b1, b2) = self.b.split_at(Axis(0), idx);
        let chunk = Matrix { a: a1, b: b1, d: self.d, asize: self.asize, bsize: self.bsize, dsize: self.dsize };
        self.a = a2;
        self.b = b2;
        chunk
    }
}

/// The split point of a side of at least two cells lies strictly inside the
/// side, so both parts of the cut have cells.
pub proof fn lemma_split_point(n: nat)
    requires
        n >= 2,
    ensures
        1 <= split_point(n) < n,
{
    let p = next_pow2(n);
    lemma_next_pow2(n);
    lemma_pow2_double(p as int);
    if p > 2 {
        lemma_pow2_double(p as int / 2);
    }
}

/// `k` whole rows of `cols` cells are named by the cell count `k * cols`:
/// the row that holds the last of those cells is row `k - 1`.
pub proof fn lemma_whole_rows(k: int, rows: int, cols: int)
    requires
        0 <= k <= rows,
        1 <= cols,
    ensures
        0 <= k * cols <= rows * cols,
        k >= 1 ==> k * cols >= 1 && (k * cols - 1) / cols == k - 1,
{
    assert(0 <= k * cols <= rows * cols) by (nonlinear_arith)
        requires
            0 <= k <= rows,
            1 <= cols,
    ;
    if k >= 1 {
        assert(k * cols - 1 == (k - 1) * cols + (cols - 1)) by (nonlinear_arith);
        assert(k * cols >= 1) by (nonlinear_arith)
            requires
                k >= 1,
                cols >= 1,
        ;
        lemma_fundamental_div_mod_converse(k * cols - 1, cols, k - 1, cols - 1);
    }
}

/// The parts of a cut of a well-formed problem are well-formed problems on
/// the same buffers. When the cut falls strictly inside the side, both parts
/// have output cells and fewer of them than the whole, so that cutting comes
/// to an end.
pub proof fn lemma_cut(m: Matrix, k: usize, a_len: int, b_len: int, out_len: int)
    requires
        m.valid(a_len, b_len, out_len),
        k <= m.long_side(),
    ensures
        m.cut(k).0.valid(a_len, b_len, out_len),
        m.cut(k).1.valid(a_len, b_len, out_len),
        0 < k < m.long_side() && m.d.rows >= 1 && m.d.cols >= 1 ==> {
            &&& !m.cut(k).0.d.empty()
            &&& !m.cut(k).1.d.empty()
            &&& m.cut(k).0.d.rows + m.cut(k).0.d.cols < m.d.rows + m.d.cols
            &&& m.cut(k).1.d.rows + m.cut(k).1.d.cols < m.d.rows + m.d.cols
            &&& m.cut(k).0.d.rows * m.cut(k).0.d.cols < m.d.rows * m.d.cols
            &&& m.cut(k).1.d.rows * m.cut(k).1.d.cols < m.d.rows * m.d.cols
        },
{
    lemma_split_conformable(a_len, m.a, b_len, m.b, out_len, m.d, k);
    if 0 < k < m.long_side() && m.d.rows >= 1 && m.d.cols >= 1 {
        let rows = m.d.rows as int;
        let cols = m.d.cols as int;
        let k = k as int;
        if m.d.cols > m.d.rows {
            assert(rows * k < rows * cols && rows * (cols - k) < rows * cols) by (nonlinear_arith)
                requires
                    0 < k < cols,
                    1 <= rows,
            ;
        } else {
            assert(k * cols < rows * cols && (rows - k) * cols < rows * cols) by (nonlinear_arith)
                requires
                    0 < k < rows,
                    1 <= cols,
            ;
        }
    }
}

/// The outputs of the two parts of a cut share no element of the buffer, and
/// between them they hold every element of the output of the whole.
pub proof fn lemma_cut_disjoint(m: Matrix, k: usize, p: int)
    requires
        m.wf(),
        k <= m.long_side(),
    ensures
        !(m.cut(k).0.d.covers(p) && m.cut(k).1.d.covers(p)),
        m.d.covers(p) <==> m.cut(k).0.d.covers(p) || m.cut(k).1.d.covers(p),
{
    lemma_split_cells(m.d, m.split_axis(), k, p);
}

/// The two parts of a cut can be solved in either order: solving the second
/// part and then the first also solves the whole problem.
pub proof fn lemma_cut_any_order<T: Scalar>(m: Matrix, k: usize, a: Seq<T>, b: Seq<T>, s0: Seq<T>, s1: Seq<T>, s2: Seq<T>)
    requires
        m.valid(a.len() as int, b.len() as int, s0.len() as int),
        k <= m.long_side(),
        accumulated(s0, s1, m.cut(k).1.d, m.cut(k).1.operands(a, b)),
        accumulated(s1, s2, m.cut(k).0.d, m.cut(k).0.operands(a, b)),
    ensures
        accumulated(s0, s2, m.d, m.operands(a, b)),
{
    let ops = m.operands(a, b);
    let rows = m.d.rows as int;
    let cols = m.d.cols as int;
    let inner = m.a.cols as int;
    let first = m.cut(k).0;
    let second = m.cut(k).1;
    lemma_within_self(m.a);
    lemma_within_self(m.b);
    lemma_split_indices(m.d, m.split_axis(), k);
    lemma_split_within(m.d, m.split_axis(), k);
    if m.d.cols > m.d.rows {
        lemma_split_indices(m.b, Axis(1), k);
        lemma_split_within(m.b, Axis(1), k);
        lemma_accumulated_within(s0, s1, second.d, second.operands(a, b), m.d, ops, 0, k as int, 0);
        lemma_accumulated_within(s1, s2, first.d, first.operands(a, b), m.d, ops, 0, 0, 0);
        lemma_block_cols(0, rows, 0, k as int, cols);
        lemma_block_inside(m.d, 0, rows, 0, k as int);
        lemma_block_inside(m.d, 0, rows, k as int, cols);
        lemma_updated_union(s0, s1, s2, m.d, ops, block(0, rows, k as int, cols), block(0, rows, 0, k as int), 0, inner);
        assert(block(0, rows, k as int, cols).union(block(0, rows, 0, k as int)) =~= cells_of(m.d));
    } else {
        lemma_split_indices(m.a, Axis(0), k);
        lemma_split_within(m.a, Axis(0), k);
        lemma_accumulated_within(s0, s1, second.d, second.operands(a, b), m.d, ops, k as int, 0, 0);
        lemma_accumulated_within(s1, s2, first.d, first.operands(a, b), m.d, ops, 0, 0, 0);
        lemma_block_rows(0, k as int, rows, 0, cols);
        lemma_block_inside(m.d, 0, k as int, 0, cols);
        lemma_block_inside(m.d, k as int, rows, 0, cols);
        lemma_updated_union(s0, s1, s2, m.d, ops, block(k as int, rows, 0, cols), block(0, k as int, 0, cols), 0, inner);
        assert(block(k as int, rows, 0, cols).union(block(0, k as int, 0, cols)) =~= cells_of(m.d));
    }
}

/// The chunk and the rest of a cut of the inner dimension are well-formed
/// problems on the same buffers.
pub proof fn lemma_cut_inner(m: Matrix, k: usize, a_len: int, b_len: int, out_len: int)
    requires
        m.valid(a_len, b_len, out_len),
        k <= m.a.cols,
    ensures
        m.cut_inner(k).0.valid(a_len, b_len, out_len),
        m.cut_inner(k).1.valid(a_len, b_len, out_len),
        m.cut_inner(k).0.a.cols == k,
        m.cut_inner(k).1.a.cols == m.a.cols - k,
{
    lemma_split_conformable(a_len, m.a, b_len, m.b, out_len, m.d, k);
}

/// Solving the two parts of a cut, one after the other, solves the whole
/// problem.
pub proof fn lemma_cut_accumulates<T: Scalar>(m: Matrix, k: usize, a: Seq<T>, b: Seq<T>, s0: Seq<T>, s1: Seq<T>, s2: Seq<T>)
    requires
        m.valid(a.len() as int, b.len() as int, s0.len() as int),
        k <= m.long_side(),
        accumulated(s0, s1, m.cut(k).0.d, m.cut(k).0.operands(a, b)),
        accumulated(s1, s2, m.cut(k).1.d, m.cut(k).1.operands(a, b)),
    ensures
        accumulated(s0, s2, m.d, m.operands(a, b)),
{
    if m.d.cols > m.d.rows {
        lemma_accumulate_cols(s0, s1, s2, m.d, m.operands(a, b), k);
    } else {
        lemma_accumulate_rows(s0, s1, s2, m.d, m.operands(a, b), k);
    }
}

/// Adding a chunk of the inner dimension and then the rest of the problem
/// solves the whole problem.
pub proof fn lemma_cut_inner_accumulates<T: Scalar>(
    m: Matrix,
    k: usize,
    a: Seq<T>,
    b: Seq<T>,
    s0: Seq<T>,
    s1: Seq<T>,
    s2: Seq<T>,
)
    requires
        m.valid(a.len() as int, b.len() as int, s0.len() as int),
        k <= m.a.cols,
        accumulated(s0, s1, m.d, m.cut_inner(k).0.operands(a, b)),
        accumulated(s1, s2, m.d, m.cut_inner(k).1.operands(a, b)),
    ensures
        accumulated(s0, s2, m.d, m.operands(a, b)),
{
    lemma_accumulate_inner(s0, s1, s2, m.d, m.operands(a, b), k);
}

/// Whatever the size hint, a chunk of a problem with inner positions left
/// takes at least one of them and no more than there are.
pub proof fn lemma_chunk_width(m: Matrix, size: usize)
    ensures
        m.chunk_width(size) <= m.a.cols,
        m.a.cols >= 1 ==> m.chunk_width(size) >= 1,
{
}

/// A batch of `n` cells can be cut off a problem that reports a size above
/// `n`, and the cut stays within the longer side of the output.
pub proof fn lemma_batch_cut(m: Matrix, n: usize)
    requires
        m.wf(),
        !m.d.empty(),
        n >= 1,
        m.spec_base_length() > n,
    ensures
        m.can_divide_at(n),
        m.cut_of(n) <= m.long_side(),
{
    let rows = m.d.rows as int;
    let cols = m.d.cols as int;
    let n = n as int;
    if m.d.cols > m.d.rows {
    } else {
        assert((n - 1) / cols < rows) by (nonlinear_arith)
            requires
                1 <= n < rows * cols,
                1 <= cols,
                1 <= rows,
        ;
    }
}

/// The rest that a batch with cells leaves has a shorter output than the
/// whole.
pub proof fn lemma_batch_shrinks(m: Matrix, n: usize)
    requires
        m.gives_batch(n),
    ensures
        m.spec_divide_at(n).1.wf(),
        m.spec_divide_at(n).0.wf(),
        m.spec_divide_at(n).1.d.rows + m.spec_divide_at(n).1.d.cols < m.d.rows + m.d.cols,
{
    lemma_batch_cut(m, n);
    lemma_cut(m, m.cut_of(n), usize::MAX as int, usize::MAX as int, usize::MAX as int);
}

} // verus!
