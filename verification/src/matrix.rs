//! The problem that is cut in four: a list of output blocks, each with the
//! pairs of blocks of A and B whose products are added into it.
//!
//! Cutting the only entry of a problem quarters its output and every one of
//! its pairs, so that each quarter of the output gets, for every pair, the
//! two products of quarters that make up its share.

use vstd::prelude::*;
use crate::algebra::Operands;
use crate::algebra::accumulated;
use crate::algebra::block;
use crate::algebra::cells_of;
use crate::algebra::conformable;
use crate::algebra::dot;
use crate::algebra::inside;
use crate::algebra::lemma_block_cols;
use crate::algebra::lemma_block_rows;
use crate::algebra::lemma_dot_split;
use crate::algebra::lemma_dot_within;
use crate::algebra::lemma_reduce_sum;
use crate::algebra::lemma_updated_nothing;
use crate::algebra::lemma_updated_union;
use crate::algebra::touched;
use crate::algebra::updated;
use crate::driver::Policy;
use crate::driver::kernel_accepts;
use crate::driver::run_leaf;
use crate::my_ndarray::divide_mut;
use crate::my_ndarray::lemma_quadrants;
use crate::my_ndarray::quadrants;
use crate::scalar::Scalar;
use crate::view::Window;
use crate::view::lemma_distinct_size;
use crate::view::lemma_within_trans;
use crate::view::within;

verus! {

/// An output block with the pairs (block of A, block of B) whose products
/// are added into it.
pub type Entry = (Vec<(Window, Window)>, Window);

/// The mathematical value of an [`Entry`].
pub type EntryView = (Seq<(Window, Window)>, Window);

/// A list of entries.
pub struct Matrix {
    pub matrix: Vec<Entry>,
}

impl View for Matrix {
    type V = Seq<EntryView>;

    open spec fn view(&self) -> Seq<EntryView> {
        Seq::new(self.matrix@.len(), |t: int| entry_view(self.matrix@[t]))
    }
}

/// The pairs and the output window of an entry.
pub open spec fn entry_view(e: Entry) -> EntryView {
    (e.0@, e.1)
}

/// The number of output cells of the first `n` entries.
pub open spec fn cells_before(entries: Seq<EntryView>, n: int) -> int
    decreases n,
{
    if n <= 0 {
        0
    } else {
        cells_before(entries, n - 1) + entries[n - 1].1.rows * entries[n - 1].1.cols
    }
}

/// The pairs of quarter number `q` (1 to 4, row by row) of the output that
/// come from one pair: the left half of the matching rows of A with the
/// upper half of the matching columns of B, then the right half with the
/// lower half.
pub open spec fn quarter_pair(pair: (Window, Window), q: int) -> Seq<(Window, Window)> {
    let (a1, a2, a3, a4) = quadrants(pair.0);
    let (b1, b2, b3, b4) = quadrants(pair.1);
    if q == 1 {
        seq![(a1, b1), (a2, b3)]
    } else if q == 2 {
        seq![(a1, b2), (a2, b4)]
    } else if q == 3 {
        seq![(a3, b1), (a4, b3)]
    } else {
        seq![(a3, b2), (a4, b4)]
    }
}

/// The pairs of quarter number `q` of the output: those of every pair, the
/// last pair first.
pub open spec fn quarter_pairs(pairs: Seq<(Window, Window)>, q: int) -> Seq<(Window, Window)>
    decreases pairs.len(),
{
    if pairs.len() == 0 {
        Seq::empty()
    } else {
        quarter_pair(pairs.last(), q) + quarter_pairs(pairs.drop_last(), q)
    }
}

/// The four entries that an entry is cut into: the quadrants of its output,
/// each with its pairs of quarters.
pub open spec fn quartered(e: EntryView) -> (EntryView, EntryView, EntryView, EntryView) {
    let (d1, d2, d3, d4) = quadrants(e.1);
    (
        (quarter_pairs(e.0, 1), d1),
        (quarter_pairs(e.0, 2), d2),
        (quarter_pairs(e.0, 3), d3),
        (quarter_pairs(e.0, 4), d4),
    )
}

/// Every window of the entry can lie in a buffer, and the cells of its
/// output do not alias.
pub open spec fn entry_wf(e: EntryView) -> bool {
    &&& e.1.fits(usize::MAX as int)
    &&& e.1.distinct()
    &&& forall|t: int|
        0 <= t < e.0.len() ==> (#[trigger] e.0[t]).0.fits(usize::MAX as int) && e.0[t].1.fits(usize::MAX as int)
}

impl Matrix {
    /// Every entry is well-formed.
    pub open spec fn wf(self) -> bool {
        forall|t: int| 0 <= t < self@.len() ==> entry_wf(#[trigger] self@[t])
    }

    /// What [`Matrix::divide_at`] returns: an empty problem stays whole and
    /// leaves an empty second part; a problem of one entry is quartered, the
    /// upper two quarters going to the first part and the lower two to the
    /// second; a longer problem gives up its last entry.
    pub open spec fn spec_divide_at(self) -> (Seq<EntryView>, Seq<EntryView>) {
        if self@.len() == 0 {
            (self@, Seq::empty())
        } else if self@.len() == 1 {
            let (v1, v2, v3, v4) = quartered(self@[0]);
            (seq![v1, v2], seq![v3, v4])
        } else {
            (self@.drop_last(), seq![self@.last()])
        }
    }

    /// The size of the problem as a scheduler sees it: the number of output
    /// cells of all entries, or `None` if that number does not fit in a
    /// `usize`.
    pub fn base_length(&self) -> (r: Option<usize>)
        requires
            self.wf(),
        ensures
            r == if cells_before(self@, self@.len() as int) <= usize::MAX {
                Some(cells_before(self@, self@.len() as int) as usize)
            } else {
                None
            },
    {
        let mut sum: usize = 0;
        let mut t: usize = 0;
        while t < self.matrix.len()
            invariant
                self.wf(),
                t <= self.matrix@.len(),
                sum == cells_before(self@, t as int),
            decreases self.matrix@.len() - t,
        {
            let out = self.matrix[t].1;
            proof {
                assert(entry_wf(self@[t as int]));
                lemma_distinct_size(out);
            }
            let cells = out.rows * out.cols;
            match sum.checked_add(cells) {
                Some(s) => {
                    sum = s;
                },
                None => {
                    proof {
                        lemma_cells_grow(self@, t + 1, self@.len() as int);
                    }
                    return None;
                },
            }
            t += 1;
        }
        Some(sum)
    }

    /// Cuts the problem in two. The index is not looked at.
    pub fn divide_at(self, index: usize) -> (r: (Matrix, Matrix))
        requires
            self.wf(),
        ensures
            (r.0@, r.1@) == self.spec_divide_at(),
    {
        let mut this = self;
        if this.matrix.len() == 0 {
            let other: Vec<Entry> = Vec::new();
            let rest = Matrix { matrix: other };
            assert(rest@ =~= Seq::empty());
            (this, rest)
        } else {
            let mut other: Vec<Entry> = Vec::new();
            if this.matrix.len() == 1 {
                let mut copy_self: Vec<Entry> = Vec::new();
                let ghost whole = this@[0];
                let sub_matrix = this.matrix.pop().unwrap();
                assert(entry_view(sub_matrix) == whole);
                proof {
                    assert(entry_wf(whole));
                }
                let (v1, v2, v3, v4) = divide(sub_matrix);
                copy_self.push(v1);
                copy_self.push(v2);
                other.push(v3);
                other.push(v4);
                let first = Matrix { matrix: copy_self };
                let second = Matrix { matrix: other };
                assert(first@ =~= seq![quartered(whole).0, quartered(whole).1]);
                assert(second@ =~= seq![quartered(whole).2, quartered(whole).3]);
                (first, second)
            } else {
                let ghost before = this@;
                let last = this.matrix.pop().unwrap();
                other.push(last);
                let second = Matrix { matrix: other };
                assert(this@ =~= before.drop_last());
                assert(second@ =~= seq![before.last()]);
                (this, second)
            }
        }
    }
}

/// The number of output cells of the first entries does not shrink as more
/// entries are counted.
pub proof fn lemma_cells_grow(entries: Seq<EntryView>, n: int, m: int)
    requires
        0 <= n <= m,
    ensures
        0 <= cells_before(entries, n) <= cells_before(entries, m),
    decreases m,
{
    if n < m {
        lemma_cells_grow(entries, n, m - 1);
        assert(entries[m - 1].1.rows * entries[m - 1].1.cols >= 0) by (nonlinear_arith);
    } else if n > 0 {
        lemma_cells_grow(entries, n - 1, m - 1);
        assert(entries[m - 1].1.rows * entries[m - 1].1.cols >= 0) by (nonlinear_arith);
    }
}

/// Cuts an entry in four: quarters its output, and gives every quarter the
/// two pairs of quarters of each pair that add up to its share.
pub fn divide(sub_matrix: Entry) -> (r: (Entry, Entry, Entry, Entry))
    requires
        entry_wf(entry_view(sub_matrix)),
    ensures
        (entry_view(r.0), entry_view(r.1), entry_view(r.2), entry_view(r.3)) == quartered(entry_view(sub_matrix)),
{
    let ghost whole = sub_matrix.0@;
    assert(forall|t: int|
        0 <= t < whole.len() ==> (#[trigger] whole[t]).0.fits(usize::MAX as int) && whole[t].1.fits(
            usize::MAX as int,
        )) by {
        assert(entry_view(sub_matrix).0 == whole);
    }
    let (mut pairs, out) = sub_matrix;
    let mut r1: Vec<(Window, Window)> = Vec::new();
    let mut r2: Vec<(Window, Window)> = Vec::new();
    let mut r3: Vec<(Window, Window)> = Vec::new();
    let mut r4: Vec<(Window, Window)> = Vec::new();
    let (d1, d2, d3, d4) = divide_mut(out);
    while pairs.len() > 0
        invariant
            forall|t: int|
                0 <= t < whole.len() ==> (#[trigger] whole[t]).0.fits(usize::MAX as int) && whole[t].1.fits(
                    usize::MAX as int,
                ),
            pairs@ == whole.subrange(0, pairs@.len() as int),
            pairs@.len() <= whole.len(),
            r1@ + quarter_pairs(pairs@, 1) == quarter_pairs(whole, 1),
            r2@ + quarter_pairs(pairs@, 2) == quarter_pairs(whole, 2),
            r3@ + quarter_pairs(pairs@, 3) == quarter_pairs(whole, 3),
            r4@ + quarter_pairs(pairs@, 4) == quarter_pairs(whole, 4),
        decreases pairs@.len(),
    {
        let ghost before = pairs@;
        let ghost q1 = r1@;
        let ghost q2 = r2@;
        let ghost q3 = r3@;
        let ghost q4 = r4@;
        let (a, b) = pairs.pop().unwrap();
        assert((a, b) == whole[before.len() - 1]);
        assert(pairs@ =~= before.drop_last());
        let (a1, a2, a3, a4) = crate::my_ndarray::divide(a);
        let (b1, b2, b3, b4) = crate::my_ndarray::divide(b);
        r1.push((a1, b1));
        r1.push((a2, b3));
        r2.push((a1, b2));
        r2.push((a2, b4));
        r3.push((a3, b1));
        r3.push((a4, b3));
        r4.push((a3, b2));
        r4.push((a4, b4));
        proof {
            assert(r1@ =~= q1 + quarter_pair((a, b), 1));
            assert(r2@ =~= q2 + quarter_pair((a, b), 2));
            assert(r3@ =~= q3 + quarter_pair((a, b), 3));
            assert(r4@ =~= q4 + quarter_pair((a, b), 4));
            assert(r1@ + quarter_pairs(pairs@, 1) =~= q1 + quarter_pairs(before, 1));
            assert(r2@ + quarter_pairs(pairs@, 2) =~= q2 + quarter_pairs(before, 2));
            assert(r3@ + quarter_pairs(pairs@, 3) =~= q3 + quarter_pairs(before, 3));
            assert(r4@ + quarter_pairs(pairs@, 4) =~= q4 + quarter_pairs(before, 4));
            assert(pairs@ =~= whole.subrange(0, pairs@.len() as int));
        }
    }
    proof {
        assert(r1@ =~= r1@ + quarter_pairs(pairs@, 1));
        assert(r2@ =~= r2@ + quarter_pairs(pairs@, 2));
        assert(r3@ =~= r3@ + quarter_pairs(pairs@, 3));
        assert(r4@ =~= r4@ + quarter_pairs(pairs@, 4));
    }
    ((r1, d1), (r2, d2), (r3, d3), (r4, d4))
}

/// The sum, over the first `n` pairs, of the dot product of row `i` of the
/// block of A and column `j` of the block of B of the pair.
pub open spec fn pairs_dot<T: Scalar>(a: Seq<T>, b: Seq<T>, pairs: Seq<(Window, Window)>, i: int, j: int, n: int) -> int
    decreases n,
{
    if n <= 0 {
        0
    } else {
        pairs_dot(a, b, pairs, i, j, n - 1) + dot(
            (Operands { a, aw: pairs[n - 1].0, b, bw: pairs[n - 1].1 }),
            i,
            j,
            0,
            pairs[n - 1].0.cols as int,
        )
    }
}

/// Every pair of the entry is, with the output of the entry, a
/// multiplication on buffers of the given lengths.
pub open spec fn entry_valid(e: EntryView, a_len: int, b_len: int, out_len: int) -> bool {
    &&& e.1.fits(out_len)
    &&& e.1.distinct()
    &&& forall|t: int| 0 <= t < e.0.len() ==> conformable(a_len, (#[trigger] e.0[t]).0, b_len, e.0[t].1, out_len, e.1)
}

/// The sum over some pairs depends only on those pairs.
pub proof fn lemma_pairs_dot_prefix<T: Scalar>(
    a: Seq<T>,
    b: Seq<T>,
    s1: Seq<(Window, Window)>,
    s2: Seq<(Window, Window)>,
    i: int,
    j: int,
    n: int,
)
    requires
        forall|t: int| 0 <= t < n ==> s1[t] == s2[t],
    ensures
        pairs_dot(a, b, s1, i, j, n) == pairs_dot(a, b, s2, i, j, n),
    decreases n,
{
    if n > 0 {
        lemma_pairs_dot_prefix(a, b, s1, s2, i, j, n - 1);
    }
}

/// The sum over two lists of pairs, one after the other, is the sum of the
/// sums over each.
pub proof fn lemma_pairs_dot_concat<T: Scalar>(
    a: Seq<T>,
    b: Seq<T>,
    s1: Seq<(Window, Window)>,
    s2: Seq<(Window, Window)>,
    i: int,
    j: int,
    n: int,
)
    requires
        0 <= n <= s2.len(),
    ensures
        pairs_dot(a, b, s1 + s2, i, j, s1.len() + n) == pairs_dot(a, b, s1, i, j, s1.len() as int) + pairs_dot(
            a,
            b,
            s2,
            i,
            j,
            n,
        ),
    decreases n,
{
    if n > 0 {
        lemma_pairs_dot_concat(a, b, s1, s2, i, j, n - 1);
        assert((s1 + s2)[s1.len() + n - 1] == s2[n - 1]);
    } else {
        assert forall|t: int| 0 <= t < s1.len() implies (s1 + s2)[t] == s1[t] by {}
        lemma_pairs_dot_prefix(a, b, s1 + s2, s1, i, j, s1.len() as int);
    }
}

/// Row offset of quarter `q` in an output of `rows` rows.
pub open spec fn quarter_top(q: int, rows: int) -> int {
    if q >= 3 {
        rows / 2
    } else {
        0
    }
}

/// Column offset of quarter `q` in an output of `cols` columns.
pub open spec fn quarter_left(q: int, cols: int) -> int {
    if q == 2 || q == 4 {
        cols / 2
    } else {
        0
    }
}

/// Number of rows of quarter `q` of an output of `rows` rows.
pub open spec fn quarter_rows(q: int, rows: int) -> int {
    if q >= 3 {
        rows - rows / 2
    } else {
        rows / 2
    }
}

/// Number of columns of quarter `q` of an output of `cols` columns.
pub open spec fn quarter_cols(q: int, cols: int) -> int {
    if q == 2 || q == 4 {
        cols - cols / 2
    } else {
        cols / 2
    }
}

/// The two pairs that a quarter of the output gets from one pair add up to
/// the share of the quarter: their dot products at a cell of the quarter sum
/// to the dot product of the whole pair at that cell.
pub proof fn lemma_quarter_pair_dot<T: Scalar>(a: Seq<T>, b: Seq<T>, pair: (Window, Window), q: int, i: int, j: int)
    requires
        1 <= q <= 4,
        pair.0.cols == pair.1.rows,
        pair.0.fits(usize::MAX as int),
        pair.1.fits(usize::MAX as int),
        0 <= i < quarter_rows(q, pair.0.rows as int),
        0 <= j < quarter_cols(q, pair.1.cols as int),
    ensures
        pairs_dot(a, b, quarter_pair(pair, q), i, j, 2) == dot(
            (Operands { a, aw: pair.0, b, bw: pair.1 }),
            i + quarter_top(q, pair.0.rows as int),
            j + quarter_left(q, pair.1.cols as int),
            0,
            pair.0.cols as int,
        ),
{
    let whole = Operands { a, aw: pair.0, b, bw: pair.1 };
    let two = quarter_pair(pair, q);
    let first = Operands { a, aw: two[0].0, b, bw: two[0].1 };
    let second = Operands { a, aw: two[1].0, b, bw: two[1].1 };
    let top = quarter_top(q, pair.0.rows as int);
    let left = quarter_left(q, pair.1.cols as int);
    let ki = (pair.0.cols / 2) as int;
    let inner = pair.0.cols as int;
    lemma_quadrants(pair.0);
    lemma_quadrants(pair.1);
    lemma_dot_within(first, whole, i, j, top, left, 0, ki);
    lemma_dot_within(second, whole, i, j, top, left, ki, inner - ki);
    lemma_dot_split(whole, i + top, j + left, 0, ki, inner);
    assert(pairs_dot(a, b, two, i, j, 2) == pairs_dot(a, b, two, i, j, 1) + dot(second, i, j, 0, inner - ki));
    assert(pairs_dot(a, b, two, i, j, 1) == pairs_dot(a, b, two, i, j, 0) + dot(first, i, j, 0, ki));
}

/// The pairs of a quarter of an entry add up, at every cell of the quarter,
/// to what the pairs of the entry add up to at that cell; and each of them
/// is, with the quarter of the output, a multiplication on the same buffers.
pub proof fn lemma_quarter_pairs<T: Scalar>(
    a: Seq<T>,
    b: Seq<T>,
    e: EntryView,
    q: int,
    i: int,
    j: int,
    a_len: int,
    b_len: int,
    out_len: int,
)
    requires
        1 <= q <= 4,
        entry_valid(e, a_len, b_len, out_len),
    ensures
        quarter_pairs(e.0, q).len() == 2 * e.0.len(),
        0 <= i < quarter_rows(q, e.1.rows as int) && 0 <= j < quarter_cols(q, e.1.cols as int) ==> pairs_dot(
            a,
            b,
            quarter_pairs(e.0, q),
            i,
            j,
            2 * e.0.len() as int,
        ) == pairs_dot(
            a,
            b,
            e.0,
            i + quarter_top(q, e.1.rows as int),
            j + quarter_left(q, e.1.cols as int),
            e.0.len() as int,
        ),
        forall|t: int|
            0 <= t < quarter_pairs(e.0, q).len() ==> {
                &&& (#[trigger] quarter_pairs(e.0, q)[t]).0.rows == quarter_rows(q, e.1.rows as int)
                &&& quarter_pairs(e.0, q)[t].0.cols == quarter_pairs(e.0, q)[t].1.rows
                &&& quarter_pairs(e.0, q)[t].1.cols == quarter_cols(q, e.1.cols as int)
                &&& quarter_pairs(e.0, q)[t].0.fits(a_len)
                &&& quarter_pairs(e.0, q)[t].1.fits(b_len)
            },
    decreases e.0.len(),
{
    let pairs = e.0;
    let qp = quarter_pairs(pairs, q);
    if pairs.len() > 0 {
        let rest: EntryView = (pairs.drop_last(), e.1);
        let last = pairs.last();
        let two = quarter_pair(last, q);
        assert forall|t: int| 0 <= t < rest.0.len() implies conformable(
            a_len,
            (#[trigger] rest.0[t]).0,
            b_len,
            rest.0[t].1,
            out_len,
            rest.1,
        ) by {
            assert(rest.0[t] == pairs[t]);
        }
        lemma_quarter_pairs(a, b, rest, q, i, j, a_len, b_len, out_len);
        let rq = quarter_pairs(rest.0, q);
        assert(qp == two + rq);
        assert(conformable(a_len, last.0, b_len, last.1, out_len, e.1));
        lemma_quadrants(last.0);
        lemma_quadrants(last.1);
        assert forall|t: int| 0 <= t < qp.len() implies {
            &&& (#[trigger] qp[t]).0.rows == quarter_rows(q, e.1.rows as int)
            &&& qp[t].0.cols == qp[t].1.rows
            &&& qp[t].1.cols == quarter_cols(q, e.1.cols as int)
            &&& qp[t].0.fits(a_len)
            &&& qp[t].1.fits(b_len)
        } by {
            if t >= 2 {
                assert(qp[t] == rq[t - 2]);
            } else {
                assert(qp[t] == two[t]);
            }
        }
        if 0 <= i < quarter_rows(q, e.1.rows as int) && 0 <= j < quarter_cols(q, e.1.cols as int) {
            lemma_pairs_dot_concat(a, b, two, rq, i, j, rq.len() as int);
            lemma_quarter_pair_dot(a, b, last, q, i, j);
            let i2 = i + quarter_top(q, e.1.rows as int);
            let j2 = j + quarter_left(q, e.1.cols as int);
            assert forall|t: int| 0 <= t < pairs.len() - 1 implies pairs[t] == rest.0[t] by {}
            lemma_pairs_dot_prefix(a, b, pairs, rest.0, i2, j2, pairs.len() - 1);
        }
    }
}

/// `new` is `old` after the products of the first `n` pairs of the entry
/// were added into its output: every cell of the output grew by the sum of
/// the dot products of those pairs, and nothing else changed.
pub open spec fn entry_updated<T: Scalar>(old: Seq<T>, new: Seq<T>, e: EntryView, a: Seq<T>, b: Seq<T>, n: int) -> bool {
    &&& new.len() == old.len()
    &&& forall|i: int, j: int| #[trigger]
        cells_of(e.1).contains((i, j)) ==> new[e.1.index(i, j)].value() == T::reduce(
            old[e.1.index(i, j)].value() + pairs_dot(a, b, e.0, i, j, n),
        )
    &&& forall|p: int| 0 <= p < old.len() && !touched(e.1, cells_of(e.1), p) ==> #[trigger] new[p] == old[p]
}

/// The entry is the part of the multiplication `root` into `dw` that
/// starts at row `at.0` and column `at.1` of `dw`: its output lies there,
/// and its pairs add up to the whole dot product of every cell.
pub open spec fn entry_placed<T: Scalar>(e: EntryView, root: Operands<T>, dw: Window, at: (int, int)) -> bool {
    &&& within(e.1, dw, at.0, at.1)
    &&& forall|i: int, j: int|
        e.1.contains(i, j) ==> #[trigger] pairs_dot(root.a, root.b, e.0, i, j, e.0.len() as int) == dot(
            root,
            i + at.0,
            j + at.1,
            0,
            root.aw.cols as int,
        )
}

/// The cells of `dw` that the output of an entry placed at `at` covers.
pub open spec fn entry_block(e: EntryView, at: (int, int)) -> Set<(int, int)> {
    block(at.0, at.0 + e.1.rows, at.1, at.1 + e.1.cols)
}

/// The cells of `dw` that the outputs of the first `n` entries cover.
pub open spec fn region(entries: Seq<EntryView>, layout: Seq<(int, int)>, n: int) -> Set<(int, int)>
    decreases n,
{
    if n <= 0 {
        Set::empty()
    } else {
        region(entries, layout, n - 1).union(entry_block(entries[n - 1], layout[n - 1]))
    }
}

/// The entries are parts of the multiplication `root` into `dw`, placed as
/// `layout` says, and no two of their outputs share a cell.
#[verifier::opaque]
pub open spec fn laid_out<T: Scalar>(entries: Seq<EntryView>, layout: Seq<(int, int)>, root: Operands<T>, dw: Window, out_len: int) -> bool {
    &&& layout.len() == entries.len()
    &&& forall|t: int|
        0 <= t < entries.len() ==> entry_valid(#[trigger] entries[t], root.a.len() as int, root.b.len() as int, out_len)
            && entry_placed(entries[t], root, dw, layout[t])
    &&& forall|t: int, u: int|
        0 <= t < u < entries.len() ==> (#[trigger] entry_block(entries[t], layout[t])).disjoint(
            #[trigger] entry_block(entries[u], layout[u]),
        )
}

/// The largest sum of rows and columns among the outputs of the first `n`
/// entries.
pub open spec fn max_side(entries: Seq<EntryView>, n: int) -> int
    decreases n,
{
    if n <= 0 {
        0
    } else {
        let rest = max_side(entries, n - 1);
        let side = entries[n - 1].1.rows + entries[n - 1].1.cols;
        if side > rest {
            side
        } else {
            rest
        }
    }
}

/// Adding the product of the next pair extends what was added into an entry
/// by that pair.
pub proof fn lemma_entry_step<T: Scalar>(s0: Seq<T>, s1: Seq<T>, s2: Seq<T>, e: EntryView, a: Seq<T>, b: Seq<T>, n: int)
    requires
        0 <= n < e.0.len(),
        entry_updated(s0, s1, e, a, b, n),
        accumulated(s1, s2, e.1, (Operands { a, aw: e.0[n].0, b, bw: e.0[n].1 })),
    ensures
        entry_updated(s0, s2, e, a, b, n + 1),
{
    let ops = Operands { a, aw: e.0[n].0, b, bw: e.0[n].1 };
    assert forall|i: int, j: int| #[trigger] cells_of(e.1).contains((i, j)) implies s2[e.1.index(i, j)].value() == T::reduce(
        s0[e.1.index(i, j)].value() + pairs_dot(a, b, e.0, i, j, n + 1),
    ) by {
        lemma_reduce_sum::<T>(
            s0[e.1.index(i, j)].value(),
            pairs_dot(a, b, e.0, i, j, n),
            dot(ops, i, j, 0, e.0[n].0.cols as int),
        );
    }
    assert forall|p: int| 0 <= p < s0.len() && !touched(e.1, cells_of(e.1), p) implies #[trigger] s2[p] == s0[p] by {
        assert(s1[p] == s0[p]);
        assert(s2[p] == s1[p]);
    }
}

/// What was added into an entry by all its pairs is, seen from the whole
/// multiplication, the whole product added into the cells that the entry
/// covers.
pub proof fn lemma_entry_placed<T: Scalar>(s0: Seq<T>, s1: Seq<T>, e: EntryView, root: Operands<T>, dw: Window, at: (int, int))
    requires
        entry_updated(s0, s1, e, root.a, root.b, e.0.len() as int),
        entry_placed(e, root, dw, at),
    ensures
        updated(s0, s1, dw, root, entry_block(e, at), 0, root.aw.cols as int),
        inside(entry_block(e, at), dw),
{
    let cells = entry_block(e, at);
    assert forall|i: int, j: int| #[trigger] cells.contains((i, j)) implies s1[dw.index(i, j)].value() == T::reduce(
        s0[dw.index(i, j)].value() + dot(root, i, j, 0, root.aw.cols as int),
    ) by {
        let i0 = i - at.0;
        let j0 = j - at.1;
        assert(cells_of(e.1).contains((i0, j0)));
        assert(e.1.contains(i0, j0));
        assert(e.1.index(i0, j0) == dw.index(i0 + at.0, j0 + at.1));
        assert(pairs_dot(root.a, root.b, e.0, i0, j0, e.0.len() as int) == dot(
            root,
            i0 + at.0,
            j0 + at.1,
            0,
            root.aw.cols as int,
        ));
    }
    assert forall|p: int| 0 <= p < s0.len() && !touched(dw, cells, p) implies #[trigger] s1[p] == s0[p] by {
        if touched(e.1, cells_of(e.1), p) {
            let (i0, j0) = choose|i0: int, j0: int| #[trigger]
                cells_of(e.1).contains((i0, j0)) && e.1.index(i0, j0) == p;
            assert(e.1.contains(i0, j0));
            assert(e.1.index(i0, j0) == dw.index(i0 + at.0, j0 + at.1));
            assert(cells.contains((i0 + at.0, j0 + at.1)));
        }
    }
}

/// The cells that the first entries cover lie in `dw` and are not covered
/// by a later entry.
pub proof fn lemma_region<T: Scalar>(entries: Seq<EntryView>, layout: Seq<(int, int)>, root: Operands<T>, dw: Window, out_len: int, n: int, u: int)
    requires
        laid_out(entries, layout, root, dw, out_len),
        0 <= n <= u,
        u <= entries.len(),
    ensures
        inside(region(entries, layout, n), dw),
        u < entries.len() ==> region(entries, layout, n).disjoint(entry_block(entries[u], layout[u])),
    decreases n,
{
    reveal(laid_out);
    if n > 0 {
        lemma_region(entries, layout, root, dw, out_len, n - 1, u);
        assert(entry_placed(entries[n - 1], root, dw, layout[n - 1]));
        if u < entries.len() {
            assert(entry_block(entries[n - 1], layout[n - 1]).disjoint(entry_block(entries[u], layout[u])));
        }
    }
}

/// The largest side among the first entries is at least the side of each of
/// them, and it does not shrink as more entries are counted.
pub proof fn lemma_max_side(entries: Seq<EntryView>, n: int, t: int)
    requires
        0 <= t < n,
    ensures
        entries[t].1.rows + entries[t].1.cols <= max_side(entries, n),
        0 <= max_side(entries, t) <= max_side(entries, n),
    decreases n,
{
    if t < n - 1 {
        lemma_max_side(entries, n - 1, t);
    } else if t > 0 {
        lemma_max_side(entries, n - 1, t - 1);
    }
}

/// The largest side among some entries depends only on those entries.
pub proof fn lemma_max_side_prefix(s1: Seq<EntryView>, s2: Seq<EntryView>, n: int)
    requires
        forall|t: int| 0 <= t < n ==> s1[t] == s2[t],
    ensures
        max_side(s1, n) == max_side(s2, n),
    decreases n,
{
    if n > 0 {
        lemma_max_side_prefix(s1, s2, n - 1);
    }
}

/// The cells that some entries cover depend only on those entries and their
/// places.
pub proof fn lemma_region_prefix(s1: Seq<EntryView>, l1: Seq<(int, int)>, s2: Seq<EntryView>, l2: Seq<(int, int)>, n: int)
    requires
        forall|t: int| 0 <= t < n ==> s1[t] == s2[t] && l1[t] == l2[t],
    ensures
        region(s1, l1, n) == region(s2, l2, n),
    decreases n,
{
    if n > 0 {
        lemma_region_prefix(s1, l1, s2, l2, n - 1);
    }
}

/// Runs the kernel on every pair of an entry, in order, dropping pairs
/// with a window that has no cell.
pub fn run_entry<T: Scalar, K>(a: &[T], b: &[T], output: &mut [T], entry: &Entry, kernel: K) where
    K: Fn(&[T], Window, &[T], Window, &mut [T], Window) + Copy,

    requires
        entry_valid(entry_view(*entry), a@.len() as int, b@.len() as int, old(output)@.len() as int),
        kernel_accepts(kernel),
        forall|ka: &[T], kaw: Window, kb: &[T], kbw: Window, kout: &mut [T], kdw: Window|
            conformable(ka@.len() as int, kaw, kb@.len() as int, kbw, (*kout)@.len() as int, kdw)
                && !kaw.empty() && !kbw.empty() && !kdw.empty() && #[trigger] call_ensures(
                kernel,
                (ka, kaw, kb, kbw, kout, kdw),
                (),
            ) ==> accumulated((*kout)@, (*final(kout))@, kdw, (Operands { a: ka@, aw: kaw, b: kb@, bw: kbw })),
    ensures
        entry_updated(old(output)@, final(output)@, entry_view(*entry), a@, b@, entry.0@.len() as int),
{
    let ghost s0 = output@;
    let ghost e = entry_view(*entry);
    let out = entry.1;
    let mut t: usize = 0;
    proof {
        assert forall|i: int, j: int| #[trigger] cells_of(e.1).contains((i, j)) implies s0[e.1.index(
            i,
            j,
        )].value() == T::reduce(s0[e.1.index(i, j)].value() + pairs_dot(a@, b@, e.0, i, j, 0)) by {
            s0[e.1.index(i, j)].lemma_reduce_value();
        }
    }
    while t < entry.0.len()
        invariant
            e == entry_view(*entry),
            out == entry.1,
            entry_valid(e, a@.len() as int, b@.len() as int, s0.len() as int),
            t <= entry.0@.len(),
            kernel_accepts(kernel),
            forall|ka: &[T], kaw: Window, kb: &[T], kbw: Window, kout: &mut [T], kdw: Window|
                conformable(ka@.len() as int, kaw, kb@.len() as int, kbw, (*kout)@.len() as int, kdw)
                    && !kaw.empty() && !kbw.empty() && !kdw.empty() && #[trigger] call_ensures(
                    kernel,
                    (ka, kaw, kb, kbw, kout, kdw),
                    (),
                ) ==> accumulated((*kout)@, (*final(kout))@, kdw, (Operands { a: ka@, aw: kaw, b: kb@, bw: kbw })),
            entry_updated(s0, output@, e, a@, b@, t as int),
        decreases entry.0@.len() - t,
    {
        let (pa, pb) = entry.0[t];
        let ghost s1 = output@;
        let problem = crate::matrix_adaptive::Matrix {
            a: pa,
            b: pb,
            d: out,
            asize: pa.dim(),
            bsize: pb.dim(),
            dsize: out.dim(),
        };
        proof {
            assert(e.0[t as int] == (pa, pb));
            assert(conformable(a@.len() as int, e.0[t as int].0, b@.len() as int, e.0[t as int].1, s0.len() as int, e.1));
        }
        run_leaf(a, b, output, problem, kernel);
        proof {
            lemma_entry_step(s0, s1, output@, e, a@, b@, t as int);
        }
        t += 1;
    }
}

/// Where the four quarters of an entry placed at `at` lie.
pub open spec fn quarter_at(e: EntryView, at: (int, int), q: int) -> (int, int) {
    (at.0 + quarter_top(q, e.1.rows as int), at.1 + quarter_left(q, e.1.cols as int))
}

/// Quarter `q` of an entry that is a part of a multiplication is a part of
/// it too, placed at the matching corner of the entry.
pub proof fn lemma_quarter_placed<T: Scalar>(e: EntryView, at: (int, int), root: Operands<T>, dw: Window, out_len: int, q: int)
    requires
        1 <= q <= 4,
        entry_valid(e, root.a.len() as int, root.b.len() as int, out_len),
        entry_placed(e, root, dw, at),
    ensures
        ({
            let (v1, v2, v3, v4) = quartered(e);
            let v = if q == 1 {
                v1
            } else if q == 2 {
                v2
            } else if q == 3 {
                v3
            } else {
                v4
            };
            &&& entry_valid(v, root.a.len() as int, root.b.len() as int, out_len)
            &&& entry_placed(v, root, dw, quarter_at(e, at, q))
            &&& v.1.rows == quarter_rows(q, e.1.rows as int)
            &&& v.1.cols == quarter_cols(q, e.1.cols as int)
        }),
{
    let (v1, v2, v3, v4) = quartered(e);
    let v = if q == 1 {
        v1
    } else if q == 2 {
        v2
    } else if q == 3 {
        v3
    } else {
        v4
    };
    let a_len = root.a.len() as int;
    let b_len = root.b.len() as int;
    let top = quarter_top(q, e.1.rows as int);
    let left = quarter_left(q, e.1.cols as int);
    lemma_quadrants(e.1);
    lemma_quarter_pairs(root.a, root.b, e, q, 0, 0, a_len, b_len, out_len);
    lemma_within_trans(v.1, e.1, dw, top, left, at.0, at.1);
    assert forall|i: int, j: int| v.1.contains(i, j) implies #[trigger] pairs_dot(
        root.a,
        root.b,
        v.0,
        i,
        j,
        v.0.len() as int,
    ) == dot(root, i + (at.0 + top), j + (at.1 + left), 0, root.aw.cols as int) by {
        lemma_quarter_pairs(root.a, root.b, e, q, i, j, a_len, b_len, out_len);
        assert(e.1.contains(i + top, j + left));
        assert(pairs_dot(root.a, root.b, e.0, i + top, j + left, e.0.len() as int) == dot(
            root,
            i + top + at.0,
            j + left + at.1,
            0,
            root.aw.cols as int,
        ));
    }
}

/// The two halves of a quartered entry: the upper quarters and the lower
/// quarters, with their places.
pub open spec fn quarter_halves(e: EntryView, at: (int, int)) -> (
    (Seq<EntryView>, Seq<(int, int)>),
    (Seq<EntryView>, Seq<(int, int)>),
) {
    let (v1, v2, v3, v4) = quartered(e);
    (
        (seq![v1, v2], seq![quarter_at(e, at, 1), quarter_at(e, at, 2)]),
        (seq![v3, v4], seq![quarter_at(e, at, 3), quarter_at(e, at, 4)]),
    )
}

/// Quartering the only entry of a problem leaves two problems that are laid
/// out in the multiplication like the entry, that cover the cells of the
/// entry between them without sharing one, and whose outputs have shorter
/// sides when the entry has more than one cell.
pub proof fn lemma_quarter_laid_out<T: Scalar>(entries: Seq<EntryView>, layout: Seq<(int, int)>, root: Operands<T>, dw: Window, out_len: int)
    requires
        entries.len() == 1,
        laid_out(entries, layout, root, dw, out_len),
    ensures
        ({
            let (first, second) = quarter_halves(entries[0], layout[0]);
            &&& laid_out(first.0, first.1, root, dw, out_len)
            &&& laid_out(second.0, second.1, root, dw, out_len)
            &&& region(first.0, first.1, 2).union(region(second.0, second.1, 2)) == region(entries, layout, 1)
            &&& region(first.0, first.1, 2).disjoint(region(second.0, second.1, 2))
            &&& entries[0].1.rows >= 1 && entries[0].1.cols >= 1 && entries[0].1.rows + entries[0].1.cols >= 3 ==> {
                &&& max_side(first.0, 2) < max_side(entries, 1)
                &&& max_side(second.0, 2) < max_side(entries, 1)
            }
        }),
{
    reveal(laid_out);
    let e = entries[0];
    let at = layout[0];
    let (first, second) = quarter_halves(e, at);
    let rows = e.1.rows as int;
    let cols = e.1.cols as int;
    let kr = rows / 2;
    let kc = cols / 2;
    lemma_quarter_placed(e, at, root, dw, out_len, 1);
    lemma_quarter_placed(e, at, root, dw, out_len, 2);
    lemma_quarter_placed(e, at, root, dw, out_len, 3);
    lemma_quarter_placed(e, at, root, dw, out_len, 4);
    lemma_block_cols(at.0, at.0 + kr, at.1, at.1 + kc, at.1 + cols);
    lemma_block_cols(at.0 + kr, at.0 + rows, at.1, at.1 + kc, at.1 + cols);
    lemma_block_rows(at.0, at.0 + kr, at.0 + rows, at.1, at.1 + cols);
    assert(region(first.0, first.1, 2) =~= block(at.0, at.0 + kr, at.1, at.1 + cols)) by {
        assert(region(first.0, first.1, 0) =~= Set::empty());
        assert(region(first.0, first.1, 1) =~= entry_block(first.0[0], first.1[0]));
    }
    assert(region(second.0, second.1, 2) =~= block(at.0 + kr, at.0 + rows, at.1, at.1 + cols)) by {
        assert(region(second.0, second.1, 0) =~= Set::empty());
        assert(region(second.0, second.1, 1) =~= entry_block(second.0[0], second.1[0]));
    }
    assert(region(entries, layout, 1) =~= block(at.0, at.0 + rows, at.1, at.1 + cols)) by {
        assert(region(entries, layout, 0) =~= Set::empty());
    }
    assert(max_side(first.0, 1) == first.0[0].1.rows + first.0[0].1.cols) by {
        assert(max_side(first.0, 0) == 0);
    }
    assert(max_side(second.0, 1) == second.0[0].1.rows + second.0[0].1.cols) by {
        assert(max_side(second.0, 0) == 0);
    }
    assert(max_side(entries, 1) == rows + cols) by {
        assert(max_side(entries, 0) == 0);
    }
}

/// Taking the last entry off a problem leaves two problems that are laid
/// out in the multiplication like the whole, that cover its cells between
/// them without sharing one, and whose outputs have no longer sides.
pub proof fn lemma_pop_laid_out<T: Scalar>(entries: Seq<EntryView>, layout: Seq<(int, int)>, root: Operands<T>, dw: Window, out_len: int)
    requires
        entries.len() >= 2,
        laid_out(entries, layout, root, dw, out_len),
    ensures
        laid_out(entries.drop_last(), layout.drop_last(), root, dw, out_len),
        laid_out(seq![entries.last()], seq![layout.last()], root, dw, out_len),
        region(entries.drop_last(), layout.drop_last(), entries.len() - 1).union(
            region(seq![entries.last()], seq![layout.last()], 1),
        ) == region(entries, layout, entries.len() as int),
        region(entries.drop_last(), layout.drop_last(), entries.len() - 1).disjoint(
            region(seq![entries.last()], seq![layout.last()], 1),
        ),
        max_side(entries.drop_last(), entries.len() - 1) <= max_side(entries, entries.len() as int),
        max_side(seq![entries.last()], 1) <= max_side(entries, entries.len() as int),
{
    let n = entries.len() as int;
    let one = seq![entries.last()];
    let one_at = seq![layout.last()];
    lemma_region(entries, layout, root, dw, out_len, n - 1, n - 1);
    reveal(laid_out);
    lemma_region_prefix(entries, layout, entries.drop_last(), layout.drop_last(), n - 1);
    lemma_max_side_prefix(entries, entries.drop_last(), n - 1);
    lemma_max_side(entries, n, n - 1);
    assert(region(one, one_at, 1) =~= entry_block(entries.last(), layout.last())) by {
        assert(region(one, one_at, 0) =~= Set::empty());
    }
    assert(max_side(one, 1) == entries.last().1.rows + entries.last().1.cols) by {
        assert(max_side(one, 0) == 0);
    }
    assert forall|t: int| 0 <= t < n - 1 implies entry_valid(
        #[trigger] entries.drop_last()[t],
        root.a.len() as int,
        root.b.len() as int,
        out_len,
    ) && entry_placed(entries.drop_last()[t], root, dw, layout.drop_last()[t]) by {
        assert(entries.drop_last()[t] == entries[t]);
    }
    assert forall|t: int, u: int| 0 <= t < u < n - 1 implies (#[trigger] entry_block(
        entries.drop_last()[t],
        layout.drop_last()[t],
    )).disjoint(#[trigger] entry_block(entries.drop_last()[u], layout.drop_last()[u])) by {
        assert(entry_block(entries[t], layout[t]).disjoint(entry_block(entries[u], layout[u])));
    }
}

/// Runs the kernel on every pair of every entry, entry by entry.
fn run_entries<T: Scalar, K>(
    a: &[T],
    b: &[T],
    output: &mut [T],
    m: &Matrix,
    kernel: K,
    Ghost(root): Ghost<Operands<T>>,
    Ghost(dw): Ghost<Window>,
    Ghost(layout): Ghost<Seq<(int, int)>>,
) where K: Fn(&[T], Window, &[T], Window, &mut [T], Window) + Copy
    requires
        root.a == a@,
        root.b == b@,
        dw.distinct(),
        dw.fits(old(output)@.len() as int),
        laid_out(m@, layout, root, dw, old(output)@.len() as int),
        kernel_accepts(kernel),
        forall|ka: &[T], kaw: Window, kb: &[T], kbw: Window, kout: &mut [T], kdw: Window|
            conformable(ka@.len() as int, kaw, kb@.len() as int, kbw, (*kout)@.len() as int, kdw)
                && !kaw.empty() && !kbw.empty() && !kdw.empty() && #[trigger] call_ensures(
                kernel,
                (ka, kaw, kb, kbw, kout, kdw),
                (),
            ) ==> accumulated((*kout)@, (*final(kout))@, kdw, (Operands { a: ka@, aw: kaw, b: kb@, bw: kbw })),
    ensures
        updated(old(output)@, final(output)@, dw, root, region(m@, layout, m@.len() as int), 0, root.aw.cols as int),
{
    let ghost s0 = output@;
    let ghost inner = root.aw.cols as int;
    let mut t: usize = 0;
    proof {
        lemma_updated_nothing(s0, dw, root, region(m@, layout, 0), 0, inner);
    }
    while t < m.matrix.len()
        invariant
            root.a == a@,
            root.b == b@,
            inner == root.aw.cols,
            dw.distinct(),
            dw.fits(s0.len() as int),
            laid_out(m@, layout, root, dw, s0.len() as int),
            t <= m.matrix@.len(),
            m@.len() == m.matrix@.len(),
            kernel_accepts(kernel),
            forall|ka: &[T], kaw: Window, kb: &[T], kbw: Window, kout: &mut [T], kdw: Window|
                conformable(ka@.len() as int, kaw, kb@.len() as int, kbw, (*kout)@.len() as int, kdw)
                    && !kaw.empty() && !kbw.empty() && !kdw.empty() && #[trigger] call_ensures(
                    kernel,
                    (ka, kaw, kb, kbw, kout, kdw),
                    (),
                ) ==> accumulated((*kout)@, (*final(kout))@, kdw, (Operands { a: ka@, aw: kaw, b: kb@, bw: kbw })),
            updated(s0, output@, dw, root, region(m@, layout, t as int), 0, inner),
        decreases m.matrix@.len() - t,
    {
        let ghost s1 = output@;
        let ghost e = m@[t as int];
        proof {
            reveal(laid_out);
            assert(entry_valid(e, a@.len() as int, b@.len() as int, s0.len() as int));
            assert(entry_placed(e, root, dw, layout[t as int]));
            assert(e == entry_view(m.matrix@[t as int]));
        }
        run_entry(a, b, output, &m.matrix[t], kernel);
        proof {
            lemma_entry_placed(s1, output@, e, root, dw, layout[t as int]);
            lemma_region(m@, layout, root, dw, s0.len() as int, t as int, t as int);
            lemma_updated_union(
                s0,
                s1,
                output@,
                dw,
                root,
                region(m@, layout, t as int),
                entry_block(e, layout[t as int]),
                0,
                inner,
            );
        }
        t += 1;
    }
}

/// Solves a problem by cutting it until a part reports a size of at most
/// `n`, or is a single entry with at most one output cell, and running the
/// kernel on the pairs of every part.
fn solve<T: Scalar, K>(
    a: &[T],
    b: &[T],
    output: &mut [T],
    m: Matrix,
    n: usize,
    kernel: K,
    Ghost(root): Ghost<Operands<T>>,
    Ghost(dw): Ghost<Window>,
    Ghost(layout): Ghost<Seq<(int, int)>>,
) where K: Fn(&[T], Window, &[T], Window, &mut [T], Window) + Copy
    requires
        root.a == a@,
        root.b == b@,
        dw.distinct(),
        dw.fits(old(output)@.len() as int),
        laid_out(m@, layout, root, dw, old(output)@.len() as int),
        kernel_accepts(kernel),
        forall|ka: &[T], kaw: Window, kb: &[T], kbw: Window, kout: &mut [T], kdw: Window|
            conformable(ka@.len() as int, kaw, kb@.len() as int, kbw, (*kout)@.len() as int, kdw)
                && !kaw.empty() && !kbw.empty() && !kdw.empty() && #[trigger] call_ensures(
                kernel,
                (ka, kaw, kb, kbw, kout, kdw),
                (),
            ) ==> accumulated((*kout)@, (*final(kout))@, kdw, (Operands { a: ka@, aw: kaw, b: kb@, bw: kbw })),
    ensures
        updated(old(output)@, final(output)@, dw, root, region(m@, layout, m@.len() as int), 0, root.aw.cols as int),
    decreases max_side(m@, m@.len() as int), m@.len(),
{
    let ghost s0 = output@;
    let ghost entries = m@;
    let ghost inner = root.aw.cols as int;
    let len = m.matrix.len();
    proof {
        reveal(laid_out);
        assert(m.wf()) by {
            assert forall|t: int| 0 <= t < m@.len() implies entry_wf(#[trigger] m@[t]) by {
                assert(entry_valid(m@[t], a@.len() as int, b@.len() as int, s0.len() as int));
            }
        }
    }
    let single_cell = len == 1 && m.matrix[0].1.rows <= 1 && m.matrix[0].1.cols <= 1;
    let small = match m.base_length() {
        Some(size) => size <= n,
        None => false,
    };
    if len == 0 || single_cell || small {
        run_entries(a, b, output, &m, kernel, Ghost(root), Ghost(dw), Ghost(layout));
        return ;
    }
    let ghost first_layout = if len == 1 {
        quarter_halves(entries[0], layout[0]).0.1
    } else {
        layout.drop_last()
    };
    let ghost second_layout = if len == 1 {
        quarter_halves(entries[0], layout[0]).1.1
    } else {
        seq![layout.last()]
    };
    proof {
        if len == 1 {
            lemma_quarter_laid_out(entries, layout, root, dw, s0.len() as int);
            assert(cells_before(entries, 1) == entries[0].1.rows * entries[0].1.cols) by {
                assert(cells_before(entries, 0) == 0);
            }
            assert(entries[0].1.rows >= 1 && entries[0].1.cols >= 1) by (nonlinear_arith)
                requires
                    entries[0].1.rows * entries[0].1.cols > n,
            ;
        } else {
            lemma_pop_laid_out(entries, layout, root, dw, s0.len() as int);
        }
    }
    let (first, second) = m.divide_at(0);
    solve(a, b, output, first, n, kernel, Ghost(root), Ghost(dw), Ghost(first_layout));
    let ghost s1 = output@;
    solve(a, b, output, second, n, kernel, Ghost(root), Ghost(dw), Ghost(second_layout));
    proof {
        lemma_region(first@, first_layout, root, dw, s0.len() as int, first@.len() as int, first@.len() as int);
        lemma_region(second@, second_layout, root, dw, s0.len() as int, second@.len() as int, second@.len() as int);
        lemma_updated_union(
            s0,
            s1,
            output@,
            dw,
            root,
            region(first@, first_layout, first@.len() as int),
            region(second@, second_layout, second@.len() as int),
            0,
            inner,
        );
    }
}

/// Adds `A x B` into the output window `dw` of `output` by recursive
/// quartering: the problem starts as a single entry with the single pair
/// (A, B), and is cut as [`Matrix::divide_at`] cuts it until the parts are
/// no larger than the policy allows. `kernel` runs on every pair of every
/// part.
///
/// The sequential policy allows any size, so nothing is cut; the static
/// policies allow their granularity or batch size, and the adaptive policy
/// its upper bound.
pub fn multiply_basic<T: Scalar, K>(
    a: &[T],
    aw: Window,
    b: &[T],
    bw: Window,
    output: &mut [T],
    dw: Window,
    policy: Policy,
    kernel: K,
) where K: Fn(&[T], Window, &[T], Window, &mut [T], Window) + Copy
    requires
        conformable(a@.len() as int, aw, b@.len() as int, bw, old(output)@.len() as int, dw),
        kernel_accepts(kernel),
        forall|ka: &[T], kaw: Window, kb: &[T], kbw: Window, kout: &mut [T], kdw: Window|
            conformable(ka@.len() as int, kaw, kb@.len() as int, kbw, (*kout)@.len() as int, kdw)
                && !kaw.empty() && !kbw.empty() && !kdw.empty() && #[trigger] call_ensures(
                kernel,
                (ka, kaw, kb, kbw, kout, kdw),
                (),
            ) ==> accumulated((*kout)@, (*final(kout))@, kdw, (Operands { a: ka@, aw: kaw, b: kb@, bw: kbw })),
    ensures
        accumulated(old(output)@, final(output)@, dw, (Operands { a: a@, aw, b: b@, bw })),
{
    let ghost root = Operands { a: a@, aw, b: b@, bw };
    let ghost layout = seq![(0int, 0int)];
    let n = match policy {
        Policy::Sequential => usize::MAX,
        Policy::FixedGranularity(n) => n,
        Policy::WorkStealingBatch(n) => n,
        Policy::Adaptive(_min, max) => max,
    };
    let mut pairs: Vec<(Window, Window)> = Vec::new();
    pairs.push((aw, bw));
    let mut vec: Vec<Entry> = Vec::new();
    vec.push((pairs, dw));
    let mat = Matrix { matrix: vec };
    proof {
        let e = mat@[0];
        assert(e.0 =~= seq![(aw, bw)]);
        assert(e.1 == dw);
        crate::view::lemma_within_self(dw);
        assert forall|i: int, j: int| e.1.contains(i, j) implies #[trigger] pairs_dot(
            root.a,
            root.b,
            e.0,
            i,
            j,
            e.0.len() as int,
        ) == dot(root, i + 0, j + 0, 0, root.aw.cols as int) by {
            assert(pairs_dot(root.a, root.b, e.0, i, j, 0) == 0);
            assert(pairs_dot(root.a, root.b, e.0, i, j, 1) == pairs_dot(root.a, root.b, e.0, i, j, 0) + dot(
                (Operands { a: root.a, aw: e.0[0].0, b: root.b, bw: e.0[0].1 }),
                i,
                j,
                0,
                e.0[0].0.cols as int,
            ));
        }
        assert(laid_out(mat@, layout, root, dw, output@.len() as int)) by {
            reveal(laid_out);
        }
        assert(region(mat@, layout, 1) =~= cells_of(dw)) by {
            assert(region(mat@, layout, 0) =~= Set::empty());
        }
    }
    solve(a, b, output, mat, n, kernel, Ghost(root), Ghost(dw), Ghost(layout));
}

} // verus!
