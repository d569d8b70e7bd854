//! The geometry of the block partition: a window cut into strips by repeated
//! halving, and a grid of blocks made of strips of strips.

use vstd::prelude::*;
use crate::algebra::conformable;
use crate::view::Axis;
use crate::view::Window;
use crate::view::lemma_split_indices;
use crate::view::lemma_split_within;
use crate::view::lemma_within_self;
use crate::view::lemma_within_trans;
use crate::view::within;

verus! {

/// The strips that repeated halving along `axis` leaves of `w`, in order: a
/// window of at most `chunk` positions (or of a single one) is its own
/// strip; a longer one is cut before position `len / 2`, and its strips are
/// those of the first part followed by those of the second.
pub open spec fn strips(w: Window, axis: Axis, chunk: usize) -> Seq<Window>
    decreases w.spec_len_of(axis),
{
    let len = w.spec_len_of(axis);
    if len <= chunk || len <= 1 {
        seq![w]
    } else {
        let (first, second) = w.spec_split_at(axis, (len / 2) as usize);
        strips(first, axis, chunk) + strips(second, axis, chunk)
    }
}

/// The grid of blocks of `w`: its row strips of at most `row_chunk` rows,
/// each cut into column strips of at most `col_chunk` columns.
pub open spec fn grid_of(w: Window, row_chunk: usize, col_chunk: usize) -> Seq<Seq<Window>> {
    Seq::new(
        strips(w, Axis(0), row_chunk).len(),
        |t: int| strips(strips(w, Axis(0), row_chunk)[t], Axis(1), col_chunk),
    )
}

/// A vector of vectors of windows as a sequence of sequences.
pub open spec fn grid_view(g: Vec<Vec<Window>>) -> Seq<Seq<Window>> {
    Seq::new(g@.len(), |t: int| g@[t]@)
}

/// Where strip number `t` starts along the axis: the sum of the lengths of
/// the strips before it.
pub open spec fn start_of(s: Seq<Window>, axis: Axis, t: int) -> int
    decreases t,
{
    if t <= 0 {
        0
    } else {
        start_of(s, axis, t - 1) + s[t - 1].spec_len_of(axis)
    }
}

/// The strips in `s` lie one after the other along `axis` and together make
/// up `w`: each has the full width of `w` across the axis, starts where the
/// one before it ends, and the last one ends where `w` ends.
pub open spec fn tiled(s: Seq<Window>, w: Window, axis: Axis) -> bool {
    &&& s.len() >= 1
    &&& start_of(s, axis, s.len() as int) == w.spec_len_of(axis)
    &&& forall|t: int|
        0 <= t < s.len() ==> {
            &&& (#[trigger] s[t]).spec_len_of(Axis((1 - axis.0) as usize)) == w.spec_len_of(
                Axis((1 - axis.0) as usize),
            )
            &&& 0 <= start_of(s, axis, t)
            &&& start_of(s, axis, t) + s[t].spec_len_of(axis) <= w.spec_len_of(axis)
            &&& if axis.0 == 0 {
                within(s[t], w, start_of(s, axis, t), 0)
            } else {
                within(s[t], w, 0, start_of(s, axis, t))
            }
        }
}

/// The blocks of the grid `g` tile the window `w`: all strips have the same
/// number of blocks, block `(t, c)` has the height of block `(t, 0)` and the
/// width of block `(0, c)`, and it lies in `w` below the blocks above it and
/// right of the blocks to its left; the heights add up to the rows of `w`
/// and the widths to its columns.
pub open spec fn tiles(g: Seq<Seq<Window>>, w: Window) -> bool {
    &&& g.len() >= 1
    &&& g[0].len() >= 1
    &&& start_of(column(g), Axis(0), g.len() as int) == w.rows
    &&& start_of(g[0], Axis(1), g[0].len() as int) == w.cols
    &&& forall|t: int| 0 <= t < g.len() ==> (#[trigger] g[t]).len() == g[0].len()
    &&& forall|t: int, c: int|
        0 <= t < g.len() && 0 <= c < g[0].len() ==> {
            &&& (#[trigger] g[t][c]).rows == g[t][0].rows
            &&& g[t][c].cols == g[0][c].cols
            &&& 0 <= start_of(column(g), Axis(0), t)
            &&& 0 <= start_of(g[0], Axis(1), c)
            &&& within(g[t][c], w, start_of(column(g), Axis(0), t), start_of(g[0], Axis(1), c))
        }
}

/// The first block of every strip of a grid.
pub open spec fn column(g: Seq<Seq<Window>>) -> Seq<Window> {
    Seq::new(g.len(), |t: int| g[t][0])
}

/// Where strips start does not change when more strips follow, and the
/// strips that follow start where the earlier ones end.
pub proof fn lemma_start_of_concat(s1: Seq<Window>, s2: Seq<Window>, axis: Axis, t: int)
    requires
        0 <= t <= s1.len() + s2.len(),
    ensures
        t <= s1.len() ==> start_of(s1 + s2, axis, t) == start_of(s1, axis, t),
        t >= s1.len() ==> start_of(s1 + s2, axis, t) == start_of(s1, axis, s1.len() as int) + start_of(
            s2,
            axis,
            t - s1.len(),
        ),
    decreases t,
{
    if t > 0 {
        lemma_start_of_concat(s1, s2, axis, t - 1);
        if t <= s1.len() {
            assert((s1 + s2)[t - 1] == s1[t - 1]);
        } else {
            assert((s1 + s2)[t - 1] == s2[t - 1 - s1.len()]);
        }
    }
}

/// Where strips start depends only on their lengths along the axis.
pub proof fn lemma_start_of_same(s1: Seq<Window>, axis1: Axis, s2: Seq<Window>, axis2: Axis, t: int)
    requires
        0 <= t <= s1.len(),
        t <= s2.len(),
        forall|u: int| 0 <= u < t ==> (#[trigger] s1[u]).spec_len_of(axis1) == (#[trigger] s2[u]).spec_len_of(axis2),
    ensures
        start_of(s1, axis1, t) == start_of(s2, axis2, t),
    decreases t,
{
    if t > 0 {
        lemma_start_of_same(s1, axis1, s2, axis2, t - 1);
        assert(s1[t - 1].spec_len_of(axis1) == s2[t - 1].spec_len_of(axis2));
    }
}

/// Strips start further along the axis the later they come.
pub proof fn lemma_start_of_grows(s: Seq<Window>, axis: Axis, t: int, u: int)
    requires
        0 <= t <= u,
    ensures
        0 <= start_of(s, axis, t) <= start_of(s, axis, u),
    decreases u,
{
    if t < u {
        lemma_start_of_grows(s, axis, t, u - 1);
    } else if t > 0 {
        lemma_start_of_grows(s, axis, t - 1, u - 1);
    }
}

/// The strips of a window tile it, keep its strides, and stay inside its
/// buffer and free of overlap if the window is. A window with cells has only
/// strips with cells.
pub proof fn lemma_strips(w: Window, axis: Axis, chunk: usize)
    requires
        axis.0 <= 1,
        w.fits(usize::MAX as int),
    ensures
        tiled(strips(w, axis, chunk), w, axis),
        forall|t: int|
            0 <= t < strips(w, axis, chunk).len() ==> {
                &&& (#[trigger] strips(w, axis, chunk)[t]).row_stride == w.row_stride
                &&& strips(w, axis, chunk)[t].col_stride == w.col_stride
                &&& w.distinct() ==> strips(w, axis, chunk)[t].distinct()
                &&& !w.empty() ==> !strips(w, axis, chunk)[t].empty()
                &&& forall|n: int| w.fits(n) ==> strips(w, axis, chunk)[t].fits(n)
            },
    decreases w.spec_len_of(axis),
{
    let len = w.spec_len_of(axis);
    let s = strips(w, axis, chunk);
    if len <= chunk || len <= 1 {
        lemma_within_self(w);
        assert(start_of(s, axis, 0) == 0);
        assert(start_of(s, axis, 1) == len);
    } else {
        let k = (len / 2) as usize;
        let (first, second) = w.spec_split_at(axis, k);
        let s1 = strips(first, axis, chunk);
        let s2 = strips(second, axis, chunk);
        lemma_split_indices(w, axis, k);
        lemma_split_within(w, axis, k);
        lemma_strips(first, axis, chunk);
        lemma_strips(second, axis, chunk);
        lemma_start_of_concat(s1, s2, axis, s.len() as int);
        assert forall|t: int| 0 <= t < s.len() implies {
            &&& (#[trigger] s[t]).spec_len_of(Axis((1 - axis.0) as usize)) == w.spec_len_of(
                Axis((1 - axis.0) as usize),
            )
            &&& 0 <= start_of(s, axis, t)
            &&& start_of(s, axis, t) + s[t].spec_len_of(axis) <= w.spec_len_of(axis)
            &&& if axis.0 == 0 {
                within(s[t], w, start_of(s, axis, t), 0)
            } else {
                within(s[t], w, 0, start_of(s, axis, t))
            }
            &&& s[t].row_stride == w.row_stride
            &&& s[t].col_stride == w.col_stride
            &&& w.distinct() ==> s[t].distinct()
            &&& !w.empty() ==> !s[t].empty()
            &&& forall|n: int| w.fits(n) ==> s[t].fits(n)
        } by {
            lemma_start_of_concat(s1, s2, axis, t);
            if t < s1.len() {
                assert(s[t] == s1[t]);
                if axis.0 == 0 {
                    lemma_within_trans(s[t], first, w, start_of(s1, axis, t), 0, 0, 0);
                } else {
                    lemma_within_trans(s[t], first, w, 0, start_of(s1, axis, t), 0, 0);
                }
            } else {
                let u = t - s1.len();
                assert(s[t] == s2[u]);
                if axis.0 == 0 {
                    lemma_within_trans(s[t], second, w, start_of(s2, axis, u), 0, k as int, 0);
                } else {
                    lemma_within_trans(s[t], second, w, 0, start_of(s2, axis, u), 0, k as int);
                }
            }
        }
    }
}

/// How a window is cut into strips depends only on its length along the
/// axis: two windows of the same length have the same number of strips, of
/// the same lengths.
pub proof fn lemma_strips_lengths(w1: Window, w2: Window, axis: Axis, chunk: usize)
    requires
        w1.spec_len_of(axis) == w2.spec_len_of(axis),
    ensures
        strips(w1, axis, chunk).len() == strips(w2, axis, chunk).len(),
        forall|t: int|
            0 <= t < strips(w1, axis, chunk).len() ==> (#[trigger] strips(w1, axis, chunk)[t]).spec_len_of(axis)
                == (#[trigger] strips(w2, axis, chunk)[t]).spec_len_of(axis),
    decreases w1.spec_len_of(axis),
{
    let len = w1.spec_len_of(axis);
    if len <= chunk || len <= 1 {
    } else {
        let k = (len / 2) as usize;
        let (f1, g1) = w1.spec_split_at(axis, k);
        let (f2, g2) = w2.spec_split_at(axis, k);
        lemma_strips_lengths(f1, f2, axis, chunk);
        lemma_strips_lengths(g1, g2, axis, chunk);
        let a1 = strips(f1, axis, chunk);
        let b1 = strips(g1, axis, chunk);
        let a2 = strips(f2, axis, chunk);
        let b2 = strips(g2, axis, chunk);
        assert forall|t: int| 0 <= t < (a1 + b1).len() implies (#[trigger] (a1 + b1)[t]).spec_len_of(axis) == (
        #[trigger] (a2 + b2)[t]).spec_len_of(axis) by {
            if t < a1.len() {
                assert((a1 + b1)[t] == a1[t]);
                assert((a2 + b2)[t] == a2[t]);
            } else {
                assert((a1 + b1)[t] == b1[t - a1.len()]);
                assert((a2 + b2)[t] == b2[t - a2.len()]);
            }
        }
    }
}

/// The grid of a window tiles it.
pub proof fn lemma_grid_tiles(w: Window, row_chunk: usize, col_chunk: usize)
    requires
        w.fits(usize::MAX as int),
    ensures
        tiles(grid_of(w, row_chunk, col_chunk), w),
        forall|t: int, c: int|
            0 <= t < grid_of(w, row_chunk, col_chunk).len() && 0 <= c < grid_of(w, row_chunk, col_chunk)[0].len()
                ==> {
                &&& forall|n: int| w.fits(n) ==> (#[trigger] grid_of(w, row_chunk, col_chunk)[t][c]).fits(n)
                &&& w.distinct() ==> grid_of(w, row_chunk, col_chunk)[t][c].distinct()
            },
{
    let g = grid_of(w, row_chunk, col_chunk);
    let rows = strips(w, Axis(0), row_chunk);
    lemma_strips(w, Axis(0), row_chunk);
    lemma_strips(rows[0], Axis(1), col_chunk);
    assert forall|t: int| 0 <= t < g.len() implies (#[trigger] g[t]).len() == g[0].len() by {
        lemma_strips_lengths(rows[t], rows[0], Axis(1), col_chunk);
    }
    assert forall|t: int| 0 <= t <= g.len() implies start_of(column(g), Axis(0), t) == start_of(rows, Axis(0), t) by {
        assert forall|u: int| 0 <= u < t implies (#[trigger] column(g)[u]).spec_len_of(Axis(0)) == (
        #[trigger] rows[u]).spec_len_of(Axis(0)) by {
            lemma_strips(rows[u], Axis(1), col_chunk);
            assert(g[u][0] == strips(rows[u], Axis(1), col_chunk)[0]);
        }
        lemma_start_of_same(column(g), Axis(0), rows, Axis(0), t);
    }
    assert forall|t: int, c: int| 0 <= t < g.len() && 0 <= c < g[0].len() implies {
        &&& (#[trigger] g[t][c]).rows == g[t][0].rows
        &&& g[t][c].cols == g[0][c].cols
        &&& 0 <= start_of(column(g), Axis(0), t)
        &&& 0 <= start_of(g[0], Axis(1), c)
        &&& within(g[t][c], w, start_of(column(g), Axis(0), t), start_of(g[0], Axis(1), c))
        &&& forall|n: int| w.fits(n) ==> g[t][c].fits(n)
        &&& w.distinct() ==> g[t][c].distinct()
    } by {
        lemma_strips(rows[t], Axis(1), col_chunk);
        lemma_strips_lengths(rows[t], rows[0], Axis(1), col_chunk);
        assert(g[t].len() == g[0].len());
        lemma_start_of_same(g[t], Axis(1), g[0], Axis(1), c);
        assert(g[t][0].rows == rows[t].rows);
        lemma_within_trans(g[t][c], rows[t], w, 0, start_of(g[t], Axis(1), c), start_of(rows, Axis(0), t), 0);
    }
    assert(start_of(column(g), Axis(0), g.len() as int) == start_of(rows, Axis(0), g.len() as int));
}

/// Three grids make up a block partition of one multiplication: each grid
/// tiles its window, the row strips of A are those of the output, the
/// column strips of A are the row strips of B, the column strips of B are
/// those of the output, every block lies inside its buffer, and the blocks of
/// the output have distinct cells.
#[verifier::opaque]
pub open spec fn partitioned(
    ag: Seq<Seq<Window>>,
    bg: Seq<Seq<Window>>,
    cg: Seq<Seq<Window>>,
    aw: Window,
    bw: Window,
    dw: Window,
    a_len: int,
    b_len: int,
    out_len: int,
) -> bool {
    &&& conformable(a_len, aw, b_len, bw, out_len, dw)
    &&& tiles(ag, aw)
    &&& tiles(bg, bw)
    &&& tiles(cg, dw)
    &&& ag.len() == cg.len()
    &&& ag[0].len() == bg.len()
    &&& bg[0].len() == cg[0].len()
    &&& forall|t: int| 0 <= t < ag.len() ==> (#[trigger] ag[t])[0].rows == cg[t][0].rows
    &&& forall|u: int| 0 <= u < bg.len() ==> (#[trigger] bg[u])[0].rows == ag[0][u].cols
    &&& forall|c: int| 0 <= c < cg[0].len() ==> (#[trigger] cg[0][c]).cols == bg[0][c].cols
    &&& forall|t: int, u: int| 0 <= t < ag.len() && 0 <= u < ag[0].len() ==> (#[trigger] ag[t][u]).fits(a_len)
    &&& forall|u: int, c: int| 0 <= u < bg.len() && 0 <= c < bg[0].len() ==> (#[trigger] bg[u][c]).fits(b_len)
    &&& forall|t: int, c: int|
        0 <= t < cg.len() && 0 <= c < cg[0].len() ==> (#[trigger] cg[t][c]).fits(out_len) && cg[t][c].distinct()
}

/// In a block partition, block `(t, u)` of A, block `(u, c)` of B and block
/// `(t, c)` of the output form a multiplication of their own, and they lie
/// in the three windows at the place that the strips before them leave.
pub proof fn lemma_partition_block(
    ag: Seq<Seq<Window>>,
    bg: Seq<Seq<Window>>,
    cg: Seq<Seq<Window>>,
    aw: Window,
    bw: Window,
    dw: Window,
    a_len: int,
    b_len: int,
    out_len: int,
    t: int,
    u: int,
    c: int,
)
    requires
        partitioned(ag, bg, cg, aw, bw, dw, a_len, b_len, out_len),
        0 <= t < cg.len(),
        0 <= u < bg.len(),
        0 <= c < cg[0].len(),
    ensures
        conformable(a_len, ag[t][u], b_len, bg[u][c], out_len, cg[t][c]),
        within(cg[t][c], dw, start_of(column(cg), Axis(0), t), start_of(cg[0], Axis(1), c)),
        within(ag[t][u], aw, start_of(column(cg), Axis(0), t), start_of(ag[0], Axis(1), u)),
        within(bg[u][c], bw, start_of(ag[0], Axis(1), u), start_of(cg[0], Axis(1), c)),
        start_of(column(cg), Axis(0), t + 1) == start_of(column(cg), Axis(0), t) + cg[t][c].rows,
        start_of(cg[0], Axis(1), c + 1) == start_of(cg[0], Axis(1), c) + cg[t][c].cols,
        start_of(ag[0], Axis(1), u + 1) == start_of(ag[0], Axis(1), u) + ag[t][u].cols,
{
    reveal(partitioned);
    assert(ag[t].len() == ag[0].len());
    assert(bg[u].len() == bg[0].len());
    assert(cg[t].len() == cg[0].len());
    assert(ag[t][u].rows == ag[t][0].rows);
    assert(ag[t][u].cols == ag[0][u].cols);
    assert(bg[u][c].rows == bg[u][0].rows);
    assert(bg[u][c].cols == bg[0][c].cols);
    assert(cg[t][c].rows == cg[t][0].rows);
    assert(cg[t][c].cols == cg[0][c].cols);
    assert forall|v: int| 0 <= v < t implies (#[trigger] column(ag)[v]).spec_len_of(Axis(0)) == (#[trigger] column(
        cg,
    )[v]).spec_len_of(Axis(0)) by {
        assert(ag[v][0].rows == cg[v][0].rows);
    }
    lemma_start_of_same(column(ag), Axis(0), column(cg), Axis(0), t);
    assert forall|v: int| 0 <= v < u implies (#[trigger] column(bg)[v]).spec_len_of(Axis(0)) == (#[trigger] ag[0][v]).spec_len_of(
        Axis(1),
    ) by {
        assert(bg[v][0].rows == ag[0][v].cols);
    }
    lemma_start_of_same(column(bg), Axis(0), ag[0], Axis(1), u);
    assert forall|v: int| 0 <= v < c implies (#[trigger] bg[0][v]).spec_len_of(Axis(1)) == (#[trigger] cg[0][v]).spec_len_of(
        Axis(1),
    ) by {
        assert(cg[0][v].cols == bg[0][v].cols);
    }
    lemma_start_of_same(bg[0], Axis(1), cg[0], Axis(1), c);
    assert(column(cg)[t] == cg[t][0]);
}

/// In a block partition the strips of A, B and the output along each of the
/// three dimensions end where the dimension ends, the three windows form a
/// multiplication, and the grids have matching numbers of strips and blocks.
pub proof fn lemma_partition_ends(
    ag: Seq<Seq<Window>>,
    bg: Seq<Seq<Window>>,
    cg: Seq<Seq<Window>>,
    aw: Window,
    bw: Window,
    dw: Window,
    a_len: int,
    b_len: int,
    out_len: int,
)
    requires
        partitioned(ag, bg, cg, aw, bw, dw, a_len, b_len, out_len),
    ensures
        start_of(column(cg), Axis(0), cg.len() as int) == dw.rows,
        start_of(cg[0], Axis(1), cg[0].len() as int) == dw.cols,
        start_of(ag[0], Axis(1), bg.len() as int) == aw.cols,
        conformable(a_len, aw, b_len, bw, out_len, dw),
        ag.len() == cg.len(),
        forall|t: int| 0 <= t < ag.len() ==> (#[trigger] ag[t]).len() == bg.len(),
        forall|u: int| 0 <= u < bg.len() ==> (#[trigger] bg[u]).len() == cg[0].len(),
        forall|t: int| 0 <= t < cg.len() ==> (#[trigger] cg[t]).len() == cg[0].len(),
{
    reveal(partitioned);
}

/// The first blocks of the strips of a grid have the heights of the row
/// strips, and the blocks of its first strip are the column strips of the
/// first row strip.
pub proof fn lemma_grid_sides(w: Window, row_chunk: usize, col_chunk: usize)
    requires
        w.fits(usize::MAX as int),
    ensures
        grid_of(w, row_chunk, col_chunk).len() == strips(w, Axis(0), row_chunk).len() >= 1,
        grid_of(w, row_chunk, col_chunk)[0] == strips(strips(w, Axis(0), row_chunk)[0], Axis(1), col_chunk),
        strips(w, Axis(0), row_chunk)[0].cols == w.cols,
        forall|t: int|
            0 <= t < strips(w, Axis(0), row_chunk).len() ==> (#[trigger] grid_of(w, row_chunk, col_chunk)[t])[0].rows
                == strips(w, Axis(0), row_chunk)[t].rows,
{
    let rows = strips(w, Axis(0), row_chunk);
    lemma_strips(w, Axis(0), row_chunk);
    assert forall|t: int| 0 <= t < rows.len() implies (#[trigger] grid_of(w, row_chunk, col_chunk)[t])[0].rows
        == rows[t].rows by {
        lemma_strips(rows[t], Axis(1), col_chunk);
    }
}

/// The grids that [`grid_of`] cuts of the three windows of a multiplication,
/// with the rows of A and the output and the columns of B and the output in
/// strips of at most `chunkh`, and the inner dimension in strips of at most
/// `chunkw`, are a block partition of it.
pub proof fn lemma_cut_partitioned(
    aw: Window,
    bw: Window,
    dw: Window,
    chunkw: usize,
    chunkh: usize,
    a_len: int,
    b_len: int,
    out_len: int,
)
    requires
        conformable(a_len, aw, b_len, bw, out_len, dw),
    ensures
        partitioned(
            grid_of(aw, chunkh, chunkw),
            grid_of(bw, chunkw, chunkh),
            grid_of(dw, chunkh, chunkh),
            aw,
            bw,
            dw,
            a_len,
            b_len,
            out_len,
        ),
{
    reveal(partitioned);
    let ag = grid_of(aw, chunkh, chunkw);
    let bg = grid_of(bw, chunkw, chunkh);
    let cg = grid_of(dw, chunkh, chunkh);
    let arows = strips(aw, Axis(0), chunkh);
    let brows = strips(bw, Axis(0), chunkw);
    let crows = strips(dw, Axis(0), chunkh);
    lemma_grid_sides(aw, chunkh, chunkw);
    lemma_grid_sides(bw, chunkw, chunkh);
    lemma_grid_sides(dw, chunkh, chunkh);
    assert(tiles(ag, aw) && tiles(bg, bw) && tiles(cg, dw)) by {
        lemma_grid_tiles(aw, chunkh, chunkw);
        lemma_grid_tiles(bw, chunkw, chunkh);
        lemma_grid_tiles(dw, chunkh, chunkh);
    }
    assert(forall|t: int, u: int| 0 <= t < ag.len() && 0 <= u < ag[0].len() ==> (#[trigger] ag[t][u]).fits(a_len))
        by {
        lemma_grid_tiles(aw, chunkh, chunkw);
    }
    assert(forall|u: int, c: int| 0 <= u < bg.len() && 0 <= c < bg[0].len() ==> (#[trigger] bg[u][c]).fits(b_len))
        by {
        lemma_grid_tiles(bw, chunkw, chunkh);
    }
    assert(forall|t: int, c: int|
        0 <= t < cg.len() && 0 <= c < cg[0].len() ==> (#[trigger] cg[t][c]).fits(out_len) && cg[t][c].distinct())
        by {
        lemma_grid_tiles(dw, chunkh, chunkh);
    }
    assert(ag.len() == cg.len() && forall|t: int| 0 <= t < ag.len() ==> (#[trigger] ag[t])[0].rows == cg[t][0].rows)
        by {
        lemma_strips_lengths(aw, dw, Axis(0), chunkh);
        assert forall|t: int| 0 <= t < ag.len() implies (#[trigger] ag[t])[0].rows == cg[t][0].rows by {
            assert(arows[t].spec_len_of(Axis(0)) == crows[t].spec_len_of(Axis(0)));
        }
    }
    assert(ag[0].len() == bg.len() && forall|u: int| 0 <= u < bg.len() ==> (#[trigger] bg[u])[0].rows == ag[0][u].cols)
        by {
        lemma_strips_transposed(arows[0], bw, chunkw);
        assert forall|u: int| 0 <= u < bg.len() implies (#[trigger] bg[u])[0].rows == ag[0][u].cols by {
            assert(strips(arows[0], Axis(1), chunkw)[u].cols == brows[u].rows);
        }
    }
    assert(bg[0].len() == cg[0].len() && forall|c: int|
        0 <= c < cg[0].len() ==> (#[trigger] cg[0][c]).cols == bg[0][c].cols) by {
        lemma_strips_lengths(crows[0], brows[0], Axis(1), chunkh);
        assert forall|c: int| 0 <= c < cg[0].len() implies (#[trigger] cg[0][c]).cols == bg[0][c].cols by {
            assert(strips(crows[0], Axis(1), chunkh)[c].spec_len_of(Axis(1)) == strips(
                brows[0],
                Axis(1),
                chunkh,
            )[c].spec_len_of(Axis(1)));
        }
    }
}

/// Cutting the columns of one window and the rows of another of the same
/// length gives strips of the same lengths.
pub proof fn lemma_strips_transposed(w1: Window, w2: Window, chunk: usize)
    requires
        w1.cols == w2.rows,
    ensures
        strips(w1, Axis(1), chunk).len() == strips(w2, Axis(0), chunk).len(),
        forall|t: int|
            0 <= t < strips(w1, Axis(1), chunk).len() ==> (#[trigger] strips(w1, Axis(1), chunk)[t]).cols == (
            #[trigger] strips(w2, Axis(0), chunk)[t]).rows,
    decreases w1.cols,
{
    let len = w1.cols;
    if len <= chunk || len <= 1 {
    } else {
        let k = (len / 2) as usize;
        let (f1, g1) = w1.spec_split_at(Axis(1), k);
        let (f2, g2) = w2.spec_split_at(Axis(0), k);
        lemma_strips_transposed(f1, f2, chunk);
        lemma_strips_transposed(g1, g2, chunk);
        let a1 = strips(f1, Axis(1), chunk);
        let b1 = strips(g1, Axis(1), chunk);
        let a2 = strips(f2, Axis(0), chunk);
        let b2 = strips(g2, Axis(0), chunk);
        assert forall|t: int| 0 <= t < (a1 + b1).len() implies (#[trigger] (a1 + b1)[t]).cols == (#[trigger] (a2
            + b2)[t]).rows by {
            if t < a1.len() {
                assert((a1 + b1)[t] == a1[t]);
                assert((a2 + b2)[t] == a2[t]);
            } else {
                assert((a1 + b1)[t] == b1[t - a1.len()]);
                assert((a2 + b2)[t] == b2[t - a2.len()]);
            }
        }
    }
}

} // verus!
