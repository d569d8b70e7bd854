//! Scheduling policies and the entry point that runs a multiplication under
//! one of them.
//!
//! Every policy cuts the problem into parts, hands each part that has cells
//! to a sequential kernel, and lets the parts write into the one output
//! buffer. The parts of a cut of the output never share a cell; chunks of the
//! inner dimension do share the output, and run one after the other.

use vstd::prelude::*;
use crate::algebra::Operands;
use crate::algebra::accumulated;
use crate::algebra::block;
use crate::algebra::cells_of;
use crate::algebra::conformable;
use crate::algebra::dot;
use crate::algebra::lemma_accumulate_nothing;
use crate::algebra::lemma_accumulated_degenerate;
use crate::algebra::lemma_accumulated_from_zero;
use crate::algebra::lemma_accumulated_unique;
use crate::algebra::lemma_accumulated_within;
use crate::algebra::lemma_block_inside;
use crate::algebra::lemma_updated_inner;
use crate::algebra::lemma_updated_nothing;
use crate::algebra::lemma_updated_union;
use crate::algebra::updated;
use crate::matrix_adaptive::Matrix;
use crate::matrix_adaptive::lemma_batch_cut;
use crate::matrix_adaptive::lemma_batch_shrinks;
use crate::matrix_adaptive::lemma_chunk_width;
use crate::matrix_adaptive::lemma_cut;
use crate::matrix_adaptive::lemma_cut_accumulates;
use crate::matrix_adaptive::lemma_cut_inner;
use crate::matrix_adaptive::lemma_split_point;
use crate::scalar::Scalar;
use crate::view::Axis;
use crate::view::Window;
use crate::view::lemma_distinct_size;
use crate::view::lemma_split_within;
use crate::view::lemma_within_self;
use crate::view::lemma_within_trans;
use crate::view::within;

verus! {

/// How a multiplication is cut into parts before the kernel runs.
#[derive(Clone, Copy, Debug, PartialEq, Eq, Structural)]
pub enum Policy {
    /// No cut: the kernel runs once on the whole problem.
    Sequential,
    /// Cut in two again and again, until a part reports a size of at most
    /// the given number of output cells.
    FixedGranularity(usize),
    /// Cut off batches of about the given number of output cells from the
    /// front, one after the other, until the rest is no larger than one
    /// batch. A batch size of 0 counts as 1.
    WorkStealingBatch(usize),
    /// Take chunks off the inner dimension one at a time. The size hint
    /// for each chunk is the work that remains, kept between the two
    /// bounds and recomputed after every chunk.
    Adaptive(usize, usize),
}

/// A sequential kernel can be called on every multiplication whose windows
/// agree and have cells.
pub open spec fn kernel_accepts<T: Scalar, K: Fn(&[T], Window, &[T], Window, &mut [T], Window)>(kernel: K) -> bool {
    forall|a: &[T], aw: Window, b: &[T], bw: Window, out: &mut [T], dw: Window|
        conformable(a@.len() as int, aw, b@.len() as int, bw, (*out)@.len() as int, dw) && !aw.empty()
            && !bw.empty() && !dw.empty() ==> #[trigger] call_requires(kernel, (a, aw, b, bw, out, dw))
}

/// The work that is left in a problem: output cells times inner positions,
/// or `usize::MAX` if that is too large for a `usize`.
pub open spec fn remaining_work(m: Matrix) -> usize {
    if m.d.rows * m.d.cols * m.a.cols > usize::MAX {
        usize::MAX
    } else {
        (m.d.rows * m.d.cols * m.a.cols) as usize
    }
}

/// The size hint of the adaptive policy: the remaining work, raised to
/// `min` if it is less and then lowered to `max` if it is more.
pub open spec fn chunk_hint(work: usize, min: usize, max: usize) -> usize {
    let raised = if work < min {
        min
    } else {
        work
    };
    if raised > max {
        max
    } else {
        raised
    }
}

/// Adds `A x B` into the output window `dw` of `output`, cutting the work as
/// `policy` says and running `kernel` on each part that has cells.
///
/// The result does not depend on the policy: afterwards every cell of `dw`
/// holds its earlier value plus the dot product of its row of A and its
/// column of B, and every other element of `output` is unchanged.
pub fn multiply<T: Scalar, K>(
    a: &[T],
    aw: Window,
    b: &[T],
    bw: Window,
    output: &mut [T],
    dw: Window,
    policy: Policy,
    kernel: K,
) where K: Fn(&[T], Window, &[T], Window, &mut [T], Window) + Copy
    requires
        conformable(a@.len() as int, aw, b@.len() as int, bw, old(output)@.len() as int, dw),
        kernel_accepts(kernel),
        forall|ka: &[T], kaw: Window, kb: &[T], kbw: Window, kout: &mut [T], kdw: Window|
            conformable(ka@.len() as int, kaw, kb@.len() as int, kbw, (*kout)@.len() as int, kdw)
                && !kaw.empty() && !kbw.empty() && !kdw.empty() && #[trigger] call_ensures(
                kernel,
                (ka, kaw, kb, kbw, kout, kdw),
                (),
            ) ==> accumulated((*kout)@, (*final(kout))@, kdw, (Operands { a: ka@, aw: kaw, b: kb@, bw: kbw })),
    ensures
        accumulated(old(output)@, final(output)@, dw, (Operands { a: a@, aw, b: b@, bw })),
{
    let problem = Matrix { a: aw, b: bw, d: dw, asize: aw.dim(), bsize: bw.dim(), dsize: dw.dim() };
    match policy {
        Policy::Sequential => run_leaf(a, b, output, problem, kernel),
        Policy::FixedGranularity(n) => fork_join(a, b, output, problem, n, kernel),
        Policy::WorkStealingBatch(n) => batches(
            a,
            b,
            output,
            problem,
            if n == 0 {
                1
            } else {
                n
            },
            kernel,
        ),
        Policy::Adaptive(min, max) => chunks(a, b, output, problem, min, max, kernel),
    }
}

/// Runs the kernel on a problem, unless one of its windows has no cell:
/// such a problem is dropped.
pub fn run_leaf<T: Scalar, K>(a: &[T], b: &[T], output: &mut [T], problem: Matrix, kernel: K) where
    K: Fn(&[T], Window, &[T], Window, &mut [T], Window) + Copy,

    requires
        problem.valid(a@.len() as int, b@.len() as int, old(output)@.len() as int),
        kernel_accepts(kernel),
        forall|ka: &[T], kaw: Window, kb: &[T], kbw: Window, kout: &mut [T], kdw: Window|
            conformable(ka@.len() as int, kaw, kb@.len() as int, kbw, (*kout)@.len() as int, kdw)
                && !kaw.empty() && !kbw.empty() && !kdw.empty() && #[trigger] call_ensures(
                kernel,
                (ka, kaw, kb, kbw, kout, kdw),
                (),
            ) ==> accumulated((*kout)@, (*final(kout))@, kdw, (Operands { a: ka@, aw: kaw, b: kb@, bw: kbw })),
    ensures
        accumulated(old(output)@, final(output)@, problem.d, problem.operands(a@, b@)),
{
    if problem.is_degenerate() {
        proof {
            lemma_accumulate_nothing(output@, problem.d, problem.operands(a@, b@));
        }
    } else {
        kernel(a, problem.a, b, problem.b, output, problem.d);
    }
}

/// Static fork-join: cuts the problem near the middle of the longer side of
/// its output until a part reports a size of at most `n` or cannot be cut,
/// and solves the parts in order.
pub fn fork_join<T: Scalar, K>(a: &[T], b: &[T], output: &mut [T], problem: Matrix, n: usize, kernel: K) where
    K: Fn(&[T], Window, &[T], Window, &mut [T], Window) + Copy,

    requires
        problem.valid(a@.len() as int, b@.len() as int, old(output)@.len() as int),
        kernel_accepts(kernel),
        forall|ka: &[T], kaw: Window, kb: &[T], kbw: Window, kout: &mut [T], kdw: Window|
            conformable(ka@.len() as int, kaw, kb@.len() as int, kbw, (*kout)@.len() as int, kdw)
                && !kaw.empty() && !kbw.empty() && !kdw.empty() && #[trigger] call_ensures(
                kernel,
                (ka, kaw, kb, kbw, kout, kdw),
                (),
            ) ==> accumulated((*kout)@, (*final(kout))@, kdw, (Operands { a: ka@, aw: kaw, b: kb@, bw: kbw })),
    ensures
        accumulated(old(output)@, final(output)@, problem.d, problem.operands(a@, b@)),
    decreases problem.d.rows + problem.d.cols,
{
    if problem.should_divide(n) {
        let ghost s0 = output@;
        let ghost k = crate::matrix_adaptive::split_point(problem.long_side() as nat) as usize;
        proof {
            lemma_split_point(problem.long_side() as nat);
            lemma_cut(problem, k, a@.len() as int, b@.len() as int, s0.len() as int);
        }
        let (first, second) = problem.divide();
        fork_join(a, b, output, first, n, kernel);
        let ghost s1 = output@;
        fork_join(a, b, output, second, n, kernel);
        proof {
            lemma_cut_accumulates(problem, k, a@, b@, s0, s1, output@);
        }
    } else {
        run_leaf(a, b, output, problem, kernel);
    }
}

/// Takes chunks off the inner dimension until none is left, and adds each
/// chunk into the output before the next one is taken.
pub fn chunks<T: Scalar, K>(a: &[T], b: &[T], output: &mut [T], problem: Matrix, min: usize, max: usize, kernel: K) where
    K: Fn(&[T], Window, &[T], Window, &mut [T], Window) + Copy,

    requires
        problem.valid(a@.len() as int, b@.len() as int, old(output)@.len() as int),
        kernel_accepts(kernel),
        forall|ka: &[T], kaw: Window, kb: &[T], kbw: Window, kout: &mut [T], kdw: Window|
            conformable(ka@.len() as int, kaw, kb@.len() as int, kbw, (*kout)@.len() as int, kdw)
                && !kaw.empty() && !kbw.empty() && !kdw.empty() && #[trigger] call_ensures(
                kernel,
                (ka, kaw, kb, kbw, kout, kdw),
                (),
            ) ==> accumulated((*kout)@, (*final(kout))@, kdw, (Operands { a: ka@, aw: kaw, b: kb@, bw: kbw })),
    ensures
        accumulated(old(output)@, final(output)@, problem.d, problem.operands(a@, b@)),
{
    let ghost s0 = output@;
    let ghost ops = problem.operands(a@, b@);
    let ghost cells = cells_of(problem.d);
    if problem.d.is_empty() {
        proof {
            lemma_accumulate_nothing(s0, problem.d, ops);
        }
        return ;
    }
    let mut rest = problem;
    let ghost mut done: int = 0;
    proof {
        lemma_updated_nothing(s0, problem.d, ops, cells, 0, 0);
        lemma_within_self(problem.a);
        lemma_within_self(problem.b);
    }
    while rest.a.cols > 0
        invariant
            problem.valid(a@.len() as int, b@.len() as int, s0.len() as int),
            rest.valid(a@.len() as int, b@.len() as int, s0.len() as int),
            kernel_accepts(kernel),
        forall|ka: &[T], kaw: Window, kb: &[T], kbw: Window, kout: &mut [T], kdw: Window|
            conformable(ka@.len() as int, kaw, kb@.len() as int, kbw, (*kout)@.len() as int, kdw)
                && !kaw.empty() && !kbw.empty() && !kdw.empty() && #[trigger] call_ensures(
                kernel,
                (ka, kaw, kb, kbw, kout, kdw),
                (),
            ) ==> accumulated((*kout)@, (*final(kout))@, kdw, (Operands { a: ka@, aw: kaw, b: kb@, bw: kbw })),
            ops == problem.operands(a@, b@),
            cells == cells_of(problem.d),
            !problem.d.empty(),
            rest.d == problem.d,
            0 <= done,
            done + rest.a.cols == problem.a.cols,
            within(rest.a, problem.a, 0, done),
            within(rest.b, problem.b, done, 0),
            updated(s0, output@, problem.d, ops, cells, 0, done),
        decreases rest.a.cols,
    {
        let ghost s1 = output@;
        let ghost before = rest;
        let size = size_hint(&rest, min, max);
        let chunk = rest.extract_iter(size);
        let ghost width = before.chunk_width(size);
        proof {
            lemma_chunk_width(before, size);
            lemma_cut_inner(before, width, a@.len() as int, b@.len() as int, s0.len() as int);
            lemma_split_within(before.a, Axis(1), width);
            lemma_split_within(before.b, Axis(0), width);
            lemma_within_trans(chunk.a, before.a, problem.a, 0, 0, 0, done);
            lemma_within_trans(chunk.b, before.b, problem.b, 0, 0, done, 0);
            lemma_within_trans(rest.a, before.a, problem.a, 0, width as int, 0, done);
            lemma_within_trans(rest.b, before.b, problem.b, width as int, 0, done, 0);
            lemma_within_self(problem.d);
        }
        run_leaf(a, b, output, chunk, kernel);
        proof {
            lemma_accumulated_within(s1, output@, problem.d, chunk.operands(a@, b@), problem.d, ops, 0, 0, done);
            lemma_updated_inner(s0, s1, output@, problem.d, ops, cells, 0, done, done + width);
            done = done + width;
        }
    }
}

/// The size hint that the adaptive policy gives for the next chunk of a
/// problem.
pub fn size_hint(problem: &Matrix, min: usize, max: usize) -> (size: usize)
    requires
        problem.wf(),
    ensures
        size == chunk_hint(remaining_work(*problem), min, max),
{
    proof {
        lemma_distinct_size(problem.d);
    }
    let cells = problem.d.rows * problem.d.cols;
    let work = match cells.checked_mul(problem.a.cols) {
        Some(w) => w,
        None => usize::MAX,
    };
    let raised = if work < min {
        min
    } else {
        work
    };
    if raised > max {
        max
    } else {
        raised
    }
}

/// Cuts batches of about `n` output cells off the front of the problem and
/// solves each, until what is left reports a size of at most `n` or a cut
/// would take nothing; then solves what is left.
pub fn batches<T: Scalar, K>(a: &[T], b: &[T], output: &mut [T], problem: Matrix, n: usize, kernel: K) where
    K: Fn(&[T], Window, &[T], Window, &mut [T], Window) + Copy,

    requires
        problem.valid(a@.len() as int, b@.len() as int, old(output)@.len() as int),
        kernel_accepts(kernel),
        forall|ka: &[T], kaw: Window, kb: &[T], kbw: Window, kout: &mut [T], kdw: Window|
            conformable(ka@.len() as int, kaw, kb@.len() as int, kbw, (*kout)@.len() as int, kdw)
                && !kaw.empty() && !kbw.empty() && !kdw.empty() && #[trigger] call_ensures(
                kernel,
                (ka, kaw, kb, kbw, kout, kdw),
                (),
            ) ==> accumulated((*kout)@, (*final(kout))@, kdw, (Operands { a: ka@, aw: kaw, b: kb@, bw: kbw })),
        n >= 1,
    ensures
        accumulated(old(output)@, final(output)@, problem.d, problem.operands(a@, b@)),
{
    let ghost s0 = output@;
    let ghost ops = problem.operands(a@, b@);
    let ghost rows = problem.d.rows as int;
    let ghost cols = problem.d.cols as int;
    let ghost inner = problem.a.cols as int;
    let mut rest = problem;
    let ghost mut top: int = 0;
    let ghost mut left: int = 0;
    proof {
        lemma_within_self(problem.a);
        lemma_within_self(problem.b);
        lemma_within_self(problem.d);
        assert(cells_of(problem.d).difference(block(0, rows, 0, cols)) =~= Set::empty());
        lemma_updated_nothing(s0, problem.d, ops, cells_of(problem.d).difference(block(0, rows, 0, cols)), 0, inner);
    }
    loop
        invariant
            problem.valid(a@.len() as int, b@.len() as int, s0.len() as int),
            rest.valid(a@.len() as int, b@.len() as int, s0.len() as int),
            kernel_accepts(kernel),
        forall|ka: &[T], kaw: Window, kb: &[T], kbw: Window, kout: &mut [T], kdw: Window|
            conformable(ka@.len() as int, kaw, kb@.len() as int, kbw, (*kout)@.len() as int, kdw)
                && !kaw.empty() && !kbw.empty() && !kdw.empty() && #[trigger] call_ensures(
                kernel,
                (ka, kaw, kb, kbw, kout, kdw),
                (),
            ) ==> accumulated((*kout)@, (*final(kout))@, kdw, (Operands { a: ka@, aw: kaw, b: kb@, bw: kbw })),
            n >= 1,
            ops == problem.operands(a@, b@),
            rows == problem.d.rows,
            cols == problem.d.cols,
            inner == problem.a.cols,
            0 <= top,
            0 <= left,
            top + rest.d.rows == rows,
            left + rest.d.cols == cols,
            rest.a.cols == inner,
            within(rest.d, problem.d, top, left),
            within(rest.a, problem.a, top, 0),
            within(rest.b, problem.b, 0, left),
            updated(
                s0,
                output@,
                problem.d,
                ops,
                cells_of(problem.d).difference(block(top, rows, left, cols)),
                0,
                inner,
            ),
        ensures
            rest.valid(a@.len() as int, b@.len() as int, s0.len() as int),
            0 <= top,
            0 <= left,
            top + rest.d.rows == rows,
            left + rest.d.cols == cols,
            rest.a.cols == inner,
            within(rest.d, problem.d, top, left),
            within(rest.a, problem.a, top, 0),
            within(rest.b, problem.b, 0, left),
            updated(
                s0,
                output@,
                problem.d,
                ops,
                cells_of(problem.d).difference(block(top, rows, left, cols)),
                0,
                inner,
            ),
        decreases rest.d.rows + rest.d.cols,
    {
        let ghost s1 = output@;
        let ghost before = rest;
        let ghost k = before.cut_of(n);
        let (batch, next) = match rest.next_batch(n) {
            Some(cut) => cut,
            None => {
                break ;
            },
        };
        proof {
            lemma_batch_cut(before, n);
            lemma_cut(before, k, a@.len() as int, b@.len() as int, s0.len() as int);
        }
        run_leaf(a, b, output, batch, kernel);
        proof {
            let done = cells_of(problem.d).difference(block(top, rows, left, cols));
            lemma_within_self(before.a);
            lemma_within_self(before.b);
            if before.d.cols > before.d.rows {
                lemma_split_within(before.d, Axis(1), k);
                lemma_split_within(before.b, Axis(1), k);
                lemma_within_trans(batch.d, before.d, problem.d, 0, 0, top, left);
                lemma_within_trans(batch.b, before.b, problem.b, 0, 0, 0, left);
                lemma_within_trans(next.d, before.d, problem.d, 0, k as int, top, left);
                lemma_within_trans(next.b, before.b, problem.b, 0, k as int, 0, left);
                lemma_accumulated_within(s1, output@, batch.d, batch.operands(a@, b@), problem.d, ops, top, left, 0);
                let strip = block(top, rows, left, left + k);
                lemma_block_inside(problem.d, top, rows, left, left + k);
                lemma_updated_union(s0, s1, output@, problem.d, ops, done, strip, 0, inner);
                assert(done.union(strip) =~= cells_of(problem.d).difference(block(top, rows, left + k, cols)));
                left = left + k;
            } else {
                lemma_split_within(before.d, Axis(0), k);
                lemma_split_within(before.a, Axis(0), k);
                lemma_within_trans(batch.d, before.d, problem.d, 0, 0, top, left);
                lemma_within_trans(batch.a, before.a, problem.a, 0, 0, top, 0);
                lemma_within_trans(next.d, before.d, problem.d, k as int, 0, top, left);
                lemma_within_trans(next.a, before.a, problem.a, k as int, 0, top, 0);
                lemma_accumulated_within(s1, output@, batch.d, batch.operands(a@, b@), problem.d, ops, top, left, 0);
                let strip = block(top, top + k, left, cols);
                lemma_block_inside(problem.d, top, top + k, left, cols);
                lemma_updated_union(s0, s1, output@, problem.d, ops, done, strip, 0, inner);
                assert(done.union(strip) =~= cells_of(problem.d).difference(block(top + k, rows, left, cols)));
                top = top + k;
            }
        }
        rest = next;
    }
    let ghost s1 = output@;
    run_leaf(a, b, output, rest, kernel);
    proof {
        let done = cells_of(problem.d).difference(block(top, rows, left, cols));
        lemma_accumulated_within(s1, output@, rest.d, rest.operands(a@, b@), problem.d, ops, top, left, 0);
        lemma_block_inside(problem.d, top, rows, left, cols);
        lemma_updated_union(s0, s1, output@, problem.d, ops, done, block(top, rows, left, cols), 0, inner);
        assert(done.union(block(top, rows, left, cols)) =~= cells_of(problem.d));
    }
}

/// The result of [`multiply`] does not depend on the policy or on the
/// kernel: two outputs that `multiply` could leave for the same operands and
/// the same earlier contents of the output are equal.
pub proof fn lemma_policy_independence<T: Scalar>(old: Seq<T>, first: Seq<T>, second: Seq<T>, d: Window, ops: Operands<T>)
    requires
        accumulated(old, first, d, ops),
        accumulated(old, second, d, ops),
    ensures
        first == second,
{
    lemma_accumulated_unique(old, first, second, d, ops);
}

/// What [`multiply`] leaves in a cell of an output that was all zeros is
/// the dot product of the cell's row of A and its column of B, reduced, and
/// the exact dot product where that is in the range of an element.
pub proof fn lemma_multiply_from_zero<T: Scalar>(old: Seq<T>, new: Seq<T>, d: Window, ops: Operands<T>, i: int, j: int)
    requires
        accumulated(old, new, d, ops),
        d.contains(i, j),
        d.fits(old.len() as int),
        forall|p: int| 0 <= p < old.len() ==> old[p].value() == 0,
    ensures
        new[d.index(i, j)].value() == T::reduce(dot(ops, i, j, 0, ops.aw.cols as int)),
        T::reduce(dot(ops, i, j, 0, ops.aw.cols as int)) == dot(ops, i, j, 0, ops.aw.cols as int)
            ==> new[d.index(i, j)].value() == dot(ops, i, j, 0, ops.aw.cols as int),
{
    crate::view::lemma_index_bounds(d, i, j);
    lemma_accumulated_from_zero(old, new, d, ops, i, j);
}

/// A part without cells that a cut leaves is dropped: whatever is done for
/// it changes no element of the output.
pub proof fn lemma_degenerate_part<T: Scalar>(problem: Matrix, a: Seq<T>, b: Seq<T>, old: Seq<T>, new: Seq<T>)
    requires
        problem.consistent(),
        problem.degenerate(),
        accumulated(old, new, problem.d, problem.operands(a, b)),
    ensures
        new == old,
{
    lemma_accumulated_degenerate(old, new, problem.d, problem.operands(a, b));
}

/// The parts that static fork-join with granularity `n` solves, in order:
/// the problem itself if it is not cut, else the parts of its two halves.
pub open spec fn fork_leaves(m: Matrix, n: usize) -> Seq<Matrix>
    decreases m.d.rows + m.d.cols,
{
    if m.divides(n) {
        proof {
            lemma_split_point(m.long_side() as nat);
            lemma_cut(
                m,
                crate::matrix_adaptive::split_point(m.long_side() as nat) as usize,
                usize::MAX as int,
                usize::MAX as int,
                usize::MAX as int,
            );
        }
        fork_leaves(m.spec_divide().0, n) + fork_leaves(m.spec_divide().1, n)
    } else {
        seq![m]
    }
}

/// The parts that the work-stealing policy with batches of `n` cells
/// solves, in order: batch after batch for as long as one is taken, then
/// the rest.
pub open spec fn batch_leaves(m: Matrix, n: usize) -> Seq<Matrix>
    decreases m.d.rows + m.d.cols,
{
    if m.gives_batch(n) {
        proof {
            lemma_batch_shrinks(m, n);
        }
        seq![m.spec_divide_at(n).0] + batch_leaves(m.spec_divide_at(n).1, n)
    } else {
        seq![m]
    }
}

/// The chunks that the adaptive policy solves, in order: none for a problem
/// without output cells or without inner positions, else the chunk that the
/// size hint gives and then the chunks of what is left.
pub open spec fn chunk_leaves(m: Matrix, min: usize, max: usize) -> Seq<Matrix>
    decreases m.a.cols,
{
    if m.wf() && !m.d.empty() && m.a.cols > 0 {
        let k = m.chunk_width(chunk_hint(remaining_work(m), min, max));
        proof {
            lemma_chunk_width(m, chunk_hint(remaining_work(m), min, max));
            lemma_cut_inner(m, k, usize::MAX as int, usize::MAX as int, usize::MAX as int);
        }
        seq![m.cut_inner(k).0] + chunk_leaves(m.cut_inner(k).1, min, max)
    } else {
        Seq::empty()
    }
}

/// The parts that [`multiply`] hands to the kernel under a policy, in
/// order, before those without cells are dropped.
pub open spec fn leaves(m: Matrix, policy: Policy) -> Seq<Matrix> {
    match policy {
        Policy::Sequential => seq![m],
        Policy::FixedGranularity(n) => fork_leaves(m, n),
        Policy::WorkStealingBatch(n) => batch_leaves(
            m,
            if n == 0 {
                1
            } else {
                n
            },
        ),
        Policy::Adaptive(min, max) => chunk_leaves(m, min, max),
    }
}

/// Appends to `list` the parts that static fork-join with granularity `n`
/// solves.
pub fn fork_parts(problem: Matrix, n: usize, list: &mut Vec<Matrix>)
    requires
        problem.wf(),
    ensures
        final(list)@ == old(list)@ + fork_leaves(problem, n),
    decreases problem.d.rows + problem.d.cols,
{
    if problem.should_divide(n) {
        proof {
            lemma_split_point(problem.long_side() as nat);
            lemma_cut(
                problem,
                crate::matrix_adaptive::split_point(problem.long_side() as nat) as usize,
                usize::MAX as int,
                usize::MAX as int,
                usize::MAX as int,
            );
        }
        let (first, second) = problem.divide();
        fork_parts(first, n, list);
        fork_parts(second, n, list);
        assert(list@ =~= old(list)@ + fork_leaves(problem, n));
    } else {
        list.push(problem);
        assert(list@ =~= old(list)@ + fork_leaves(problem, n));
    }
}

/// The parts that [`multiply`] hands to the kernel under a policy, in
/// order. Parts without cells are in the list; the kernel does not see them.
pub fn parts(problem: Matrix, policy: Policy) -> (list: Vec<Matrix>)
    requires
        problem.wf(),
    ensures
        list@ == leaves(problem, policy),
{
    let mut list: Vec<Matrix> = Vec::new();
    match policy {
        Policy::Sequential => {
            list.push(problem);
        },
        Policy::FixedGranularity(n) => {
            fork_parts(problem, n, &mut list);
        },
        Policy::WorkStealingBatch(n) => {
            let n = if n == 0 {
                1
            } else {
                n
            };
            let mut rest = problem;
            loop
                invariant
                    rest.wf(),
                    list@ + batch_leaves(rest, n) == batch_leaves(problem, n),
                ensures
                    list@ + seq![rest] == batch_leaves(problem, n),
                decreases rest.d.rows + rest.d.cols,
            {
                proof {
                    if rest.gives_batch(n) {
                        lemma_batch_shrinks(rest, n);
                    }
                }
                let ghost before = rest;
                let ghost done = list@;
                match rest.next_batch(n) {
                    Some((batch, next)) => {
                        list.push(batch);
                        rest = next;
                        assert(list@ + batch_leaves(rest, n) =~= done + batch_leaves(before, n));
                    },
                    None => {
                        break ;
                    },
                }
            }
            list.push(rest);
        },
        Policy::Adaptive(min, max) => {
            let mut rest = problem;
            while rest.a.cols > 0 && !rest.d.is_empty()
                invariant
                    rest.wf(),
                    list@ + chunk_leaves(rest, min, max) == chunk_leaves(problem, min, max),
                decreases rest.a.cols,
            {
                let ghost before = rest;
                let ghost done = list@;
                let size = size_hint(&rest, min, max);
                proof {
                    lemma_chunk_width(before, size);
                    lemma_cut_inner(
                        before,
                        before.chunk_width(size),
                        usize::MAX as int,
                        usize::MAX as int,
                        usize::MAX as int,
                    );
                }
                let chunk = rest.extract_iter(size);
                list.push(chunk);
                assert(list@ + chunk_leaves(rest, min, max) =~= done + chunk_leaves(before, min, max));
            }
        },
    }
    list
}

/// Every part that static fork-join solves is a multiplication on the
/// buffers of the whole problem: its shapes agree, its windows lie in the
/// buffers, and the cells of its output are distinct.
pub proof fn lemma_fork_leaves_valid(m: Matrix, n: usize, a_len: int, b_len: int, out_len: int)
    requires
        m.valid(a_len, b_len, out_len),
    ensures
        forall|t: int| 0 <= t < fork_leaves(m, n).len() ==> (#[trigger] fork_leaves(m, n)[t]).valid(a_len, b_len, out_len),
    decreases m.d.rows + m.d.cols,
{
    if m.divides(n) {
        let k = crate::matrix_adaptive::split_point(m.long_side() as nat) as usize;
        lemma_split_point(m.long_side() as nat);
        lemma_cut(m, k, a_len, b_len, out_len);
        lemma_fork_leaves_valid(m.spec_divide().0, n, a_len, b_len, out_len);
        lemma_fork_leaves_valid(m.spec_divide().1, n, a_len, b_len, out_len);
        let first = fork_leaves(m.spec_divide().0, n);
        let second = fork_leaves(m.spec_divide().1, n);
        assert forall|t: int| 0 <= t < fork_leaves(m, n).len() implies (#[trigger] fork_leaves(m, n)[t]).valid(
            a_len,
            b_len,
            out_len,
        ) by {
            if t < first.len() {
                assert(fork_leaves(m, n)[t] == first[t]);
            } else {
                assert(fork_leaves(m, n)[t] == second[t - first.len()]);
            }
        }
    }
}

/// Every part that the work-stealing policy solves is a multiplication on
/// the buffers of the whole problem.
pub proof fn lemma_batch_leaves_valid(m: Matrix, n: usize, a_len: int, b_len: int, out_len: int)
    requires
        m.valid(a_len, b_len, out_len),
    ensures
        forall|t: int|
            0 <= t < batch_leaves(m, n).len() ==> (#[trigger] batch_leaves(m, n)[t]).valid(a_len, b_len, out_len),
    decreases m.d.rows + m.d.cols,
{
    if m.gives_batch(n) {
        lemma_batch_shrinks(m, n);
        lemma_batch_cut(m, n);
        lemma_cut(m, m.cut_of(n), a_len, b_len, out_len);
        lemma_batch_leaves_valid(m.spec_divide_at(n).1, n, a_len, b_len, out_len);
        let rest = batch_leaves(m.spec_divide_at(n).1, n);
        assert forall|t: int| 0 <= t < batch_leaves(m, n).len() implies (#[trigger] batch_leaves(m, n)[t]).valid(
            a_len,
            b_len,
            out_len,
        ) by {
            if t >= 1 {
                assert(batch_leaves(m, n)[t] == rest[t - 1]);
            }
        }
    }
}

/// Every chunk that the adaptive policy solves is a multiplication on the
/// buffers of the whole problem.
pub proof fn lemma_chunk_leaves_valid(m: Matrix, min: usize, max: usize, a_len: int, b_len: int, out_len: int)
    requires
        m.valid(a_len, b_len, out_len),
    ensures
        forall|t: int|
            0 <= t < chunk_leaves(m, min, max).len() ==> (#[trigger] chunk_leaves(m, min, max)[t]).valid(
                a_len,
                b_len,
                out_len,
            ),
    decreases m.a.cols,
{
    if m.wf() && !m.d.empty() && m.a.cols > 0 {
        let size = chunk_hint(remaining_work(m), min, max);
        let k = m.chunk_width(size);
        lemma_chunk_width(m, size);
        lemma_cut_inner(m, k, a_len, b_len, out_len);
        lemma_chunk_leaves_valid(m.cut_inner(k).1, min, max, a_len, b_len, out_len);
        let rest = chunk_leaves(m.cut_inner(k).1, min, max);
        assert forall|t: int| 0 <= t < chunk_leaves(m, min, max).len() implies (#[trigger] chunk_leaves(
            m,
            min,
            max,
        )[t]).valid(a_len, b_len, out_len) by {
            if t >= 1 {
                assert(chunk_leaves(m, min, max)[t] == rest[t - 1]);
            }
        }
    }
}

/// Whatever the shape of a problem and whatever the policy, every part that
/// [`multiply`] hands to the kernel keeps the shape rules of a
/// multiplication and lies in the buffers of the whole problem.
pub proof fn lemma_leaves_valid(m: Matrix, policy: Policy, a_len: int, b_len: int, out_len: int)
    requires
        m.valid(a_len, b_len, out_len),
    ensures
        forall|t: int|
            0 <= t < leaves(m, policy).len() ==> (#[trigger] leaves(m, policy)[t]).valid(a_len, b_len, out_len),
{
    match policy {
        Policy::Sequential => {},
        Policy::FixedGranularity(n) => {
            lemma_fork_leaves_valid(m, n, a_len, b_len, out_len);
        },
        Policy::WorkStealingBatch(n) => {
            lemma_batch_leaves_valid(
                m,
                if n == 0 {
                    1
                } else {
                    n
                },
                a_len,
                b_len,
                out_len,
            );
        },
        Policy::Adaptive(min, max) => {
            lemma_chunk_leaves_valid(m, min, max, a_len, b_len, out_len);
        },
    }
}

} // verus!
