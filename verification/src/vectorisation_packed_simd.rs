//! The row kernel that works on eight elements at a time.

use vstd::prelude::*;
use crate::algebra::Operands;
use crate::algebra::accumulated;
use crate::algebra::conformable;
use crate::faster_vec::on_spans;
use crate::faster_vec::strided;
use crate::scalar::Scalar;
use crate::vectorisation::multiply_add;
use crate::vectorisation::row_added;
use crate::view::Window;

verus! {

/// Number of elements that the row kernel handles together.
pub const LANES: usize = 8;

/// Row kernel: `into = b * a + into`, eight elements at a time for as long
/// as eight are left, then one by one.
pub fn multiply_add_packed_sim<T: Scalar>(
    into: &mut [T],
    a: T,
    b: &[T],
    _awidth: usize,
    _aheight: usize,
    _bwidth: usize,
    _bheight: usize,
    _intowidth: usize,
    _intoheight: usize,
)
    requires
        old(into)@.len() == b@.len(),
    ensures
        row_added(old(into)@, final(into)@, a, b@),
{
    let ghost s0 = into@;
    let len = b.len();
    let calc_len = len - len % LANES;
    let mut chunk: usize = 0;
    while chunk < calc_len
        invariant
            into@.len() == s0.len(),
            s0.len() == b@.len(),
            len == b@.len(),
            calc_len == len - len % LANES,
            chunk <= calc_len,
            chunk % LANES == 0,
            forall|t: int| 0 <= t < chunk ==> #[trigger] into@[t].value() == T::reduce(s0[t].value() + a.value() * b@[t].value()),
            forall|t: int| chunk <= t < s0.len() ==> into@[t] == s0[t],
        decreases calc_len - chunk,
    {
        let mut lane: usize = 0;
        while lane < LANES
            invariant
                into@.len() == s0.len(),
                s0.len() == b@.len(),
                len == b@.len(),
                calc_len == len - len % LANES,
                chunk < calc_len,
                chunk % LANES == 0,
                lane <= LANES,
                forall|t: int| 0 <= t < chunk + lane ==> #[trigger] into@[t].value() == T::reduce(s0[t].value() + a.value() * b@[t].value()),
                forall|t: int| chunk + lane <= t < s0.len() ==> into@[t] == s0[t],
            decreases LANES - lane,
        {
            let x = b[chunk + lane];
            let y = into[chunk + lane];
            into[chunk + lane] = y.mul_acc(a, x);
            lane += 1;
        }
        chunk += LANES;
    }
    let mut j: usize = calc_len;
    while j < len
        invariant
            into@.len() == s0.len(),
            s0.len() == b@.len(),
            len == b@.len(),
            calc_len <= j <= len,
            forall|t: int| 0 <= t < j ==> #[trigger] into@[t].value() == T::reduce(s0[t].value() + a.value() * b@[t].value()),
            forall|t: int| j <= t < s0.len() ==> into@[t] == s0[t],
        decreases len - j,
    {
        let x = b[j];
        let y = into[j];
        into[j] = y.mul_acc(a, x);
        j += 1;
    }
}

/// [`multiply_add`](crate::vectorisation::multiply_add) with
/// [`multiply_add_packed_sim`] as its row kernel.
pub fn multiply_add_packed<T: Scalar>(
    into: &mut [T],
    a: &[T],
    b: &[T],
    awidth: usize,
    aheight: usize,
    bwidth: usize,
    bheight: usize,
    intowidth: usize,
    intoheight: usize,
    stridesa: usize,
    stridesb: usize,
    stridesinto: usize,
)
    requires
        conformable(
            a@.len() as int,
            strided(awidth, aheight, stridesa),
            b@.len() as int,
            strided(bwidth, bheight, stridesb),
            old(into)@.len() as int,
            strided(intowidth, intoheight, stridesinto),
        ),
    ensures
        accumulated(
            old(into)@,
            final(into)@,
            strided(intowidth, intoheight, stridesinto),
            (Operands {
                a: a@,
                aw: strided(awidth, aheight, stridesa),
                b: b@,
                bw: strided(bwidth, bheight, stridesb),
            }),
        ),
{
    multiply_add(
        into,
        a,
        b,
        awidth,
        aheight,
        bwidth,
        bheight,
        intowidth,
        intoheight,
        stridesa,
        stridesb,
        stridesinto,
        multiply_add_packed_sim,
    );
}

/// Kernel on windows that runs
/// [`multiply_add`](crate::vectorisation::multiply_add), with
/// [`multiply_add_packed_sim`] as its row kernel, on the parts of the buffers
/// that the windows span (see [`on_spans`](crate::faster_vec::on_spans)).
pub fn mult_faster_from_ndarray<T: Scalar>(a: &[T], aw: Window, b: &[T], bw: Window, output: &mut [T], dw: Window)
    requires
        conformable(a@.len() as int, aw, b@.len() as int, bw, old(output)@.len() as int, dw),
    ensures
        accumulated(old(output)@, final(output)@, dw, (Operands { a: a@, aw, b: b@, bw })),
{
    on_spans(a, aw, b, bw, output, dw, multiply_add_packed);
}

} // verus!
