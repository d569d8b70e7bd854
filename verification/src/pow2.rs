//! Powers of two: the nearest one above and below a number, and the facts the
//! split-point choice rests on.

use vstd::prelude::*;
use vstd::arithmetic::power2::is_pow2;
use vstd::arithmetic::power2::is_pow2_equiv;
use vstd::arithmetic::power2::lemma2_to64;
use vstd::arithmetic::power2::lemma2_to64_rest;
use vstd::arithmetic::power2::lemma_pow2;

verus! {

/// `usize::next_power_of_two`, as its documentation states it: the smallest
/// power of two greater than or equal to `x`. The call overflows when no such
/// power fits in a `usize`, so those inputs are left out.
pub assume_specification[ usize::next_power_of_two ](x: usize) -> (r: usize)
    requires
        exists|p: int| #[trigger] is_pow2(p) && x <= p <= usize::MAX,
    ensures
        is_pow2(r as int),
        x <= r,
        forall|p: int| #[trigger] is_pow2(p) && x <= p ==> r <= p,
;

/// `usize::is_power_of_two`, as its documentation states it: whether `x` is
/// `2^k` for some `k`.
pub assume_specification[ usize::is_power_of_two ](x: usize) -> (r: bool)
    ensures
        r == is_pow2(x as int),
;

/// The smallest power of two that is at least `n`.
pub open spec fn next_pow2(n: nat) -> nat
    decreases n,
{
    if n <= 1 {
        1
    } else {
        2 * next_pow2((n + 1) / 2)
    }
}

/// The largest power of two that is at most `n`; 0 for 0.
pub open spec fn prev_pow2(n: nat) -> nat
    decreases n,
{
    if n <= 1 {
        n
    } else {
        2 * prev_pow2(n / 2)
    }
}

/// Twice a power of two is a power of two, and so is half of one above 1.
pub proof fn lemma_pow2_double(p: int)
    requires
        is_pow2(p),
    ensures
        p >= 1,
        is_pow2(2 * p),
        p > 1 ==> p % 2 == 0 && is_pow2(p / 2),
{
    reveal(is_pow2);
}

/// Between a power of two and its double there is no other power of two.
pub proof fn lemma_pow2_gap(p: int, q: int)
    requires
        is_pow2(p),
        is_pow2(q),
        p < q,
    ensures
        2 * p <= q,
    decreases q,
{
    reveal(is_pow2);
    if p > 1 {
        lemma_pow2_gap(p / 2, q / 2);
    }
}

/// `next_pow2(n)` is a power of two, at least `n`, below `2 * n` for
/// positive `n`, and no power of two lies between `n` and it.
pub proof fn lemma_next_pow2(n: nat)
    ensures
        is_pow2(next_pow2(n) as int),
        n <= next_pow2(n),
        n >= 1 ==> next_pow2(n) < 2 * n,
        forall|p: int| #[trigger] is_pow2(p) && n <= p ==> next_pow2(n) <= p,
    decreases n,
{
    reveal(is_pow2);
    if n > 1 {
        let h = (n + 1) / 2;
        lemma_next_pow2(h);
        lemma_pow2_double(next_pow2(h) as int);
        assert forall|p: int| #[trigger] is_pow2(p) && n <= p implies next_pow2(n) <= p by {
            assert(is_pow2(p / 2));
            assert(h <= p / 2);
        }
    }
}

/// `prev_pow2(n)` is, for positive `n`, a power of two that is at most `n`
/// and more than half of `n`.
pub proof fn lemma_prev_pow2(n: nat)
    requires
        n >= 1,
    ensures
        is_pow2(prev_pow2(n) as int),
        prev_pow2(n) <= n < 2 * prev_pow2(n),
    decreases n,
{
    reveal(is_pow2);
    if n > 1 {
        lemma_prev_pow2(n / 2);
        lemma_pow2_double(prev_pow2(n / 2) as int);
    }
}

/// A power of two `p` with `p <= n < 2 * p` is `prev_pow2(n)`.
pub proof fn lemma_prev_pow2_unique(n: nat, p: int)
    requires
        is_pow2(p),
        p <= n < 2 * p,
    ensures
        p == prev_pow2(n),
{
    lemma_pow2_double(p);
    lemma_prev_pow2(n);
    let q = prev_pow2(n) as int;
    if p < q {
        lemma_pow2_gap(p, q);
    } else if q < p {
        lemma_pow2_gap(q, p);
    }
}

/// The value that `usize::next_power_of_two` returns is `next_pow2`.
pub proof fn lemma_next_pow2_unique(n: nat, r: int)
    requires
        is_pow2(r),
        n <= r,
        forall|p: int| #[trigger] is_pow2(p) && n <= p ==> r <= p,
    ensures
        r == next_pow2(n),
{
    lemma_next_pow2(n);
}

/// The largest power of two that a `usize` holds.
pub open spec fn top_pow2() -> int {
    usize::MAX / 2 + 1
}

/// `top_pow2()` is a power of two, and every power of two that fits in a
/// `usize` is at most it.
pub proof fn lemma_top_pow2()
    ensures
        is_pow2(top_pow2()),
        forall|p: int| #[trigger] is_pow2(p) && p <= usize::MAX ==> p <= top_pow2(),
{
    lemma2_to64();
    lemma2_to64_rest();
    if usize::MAX == 0xffff_ffff {
        lemma_pow2(31);
        assert(vstd::arithmetic::power::pow(2, 31) == top_pow2());
    } else {
        assert(usize::MAX == 0xffff_ffff_ffff_ffff);
        lemma_pow2(63);
        assert(vstd::arithmetic::power::pow(2, 63) == top_pow2());
    }
    is_pow2_equiv(top_pow2());
    assert forall|p: int| #[trigger] is_pow2(p) && p <= usize::MAX implies p <= top_pow2() by {
        if p > top_pow2() {
            lemma_pow2_gap(top_pow2(), p);
        }
    }
}

/// The largest power of two that is at most `q`; 0 for 0.
pub fn floor_pow2(q: usize) -> (p: usize)
    ensures
        p == prev_pow2(q as nat),
{
    if q == 0 {
        0
    } else if q.is_power_of_two() {
        proof {
            lemma_prev_pow2_unique(q as nat, q as int);
        }
        q
    } else if q > usize::MAX / 2 + 1 {
        proof {
            lemma_top_pow2();
            lemma_prev_pow2_unique(q as nat, top_pow2());
        }
        usize::MAX / 2 + 1
    } else {
        proof {
            lemma_top_pow2();
            lemma_next_pow2(q as nat);
            assert(is_pow2(next_pow2(q as nat) as int) && q <= next_pow2(q as nat) <= usize::MAX) by {
                assert(next_pow2(q as nat) <= top_pow2());
            }
        }
        let up = q.next_power_of_two();
        proof {
            lemma_next_pow2_unique(q as nat, up as int);
            lemma_pow2_double(up as int);
            lemma_prev_pow2_unique(q as nat, up as int / 2);
        }
        up / 2
    }
}

} // verus!
