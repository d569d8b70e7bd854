//! The elements of a matrix: integers with wrapping arithmetic.
//!
//! Every element stands for a mathematical integer, its [`Scalar::value`].
//! Sums and products are computed exactly and then brought back into the
//! range of the element type by [`Scalar::reduce`], which for the machine
//! integers is reduction modulo 2^32 or 2^64 into the range of the type.

use vstd::prelude::*;
use vstd::arithmetic::div_mod::lemma_add_mod_noop_right;
use vstd::arithmetic::div_mod::lemma_small_mod;

verus! {

/// An element type: a set of integers closed under addition and
/// multiplication followed by reduction.
pub trait Scalar: Copy + Sized {
    /// The integer that an element stands for.
    spec fn value(self) -> int;

    /// The integer in the range of the element type that stands for `x`.
    spec fn reduce(x: int) -> int;

    /// Reducing an intermediate sum does not change the reduced total.
    proof fn lemma_reduce_add(x: int, y: int)
        ensures
            Self::reduce(Self::reduce(x) + y) == Self::reduce(x + y),
    ;

    /// The value of an element is already reduced.
    proof fn lemma_reduce_value(self)
        ensures
            Self::reduce(self.value()) == self.value(),
    ;

    /// Elements with the same value are the same element.
    proof fn lemma_value_unique(self, other: Self)
        requires
            self.value() == other.value(),
        ensures
            self == other,
    ;

    /// The element 0.
    fn zero() -> (z: Self)
        ensures
            z.value() == 0,
    ;

    /// `self + other`, reduced.
    fn plus(self, other: Self) -> (r: Self)
        ensures
            r.value() == Self::reduce(self.value() + other.value()),
    ;

    /// `self + a * b`, reduced.
    fn mul_acc(self, a: Self, b: Self) -> (r: Self)
        ensures
            r.value() == Self::reduce(self.value() + a.value() * b.value()),
    ;
}

/// Reduction modulo `range` into `0 .. range`.
pub open spec fn reduce_unsigned(x: int, range: int) -> int {
    x % range
}

/// Reduction modulo `range` into `-range / 2 .. range / 2`.
pub open spec fn reduce_signed(x: int, range: int) -> int {
    if x % range >= range / 2 {
        x % range - range
    } else {
        x % range
    }
}

/// Reducing an intermediate sum does not change a sum reduced modulo
/// `range`, into either range.
pub proof fn lemma_reduce(x: int, y: int, range: int)
    requires
        range > 0,
        range % 2 == 0,
    ensures
        reduce_unsigned(reduce_unsigned(x, range) + y, range) == reduce_unsigned(x + y, range),
        reduce_signed(reduce_signed(x, range) + y, range) == reduce_signed(x + y, range),
        0 <= x < range ==> reduce_unsigned(x, range) == x,
        -range / 2 <= x < range / 2 ==> reduce_signed(x, range) == x,
{
    lemma_add_mod_noop_right(y, x, range);
    assert((x % range + y) % range == (x + y) % range);
    assert((x % range - range + y) % range == (x % range + y) % range) by {
        vstd::arithmetic::div_mod::lemma_mod_multiples_vanish(-1, x % range + y, range);
    }
    if 0 <= x < range {
        lemma_small_mod(x as nat, range as nat);
    }
    if -range / 2 <= x < range / 2 {
        if x >= 0 {
            lemma_small_mod(x as nat, range as nat);
        } else {
            lemma_small_mod((x + range) as nat, range as nat);
            vstd::arithmetic::div_mod::lemma_mod_multiples_vanish(1, x, range);
        }
    }
}

impl Scalar for u32 {
    open spec fn value(self) -> int {
        self as int
    }

    open spec fn reduce(x: int) -> int {
        reduce_unsigned(x, 0x1_0000_0000)
    }

    proof fn lemma_reduce_add(x: int, y: int) {
        lemma_reduce(x, y, 0x1_0000_0000);
    }

    proof fn lemma_reduce_value(self) {
    }

    proof fn lemma_value_unique(self, other: Self) {
    }

    fn zero() -> (z: Self) {
        0
    }

    fn plus(self, other: Self) -> (r: Self) {
        self.wrapping_add(other)
    }

    fn mul_acc(self, a: Self, b: Self) -> (r: Self) {
        proof {
            assert(a as nat * b as nat == a * b) by (nonlinear_arith);
            lemma_add_mod_noop_right(self as int, a * b, 0x1_0000_0000);
        }
        self.wrapping_add(a.wrapping_mul(b))
    }
}

impl Scalar for u64 {
    open spec fn value(self) -> int {
        self as int
    }

    open spec fn reduce(x: int) -> int {
        reduce_unsigned(x, 0x1_0000_0000_0000_0000)
    }

    proof fn lemma_reduce_add(x: int, y: int) {
        lemma_reduce(x, y, 0x1_0000_0000_0000_0000);
    }

    proof fn lemma_reduce_value(self) {
    }

    proof fn lemma_value_unique(self, other: Self) {
    }

    fn zero() -> (z: Self) {
        0
    }

    fn plus(self, other: Self) -> (r: Self) {
        self.wrapping_add(other)
    }

    fn mul_acc(self, a: Self, b: Self) -> (r: Self) {
        let product = a.wrapping_mul(b);
        proof {
            assert(a as nat * b as nat == a * b) by (nonlinear_arith);
            assert(product as int == (a * b) % 0x1_0000_0000_0000_0000);
            lemma_add_mod_noop_right(self as int, a * b, 0x1_0000_0000_0000_0000);
        }
        self.wrapping_add(product)
    }
}

impl Scalar for i32 {
    open spec fn value(self) -> int {
        self as int
    }

    open spec fn reduce(x: int) -> int {
        reduce_signed(x, 0x1_0000_0000)
    }

    proof fn lemma_reduce_add(x: int, y: int) {
        lemma_reduce(x, y, 0x1_0000_0000);
    }

    proof fn lemma_reduce_value(self) {
        lemma_reduce(self as int, 0, 0x1_0000_0000);
    }

    proof fn lemma_value_unique(self, other: Self) {
    }

    fn zero() -> (z: Self) {
        0
    }

    fn plus(self, other: Self) -> (r: Self) {
        proof {
            lemma_signed_sum(self as int, other as int, 0x1_0000_0000);
        }
        self.wrapping_add(other)
    }

    fn mul_acc(self, a: Self, b: Self) -> (r: Self) {
        let product = a.wrapping_mul(b);
        proof {
            assert(product as int == reduce_signed(a * b, 0x1_0000_0000));
            lemma_signed_sum(self as int, product as int, 0x1_0000_0000);
            lemma_reduce(a * b, self as int, 0x1_0000_0000);
        }
        self.wrapping_add(product)
    }
}

impl Scalar for i64 {
    open spec fn value(self) -> int {
        self as int
    }

    open spec fn reduce(x: int) -> int {
        reduce_signed(x, 0x1_0000_0000_0000_0000)
    }

    proof fn lemma_reduce_add(x: int, y: int) {
        lemma_reduce(x, y, 0x1_0000_0000_0000_0000);
    }

    proof fn lemma_reduce_value(self) {
        lemma_reduce(self as int, 0, 0x1_0000_0000_0000_0000);
    }

    proof fn lemma_value_unique(self, other: Self) {
    }

    fn zero() -> (z: Self) {
        0
    }

    fn plus(self, other: Self) -> (r: Self) {
        proof {
            lemma_signed_sum(self as int, other as int, 0x1_0000_0000_0000_0000);
        }
        self.wrapping_add(other)
    }

    fn mul_acc(self, a: Self, b: Self) -> (r: Self) {
        let product = a.wrapping_mul(b);
        proof {
            assert(product as int == reduce_signed(a * b, 0x1_0000_0000_0000_0000));
            lemma_signed_sum(self as int, product as int, 0x1_0000_0000_0000_0000);
            lemma_reduce(a * b, self as int, 0x1_0000_0000_0000_0000);
        }
        self.wrapping_add(product)
    }
}

/// The sum of two integers of a signed type, wrapped as the machine wraps
/// it, is the sum reduced into the range of the type.
pub proof fn lemma_signed_sum(x: int, y: int, range: int)
    requires
        range > 0,
        range % 2 == 0,
        -range / 2 <= x < range / 2,
        -range / 2 <= y < range / 2,
    ensures
        x + y >= range / 2 ==> reduce_signed(x + y, range) == x + y - range,
        x + y < -range / 2 ==> reduce_signed(x + y, range) == x + y + range,
        -range / 2 <= x + y < range / 2 ==> reduce_signed(x + y, range) == x + y,
{
    let s = x + y;
    if s >= range / 2 {
        lemma_reduce(s - range, 0, range);
        vstd::arithmetic::div_mod::lemma_mod_multiples_vanish(-1, s, range);
    } else if s < -range / 2 {
        lemma_reduce(s + range, 0, range);
        vstd::arithmetic::div_mod::lemma_mod_multiples_vanish(1, s, range);
    } else {
        lemma_reduce(s, 0, range);
    }
}

} // verus!
