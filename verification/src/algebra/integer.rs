//! The integers of machine width as a semiring.
use vstd::prelude::*;
use crate::algebra::{Field, Ring, Semiring};

verus! {

impl Semiring for i32 {
    open spec fn zero_spec() -> Self {
        0
    }

    open spec fn one_spec() -> Self {
        1
    }

    open spec fn add_spec(self, rhs: Self) -> Self {
        self.wrapping_add(rhs)
    }

    open spec fn mul_spec(self, rhs: Self) -> Self {
        self.wrapping_mul(rhs)
    }

    open spec fn has_inverse_spec(self) -> bool {
        self != 0
    }

    const IDEMPOTENT: bool = false;

    fn zero() -> (r: Self) {
        0
    }

    fn one() -> (r: Self) {
        1
    }

    fn add(self, rhs: &Self) -> (r: Self) {
        self.wrapping_add(*rhs)
    }

    fn mul(self, rhs: &Self) -> (r: Self) {
        self.wrapping_mul(*rhs)
    }

    fn has_inverse(&self) -> (b: bool) {
        *self != 0
    }

    fn is_zero(&self) -> (b: bool) {
        *self == 0
    }

    fn duplicate(&self) -> (r: Self) {
        *self
    }

    fn equals(&self, other: &Self) -> (b: bool) {
        *self == *other
    }
}

/// The quotient of two integers, rounded towards zero.
pub open spec fn truncated_quotient(a: int, b: int) -> int {
    if a >= 0 && b > 0 {
        a / b
    } else if a >= 0 {
        -(a / (-b))
    } else if b > 0 {
        -((-a) / b)
    } else {
        (-a) / (-b)
    }
}

/// The quotient is no larger in size than the dividend, and smaller than
/// the size of a negative dividend unless the divisor is -1.
pub proof fn lemma_quotient_bounded(a: int, b: int)
    requires
        b != 0,
    ensures
        a >= 0 ==> -a <= truncated_quotient(a, b) <= a,
        a < 0 ==> a <= truncated_quotient(a, b) <= -a,
        a < 0 && b != -1 ==> truncated_quotient(a, b) < -a,
{
    let x = if a >= 0 {
        a
    } else {
        -a
    };
    let y = if b > 0 {
        b
    } else {
        -b
    };
    vstd::arithmetic::div_mod::lemma_div_pos_is_pos(x, y);
    vstd::arithmetic::div_mod::lemma_div_is_ordered_by_denominator(x, 1, y);
    vstd::arithmetic::div_mod::lemma_div_basics(x);
    if y >= 2 && x > 0 {
        vstd::arithmetic::div_mod::lemma_div_is_ordered_by_denominator(x, 2, y);
        assert(x / 2 < x);
    }
}

impl Ring for i32 {
    open spec fn sub_defined(self, rhs: Self) -> bool {
        true
    }

    open spec fn sub_spec(self, rhs: Self) -> Self {
        self.wrapping_sub(rhs)
    }

    open spec fn negate_defined(self) -> bool {
        true
    }

    /// The complement `1 - x`.
    open spec fn negate_spec(self) -> Self {
        1i32.wrapping_sub(self)
    }

    fn sub(self, rhs: &Self) -> (r: Self) {
        self.wrapping_sub(*rhs)
    }

    fn negate(&self) -> (r: Self) {
        1i32.wrapping_sub(*self)
    }
}

impl Field for i32 {
    /// The quotient exists unless the divisor is zero or the quotient leaves the type.
    open spec fn div_defined(self, rhs: Self) -> bool {
        rhs != 0 && !(self == i32::MIN && rhs == -1)
    }

    /// The quotient, rounded towards zero.
    open spec fn div_spec(self, rhs: Self) -> Self {
        truncated_quotient(self as int, rhs as int) as i32
    }

    fn div(self, rhs: &Self) -> (r: Self) {
        let a: i64 = self as i64;
        let b: i64 = *rhs as i64;
        proof {
            lemma_quotient_bounded(a as int, b as int);
        }
        let q: i64 = if a >= 0 && b > 0 {
            a / b
        } else if a >= 0 {
            -(a / (-b))
        } else if b > 0 {
            -((-a) / b)
        } else {
            (-a) / (-b)
        };
        q as i32
    }
}

/// The sum of integers is not idempotent, as `IDEMPOTENT` says.
pub proof fn lemma_integer_not_idempotent()
    ensures
        !<i32 as Semiring>::IDEMPOTENT,
        !(forall|x: i32| #[trigger] x.add_spec(x) == x),
{
    assert(1i32.add_spec(1i32) != 1i32);
}

} // verus!
