//! The Boolean semiring.
use vstd::prelude::*;
use crate::algebra::{BoolSemiring, Field, Ring, Semiring};

verus! {

impl Semiring for BoolSemiring {
    open spec fn zero_spec() -> Self {
        BoolSemiring(false)
    }

    open spec fn one_spec() -> Self {
        BoolSemiring(true)
    }

    open spec fn add_spec(self, rhs: Self) -> Self {
        BoolSemiring(self.0 || rhs.0)
    }

    open spec fn mul_spec(self, rhs: Self) -> Self {
        BoolSemiring(self.0 && rhs.0)
    }

    open spec fn has_inverse_spec(self) -> bool {
        self.0
    }

    const IDEMPOTENT: bool = true;

    fn zero() -> (r: Self) {
        BoolSemiring(false)
    }

    fn one() -> (r: Self) {
        BoolSemiring(true)
    }

    fn add(self, rhs: &Self) -> (r: Self) {
        BoolSemiring(self.0 || rhs.0)
    }

    fn mul(self, rhs: &Self) -> (r: Self) {
        BoolSemiring(self.0 && rhs.0)
    }

    fn has_inverse(&self) -> (b: bool) {
        self.0
    }

    fn is_zero(&self) -> (b: bool) {
        !self.0
    }

    fn duplicate(&self) -> (r: Self) {
        BoolSemiring(self.0)
    }

    fn equals(&self, other: &Self) -> (b: bool) {
        self.0 == other.0
    }
}

impl Ring for BoolSemiring {
    /// There is no difference of truth values.
    open spec fn sub_defined(self, rhs: Self) -> bool {
        false
    }

    open spec fn sub_spec(self, rhs: Self) -> Self {
        self
    }

    open spec fn negate_defined(self) -> bool {
        true
    }

    open spec fn negate_spec(self) -> Self {
        BoolSemiring(!self.0)
    }

    fn sub(self, rhs: &Self) -> (r: Self) {
        self
    }

    fn negate(&self) -> (r: Self) {
        BoolSemiring(!self.0)
    }
}

impl Field for BoolSemiring {
    /// Only `true / true` is defined.
    open spec fn div_defined(self, rhs: Self) -> bool {
        self.0 && rhs.0
    }

    open spec fn div_spec(self, rhs: Self) -> Self {
        BoolSemiring(true)
    }

    fn div(self, rhs: &Self) -> (r: Self) {
        BoolSemiring(true)
    }
}

/// The sum of truth values is idempotent, as `IDEMPOTENT` says.
pub proof fn lemma_bool_idempotent()
    ensures
        BoolSemiring::IDEMPOTENT,
        forall|x: BoolSemiring| #[trigger] x.add_spec(x) == x,
{
}

} // verus!
