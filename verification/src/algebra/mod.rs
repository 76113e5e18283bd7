//! Commutative semirings, and the rings and fields among them.
use std::rc::Rc;
use vstd::prelude::*;
use crate::circuit::rcircuit::RNode;

pub mod boolean;
pub mod circuit;
pub mod integer;

verus! {

/// A commutative semiring: a carrier with `+`, `*`, `zero` and `one`.
///
/// Each operation has a mathematical counterpart (`add_spec`, `mul_spec`, ...)
/// that says what the executable operation returns. A semiring that is
/// verified defines these counterparts; one that is not, such as a semiring
/// of floating-point numbers, leaves them as they are and gives the
/// executable operations alone.
pub trait Semiring: Sized {
    /// The neutral element of `+`.
    open spec fn zero_spec() -> Self {
        arbitrary()
    }

    /// The neutral element of `*`.
    open spec fn one_spec() -> Self {
        arbitrary()
    }

    /// The sum of two elements.
    open spec fn add_spec(self, rhs: Self) -> Self {
        arbitrary()
    }

    /// The product of two elements.
    open spec fn mul_spec(self, rhs: Self) -> Self {
        arbitrary()
    }

    /// Whether one may divide by this element.
    open spec fn has_inverse_spec(self) -> bool {
        arbitrary()
    }

    /// Whether `x + x == x` for every element `x`.
    const IDEMPOTENT: bool;

    fn zero() -> (r: Self)
        ensures
            r == Self::zero_spec(),
    ;

    fn one() -> (r: Self)
        ensures
            r == Self::one_spec(),
    ;

    fn add(self, rhs: &Self) -> (r: Self)
        ensures
            r == self.add_spec(*rhs),
    ;

    fn mul(self, rhs: &Self) -> (r: Self)
        ensures
            r == self.mul_spec(*rhs),
    ;

    fn has_inverse(&self) -> (b: bool)
        ensures
            b == self.has_inverse_spec(),
    ;

    fn is_zero(&self) -> (b: bool)
        ensures
            b == (*self == Self::zero_spec()),
    ;

    /// A copy of this element.
    fn duplicate(&self) -> (r: Self)
        ensures
            r == *self,
    ;

    /// Whether two elements are the same.
    fn equals(&self, other: &Self) -> (b: bool)
        ensures
            b == (*self == *other),
    ;
}

/// The sum of some elements, taken from zero in their order.
pub open spec fn sum_spec<T: Semiring>(items: Seq<T>) -> T
    decreases items.len(),
{
    if items.len() == 0 {
        T::zero_spec()
    } else {
        sum_spec(items.drop_last()).add_spec(items.last())
    }
}

/// The product of some elements, taken from one in their order.
pub open spec fn product_spec<T: Semiring>(items: Seq<T>) -> T
    decreases items.len(),
{
    if items.len() == 0 {
        T::one_spec()
    } else {
        product_spec(items.drop_last()).mul_spec(items.last())
    }
}

/// The sum of some elements; zero if there is none.
pub fn sum<T: Semiring>(items: &Vec<T>) -> (r: T)
    ensures
        r == sum_spec(items@),
{
    let mut acc = T::zero();
    let mut k: usize = 0;
    assert(items@.take(0) =~= Seq::<T>::empty());
    while k < items.len()
        invariant
            k <= items.len(),
            acc == sum_spec(items@.take(k as int)),
        decreases items.len() - k,
    {
        assert(items@.take(k + 1).drop_last() =~= items@.take(k as int));
        acc = acc.add(&items[k]);
        k += 1;
    }
    assert(items@.take(items@.len() as int) =~= items@);
    acc
}

/// The product of some elements; one if there is none.
pub fn product<T: Semiring>(items: &Vec<T>) -> (r: T)
    ensures
        r == product_spec(items@),
{
    let mut acc = T::one();
    let mut k: usize = 0;
    assert(items@.take(0) =~= Seq::<T>::empty());
    while k < items.len()
        invariant
            k <= items.len(),
            acc == product_spec(items@.take(k as int)),
        decreases items.len() - k,
    {
        assert(items@.take(k + 1).drop_last() =~= items@.take(k as int));
        acc = acc.mul(&items[k]);
        k += 1;
    }
    assert(items@.take(items@.len() as int) =~= items@);
    acc
}

/// A semiring with subtraction and a complement.
///
/// Subtraction need not be defined on every pair: `sub_defined` says where it is.
pub trait Ring: Semiring {
    /// Whether the difference of two elements exists.
    open spec fn sub_defined(self, rhs: Self) -> bool {
        arbitrary()
    }

    /// The difference of two elements.
    open spec fn sub_spec(self, rhs: Self) -> Self {
        arbitrary()
    }

    /// Whether the complement of an element exists.
    open spec fn negate_defined(self) -> bool {
        arbitrary()
    }

    /// The complement of an element.
    open spec fn negate_spec(self) -> Self {
        arbitrary()
    }

    fn sub(self, rhs: &Self) -> (r: Self)
        requires
            self.sub_defined(*rhs),
        ensures
            r == self.sub_spec(*rhs),
    ;

    fn negate(&self) -> (r: Self)
        requires
            self.negate_defined(),
        ensures
            r == self.negate_spec(),
    ;
}

/// A ring with division, defined where `div_defined` holds.
pub trait Field: Ring {
    /// Whether the quotient of two elements exists.
    open spec fn div_defined(self, rhs: Self) -> bool {
        arbitrary()
    }

    /// The quotient of two elements.
    open spec fn div_spec(self, rhs: Self) -> Self {
        arbitrary()
    }

    fn div(self, rhs: &Self) -> (r: Self)
        requires
            self.div_defined(*rhs),
        ensures
            r == self.div_spec(*rhs),
    ;
}

/// The truth values, with `or` as sum and `and` as product.
#[derive(Debug, Clone, Copy, PartialEq, Eq, Structural)]
pub struct BoolSemiring(pub bool);

/// A formula as an element of the semiring of formulas.
#[derive(Debug, PartialEq)]
pub struct NodeSemiring(pub Rc<RNode>);

/// An element of the semiring of circuits: the position `ix` of a gate in a
/// buffer of gates. `context` names the buffer; the two constants, which
/// stand at the positions 0 and 1 of every buffer, name none.
#[derive(Debug, Clone, Copy, PartialEq, Eq, Structural)]
pub struct CircuitSemiring {
    pub ix: usize,
    pub context: Option<usize>,
}

} // verus!
