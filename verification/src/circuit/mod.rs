//! Formulas, compiled circuits and their evaluation.
use vstd::prelude::*;
use crate::circuit::rcircuit::{Formula, RCircuit, RNode};

pub mod circuit;
pub mod text;
pub mod parser;
pub mod amc;
pub mod backprop_laws;
pub mod transform_laws;
pub mod rcircuit;
pub mod semantics;
pub mod tseitin;
pub mod equisat;
pub mod compile;
pub mod dimacs_laws;
pub mod weights;

verus! {

/// The variable that a literal speaks of: its absolute value.
pub open spec fn lit_var(lit: int) -> int {
    if lit < 0 {
        -lit
    } else {
        lit
    }
}

/// The variable of a literal, computed. Zero is no literal and has the variable 0.
pub fn literal_variable(lit: i32) -> (v: u32)
    ensures
        v == lit_var(lit as int),
{
    if lit >= 0 {
        lit as u32
    } else {
        (-(lit + 1)) as u32 + 1
    }
}

/// The formula that is the literal `value`.
pub fn lit(value: i32) -> (r: RCircuit)
    ensures
        r@ == Formula::Val(value),
{
    RCircuit::from(RNode::Val(value))
}

/// The formula that is never true.
pub fn zero() -> (r: RCircuit)
    ensures
        r@ == Formula::Zero,
{
    RCircuit::from(RNode::Zero)
}

/// The formula that is always true.
pub fn one() -> (r: RCircuit)
    ensures
        r@ == Formula::One,
{
    RCircuit::from(RNode::One)
}

} // verus!
