//! Knowledge compilation and algebraic model counting.
//!
//! A propositional formula is built as a tree, simplified, brought into
//! conjunctive normal form and handed to a knowledge compiler. The compiled
//! d-DNNF circuit is then evaluated under any commutative semiring, forwards
//! for the model count and backwards for its gradient.
pub mod algebra;
pub mod circuit;
