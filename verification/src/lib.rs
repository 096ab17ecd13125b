//! Reverse-mode automatic differentiation for probability density models.
//!
//! A model is a record of named attributes, each a parameter or a datum, and a
//! density function written in a small arithmetic dialect.  The library lowers
//! the function body into a value-numbered expression graph, schedules the graph
//! in topological order and emits a straight-line routine that computes the value
//! of the density together with its gradient with respect to the parameters.
//!
//! The way through the library, from the input to the output:
//!
//! * [`syntax`] is the surface syntax that a front end hands over;
//! * [`pdf`] sorts the items of a model, [`parse`] checks its declaration and lowers
//!   function bodies into an [`expression::ExpressionGraph`];
//! * [`translation`] schedules a graph and emits the forward and the reverse pass,
//!   with the text of each operation from [`binary_operation`] and [`builtin`];
//! * [`model`] runs the whole pipeline on the items of a model.
//!
//! The remaining modules state and prove what holds of the pipeline: [`schedule`]
//! of the topological order, [`soundness`] of the emitted passes, [`chain_rule`] of
//! the gradient, [`denotation`], [`lowering`] and [`permutation`] of the meaning of
//! graphs and of the expressions that are lowered into them, and [`signature`] of
//! accepted declarations.
//!
//! Floating-point numbers never enter the library as such: a [`Float`] is the bit
//! pattern of a binary64 number, and the emitted routines get their constants from
//! those bits.
use vstd::prelude::*;

pub mod binary_operation;
pub mod builtin;
pub mod chain_rule;
pub mod constant;
pub mod denotation;
pub mod error;
pub mod expression;
pub mod lowering;
pub mod model;
pub mod parameter;
pub mod parse;
pub mod pdf;
pub mod permutation;
pub mod schedule;
pub mod signature;
pub mod soundness;
pub mod syntax;
pub mod text;
pub mod translation;
pub mod variable;

verus! {

/// A floating-point number, held as its IEEE 754 binary64 bit pattern.
pub type Float = u64;

/// The transcendental constants that the dialect can name.
pub trait FloatConsts: Sized + Copy {
    const PI: Self;
    const E: Self;
}

impl FloatConsts for u64 {
    const PI: Self = 0x4009_21FB_5444_2D18;
    const E: Self = 0x4005_BF0A_8B14_5769;
}

/// Adds two unsigned integers whose sum fits in 64 bits.
pub fn add(left: u64, right: u64) -> (sum: u64)
    requires
        left + right <= u64::MAX,
    ensures
        sum == left + right,
{
    left + right
}

} // verus!
