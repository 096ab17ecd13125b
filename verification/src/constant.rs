//! Literal constants: floating-point numbers and 32-bit integers.
use vstd::prelude::*;
use crate::Float;

verus! {

/// The sign bit of a binary64 bit pattern.
pub const SIGN_MASK: u64 = 0x8000_0000_0000_0000;

/// The exponent field of a binary64 bit pattern.
pub const EXPONENT_MASK: u64 = 0x7FF0_0000_0000_0000;

/// Whether the bit pattern encodes a finite number: neither an infinity nor a NaN.
pub open spec fn is_finite(number: Float) -> bool {
    number & EXPONENT_MASK != EXPONENT_MASK
}

/// The bit pattern of the number with the opposite sign.
pub open spec fn negated(number: Float) -> Float {
    number ^ SIGN_MASK
}

/// Decides whether the bit pattern encodes a finite number.
pub fn check_finite(number: Float) -> (finite: bool)
    ensures
        finite == is_finite(number),
{
    number & EXPONENT_MASK != EXPONENT_MASK
}

#[derive(Debug, Clone, Copy, PartialEq, Eq, Structural, Hash)]
pub enum Constant {
    Float(Float),
    Integer(i32),
}

impl Constant {
    /// The constant of opposite sign.
    pub open spec fn negation(self) -> Constant {
        match self {
            Constant::Float(number) => Constant::Float(negated(number)),
            Constant::Integer(number) => Constant::Integer((-number) as i32),
        }
    }

    /// Whether the opposite sign can be represented: every constant but the least integer.
    pub open spec fn negatable(self) -> bool {
        self != Constant::Integer(i32::MIN)
    }

    pub fn new_float(number: Float) -> (constant: Self)
        ensures
            constant == Constant::Float(number),
    {
        Self::Float(number)
    }

    pub fn new_int(number: i32) -> (constant: Self)
        ensures
            constant == Constant::Integer(number),
    {
        Self::Integer(number)
    }

    /// Flips the sign of the constant.
    pub fn negate(&self) -> (opposite: Self)
        requires
            self.negatable(),
        ensures
            opposite == self.negation(),
    {
        match self {
            Self::Float(number) => Self::Float(*number ^ SIGN_MASK),
            Self::Integer(number) => Self::Integer(-*number),
        }
    }

    /// Flips the sign of the constant where the result can be represented.
    pub fn checked_negate(&self) -> (opposite: Option<Self>)
        ensures
            opposite == if self.negatable() {
                Some(self.negation())
            } else {
                None::<Constant>
            },
    {
        match self {
            Self::Integer(number) => {
                if *number == i32::MIN {
                    None
                } else {
                    Some(self.negate())
                }
            },
            Self::Float(_) => Some(self.negate()),
        }
    }
}

/// Negating twice gives the constant back.
pub proof fn lemma_negation_involutive(constant: Constant)
    requires
        constant.negatable(),
    ensures
        constant.negation().negatable(),
        constant.negation().negation() == constant,
{
    match constant {
        Constant::Float(number) => {
            assert((number ^ 0x8000_0000_0000_0000u64) ^ 0x8000_0000_0000_0000u64 == number)
                by (bit_vector);
        },
        Constant::Integer(number) => {},
    }
}

/// Negation keeps a finite number finite.
pub proof fn lemma_negation_preserves_finite(number: Float)
    ensures
        is_finite(negated(number)) == is_finite(number),
{
    assert(((number ^ 0x8000_0000_0000_0000u64) & 0x7FF0_0000_0000_0000u64)
        == (number & 0x7FF0_0000_0000_0000u64)) by (bit_vector);
}

} // verus!
