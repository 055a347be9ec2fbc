use crate::lexer::{Func, Op};
use vstd::prelude::*;

verus! {

/// An evaluation failure: a mathematically undefined operation.
#[derive(Debug, Clone, Copy, PartialEq, Eq, Structural)]
pub enum EvalError {
    DivisionByZero,
    NegativeSquareRoot,
    OutOfRange,
}

/// The arithmetic routine a function call resolves to once its domain checks
/// have passed. The caller owns the floating-point arithmetic; these values
/// tell it which routine the evaluation rules selected.
#[derive(Debug, Clone, Copy, PartialEq, Eq, Structural)]
pub enum MathCall {
    Abs,
    Sqrt,
    /// the dedicated base-2 logarithm routine
    Log2,
    /// the dedicated base-10 logarithm routine
    Log10,
    /// the change-of-base formula with the carried base
    LogBase,
    Sin,
    Cos,
    Tan,
    /// the tangent first; the divisor rule of `Op::Div` then applies to the
    /// tangent's value before the reciprocal is taken
    Cotan,
    Asin,
    Acos,
    Atan,
    Exp,
    /// raising the operand to one over the carried degree
    Root,
}

/// Discrete facts about a function call's operand and its carried parameter,
/// as the caller's floating-point arithmetic observed them.
#[derive(Debug, Clone, Copy, PartialEq, Eq, Structural)]
pub struct ArgFacts {
    /// the operand is strictly negative
    pub arg_negative: bool,
    /// the operand lies strictly outside [-1, 1]
    pub arg_outside_unit: bool,
    /// the carried parameter equals two exactly
    pub param_is_two: bool,
    /// the carried parameter equals ten exactly
    pub param_is_ten: bool,
    /// the carried parameter equals zero exactly
    pub param_is_zero: bool,
}

impl Op {
    /// Whether applying the operator is defined, given whether the divisor
    /// is exactly zero: division by zero is the one refusal.
    pub open spec fn spec_outcome(self, divisor_is_zero: bool) -> Result<(), EvalError> {
        if self == Op::Div && divisor_is_zero {
            Err(EvalError::DivisionByZero)
        } else {
            Ok(())
        }
    }

    /// Decides whether applying the operator to already-evaluated operands
    /// is defined. Division by an exactly-zero divisor fails with
    /// `DivisionByZero` rather than yielding an infinity; every other
    /// application, the power included, is defined.
    pub fn evaluate_outcome(&self, divisor_is_zero: bool) -> (r: Result<(), EvalError>)
        ensures
            r == self.spec_outcome(divisor_is_zero),
    {
        match self {
            Op::Div => {
                if divisor_is_zero {
                    Err(EvalError::DivisionByZero)
                } else {
                    Ok(())
                }
            },
            _ => Ok(()),
        }
    }
}

impl Func {
    /// The routine selected, or the domain error, for a function applied to
    /// an operand with the given facts.
    pub open spec fn spec_plan(self, facts: ArgFacts) -> Result<MathCall, EvalError> {
        match self {
            Func::Abs => Ok(MathCall::Abs),
            Func::Sqrt => {
                if facts.arg_negative {
                    Err(EvalError::NegativeSquareRoot)
                } else {
                    Ok(MathCall::Sqrt)
                }
            },
            Func::Log(_) => {
                if facts.param_is_two {
                    Ok(MathCall::Log2)
                } else if facts.param_is_ten {
                    Ok(MathCall::Log10)
                } else {
                    Ok(MathCall::LogBase)
                }
            },
            Func::Sin => Ok(MathCall::Sin),
            Func::Cos => Ok(MathCall::Cos),
            Func::Tg => Ok(MathCall::Tan),
            Func::Ctg => Ok(MathCall::Cotan),
            Func::Asin => {
                if facts.arg_outside_unit {
                    Err(EvalError::OutOfRange)
                } else {
                    Ok(MathCall::Asin)
                }
            },
            Func::Acos => {
                if facts.arg_outside_unit {
                    Err(EvalError::OutOfRange)
                } else {
                    Ok(MathCall::Acos)
                }
            },
            Func::Atan => Ok(MathCall::Atan),
            Func::Exp => Ok(MathCall::Exp),
            Func::Root(_) => {
                if facts.param_is_zero {
                    Err(EvalError::DivisionByZero)
                } else {
                    Ok(MathCall::Root)
                }
            },
        }
    }

    /// Decides, from the facts about the evaluated operand and the carried
    /// parameter, which arithmetic routine applies or which domain error the
    /// call fails with: a negative operand to the square root, an operand
    /// outside [-1, 1] to the arcsine or arccosine, and a zero degree to the
    /// root are refused; the logarithm dispatches to the dedicated base-2 or
    /// base-10 routine when its base is exactly that, with no domain check.
    pub fn evaluate_plan(&self, facts: ArgFacts) -> (r: Result<MathCall, EvalError>)
        ensures
            r == self.spec_plan(facts),
    {
        match self {
            Func::Abs => Ok(MathCall::Abs),
            Func::Sqrt => {
                if facts.arg_negative {
                    Err(EvalError::NegativeSquareRoot)
                } else {
                    Ok(MathCall::Sqrt)
                }
            },
            Func::Log(_) => {
                if facts.param_is_two {
                    Ok(MathCall::Log2)
                } else if facts.param_is_ten {
                    Ok(MathCall::Log10)
                } else {
                    Ok(MathCall::LogBase)
                }
            },
            Func::Sin => Ok(MathCall::Sin),
            Func::Cos => Ok(MathCall::Cos),
            Func::Tg => Ok(MathCall::Tan),
            Func::Ctg => Ok(MathCall::Cotan),
            Func::Asin => {
                if facts.arg_outside_unit {
                    Err(EvalError::OutOfRange)
                } else {
                    Ok(MathCall::Asin)
                }
            },
            Func::Acos => {
                if facts.arg_outside_unit {
                    Err(EvalError::OutOfRange)
                } else {
                    Ok(MathCall::Acos)
                }
            },
            Func::Atan => Ok(MathCall::Atan),
            Func::Exp => Ok(MathCall::Exp),
            Func::Root(_) => {
                if facts.param_is_zero {
                    Err(EvalError::DivisionByZero)
                } else {
                    Ok(MathCall::Root)
                }
            },
        }
    }
}

} // verus!
