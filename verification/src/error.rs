//! The failure conditions the library reports.

use vstd::prelude::*;

verus! {

/// Which form of literal text was malformed.
#[derive(Clone, Copy, Debug, PartialEq, Eq, Structural)]
pub enum LiteralKind {
    /// An integer literal, `[+-]?[0-9]+`.
    Integer,
    /// A fraction literal, two integer literals joined by `/`.
    Fraction,
}

/// Everything that can go wrong while parsing or evaluating.
#[derive(Clone, Copy, Debug, PartialEq, Eq, Structural)]
pub enum EvalError {
    /// Malformed integer or fraction literal text.
    FormatError(LiteralKind),
    /// An unrecognized character met during tokenization.
    LexError(char),
    /// An unexpected or missing token, an unbalanced parenthesis, or
    /// leftover input after a complete expression.
    ParseError,
    /// A zero denominator at fraction construction, a zero divisor in integer
    /// division or remainder, or a zero divisor met during evaluation.
    DivisionByZero,
    /// The greatest common divisor of two zeroes was requested.
    UndefinedError,
    /// A fraction with a denominator other than one cannot become an integer.
    NotIntegral,
}

impl EvalError {
    /// A short description of the failure.
    pub fn message(&self) -> (r: &'static str)
        ensures
            r@ == match self {
                EvalError::FormatError(LiteralKind::Integer) => "Invalid number format"@,
                EvalError::FormatError(LiteralKind::Fraction) => (
                "Invalid fraction format. Expected format: numerator/denominator"@),
                EvalError::LexError(_) => "Unrecognized character"@,
                EvalError::ParseError => "Unexpected or missing token"@,
                EvalError::DivisionByZero => "Denominator cannot be zero"@,
                EvalError::UndefinedError => "GCD of 2 zeroes is undefined"@,
                EvalError::NotIntegral => "Fraction cannot be converted to BigNum"@,
            },
    {
        match self {
            EvalError::FormatError(LiteralKind::Integer) => "Invalid number format",
            EvalError::FormatError(LiteralKind::Fraction) => (
            "Invalid fraction format. Expected format: numerator/denominator"),
            EvalError::LexError(_) => "Unrecognized character",
            EvalError::ParseError => "Unexpected or missing token",
            EvalError::DivisionByZero => "Denominator cannot be zero",
            EvalError::UndefinedError => "GCD of 2 zeroes is undefined",
            EvalError::NotIntegral => "Fraction cannot be converted to BigNum",
        }
    }
}

} // verus!
