//! The ways in which reading or evaluating an expression can fail.

use vstd::prelude::*;
use vstd::string::*;

verus! {

/// Why an expression was rejected.
#[derive(Debug, Clone, PartialEq)]
pub enum Error {
    /// A word looked like a number and is none. Reserved for stricter reading.
    InvalidNumber(String),
    /// A word looked like an operator and is none. Reserved for stricter reading.
    InvalidOperator(String),
    /// A word is neither a number nor an operator, or an operator found fewer
    /// than two operands; the text says which.
    InvalidExpression(String),
    /// Two operators stand side by side. Reserved for stricter reading.
    ConsecutiveOperators,
    /// The right-hand operand of a division is zero.
    DivisionByZero,
    /// The operands did not reduce to exactly one value.
    TooManyOperators,
    /// There are no words at all.
    EmptyExpression,
}

/// An [`Error`] with its text as a sequence of characters.
pub enum ErrorView {
    InvalidNumber(Seq<char>),
    InvalidOperator(Seq<char>),
    InvalidExpression(Seq<char>),
    ConsecutiveOperators,
    DivisionByZero,
    TooManyOperators,
    EmptyExpression,
}

impl View for Error {
    type V = ErrorView;

    open spec fn view(&self) -> ErrorView {
        match self {
            Error::InvalidNumber(text) => ErrorView::InvalidNumber(text@),
            Error::InvalidOperator(text) => ErrorView::InvalidOperator(text@),
            Error::InvalidExpression(text) => ErrorView::InvalidExpression(text@),
            Error::ConsecutiveOperators => ErrorView::ConsecutiveOperators,
            Error::DivisionByZero => ErrorView::DivisionByZero,
            Error::TooManyOperators => ErrorView::TooManyOperators,
            Error::EmptyExpression => ErrorView::EmptyExpression,
        }
    }
}

impl ErrorView {
    /// The sentence shown to the user for this error.
    pub open spec fn message(self) -> Seq<char> {
        match self {
            ErrorView::InvalidNumber(text) => "Invalid number: "@ + text,
            ErrorView::InvalidOperator(text) => "Invalid operator: "@ + text,
            ErrorView::InvalidExpression(text) => "Invalid expression: "@ + text,
            ErrorView::ConsecutiveOperators => "Consecutive operators are not allowed"@,
            ErrorView::DivisionByZero => "Division by zero"@,
            ErrorView::TooManyOperators => "Too many operators in the expression"@,
            ErrorView::EmptyExpression => "The expression cannot be empty"@,
        }
    }
}

impl Error {
    /// The sentence shown to the user for this error.
    pub fn message(&self) -> (text: String)
        ensures
            text@ == self@.message(),
    {
        match self {
            Error::InvalidNumber(text) => String::from_str("Invalid number: ").concat(
                text.as_str(),
            ),
            Error::InvalidOperator(text) => String::from_str("Invalid operator: ").concat(
                text.as_str(),
            ),
            Error::InvalidExpression(text) => String::from_str("Invalid expression: ").concat(
                text.as_str(),
            ),
            Error::ConsecutiveOperators => String::from_str(
                "Consecutive operators are not allowed",
            ),
            Error::DivisionByZero => String::from_str("Division by zero"),
            Error::TooManyOperators => String::from_str("Too many operators in the expression"),
            Error::EmptyExpression => String::from_str("The expression cannot be empty"),
        }
    }
}

} // verus!
