//! Arithmetic on a line of whitespace-separated words: numbers joined by the
//! binary operators `+`, `-`, `*` and `/`.
//!
//! The crate classifies words into tokens ([`parse_expression`]), reorders an
//! infix token sequence into postfix order ([`to_rpn`]), and reduces a
//! postfix sequence on an operand stack ([`evaluate_rpn`],
//! [`evaluate_expression`]).
//!
//! Numbers are carried as IEEE 754 binary64 bit patterns. The crate decides
//! which operation is applied to which operands, in which order, and when an
//! expression fails; the arithmetic on the patterns themselves is left to
//! the caller. A reduction therefore comes in steps: it hands back a
//! [`Progress`], which either is finished or names one [`Arithmetic`] to
//! compute and holds the [`Evaluation`] to resume with its result.

pub mod error;
pub mod evaluate;
pub mod infix;
pub mod lexer;
pub mod number;
pub mod postfix;
pub mod semantics;
pub mod token;

pub use error::{Error, ErrorView};
pub use evaluate::{
    apply_operator, evaluate_expression, evaluate_rpn, Arithmetic, Evaluation, Operation, Outcome,
    Progress,
};
pub use lexer::{parse_expression, Word};
pub use number::{compare, is_nan, is_zero, same_value};
pub use postfix::{precedence, to_rpn};
pub use token::{are_recognized, is_operator, Token};
