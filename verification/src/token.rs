//! Tokens: numbers and operator symbols.

use vstd::prelude::*;
use vstd::std_specs::cmp::{PartialEqSpecImpl, PartialOrdSpecImpl};
use core::cmp::Ordering;
use crate::number::{compare, order, same_value, spec_same_value};

verus! {

/// One element of an expression.
#[derive(Debug, Clone, Copy)]
pub enum Token {
    /// A number, as its IEEE 754 binary64 bit pattern.
    Number(u64),
    /// An operator symbol.
    Operator(char),
}

/// The symbol is one of the four operators `+`, `-`, `*`, `/`.
pub open spec fn spec_is_operator(symbol: char) -> bool {
    symbol == '+' || symbol == '-' || symbol == '*' || symbol == '/'
}

/// Tells whether the symbol is one of the four operators.
#[verifier::when_used_as_spec(spec_is_operator)]
pub fn is_operator(symbol: char) -> (known: bool)
    ensures
        known == spec_is_operator(symbol),
{
    symbol == '+' || symbol == '-' || symbol == '*' || symbol == '/'
}

impl Token {
    /// The token is a number or one of the four operators.
    pub open spec fn recognized(self) -> bool {
        match self {
            Token::Number(_) => true,
            Token::Operator(symbol) => spec_is_operator(symbol),
        }
    }

    /// Tells whether the token is a number or one of the four operators.
    pub fn is_recognized(&self) -> (known: bool)
        ensures
            known == self.recognized(),
    {
        match self {
            Token::Number(_) => true,
            Token::Operator(symbol) => is_operator(*symbol),
        }
    }
}

/// Every token of the sequence is a number or one of the four operators.
pub open spec fn all_recognized(tokens: Seq<Token>) -> bool {
    forall|i: int| 0 <= i < tokens.len() ==> (#[trigger] tokens[i]).recognized()
}

/// Tells whether every token is a number or one of the four operators.
pub fn are_recognized(tokens: &[Token]) -> (known: bool)
    ensures
        known == all_recognized(tokens@),
{
    let mut i: usize = 0;
    while i < tokens.len()
        invariant
            i <= tokens.len(),
            all_recognized(tokens@.take(i as int)),
        decreases tokens.len() - i,
    {
        if !tokens[i].is_recognized() {
            return false;
        }
        i += 1;
    }
    assert(tokens@.take(i as int) == tokens@);
    true
}

impl PartialEq for Token {
    /// Numbers are equal when they are numerically equal, so a NaN differs
    /// from itself and the two zeros are equal; operators when their
    /// symbols agree.
    fn eq(&self, other: &Token) -> (equal: bool) {
        match (*self, *other) {
            (Token::Number(a), Token::Number(b)) => same_value(a, b),
            (Token::Operator(a), Token::Operator(b)) => a == b,
            _ => false,
        }
    }
}

impl PartialEqSpecImpl for Token {
    open spec fn obeys_eq_spec() -> bool {
        true
    }

    open spec fn eq_spec(&self, other: &Token) -> bool {
        match (*self, *other) {
            (Token::Number(a), Token::Number(b)) => spec_same_value(a, b),
            (Token::Operator(a), Token::Operator(b)) => a == b,
            _ => false,
        }
    }
}

impl PartialOrd for Token {
    /// Every number comes before every operator. Two numbers compare
    /// numerically, and not at all where one is a NaN; two operators
    /// compare by their symbols.
    fn partial_cmp(&self, other: &Token) -> (outcome: Option<Ordering>) {
        match (*self, *other) {
            (Token::Number(a), Token::Number(b)) => compare(a, b),
            (Token::Number(_), Token::Operator(_)) => Some(Ordering::Less),
            (Token::Operator(_), Token::Number(_)) => Some(Ordering::Greater),
            (Token::Operator(a), Token::Operator(b)) => {
                if a < b {
                    Some(Ordering::Less)
                } else if a > b {
                    Some(Ordering::Greater)
                } else {
                    Some(Ordering::Equal)
                }
            },
        }
    }
}

impl PartialOrdSpecImpl for Token {
    open spec fn obeys_partial_cmp_spec() -> bool {
        true
    }

    open spec fn partial_cmp_spec(&self, other: &Token) -> Option<Ordering> {
        match (*self, *other) {
            (Token::Number(a), Token::Number(b)) => order(a, b),
            (Token::Number(_), Token::Operator(_)) => Some(Ordering::Less),
            (Token::Operator(_), Token::Number(_)) => Some(Ordering::Greater),
            (Token::Operator(a), Token::Operator(b)) => {
                if a < b {
                    Some(Ordering::Less)
                } else if a > b {
                    Some(Ordering::Greater)
                } else {
                    Some(Ordering::Equal)
                }
            },
        }
    }
}

} // verus!
