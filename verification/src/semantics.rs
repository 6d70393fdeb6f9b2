//! The value of a postfix token sequence, and what a reduction that is
//! resumed until it ends has to do with it.

use vstd::prelude::*;
use crate::error::ErrorView;
use crate::evaluate::{
    application, lemma_run_advances, run, too_few_operands, Arithmetic, Outcome,
};
use crate::lexer::{all_readable, tokenize, Word};
use crate::postfix::to_postfix;
use crate::token::{all_recognized, Token};

verus! {

/// The operands after one token was read, every operation being answered
/// by `compute`.
pub open spec fn step(
    compute: spec_fn(Arithmetic) -> u64,
    operands: Seq<u64>,
    token: Token,
) -> Result<Seq<u64>, ErrorView> {
    match token {
        Token::Number(bits) => Ok(operands.push(bits)),
        Token::Operator(symbol) => {
            if operands.len() < 2 {
                Err(ErrorView::InvalidExpression(too_few_operands()))
            } else {
                let rhs = operands[operands.len() - 1];
                let lhs = operands[operands.len() - 2];
                match application(symbol, rhs, lhs) {
                    Ok(arithmetic) => Ok(
                        operands.take(operands.len() - 2).push(compute(arithmetic)),
                    ),
                    Err(error) => Err(error),
                }
            }
        },
    }
}

/// The operands after all of `tokens` were read in order, every operation
/// being answered by `compute`; or the first failure.
pub open spec fn reduction(
    compute: spec_fn(Arithmetic) -> u64,
    operands: Seq<u64>,
    tokens: Seq<Token>,
) -> Result<Seq<u64>, ErrorView>
    decreases tokens.len(),
{
    if tokens.len() == 0 {
        Ok(operands)
    } else {
        match step(compute, operands, tokens[0]) {
            Ok(next) => reduction(compute, next, tokens.skip(1)),
            Err(error) => Err(error),
        }
    }
}

/// The result that a stack of operands stands for once everything was read:
/// its only value.
pub open spec fn conclusion(operands: Seq<u64>) -> Result<u64, ErrorView> {
    if operands.len() == 1 {
        Ok(operands[0])
    } else {
        Err(ErrorView::TooManyOperators)
    }
}

/// The value of a postfix token sequence where `compute` says what each
/// operation yields.
pub open spec fn postfix_value(
    compute: spec_fn(Arithmetic) -> u64,
    tokens: Seq<Token>,
) -> Result<u64, ErrorView> {
    match reduction(compute, Seq::empty(), tokens) {
        Ok(operands) => conclusion(operands),
        Err(error) => Err(error),
    }
}

/// The result of a reduction that is resumed, each time it stops, with what
/// `compute` yields for the operation it asked for.
pub open spec fn driven(
    compute: spec_fn(Arithmetic) -> u64,
    operands: Seq<u64>,
    rest: Seq<Token>,
) -> Result<u64, ErrorView>
    decreases rest.len(),
{
    match run(operands, rest) {
        Outcome::Finished(result) => result,
        Outcome::Pending { arithmetic, operands: kept, rest: later } => {
            proof {
                lemma_run_advances(operands, rest);
            }
            driven(compute, kept.push(compute(arithmetic)), later)
        },
    }
}

/// Resuming a reduction with the results of its operations until it ends
/// gives the value of the postfix sequence.
pub proof fn lemma_driven_value(
    compute: spec_fn(Arithmetic) -> u64,
    operands: Seq<u64>,
    rest: Seq<Token>,
)
    ensures
        driven(compute, operands, rest) == match reduction(compute, operands, rest) {
            Ok(stack) => conclusion(stack),
            Err(error) => Err(error),
        },
        operands.len() == 0 ==> driven(compute, operands, rest) == postfix_value(compute, rest),
    decreases rest.len(),
{
    if rest.len() > 0 {
        match rest[0] {
            Token::Number(bits) => {
                lemma_driven_value(compute, operands.push(bits), rest.skip(1));
            },
            Token::Operator(symbol) => {
                if operands.len() >= 2 {
                    let rhs = operands[operands.len() - 1];
                    let lhs = operands[operands.len() - 2];
                    if let Ok(arithmetic) = application(symbol, rhs, lhs) {
                        lemma_driven_value(
                            compute,
                            operands.take(operands.len() - 2).push(compute(arithmetic)),
                            rest.skip(1),
                        );
                    }
                }
            },
        }
    }
    if operands.len() == 0 {
        assert(operands == Seq::<u64>::empty());
    }
}

/// A reduction fails in one of three ways only: an operator finds too few
/// operands, a division has a zero divisor, or the operands do not come down
/// to one value.
pub proof fn lemma_failures(
    compute: spec_fn(Arithmetic) -> u64,
    operands: Seq<u64>,
    tokens: Seq<Token>,
)
    ensures
        reduction(compute, operands, tokens) matches Err(error) ==> error
            == ErrorView::InvalidExpression(too_few_operands()) || error
            == ErrorView::DivisionByZero,
        operands.len() == 0 ==> (postfix_value(compute, tokens) matches Err(error) ==> error
            == ErrorView::InvalidExpression(too_few_operands()) || error
            == ErrorView::DivisionByZero || error == ErrorView::TooManyOperators),
    decreases tokens.len(),
{
    if tokens.len() > 0 {
        if let Ok(next) = step(compute, operands, tokens[0]) {
            lemma_failures(compute, next, tokens.skip(1));
        }
    }
    if operands.len() == 0 {
        assert(operands == Seq::<u64>::empty());
    }
}

/// A line of words that are all numbers or operators is rejected only
/// where it is empty. What it evaluates to is a value or one of three
/// failures: an operator with too few operands, a division by zero, or
/// operands that do not come down to one value.
pub proof fn lemma_line_outcome(compute: spec_fn(Arithmetic) -> u64, words: Seq<Word>)
    requires
        all_readable(words),
    ensures
        match tokenize(words) {
            Ok(tokens) => {
                &&& words.len() > 0
                &&& all_recognized(tokens)
                &&& driven(compute, Seq::empty(), to_postfix(tokens)) matches Err(error) ==> {
                    ||| error == ErrorView::InvalidExpression(too_few_operands())
                    ||| error == ErrorView::DivisionByZero
                    ||| error == ErrorView::TooManyOperators
                }
            },
            Err(error) => words.len() == 0 && error == ErrorView::EmptyExpression,
        },
{
    if let Ok(tokens) = tokenize(words) {
        let postfix = to_postfix(tokens);
        lemma_driven_value(compute, Seq::empty(), postfix);
        lemma_failures(compute, Seq::empty(), postfix);
    }
}

} // verus!
