//! Reduction of a postfix token sequence on a stack of operands.
//!
//! The reduction decides which operation is applied to which operands, and
//! when it fails. It does not compute on the numbers itself: whenever two
//! operands are to be combined it stops and names the operation, and it goes
//! on once it is handed the result.

use vstd::prelude::*;
use vstd::slice::slice_to_vec;
use vstd::string::*;
use crate::error::{Error, ErrorView};
use crate::number::{is_zero, spec_is_zero};
use crate::postfix::{lemma_postfix_recognized, to_postfix, to_rpn};
use crate::token::{all_recognized, spec_is_operator, Token};

verus! {

/// One of the four binary operations.
#[derive(Debug, Clone, Copy, PartialEq, Eq, Structural)]
pub enum Operation {
    Add,
    Subtract,
    Multiply,
    Divide,
}

/// An operation with its operands in textual order: `lhs` stood before
/// `rhs` in the expression, so a subtraction is `lhs - rhs` and a division
/// is `lhs / rhs`.
#[derive(Debug, Clone, Copy, PartialEq, Eq, Structural)]
pub struct Arithmetic {
    pub operation: Operation,
    /// The bit pattern of the left-hand operand.
    pub lhs: u64,
    /// The bit pattern of the right-hand operand.
    pub rhs: u64,
}

/// The operation that an operator symbol denotes.
pub open spec fn operation_of(symbol: char) -> Operation
    recommends
        spec_is_operator(symbol),
{
    if symbol == '+' {
        Operation::Add
    } else if symbol == '-' {
        Operation::Subtract
    } else if symbol == '*' {
        Operation::Multiply
    } else {
        Operation::Divide
    }
}

/// What applying `op` to the operands `a` and `b` comes to: a division by
/// zero is refused, anything else is the arithmetic `a op b`.
pub open spec fn application(op: char, b: u64, a: u64) -> Result<Arithmetic, ErrorView>
    recommends
        spec_is_operator(op),
{
    if op == '/' && spec_is_zero(b) {
        Err(ErrorView::DivisionByZero)
    } else {
        Ok(Arithmetic { operation: operation_of(op), lhs: a, rhs: b })
    }
}

/// Decides what applying `op` to `a` and `b` comes to. The operand that was
/// met later, `b`, is passed first; the result is `a op b`.
pub fn apply_operator(op: char, b: u64, a: u64) -> (outcome: Result<Arithmetic, Error>)
    requires
        spec_is_operator(op),
    ensures
        match outcome {
            Ok(arithmetic) => application(op, b, a) == Ok::<Arithmetic, ErrorView>(arithmetic),
            Err(error) => application(op, b, a) == Err::<Arithmetic, ErrorView>(error@),
        },
{
    match op {
        '+' => Ok(Arithmetic { operation: Operation::Add, lhs: a, rhs: b }),
        '-' => Ok(Arithmetic { operation: Operation::Subtract, lhs: a, rhs: b }),
        '*' => Ok(Arithmetic { operation: Operation::Multiply, lhs: a, rhs: b }),
        _ => {
            if is_zero(b) {
                Err(Error::DivisionByZero)
            } else {
                Ok(Arithmetic { operation: Operation::Divide, lhs: a, rhs: b })
            }
        },
    }
}

/// Where a reduction stands.
pub enum Outcome {
    /// It waits for the result of `arithmetic`, which will join `operands`
    /// before `rest` is read.
    Pending { arithmetic: Arithmetic, operands: Seq<u64>, rest: Seq<Token> },
    /// It has ended, with a value or an error.
    Finished(Result<u64, ErrorView>),
}

/// The text of the error for an operator that finds fewer than two operands.
pub open spec fn too_few_operands() -> Seq<char> {
    "Not enough operands for operator"@
}

/// Reads `rest` from its start with `operands` on the stack, up to the first
/// operation that is to be computed or to the end.
///
/// A number is pushed. An operator takes the two latest operands off the
/// stack, the earlier of them as its left-hand side; with fewer than two it
/// fails. At the end the stack must hold exactly one value, the result.
pub open spec fn run(operands: Seq<u64>, rest: Seq<Token>) -> Outcome
    recommends
        all_recognized(rest),
    decreases rest.len(),
{
    if rest.len() == 0 {
        if operands.len() == 1 {
            Outcome::Finished(Ok(operands[0]))
        } else {
            Outcome::Finished(Err(ErrorView::TooManyOperators))
        }
    } else {
        match rest[0] {
            Token::Number(bits) => run(operands.push(bits), rest.skip(1)),
            Token::Operator(symbol) => {
                if operands.len() < 2 {
                    Outcome::Finished(Err(ErrorView::InvalidExpression(too_few_operands())))
                } else {
                    let rhs = operands[operands.len() - 1];
                    let lhs = operands[operands.len() - 2];
                    match application(symbol, rhs, lhs) {
                        Ok(arithmetic) => Outcome::Pending {
                            arithmetic,
                            operands: operands.take(operands.len() - 2),
                            rest: rest.skip(1),
                        },
                        Err(error) => Outcome::Finished(Err(error)),
                    }
                }
            },
        }
    }
}

/// When a reduction stops for an operation, it has read at least one token:
/// what is left is a proper tail of what it started from.
pub proof fn lemma_run_advances(operands: Seq<u64>, rest: Seq<Token>)
    ensures
        run(operands, rest) matches Outcome::Pending { rest: later, .. } ==> exists|read: int|
            0 < read <= rest.len() && later == #[trigger] rest.skip(read),
    decreases rest.len(),
{
    if rest.len() > 0 {
        if let Token::Number(bits) = rest[0] {
            lemma_run_advances(operands.push(bits), rest.skip(1));
            if let Outcome::Pending { rest: later, .. } = run(operands, rest) {
                let read = choose|read: int|
                    0 < read <= rest.skip(1).len() && later == #[trigger] rest.skip(1).skip(read);
                assert(later == rest.skip(read + 1));
            }
        }
    }
}

/// A reduction that waits for the result of an operation.
#[derive(Debug)]
pub struct Evaluation {
    postfix: Vec<Token>,
    cursor: usize,
    operands: Vec<u64>,
}

impl Evaluation {
    #[verifier::type_invariant]
    spec fn well_formed(self) -> bool {
        &&& self.cursor <= self.postfix.len()
        &&& all_recognized(self.postfix@)
    }

    /// The operands on the stack, the latest last.
    pub closed spec fn operands(self) -> Seq<u64> {
        self.operands@
    }

    /// The tokens that are still to be read.
    pub closed spec fn remaining(self) -> Seq<Token> {
        self.postfix@.skip(self.cursor as int)
    }

    /// Goes on with `value` as the result of the operation that was waited
    /// for.
    pub fn resume(self, value: u64) -> (progress: Progress)
        ensures
            progress@ == run(self.operands().push(value), self.remaining()),
    {
        proof {
            use_type_invariant(&self);
        }
        let Evaluation { postfix, cursor, operands } = self;
        let mut operands = operands;
        operands.push(value);
        reduce(postfix, cursor, operands)
    }
}

/// What a reduction hands back: a request for one operation, or its end.
#[derive(Debug)]
pub enum Progress {
    /// The arithmetic is to be computed and its result handed to
    /// [`Evaluation::resume`].
    Pending(Arithmetic, Evaluation),
    /// The reduction has ended.
    Finished(Result<u64, Error>),
}

impl View for Progress {
    type V = Outcome;

    open spec fn view(&self) -> Outcome {
        match self {
            Progress::Pending(arithmetic, evaluation) => Outcome::Pending {
                arithmetic: *arithmetic,
                operands: evaluation.operands(),
                rest: evaluation.remaining(),
            },
            Progress::Finished(Ok(value)) => Outcome::Finished(Ok(*value)),
            Progress::Finished(Err(error)) => Outcome::Finished(Err(error@)),
        }
    }
}

/// Reads `postfix` from `start` on, with `stack` as the operands.
fn reduce(postfix: Vec<Token>, start: usize, stack: Vec<u64>) -> (progress: Progress)
    requires
        start <= postfix.len(),
        all_recognized(postfix@),
    ensures
        progress@ == run(stack@, postfix@.skip(start as int)),
{
    let mut cursor = start;
    let mut operands = stack;
    while cursor < postfix.len()
        invariant
            cursor <= postfix.len(),
            all_recognized(postfix@),
            run(operands@, postfix@.skip(cursor as int)) == run(
                stack@,
                postfix@.skip(start as int),
            ),
        decreases postfix.len() - cursor,
    {
        let token = postfix[cursor];
        assert(postfix@.skip(cursor as int).skip(1) == postfix@.skip(cursor + 1));
        cursor += 1;
        match token {
            Token::Number(bits) => operands.push(bits),
            Token::Operator(op) => {
                let count = operands.len();
                if count < 2 {
                    return Progress::Finished(
                        Err(
                            Error::InvalidExpression(
                                String::from_str("Not enough operands for operator"),
                            ),
                        ),
                    );
                }
                let b = operands[count - 1];
                let a = operands[count - 2];
                match apply_operator(op, b, a) {
                    Ok(arithmetic) => {
                        operands.truncate(count - 2);
                        return Progress::Pending(
                            arithmetic,
                            Evaluation { postfix, cursor, operands },
                        );
                    },
                    Err(error) => {
                        return Progress::Finished(Err(error));
                    },
                }
            },
        }
    }
    if operands.len() != 1 {
        return Progress::Finished(Err(Error::TooManyOperators));
    }
    Progress::Finished(Ok(operands[0]))
}

/// Starts the reduction of a postfix token sequence.
pub fn evaluate_rpn(tokens: &[Token]) -> (progress: Progress)
    requires
        all_recognized(tokens@),
    ensures
        progress@ == run(Seq::empty(), tokens@),
{
    let postfix = slice_to_vec(tokens);
    assert(postfix@.skip(0) == tokens@);
    reduce(postfix, 0, Vec::new())
}

/// Reorders an infix token sequence into postfix order and starts its
/// reduction.
pub fn evaluate_expression(expression: &[Token]) -> (progress: Progress)
    requires
        all_recognized(expression@),
    ensures
        progress@ == run(Seq::empty(), to_postfix(expression@)),
{
    match to_rpn(expression) {
        Ok(postfix) => {
            proof {
                lemma_postfix_recognized(expression@);
            }
            assert(postfix@.skip(0) == postfix@);
            reduce(postfix, 0, Vec::new())
        },
        Err(error) => Progress::Finished(Err(error)),
    }
}

} // verus!
