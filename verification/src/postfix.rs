//! Reordering of an infix token sequence into postfix order.

use vstd::prelude::*;
use vstd::multiset::Multiset;
use vstd::seq_lib::group_to_multiset_ensures;
use crate::error::Error;
use crate::token::{all_recognized, Token};

verus! {

/// How tightly an operator binds: 1 for `+` and `-`, 2 for `*` and `/`, and
/// 0 for any other symbol.
pub open spec fn rank(symbol: char) -> int {
    if symbol == '+' || symbol == '-' {
        1
    } else if symbol == '*' || symbol == '/' {
        2
    } else {
        0
    }
}

/// How tightly an operator binds.
pub fn precedence(op: char) -> (level: i32)
    ensures
        level == rank(op),
{
    match op {
        '+' | '-' => 1,
        '*' | '/' => 2,
        _ => 0,
    }
}

/// How tightly a token binds: the rank of its symbol for an operator, and 0
/// for a number.
pub open spec fn binding(token: Token) -> int {
    match token {
        Token::Number(_) => 0,
        Token::Operator(symbol) => rank(symbol),
    }
}

/// The reordering at some point of its input: the tokens emitted so far and
/// the operators that wait, the latest last.
pub struct Yard {
    pub output: Seq<Token>,
    pub waiting: Seq<Token>,
}

/// Moves waiting operators to the output, the latest first, for as long as the
/// latest binds at least as tightly as `level`.
pub open spec fn release(yard: Yard, level: int) -> Yard
    decreases yard.waiting.len(),
{
    if yard.waiting.len() > 0 && binding(yard.waiting.last()) >= level {
        release(
            Yard {
                output: yard.output.push(yard.waiting.last()),
                waiting: yard.waiting.drop_last(),
            },
            level,
        )
    } else {
        yard
    }
}

/// Takes in one token. A number goes straight to the output. An operator
/// first releases every waiting operator that binds at least as tightly, so
/// that operators of equal rank apply from left to right, and then waits
/// itself.
pub open spec fn accept(yard: Yard, token: Token) -> Yard {
    match token {
        Token::Number(_) => Yard { output: yard.output.push(token), waiting: yard.waiting },
        Token::Operator(symbol) => {
            let released = release(yard, rank(symbol));
            Yard { output: released.output, waiting: released.waiting.push(token) }
        },
    }
}

/// The reordering after all of `tokens` were taken in, in order.
pub open spec fn shunt(tokens: Seq<Token>) -> Yard
    decreases tokens.len(),
{
    if tokens.len() == 0 {
        Yard { output: Seq::empty(), waiting: Seq::empty() }
    } else {
        accept(shunt(tokens.drop_last()), tokens.last())
    }
}

/// The postfix order of an infix token sequence: what was emitted while the
/// tokens were taken in, followed by every operator still waiting, the
/// latest first.
pub open spec fn to_postfix(tokens: Seq<Token>) -> Seq<Token> {
    release(shunt(tokens), 0).output
}

/// The symbols are those of the operator tokens, one for one.
pub open spec fn symbols_of(symbols: Seq<char>, operators: Seq<Token>) -> bool {
    &&& symbols.len() == operators.len()
    &&& forall|i: int|
        0 <= i < symbols.len() ==> #[trigger] operators[i] == Token::Operator(symbols[i])
}

/// Reorders an infix token sequence into postfix order. This never fails.
pub fn to_rpn(tokens: &[Token]) -> (postfix: Result<Vec<Token>, Error>)
    ensures
        postfix matches Ok(sequence) && sequence@ == to_postfix(tokens@),
{
    let mut output: Vec<Token> = Vec::new();
    let mut operators: Vec<char> = Vec::new();
    let mut i: usize = 0;
    while i < tokens.len()
        invariant
            i <= tokens.len(),
            output@ == shunt(tokens@.take(i as int)).output,
            symbols_of(operators@, shunt(tokens@.take(i as int)).waiting),
        decreases tokens.len() - i,
    {
        let token = tokens[i];
        let ghost before = shunt(tokens@.take(i as int));
        match token {
            Token::Number(_) => output.push(token),
            Token::Operator(op) => {
                let level = precedence(op);
                let ghost mut yard = before;
                while operators.len() > 0 && precedence(operators[operators.len() - 1]) >= level
                    invariant
                        output@ == yard.output,
                        symbols_of(operators@, yard.waiting),
                        release(yard, level as int) == release(before, level as int),
                    decreases operators.len(),
                {
                    let top = operators[operators.len() - 1];
                    operators.pop();
                    output.push(Token::Operator(top));
                    proof {
                        yard =
                        Yard {
                            output: yard.output.push(yard.waiting.last()),
                            waiting: yard.waiting.drop_last(),
                        };
                    }
                }
                operators.push(op);
            },
        }
        i += 1;
        assert(tokens@.take(i as int).drop_last() == tokens@.take(i - 1));
    }
    assert(tokens@.take(i as int) == tokens@);
    let ghost mut yard = shunt(tokens@);
    while operators.len() > 0
        invariant
            output@ == yard.output,
            symbols_of(operators@, yard.waiting),
            release(yard, 0).output == to_postfix(tokens@),
        decreases operators.len(),
    {
        let top = operators[operators.len() - 1];
        operators.pop();
        output.push(Token::Operator(top));
        proof {
            yard =
            Yard {
                output: yard.output.push(yard.waiting.last()),
                waiting: yard.waiting.drop_last(),
            };
        }
    }
    Ok(output)
}

/// The tokens that a yard holds, emitted or waiting, each as often as it
/// occurs.
pub open spec fn holdings(yard: Yard) -> Multiset<Token> {
    yard.output.to_multiset().add(yard.waiting.to_multiset())
}

/// Every token of the sequence is a number.
pub open spec fn all_numbers(tokens: Seq<Token>) -> bool {
    forall|i: int| 0 <= i < tokens.len() ==> (#[trigger] tokens[i]) is Number
}

/// Releasing moves tokens from the waiting operators to the output and
/// neither adds nor drops one; releasing at level 0 leaves nothing waiting.
pub proof fn lemma_release_holdings(yard: Yard, level: int)
    ensures
        holdings(release(yard, level)) == holdings(yard),
        level <= 0 ==> release(yard, level).waiting.len() == 0,
    decreases yard.waiting.len(),
{
    broadcast use group_to_multiset_ensures;

    if yard.waiting.len() > 0 && binding(yard.waiting.last()) >= level {
        let next = Yard {
            output: yard.output.push(yard.waiting.last()),
            waiting: yard.waiting.drop_last(),
        };
        lemma_release_holdings(next, level);
        assert(yard.waiting == next.waiting.push(yard.waiting.last()));
    }
}

/// A yard holds exactly the tokens that it has taken in.
pub proof fn lemma_shunt_holdings(tokens: Seq<Token>)
    ensures
        holdings(shunt(tokens)) == tokens.to_multiset(),
    decreases tokens.len(),
{
    broadcast use group_to_multiset_ensures;

    if tokens.len() > 0 {
        lemma_shunt_holdings(tokens.drop_last());
        assert(tokens == tokens.drop_last().push(tokens.last()));
        if let Token::Operator(symbol) = tokens.last() {
            lemma_release_holdings(shunt(tokens.drop_last()), rank(symbol));
        }
    }
}

/// The postfix order is a rearrangement of the infix sequence: it holds the
/// same tokens, each as often, and so has the same length.
pub proof fn lemma_postfix_permutes(tokens: Seq<Token>)
    ensures
        to_postfix(tokens).to_multiset() == tokens.to_multiset(),
        to_postfix(tokens).len() == tokens.len(),
{
    broadcast use group_to_multiset_ensures;

    lemma_shunt_holdings(tokens);
    lemma_release_holdings(shunt(tokens), 0);
    assert(to_postfix(tokens).to_multiset().len() == tokens.to_multiset().len());
}

/// Reordering brings in no symbol that the infix sequence did not hold.
pub proof fn lemma_postfix_recognized(tokens: Seq<Token>)
    requires
        all_recognized(tokens),
    ensures
        all_recognized(to_postfix(tokens)),
{
    broadcast use group_to_multiset_ensures;

    lemma_postfix_permutes(tokens);
    let postfix = to_postfix(tokens);
    assert forall|i: int| 0 <= i < postfix.len() implies (#[trigger] postfix[i]).recognized() by {
        assert(tokens.to_multiset().count(postfix[i]) > 0);
    }
}

/// A sequence of numbers alone is its own postfix order.
pub proof fn lemma_numbers_unchanged(tokens: Seq<Token>)
    requires
        all_numbers(tokens),
    ensures
        shunt(tokens) == (Yard { output: tokens, waiting: Seq::empty() }),
        to_postfix(tokens) == tokens,
    decreases tokens.len(),
{
    if tokens.len() == 0 {
        assert(tokens == Seq::<Token>::empty());
    } else {
        lemma_numbers_unchanged(tokens.drop_last());
        assert(tokens.drop_last().push(tokens.last()) == tokens);
    }
}

} // verus!
