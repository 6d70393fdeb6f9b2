//! Classification of the words of an input line into tokens.

use vstd::prelude::*;
use vstd::string::*;
use crate::error::{Error, ErrorView};
use crate::token::{all_recognized, is_operator, spec_is_operator, Token};

verus! {

/// One whitespace-delimited word of the input, with its reading as a number.
#[derive(Debug, Clone, Copy)]
pub struct Word<'a> {
    /// The word as it was written.
    pub text: &'a str,
    /// The IEEE 754 binary64 bit pattern of the number that the word
    /// denotes, or `None` where it denotes no number.
    pub number: Option<u64>,
}

impl<'a> Word<'a> {
    /// The token that the word stands for: its number where it denotes one,
    /// else its only character where that is one of the four operators.
    pub open spec fn token(self) -> Option<Token> {
        match self.number {
            Some(bits) => Some(Token::Number(bits)),
            None => if self.text@.len() == 1 && spec_is_operator(self.text@[0]) {
                Some(Token::Operator(self.text@[0]))
            } else {
                None
            },
        }
    }

    /// Classifies the word, or rejects it with its own text.
    pub fn classify(&self) -> (outcome: Result<Token, Error>)
        ensures
            match outcome {
                Ok(token) => self.token() == Some(token),
                Err(error) => self.token() is None && error@ == ErrorView::InvalidExpression(
                    self.text@,
                ),
            },
    {
        match self.number {
            Some(bits) => Ok(Token::Number(bits)),
            None => {
                if self.text.unicode_len() == 1 {
                    let symbol = self.text.get_char(0);
                    if is_operator(symbol) {
                        return Ok(Token::Operator(symbol));
                    }
                }
                Err(Error::InvalidExpression(self.text.to_string()))
            },
        }
    }
}

/// Every word stands for a token.
pub open spec fn all_readable(words: Seq<Word>) -> bool {
    forall|i: int| 0 <= i < words.len() ==> (#[trigger] words[i]).token() is Some
}

/// `index` is the place of the first word that stands for no token.
pub open spec fn first_unreadable(words: Seq<Word>, index: int) -> bool {
    &&& 0 <= index < words.len()
    &&& words[index].token() is None
    &&& all_readable(words.take(index))
}

/// The tokens of a line of words. An empty line is rejected; so is a line
/// with a word that stands for no token, with the text of the first such
/// word. No other line is rejected.
pub open spec fn tokenize(words: Seq<Word>) -> Result<Seq<Token>, ErrorView> {
    if words.len() == 0 {
        Err(ErrorView::EmptyExpression)
    } else if all_readable(words) {
        Ok(Seq::new(words.len(), |i: int| words[i].token().unwrap()))
    } else {
        Err(
            ErrorView::InvalidExpression(
                words[choose|index: int| first_unreadable(words, index)].text@,
            ),
        )
    }
}

/// Turns the words of a line into tokens.
pub fn parse_expression(expression: Vec<Word>) -> (outcome: Result<Vec<Token>, Error>)
    ensures
        match outcome {
            Ok(tokens) => tokenize(expression@) == Ok::<Seq<Token>, ErrorView>(tokens@)
                && all_recognized(tokens@),
            Err(error) => tokenize(expression@) == Err::<Seq<Token>, ErrorView>(error@),
        },
{
    let mut tokens: Vec<Token> = Vec::new();
    let mut i: usize = 0;
    while i < expression.len()
        invariant
            i <= expression.len(),
            tokens.len() == i,
            forall|j: int| 0 <= j < i ==> (#[trigger] expression@[j]).token() == Some(tokens@[j]),
        decreases expression.len() - i,
    {
        match expression[i].classify() {
            Ok(token) => tokens.push(token),
            Err(error) => {
                proof {
                    let first = choose|index: int| first_unreadable(expression@, index);
                    assert(first_unreadable(expression@, i as int));
                    if i < first {
                        assert(expression@.take(first)[i as int].token() is Some);
                    }
                }
                return Err(error);
            },
        }
        i += 1;
    }
    if tokens.is_empty() {
        return Err(Error::EmptyExpression);
    }
    assert(tokens@ == Seq::new(expression@.len(), |i: int| expression@[i].token().unwrap()));
    Ok(tokens)
}

} // verus!
