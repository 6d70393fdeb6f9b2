//! What an infix expression means, and why its postfix order means the same.
//!
//! An infix expression is read as a tree: it splits at the last of the
//! operators that bind least, into the expression to the left of that
//! operator and the expression to its right. The postfix order of the
//! expression is the post-order of this tree, and reducing it yields the
//! value of the tree.

use vstd::prelude::*;
use crate::error::ErrorView;
use crate::evaluate::{application, Arithmetic};
use crate::semantics::{driven, lemma_driven_value, postfix_value, reduction, step};
use crate::postfix::{accept, binding, release, shunt, to_postfix, Yard};
use crate::token::{all_recognized, Token};

verus! {

/// Numbers and operators alternate, from a number to a number.
pub open spec fn alternates(tokens: Seq<Token>) -> bool {
    &&& tokens.len() % 2 == 1
    &&& forall|i: int| 0 <= i < tokens.len() && i % 2 == 0 ==> (#[trigger] tokens[i]) is Number
    &&& forall|i: int| 0 <= i < tokens.len() && i % 2 == 1 ==> (#[trigger] tokens[i]) is Operator
}

/// The tokens form an infix expression: numbers joined by the four
/// operators.
pub open spec fn is_infix(tokens: Seq<Token>) -> bool {
    alternates(tokens) && all_recognized(tokens)
}

/// `at` is the place of the operator at which the expression splits: no
/// operator binds less tightly, and every operator after it binds more
/// tightly.
pub open spec fn splits_at(tokens: Seq<Token>, at: int) -> bool {
    &&& 0 < at < tokens.len() - 1
    &&& at % 2 == 1
    &&& forall|i: int|
        0 <= i < tokens.len() && i % 2 == 1 ==> binding(tokens[at]) <= binding(
            #[trigger] tokens[i],
        )
    &&& forall|i: int|
        at < i < tokens.len() && i % 2 == 1 ==> binding(tokens[at]) < binding(
            #[trigger] tokens[i],
        )
}

/// The place at which an expression with at least one operator splits.
pub open spec fn pivot(tokens: Seq<Token>) -> int {
    choose|at: int| splits_at(tokens, at)
}

/// An expression with at least one operator splits at exactly one place,
/// into two expressions.
pub proof fn lemma_pivot(tokens: Seq<Token>)
    requires
        alternates(tokens),
        tokens.len() >= 3,
    ensures
        splits_at(tokens, pivot(tokens)),
        forall|at: int| splits_at(tokens, at) ==> at == pivot(tokens),
        alternates(tokens.take(pivot(tokens))),
        alternates(tokens.skip(pivot(tokens) + 1)),
    decreases tokens.len(),
{
    let last = tokens.len() - 2;
    if tokens.len() == 3 {
        assert(splits_at(tokens, 1));
    } else {
        let shorter = tokens.take(last);
        lemma_pivot(shorter);
        let earlier = pivot(shorter);
        if binding(tokens[last]) <= binding(tokens[earlier]) {
            assert forall|i: int| 0 <= i < tokens.len() && i % 2 == 1 implies binding(
                tokens[last],
            ) <= binding(#[trigger] tokens[i]) by {
                if i < last {
                    assert(shorter[i] == tokens[i]);
                }
            }
            assert(splits_at(tokens, last));
        } else {
            assert forall|i: int| 0 <= i < tokens.len() && i % 2 == 1 implies binding(
                tokens[earlier],
            ) <= binding(#[trigger] tokens[i]) by {
                if i < last {
                    assert(shorter[i] == tokens[i]);
                }
            }
            assert forall|i: int| earlier < i < tokens.len() && i % 2 == 1 implies binding(
                tokens[earlier],
            ) < binding(#[trigger] tokens[i]) by {
                if i < last {
                    assert(shorter[i] == tokens[i]);
                }
            }
            assert(splits_at(tokens, earlier));
        }
    }
    assert(alternates(tokens.skip(pivot(tokens) + 1)));
}

/// What the operator `symbol` yields for the values of the expressions on
/// its two sides; a failure on the left comes before one on the right.
pub open spec fn combined(
    compute: spec_fn(Arithmetic) -> u64,
    symbol: char,
    left: Result<u64, ErrorView>,
    right: Result<u64, ErrorView>,
) -> Result<u64, ErrorView> {
    match (left, right) {
        (Err(error), _) => Err(error),
        (Ok(_), Err(error)) => Err(error),
        (Ok(lhs), Ok(rhs)) => match application(symbol, rhs, lhs) {
            Ok(arithmetic) => Ok(compute(arithmetic)),
            Err(error) => Err(error),
        },
    }
}

/// The value of an infix expression where `compute` says what each
/// operation yields: that of its only number, or what the operator at which
/// it splits yields for the values of its two sides.
pub open spec fn infix_value(
    compute: spec_fn(Arithmetic) -> u64,
    tokens: Seq<Token>,
) -> Result<u64, ErrorView>
    recommends
        is_infix(tokens),
    decreases tokens.len(),
{
    if alternates(tokens) && tokens.len() >= 3 {
        let at = pivot(tokens);
        proof {
            lemma_pivot(tokens);
        }
        combined(
            compute,
            tokens[at]->Operator_0,
            infix_value(compute, tokens.take(at)),
            infix_value(compute, tokens.skip(at + 1)),
        )
    } else {
        Ok(tokens[0]->Number_0)
    }
}

/// The post-order of an infix expression: its left side, its right side,
/// then the operator at which it splits.
pub open spec fn postorder(tokens: Seq<Token>) -> Seq<Token>
    recommends
        alternates(tokens),
    decreases tokens.len(),
{
    if alternates(tokens) && tokens.len() >= 3 {
        let at = pivot(tokens);
        proof {
            lemma_pivot(tokens);
        }
        postorder(tokens.take(at)) + postorder(tokens.skip(at + 1)).push(tokens[at])
    } else {
        tokens
    }
}

/// The tokens that the reordering of an expression has emitted when it has
/// taken in the whole of it.
spec fn emitted(tokens: Seq<Token>) -> Seq<Token>
    decreases tokens.len(),
{
    if alternates(tokens) && tokens.len() >= 3 {
        let at = pivot(tokens);
        proof {
            lemma_pivot(tokens);
        }
        postorder(tokens.take(at)) + emitted(tokens.skip(at + 1))
    } else {
        tokens
    }
}

/// The operators that wait when the reordering of an expression has taken
/// in the whole of it, the latest last.
spec fn spine(tokens: Seq<Token>) -> Seq<Token>
    decreases tokens.len(),
{
    if alternates(tokens) && tokens.len() >= 3 {
        let at = pivot(tokens);
        proof {
            lemma_pivot(tokens);
        }
        seq![tokens[at]] + spine(tokens.skip(at + 1))
    } else {
        Seq::empty()
    }
}

/// The sequence from its last element to its first.
spec fn unwound(tokens: Seq<Token>) -> Seq<Token>
    decreases tokens.len(),
{
    if tokens.len() == 0 {
        Seq::empty()
    } else {
        seq![tokens.last()] + unwound(tokens.drop_last())
    }
}

/// The reordering after `tokens` were taken in, in order, starting from
/// `yard`.
spec fn shunt_from(yard: Yard, tokens: Seq<Token>) -> Yard
    decreases tokens.len(),
{
    if tokens.len() == 0 {
        yard
    } else {
        accept(shunt_from(yard, tokens.drop_last()), tokens.last())
    }
}

/// Every operator of the expression binds at least as tightly as `level`.
spec fn binds_from(tokens: Seq<Token>, level: int) -> bool {
    forall|i: int| 0 <= i < tokens.len() && i % 2 == 1 ==> level <= binding(#[trigger] tokens[i])
}

/// Every token of the sequence binds at least as tightly as `level`.
spec fn all_bind_from(tokens: Seq<Token>, level: int) -> bool {
    forall|i: int| 0 <= i < tokens.len() ==> level <= binding(#[trigger] tokens[i])
}

proof fn lemma_unwound_front(first: Token, tokens: Seq<Token>)
    ensures
        unwound(seq![first] + tokens) == unwound(tokens).push(first),
    decreases tokens.len(),
{
    let whole = seq![first] + tokens;
    if tokens.len() == 0 {
        assert(unwound(whole) == seq![first] + unwound(whole.drop_last()));
    } else {
        lemma_unwound_front(first, tokens.drop_last());
        assert(whole.drop_last() == seq![first] + tokens.drop_last());
    }
}

proof fn lemma_shunt_from_start(tokens: Seq<Token>)
    ensures
        shunt_from(Yard { output: Seq::empty(), waiting: Seq::empty() }, tokens) == shunt(tokens),
    decreases tokens.len(),
{
    if tokens.len() > 0 {
        lemma_shunt_from_start(tokens.drop_last());
    }
}

proof fn lemma_shunt_from_one(yard: Yard, tokens: Seq<Token>)
    requires
        tokens.len() == 1,
    ensures
        shunt_from(yard, tokens) == accept(yard, tokens[0]),
{
    assert(shunt_from(yard, tokens.drop_last()) == yard);
}

proof fn lemma_shunt_from_joined(yard: Yard, first: Seq<Token>, second: Seq<Token>)
    ensures
        shunt_from(yard, first + second) == shunt_from(shunt_from(yard, first), second),
    decreases second.len(),
{
    if second.len() > 0 {
        lemma_shunt_from_joined(yard, first, second.drop_last());
        assert((first + second).drop_last() == first + second.drop_last());
    }
}

/// Releasing at `level` unwinds all of `above` where every operator of it
/// binds at least as tightly as `level` and the one below it does not.
proof fn lemma_release_unwinds(output: Seq<Token>, below: Seq<Token>, above: Seq<Token>, level: int)
    requires
        all_bind_from(above, level),
        below.len() > 0 ==> binding(below.last()) < level,
    ensures
        release(Yard { output, waiting: below + above }, level) == (Yard {
            output: output + unwound(above),
            waiting: below,
        }),
    decreases above.len(),
{
    if above.len() > 0 {
        assert((below + above).drop_last() == below + above.drop_last());
        lemma_release_unwinds(output.push(above.last()), below, above.drop_last(), level);
        assert(output.push(above.last()) + unwound(above.drop_last()) == output + unwound(
            above,
        ));
    }
}

/// The operators that wait are among those of the expression, so they bind
/// as tightly as all of those do.
proof fn lemma_spine_binds(tokens: Seq<Token>, level: int)
    requires
        alternates(tokens),
        binds_from(tokens, level),
    ensures
        all_bind_from(spine(tokens), level),
    decreases tokens.len(),
{
    if tokens.len() >= 3 {
        lemma_pivot(tokens);
        let at = pivot(tokens);
        let right = tokens.skip(at + 1);
        assert(binds_from(right, level));
        lemma_spine_binds(right, level);
    }
}

/// The post-order of an expression is what its reordering has emitted,
/// followed by the operators that wait, the latest first.
proof fn lemma_postorder_parts(tokens: Seq<Token>)
    requires
        alternates(tokens),
    ensures
        postorder(tokens) == emitted(tokens) + unwound(spine(tokens)),
    decreases tokens.len(),
{
    if tokens.len() >= 3 {
        lemma_pivot(tokens);
        let at = pivot(tokens);
        let right = tokens.skip(at + 1);
        lemma_postorder_parts(right);
        lemma_unwound_front(tokens[at], spine(right));
    }
}

/// Taking in an expression adds what it emits to the output and the
/// operators that wait to those that waited before, where each operator of
/// the expression binds more tightly than the latest that waited before.
proof fn lemma_shunt_expression(yard: Yard, tokens: Seq<Token>)
    requires
        alternates(tokens),
        yard.waiting.len() > 0 ==> binds_from(tokens, binding(yard.waiting.last()) + 1),
    ensures
        shunt_from(yard, tokens) == (Yard {
            output: yard.output + emitted(tokens),
            waiting: yard.waiting + spine(tokens),
        }),
    decreases tokens.len(),
{
    if tokens.len() >= 3 {
        lemma_pivot(tokens);
        let at = pivot(tokens);
        let left = tokens.take(at);
        let right = tokens.skip(at + 1);
        let level = binding(tokens[at]);
        assert(tokens == (left + seq![tokens[at]]) + right);
        lemma_shunt_from_joined(yard, left + seq![tokens[at]], right);
        lemma_shunt_from_joined(yard, left, seq![tokens[at]]);
        lemma_shunt_from_one(shunt_from(yard, left), seq![tokens[at]]);

        assert(binds_from(left, level));
        if yard.waiting.len() > 0 {
            assert(binds_from(left, binding(yard.waiting.last()) + 1));
        }
        lemma_shunt_expression(yard, left);
        lemma_spine_binds(left, level);
        lemma_release_unwinds(yard.output + emitted(left), yard.waiting, spine(left), level);
        lemma_postorder_parts(left);
        let middle = Yard {
            output: yard.output + postorder(left),
            waiting: yard.waiting.push(tokens[at]),
        };
        assert(yard.output + emitted(left) + unwound(spine(left)) == yard.output + postorder(
            left,
        ));

        assert(binds_from(right, level + 1));
        lemma_shunt_expression(middle, right);
        assert(middle.output + emitted(right) == yard.output + emitted(tokens));
        assert(middle.waiting + spine(right) == yard.waiting + spine(tokens));
    } else {
        lemma_shunt_from_one(yard, tokens);
        assert(yard.output.push(tokens[0]) == yard.output + tokens);
    }
}

/// The postfix order of an infix expression is its post-order.
pub proof fn lemma_postfix_is_postorder(tokens: Seq<Token>)
    requires
        alternates(tokens),
    ensures
        to_postfix(tokens) == postorder(tokens),
{
    let start = Yard { output: Seq::empty(), waiting: Seq::empty() };
    lemma_shunt_from_start(tokens);
    lemma_shunt_expression(start, tokens);
    lemma_spine_binds(tokens, 0);
    lemma_release_unwinds(emitted(tokens), Seq::empty(), spine(tokens), 0);
    lemma_postorder_parts(tokens);
}

/// Reading two sequences one after the other is reading the first and
/// then, unless that failed, the second.
proof fn lemma_reduction_joined(
    compute: spec_fn(Arithmetic) -> u64,
    operands: Seq<u64>,
    first: Seq<Token>,
    second: Seq<Token>,
)
    ensures
        reduction(compute, operands, first + second) == match reduction(
            compute,
            operands,
            first,
        ) {
            Ok(stack) => reduction(compute, stack, second),
            Err(error) => Err(error),
        },
    decreases first.len(),
{
    if first.len() == 0 {
    } else {
        assert((first + second).skip(1) == first.skip(1) + second);
        if let Ok(next) = step(compute, operands, first[0]) {
            lemma_reduction_joined(compute, next, first.skip(1), second);
        }
    }
}

/// Reading one token is one step.
proof fn lemma_reduction_one(
    compute: spec_fn(Arithmetic) -> u64,
    operands: Seq<u64>,
    tokens: Seq<Token>,
)
    requires
        tokens.len() == 1,
    ensures
        reduction(compute, operands, tokens) == step(compute, operands, tokens[0]),
{
    if let Ok(next) = step(compute, operands, tokens[0]) {
        assert(reduction(compute, next, tokens.skip(1)) == Ok::<Seq<u64>, ErrorView>(next));
    }
}

/// Reading the post-order of an expression puts its value on top of the
/// operands, or fails as the expression does.
proof fn lemma_postorder_reduces(
    compute: spec_fn(Arithmetic) -> u64,
    operands: Seq<u64>,
    tokens: Seq<Token>,
)
    requires
        is_infix(tokens),
    ensures
        reduction(compute, operands, postorder(tokens)) == match infix_value(compute, tokens) {
            Ok(value) => Ok::<Seq<u64>, ErrorView>(operands.push(value)),
            Err(error) => Err(error),
        },
    decreases tokens.len(),
{
    if tokens.len() >= 3 {
        lemma_pivot(tokens);
        let at = pivot(tokens);
        let left = tokens.take(at);
        let right = tokens.skip(at + 1);
        assert(is_infix(left) && is_infix(right));
        let tail = postorder(right).push(tokens[at]);
        assert(tail == postorder(right) + seq![tokens[at]]);
        lemma_reduction_joined(compute, operands, postorder(left), tail);
        lemma_postorder_reduces(compute, operands, left);
        if let Ok(lhs) = infix_value(compute, left) {
            let held = operands.push(lhs);
            lemma_reduction_joined(compute, held, postorder(right), seq![tokens[at]]);
            lemma_postorder_reduces(compute, held, right);
            if let Ok(rhs) = infix_value(compute, right) {
                let both = held.push(rhs);
                lemma_reduction_one(compute, both, seq![tokens[at]]);
                assert(both.take(both.len() - 2) == operands);
            }
        }
    } else {
        lemma_reduction_one(compute, operands, tokens);
    }
}

/// Reducing the postfix order of an infix expression yields the value of
/// the expression: operators that bind more tightly apply first, and
/// operators that bind alike apply from left to right.
pub proof fn lemma_postfix_value(compute: spec_fn(Arithmetic) -> u64, tokens: Seq<Token>)
    requires
        is_infix(tokens),
    ensures
        postfix_value(compute, to_postfix(tokens)) == infix_value(compute, tokens),
        driven(compute, Seq::empty(), to_postfix(tokens)) == infix_value(compute, tokens),
{
    lemma_postfix_is_postorder(tokens);
    lemma_postorder_reduces(compute, Seq::empty(), tokens);
    lemma_driven_value(compute, Seq::empty(), to_postfix(tokens));
}

/// An infix expression has a value unless it divides by zero.
pub proof fn lemma_infix_failure(compute: spec_fn(Arithmetic) -> u64, tokens: Seq<Token>)
    requires
        is_infix(tokens),
    ensures
        infix_value(compute, tokens) matches Err(error) ==> error == ErrorView::DivisionByZero,
    decreases tokens.len(),
{
    if tokens.len() >= 3 {
        lemma_pivot(tokens);
        let at = pivot(tokens);
        let left = tokens.take(at);
        let right = tokens.skip(at + 1);
        assert(is_infix(left) && is_infix(right));
        lemma_infix_failure(compute, left);
        lemma_infix_failure(compute, right);
    }
}

} // verus!
