//! Expressions over integers: where the reader and the arithmetic are exact
//! on integers of bounded size, the calculator gives the exact integer value
//! of an expression made of whole numbers, `+`, `-` and `*`.
//!
//! Binary64 is such an arithmetic up to 2^53; that it is so is assumed of
//! the reader and the arithmetic here, not proved.

use vstd::prelude::*;
use crate::calculate_spec;
use crate::evaluator::{evaluate_spec, Arithmetic};
use crate::grammar::{
    is_infix, last_additive, lemma_evaluate_infix, lemma_infix_prefix, lemma_last_additive,
    lemma_split, product_value, sum_value,
};
use crate::notation::{
    is_spaces, is_step, is_written, lemma_written_positions, lemma_written_tokens, spell,
    spelled_tokens, Step,
};
use crate::token::Token;
use crate::tokenizer::Reader;

verus! {

/// The integer that a bit pattern stands for, if it stands for one.
pub type Meaning = spec_fn(u64) -> Option<int>;

/// The largest magnitude up to which every integer has a bit pattern of its
/// own in binary64: 2^53.
pub open spec fn limit() -> int {
    0x20_0000_0000_0000
}

/// The integer lies within the limit, on either side of zero.
pub open spec fn in_range(x: int) -> bool {
    -limit() <= x <= limit()
}

/// The integer operation that `+`, `-` or `*` stands for.
pub open spec fn integer_operation(op: Token, x: int, y: int) -> int {
    match op {
        Token::Plus => x + y,
        Token::Minus => x - y,
        _ => x * y,
    }
}

/// The arithmetic `g` is exact on integers: where both operands stand for
/// integers and the exact sum, difference or product lies within the limit,
/// the result stands for it.
pub open spec fn exact_arithmetic(g: Arithmetic, meaning: Meaning) -> bool {
    forall|op: Token, a: u64, b: u64|
        (op is Plus || op is Minus || op is Multiply) && meaning(a) is Some && meaning(b) is Some
            && in_range(integer_operation(op, meaning(a)->Some_0, meaning(b)->Some_0))
            ==> meaning(#[trigger] g(op, a, b)) == Some(
            integer_operation(op, meaning(a)->Some_0, meaning(b)->Some_0),
        )
}

/// The exact value of a product of integers, if its numbers stand for
/// integers, its operators are all `*`, and the value of every product along
/// the way lies within the limit.
pub open spec fn product_exact(tokens: Seq<Token>, meaning: Meaning) -> Option<int>
    recommends
        is_infix(tokens),
    decreases tokens.len(),
{
    if tokens.len() < 3 {
        match meaning(tokens.last().bits()) {
            Some(x) => if in_range(x) {
                Some(x)
            } else {
                None
            },
            None => None,
        }
    } else {
        match (
            product_exact(tokens.take(tokens.len() - 2), meaning),
            meaning(tokens.last().bits()),
        ) {
            (Some(x), Some(y)) => if tokens[tokens.len() - 2] is Multiply && in_range(x * y) {
                Some(x * y)
            } else {
                None
            },
            _ => None,
        }
    }
}

/// The exact value of an expression over integers with `+`, `-` and `*`,
/// read with `*` binding tighter and from left to right, if every number in
/// it stands for an integer and every value along the way lies within the
/// limit.
pub open spec fn sum_exact(tokens: Seq<Token>, meaning: Meaning) -> Option<int>
    recommends
        is_infix(tokens),
    decreases tokens.len(),
    via sum_exact_decreases
{
    match last_additive(tokens) {
        None => product_exact(tokens, meaning),
        Some(i) => match (
            sum_exact(tokens.take(i), meaning),
            product_exact(tokens.skip(i + 1), meaning),
        ) {
            (Some(x), Some(y)) => if in_range(integer_operation(tokens[i], x, y)) {
                Some(integer_operation(tokens[i], x, y))
            } else {
                None
            },
            _ => None,
        },
    }
}

#[via_fn]
proof fn sum_exact_decreases(tokens: Seq<Token>, meaning: Meaning) {
    lemma_last_additive(tokens);
}

/// An exact arithmetic values a product of integers exactly.
proof fn lemma_product_exact(tokens: Seq<Token>, g: Arithmetic, meaning: Meaning)
    requires
        is_infix(tokens),
        exact_arithmetic(g, meaning),
        product_exact(tokens, meaning) is Some,
    ensures
        product_value(tokens, g) is Ok,
        meaning(product_value(tokens, g)->Ok_0) == product_exact(tokens, meaning),
    decreases tokens.len(),
{
    if tokens.len() >= 3 {
        let shorter = tokens.take(tokens.len() - 2);
        lemma_infix_prefix(tokens, tokens.len() - 2);
        lemma_product_exact(shorter, g, meaning);
    }
}

/// An exact arithmetic values an expression over integers exactly.
pub proof fn lemma_sum_exact(tokens: Seq<Token>, g: Arithmetic, meaning: Meaning)
    requires
        is_infix(tokens),
        exact_arithmetic(g, meaning),
        sum_exact(tokens, meaning) is Some,
    ensures
        sum_value(tokens, g) is Ok,
        meaning(sum_value(tokens, g)->Ok_0) == sum_exact(tokens, meaning),
    decreases tokens.len(),
{
    lemma_split(tokens);
    lemma_last_additive(tokens);
    match last_additive(tokens) {
        None => {
            lemma_product_exact(tokens, g, meaning);
        },
        Some(i) => {
            lemma_sum_exact(tokens.take(i), g, meaning);
            lemma_product_exact(tokens.skip(i + 1), g, meaning);
        },
    }
}

/// The evaluator is exact on integers: an infix expression whose numbers
/// stand for integers, joined by `+`, `-` and `*`, with every value along
/// the way within the limit, evaluates to a number that stands for the
/// exact integer value of the expression, whatever exact arithmetic is
/// used.
pub proof fn lemma_evaluate_exact(tokens: Seq<Token>, g: Arithmetic, meaning: Meaning)
    requires
        is_infix(tokens),
        exact_arithmetic(g, meaning),
        sum_exact(tokens, meaning) is Some,
    ensures
        evaluate_spec(tokens, g) is Ok,
        meaning(evaluate_spec(tokens, g)->Ok_0) == sum_exact(tokens, meaning),
{
    lemma_evaluate_infix(tokens, g);
    lemma_sum_exact(tokens, g, meaning);
}

/// A whole number as it is written: a non-empty run of decimal digits.
pub open spec fn is_digits(text: Seq<char>) -> bool {
    text.len() > 0 && forall|i: int|
        0 <= i < text.len() ==> '0' <= #[trigger] text[i] && text[i] <= '9'
}

/// The integer that a run of digits denotes in base ten.
pub open spec fn decimal_value(text: Seq<char>) -> int
    decreases text.len(),
{
    if text.len() == 0 {
        0
    } else {
        decimal_value(text.drop_last()) * 10 + (text.last() as int - '0' as int)
    }
}

/// The reader is exact on whole numbers: of a run of digits that denotes an
/// integer within the limit it makes a number that stands for that integer.
pub open spec fn exact_reader(read: Reader, meaning: Meaning) -> bool {
    forall|text: Seq<char>|
        is_digits(text) && decimal_value(text) <= limit() ==> (#[trigger] read(text)) is Some
            && meaning(read(text)->Some_0) == Some(decimal_value(text))
}

/// The step adds a whole number within the limit by `+`, `-` or `*`.
pub open spec fn is_whole_step(step: Step) -> bool {
    &&& step.op == '+' || step.op == '-' || step.op == '*'
    &&& is_spaces(step.before)
    &&& is_spaces(step.after)
    &&& is_digits(step.literal)
    &&& decimal_value(step.literal) <= limit()
}

/// The expression is written with whole numbers within the limit, joined by
/// `+`, `-` and `*`, with spaces around the operators as one likes.
pub open spec fn is_whole(first: Seq<char>, steps: Seq<Step>) -> bool {
    &&& is_digits(first)
    &&& decimal_value(first) <= limit()
    &&& forall|i: int| 0 <= i < steps.len() ==> is_whole_step(#[trigger] steps[i])
}

/// The calculator is exact on whole numbers. Of an expression written with
/// whole numbers, `+`, `-` and `*`, in which every value along the way lies
/// within the limit, each number token stands for the integer that its
/// digits denote, and the calculation gives a number that stands for the
/// exact integer value of the expression, read with `*` binding tighter and
/// from left to right. This holds with every reader and arithmetic that are
/// exact on integers within the limit.
pub proof fn lemma_whole_expression(
    first: Seq<char>,
    steps: Seq<Step>,
    read: Reader,
    g: Arithmetic,
    meaning: Meaning,
)
    requires
        is_whole(first, steps),
        exact_reader(read, meaning),
        exact_arithmetic(g, meaning),
        sum_exact(spelled_tokens(first, steps, read), meaning) is Some,
    ensures
        calculate_spec(spell(first, steps), read, g) is Ok,
        meaning(calculate_spec(spell(first, steps), read, g)->Ok_0) == sum_exact(
            spelled_tokens(first, steps, read),
            meaning,
        ),
        meaning(spelled_tokens(first, steps, read)[0].bits()) == Some(decimal_value(first)),
        forall|i: int|
            0 <= i < steps.len() ==> meaning(
                spelled_tokens(first, steps, read)[2 * i + 2].bits(),
            ) == Some(decimal_value((#[trigger] steps[i]).literal)),
{
    assert(is_written(first, steps, read)) by {
        assert forall|i: int| 0 <= i < steps.len() implies is_step(#[trigger] steps[i], read) by {
            assert(is_whole_step(steps[i]));
        }
    }
    lemma_written_tokens(first, steps, read);
    lemma_written_positions(first, steps, read);
    lemma_evaluate_exact(spelled_tokens(first, steps, read), g, meaning);
    assert forall|i: int| 0 <= i < steps.len() implies meaning(
        spelled_tokens(first, steps, read)[2 * i + 2].bits(),
    ) == Some(decimal_value((#[trigger] steps[i]).literal)) by {
        assert(is_whole_step(steps[i]));
    }
}

} // verus!
