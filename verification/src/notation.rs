//! Expressions as they are written: a literal, followed by any number of
//! operators with a literal each, with spaces around the operators as one
//! likes. The tokens of such an input are its numbers and operators in turn.

use vstd::prelude::*;
use crate::calculate_spec;
use crate::evaluator::Arithmetic;
use crate::grammar::{is_infix, lemma_calculate_infix, sum_value};
use crate::laws::{lemma_literal_alone, lemma_space_splits, lemma_symbol_splits};
use crate::token::Token;
use crate::tokenizer::{is_literal_text, symbol, tokenize_spec, Reader};

verus! {

/// One more operand of a written expression: an operator character, the
/// spaces before and after it, and the literal that follows.
pub struct Step {
    pub before: Seq<char>,
    pub op: char,
    pub after: Seq<char>,
    pub literal: Seq<char>,
}

/// The text holds spaces alone; it may be empty.
pub open spec fn is_spaces(text: Seq<char>) -> bool {
    forall|i: int| 0 <= i < text.len() ==> #[trigger] text[i] == ' '
}

/// The character is one of `+ - * /`.
pub open spec fn is_operator_char(c: char) -> bool {
    c == '+' || c == '-' || c == '*' || c == '/'
}

/// The step is well written for the reader: an operator, spaces around it,
/// and a literal that the reader makes a number of.
pub open spec fn is_step(step: Step, read: Reader) -> bool {
    &&& is_operator_char(step.op)
    &&& is_spaces(step.before)
    &&& is_spaces(step.after)
    &&& is_literal_text(step.literal)
    &&& read(step.literal) is Some
}

/// The expression is well written for the reader: its first literal and
/// every step are.
pub open spec fn is_written(first: Seq<char>, steps: Seq<Step>, read: Reader) -> bool {
    &&& is_literal_text(first)
    &&& read(first) is Some
    &&& forall|i: int| 0 <= i < steps.len() ==> is_step(#[trigger] steps[i], read)
}

/// The characters of the expression: the first literal, then each step's
/// spaces, operator, spaces and literal.
pub open spec fn spell(first: Seq<char>, steps: Seq<Step>) -> Seq<char>
    decreases steps.len(),
{
    if steps.len() == 0 {
        first
    } else {
        let step = steps.last();
        spell(first, steps.drop_last()) + step.before + seq![step.op] + step.after + step.literal
    }
}

/// The tokens of the expression: the number of the first literal, then each
/// step's operator and number.
pub open spec fn spelled_tokens(first: Seq<char>, steps: Seq<Step>, read: Reader) -> Seq<Token>
    decreases steps.len(),
{
    if steps.len() == 0 {
        seq![Token::Number(read(first)->Some_0)]
    } else {
        let step = steps.last();
        spelled_tokens(first, steps.drop_last(), read).push(symbol(step.op)->Some_0).push(
            Token::Number(read(step.literal)->Some_0),
        )
    }
}

/// A well-written expression without its last step is well written.
proof fn lemma_written_front(first: Seq<char>, steps: Seq<Step>, read: Reader)
    requires
        is_written(first, steps, read),
        steps.len() > 0,
    ensures
        is_written(first, steps.drop_last(), read),
{
    let front = steps.drop_last();
    assert forall|i: int| 0 <= i < front.len() implies is_step(#[trigger] front[i], read) by {
        assert(front[i] == steps[i]);
    }
}

/// Spaces at the end of an input add no token.
proof fn lemma_trailing_spaces(input: Seq<char>, spaces: Seq<char>, read: Reader)
    requires
        is_spaces(spaces),
    ensures
        tokenize_spec(input + spaces, read) == tokenize_spec(input, read),
    decreases spaces.len(),
{
    if spaces.len() == 0 {
        assert(input + spaces == input);
    } else {
        let front = spaces.drop_last();
        assert(spaces.last() == ' ');
        assert(input + spaces == (input + front) + seq![' '] + Seq::<char>::empty());
        lemma_space_splits(input + front, Seq::<char>::empty(), read);
        assert(tokenize_spec(Seq::<char>::empty(), read) == Seq::<Token>::empty());
        assert(tokenize_spec(input + front, read) + Seq::<Token>::empty() == tokenize_spec(
            input + front,
            read,
        ));
        lemma_trailing_spaces(input, front, read);
    }
}

/// Spaces at the start of an input add no token.
proof fn lemma_leading_spaces(spaces: Seq<char>, input: Seq<char>, read: Reader)
    requires
        is_spaces(spaces),
    ensures
        tokenize_spec(spaces + input, read) == tokenize_spec(input, read),
    decreases spaces.len(),
{
    if spaces.len() == 0 {
        assert(spaces + input == input);
    } else {
        let rest = spaces.skip(1);
        assert(spaces[0] == ' ');
        assert(is_spaces(rest)) by {
            assert forall|i: int| 0 <= i < rest.len() implies #[trigger] rest[i] == ' ' by {
                assert(rest[i] == spaces[i + 1]);
            }
        }
        assert(spaces + input == Seq::<char>::empty() + seq![' '] + (rest + input));
        lemma_space_splits(Seq::<char>::empty(), rest + input, read);
        assert(tokenize_spec(Seq::<char>::empty(), read) == Seq::<Token>::empty());
        assert(Seq::<Token>::empty() + tokenize_spec(rest + input, read) == tokenize_spec(
            rest + input,
            read,
        ));
        lemma_leading_spaces(rest, input, read);
    }
}

/// The tokens of a well-written expression are its numbers and operators in
/// turn: the tokenizer reads each literal whole, takes each operator for
/// itself, and makes nothing of the spaces.
pub proof fn lemma_written_tokens(first: Seq<char>, steps: Seq<Step>, read: Reader)
    requires
        is_written(first, steps, read),
    ensures
        tokenize_spec(spell(first, steps), read) == spelled_tokens(first, steps, read),
        is_infix(spelled_tokens(first, steps, read)),
        spelled_tokens(first, steps, read).len() == 2 * steps.len() + 1,
    decreases steps.len(),
{
    if steps.len() == 0 {
        lemma_literal_alone(first, read);
    } else {
        let step = steps.last();
        let front = steps.drop_last();
        assert(is_step(step, read));
        lemma_written_front(first, steps, read);
        lemma_written_tokens(first, front, read);
        let left = spell(first, front) + step.before;
        let right = step.after + step.literal;
        assert(spell(first, steps) == left + seq![step.op] + right);
        lemma_symbol_splits(left, step.op, right, read);
        lemma_trailing_spaces(spell(first, front), step.before, read);
        lemma_leading_spaces(step.after, step.literal, read);
        lemma_literal_alone(step.literal, read);
        let shorter = spelled_tokens(first, front, read);
        let operator = symbol(step.op)->Some_0;
        let number = Token::Number(read(step.literal)->Some_0);
        assert(shorter.push(operator) + seq![number] == shorter.push(operator).push(number));
        let longer = spelled_tokens(first, steps, read);
        assert(operator.is_operator());
        assert forall|i: int| 0 <= i < longer.len() implies if i % 2 == 0 {
            (#[trigger] longer[i]) is Number
        } else {
            longer[i].is_operator()
        } by {
            if i < shorter.len() {
                assert(longer[i] == shorter[i]);
            }
        }
    }
}

/// The calculation of a well-written expression gives the value that the
/// grammar gives to its numbers and operators, or the message of its
/// division by zero.
pub proof fn lemma_written_value(first: Seq<char>, steps: Seq<Step>, read: Reader, g: Arithmetic)
    requires
        is_written(first, steps, read),
    ensures
        calculate_spec(spell(first, steps), read, g) == match sum_value(
            spelled_tokens(first, steps, read),
            g,
        ) {
            Ok(value) => Ok::<u64, Seq<char>>(value),
            Err(e) => Err(e.message_spec()),
        },
{
    lemma_written_tokens(first, steps, read);
    lemma_calculate_infix(spell(first, steps), read, g);
}

/// Where each token of a well-written expression comes from: the number of
/// the first literal stands first, and step `i` gives the operator at
/// position `2 * i + 1` and the number at position `2 * i + 2`.
pub proof fn lemma_written_positions(first: Seq<char>, steps: Seq<Step>, read: Reader)
    requires
        is_written(first, steps, read),
    ensures
        spelled_tokens(first, steps, read).len() == 2 * steps.len() + 1,
        spelled_tokens(first, steps, read)[0] == Token::Number(read(first)->Some_0),
        forall|i: int|
            0 <= i < steps.len() ==> spelled_tokens(first, steps, read)[2 * i + 1] == symbol(
                (#[trigger] steps[i]).op,
            )->Some_0 && spelled_tokens(first, steps, read)[2 * i + 2] == Token::Number(
                read(steps[i].literal)->Some_0,
            ),
    decreases steps.len(),
{
    if steps.len() > 0 {
        let front = steps.drop_last();
        lemma_written_front(first, steps, read);
        lemma_written_positions(first, front, read);
        let shorter = spelled_tokens(first, front, read);
        let longer = spelled_tokens(first, steps, read);
        assert(longer[0] == shorter[0]);
        assert forall|i: int| 0 <= i < steps.len() implies longer[2 * i + 1] == symbol(
            (#[trigger] steps[i]).op,
        )->Some_0 && longer[2 * i + 2] == Token::Number(read(steps[i].literal)->Some_0) by {
            if i < front.len() {
                assert(front[i] == steps[i]);
                assert(longer[2 * i + 1] == shorter[2 * i + 1]);
                assert(longer[2 * i + 2] == shorter[2 * i + 2]);
            }
        }
    }
}

} // verus!
