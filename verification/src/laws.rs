//! Laws of the calculator that hold of every input.

use vstd::prelude::*;
use crate::calculate_spec;
use crate::evaluator::{apply_spec, evaluate_spec, reduce, run, Arithmetic, EvalError, Stacks};
use crate::token::{has_precedence_spec, no_numbers, Token};
use crate::tokenizer::{
    flush, is_literal_char, is_literal_text, no_digits, no_literal_chars, rejects_dots, scan,
    scan_char, scan_from, symbol, tokenize_spec, Reader, Scan,
};

verus! {

/// Feeding tokens that hold no number never puts an operand on the stack,
/// and can fail only because the expression is invalid.
proof fn lemma_run_without_numbers(tokens: Seq<Token>, g: Arithmetic)
    requires
        no_numbers(tokens),
    ensures
        match run(tokens, g) {
            Ok(stacks) => stacks.numbers.len() == 0,
            Err(e) => e == EvalError::InvalidExpression,
        },
    decreases tokens.len(),
{
    if tokens.len() > 0 {
        let front = tokens.drop_last();
        assert(no_numbers(front)) by {
            assert forall|i: int| 0 <= i < front.len() implies !(#[trigger] front[i] is Number) by {
                assert(front[i] == tokens[i]);
            }
        }
        lemma_run_without_numbers(front, g);
        assert(!(tokens[tokens.len() - 1] is Number));
    }
}

/// A token sequence without any number is an invalid expression: this
/// covers the empty sequence and every sequence of operators and
/// parentheses alone.
pub proof fn lemma_without_numbers_invalid(tokens: Seq<Token>, g: Arithmetic)
    requires
        no_numbers(tokens),
    ensures
        evaluate_spec(tokens, g) == Err::<u64, EvalError>(EvalError::InvalidExpression),
{
    lemma_run_without_numbers(tokens, g);
}

/// Scanning characters none of which belongs to a literal gathers no
/// literal and emits no number.
proof fn lemma_scan_without_literals(input: Seq<char>, read: Reader)
    requires
        no_literal_chars(input),
    ensures
        scan(input, read).pending.len() == 0,
        no_numbers(scan(input, read).tokens),
    decreases input.len(),
{
    if input.len() > 0 {
        let front = input.drop_last();
        assert(no_literal_chars(front)) by {
            assert forall|i: int| 0 <= i < front.len() implies !is_literal_char(
                #[trigger] front[i],
            ) by {
                assert(front[i] == input[i]);
            }
        }
        lemma_scan_without_literals(front, read);
        assert(!is_literal_char(input[input.len() - 1]));
    }
}

/// An input without digits and `.`, such as the empty input or one made of
/// operators, parentheses and spaces, has no number among its tokens, and
/// its calculation reports an invalid expression.
pub proof fn lemma_input_without_literals_invalid(input: Seq<char>, read: Reader, g: Arithmetic)
    requires
        no_literal_chars(input),
    ensures
        no_numbers(tokenize_spec(input, read)),
        calculate_spec(input, read, g) == Err::<u64, Seq<char>>("Invalid expression"@),
{
    lemma_scan_without_literals(input, read);
    lemma_without_numbers_invalid(tokenize_spec(input, read), g);
}

/// Scanning characters none of which is a digit gathers runs of `.` alone,
/// of which a reader that rejects them makes no number.
proof fn lemma_scan_without_digits(input: Seq<char>, read: Reader)
    requires
        no_digits(input),
        rejects_dots(read),
    ensures
        no_digits(scan(input, read).pending),
        scan(input, read).pending.len() > 0 ==> is_literal_text(scan(input, read).pending),
        no_numbers(scan(input, read).tokens),
    decreases input.len(),
{
    if input.len() > 0 {
        let front = input.drop_last();
        assert(no_digits(front)) by {
            assert forall|i: int| 0 <= i < front.len() implies !('0' <= #[trigger] front[i]
                && front[i] <= '9') by {
                assert(front[i] == input[i]);
            }
        }
        lemma_scan_without_digits(front, read);
        let c = input[input.len() - 1];
        assert(!('0' <= c && c <= '9'));
    }
}

/// An input without a digit, be it empty or any mix of operators,
/// parentheses, spaces, dots and other characters, has no number among its
/// tokens and its calculation reports an invalid expression, with every
/// reader that makes no number of dots alone.
pub proof fn lemma_input_without_digits_invalid(input: Seq<char>, read: Reader, g: Arithmetic)
    requires
        no_digits(input),
        rejects_dots(read),
    ensures
        no_numbers(tokenize_spec(input, read)),
        calculate_spec(input, read, g) == Err::<u64, Seq<char>>("Invalid expression"@),
{
    lemma_scan_without_digits(input, read);
    lemma_without_numbers_invalid(tokenize_spec(input, read), g);
}

/// A character that ends a pending literal: a space or one of the six
/// symbols.
pub open spec fn is_delimiter(c: char) -> bool {
    c == ' ' || symbol(c) is Some
}

/// The place between `left` and `right` is beside a delimiter or at an end
/// of the input.
pub open spec fn at_boundary(left: Seq<char>, right: Seq<char>) -> bool {
    left.len() == 0 || right.len() == 0 || is_delimiter(left.last()) || is_delimiter(right[0])
}

/// Scanning a concatenation is scanning its first part and going on with
/// the second from the state reached.
pub proof fn lemma_scan_concat(state: Scan, first: Seq<char>, second: Seq<char>, read: Reader)
    ensures
        scan_from(state, first + second, read) == scan_from(
            scan_from(state, first, read),
            second,
            read,
        ),
    decreases second.len(),
{
    if second.len() == 0 {
        assert(first + second == first);
    } else {
        assert((first + second).drop_last() == first + second.drop_last());
        lemma_scan_concat(state, first, second.drop_last(), read);
    }
}

/// Scanning a non-empty input is one step on its first character and then
/// the scan of the rest.
proof fn lemma_scan_first(state: Scan, input: Seq<char>, read: Reader)
    requires
        input.len() > 0,
    ensures
        scan_from(state, input, read) == scan_from(
            scan_char(state, input[0], read),
            input.skip(1),
            read,
        ),
{
    let head = seq![input[0]];
    assert(head + input.skip(1) == input);
    assert(head.drop_last() == Seq::<char>::empty());
    assert(scan_from(state, head.drop_last(), read) == state);
    assert(scan_from(state, head, read) == scan_char(state, input[0], read));
    lemma_scan_concat(state, head, input.skip(1), read);
}

/// Whitespace beside a delimiter is insignificant: a space that is put in
/// next to an operator, a parenthesis or another space, or at the start or
/// the end of the input, leaves the tokens as they were.
pub proof fn lemma_space_at_boundary(left: Seq<char>, right: Seq<char>, read: Reader)
    requires
        at_boundary(left, right),
    ensures
        tokenize_spec(left + seq![' '] + right, read) == tokenize_spec(left + right, read),
{
    let start = Scan { tokens: Seq::empty(), pending: Seq::empty() };
    let space = seq![' '];
    let before = scan(left, read);
    let after = scan_char(before, ' ', read);
    assert(scan(left + space, read) == after) by {
        assert((left + space).drop_last() == left);
    }
    lemma_scan_concat(start, left + space, right, read);
    lemma_scan_concat(start, left, right, read);
    if left.len() == 0 || is_delimiter(left.last()) {
        assert(before.pending.len() == 0);
        assert(after.pending == before.pending);
    } else if right.len() > 0 {
        lemma_scan_first(after, right, read);
        lemma_scan_first(before, right, read);
        assert(scan_char(after, right[0], read) == scan_char(before, right[0], read));
    }
}

/// What holds of the tokens holds of the calculation: a space at a boundary
/// does not change the outcome.
pub proof fn lemma_space_at_boundary_calculates_alike(
    left: Seq<char>,
    right: Seq<char>,
    read: Reader,
    g: Arithmetic,
)
    requires
        at_boundary(left, right),
    ensures
        calculate_spec(left + seq![' '] + right, read, g) == calculate_spec(left + right, read, g),
{
    lemma_space_at_boundary(left, right, read);
}

/// Tokens that have been emitted stay where they are: a scan that starts
/// with some tokens already there keeps them in front of what it adds.
proof fn lemma_scan_keeps_tokens(
    emitted: Seq<Token>,
    state: Scan,
    input: Seq<char>,
    read: Reader,
)
    ensures
        scan_from(Scan { tokens: emitted + state.tokens, pending: state.pending }, input, read)
            == (Scan {
            tokens: emitted + scan_from(state, input, read).tokens,
            pending: scan_from(state, input, read).pending,
        }),
    decreases input.len(),
{
    if input.len() > 0 {
        let front = input.drop_last();
        lemma_scan_keeps_tokens(emitted, state, front, read);
        let inner = scan_from(state, front, read);
        let outer = Scan { tokens: emitted + inner.tokens, pending: inner.pending };
        let c = input.last();
        assert(flush(outer.tokens, outer.pending, read) == emitted + flush(
            inner.tokens,
            inner.pending,
            read,
        ));
        if symbol(c) is Some {
            assert(flush(outer.tokens, outer.pending, read).push(symbol(c)->Some_0) == emitted
                + flush(inner.tokens, inner.pending, read).push(symbol(c)->Some_0));
        }
    } else {
        assert(state == Scan { tokens: state.tokens, pending: state.pending });
    }
}

/// The tokens of an input that goes on after a delimiter: those of what
/// stands before it, the delimiter's own token if it is a symbol, and those
/// of what stands after it.
proof fn lemma_tokens_after_delimiter(
    left: Seq<char>,
    c: char,
    right: Seq<char>,
    read: Reader,
)
    requires
        is_delimiter(c),
    ensures
        tokenize_spec(left + seq![c] + right, read) == match symbol(c) {
            Some(token) => tokenize_spec(left, read).push(token),
            None => tokenize_spec(left, read),
        } + tokenize_spec(right, read),
{
    let start = Scan { tokens: Seq::empty(), pending: Seq::empty() };
    let one = seq![c];
    let emitted = match symbol(c) {
        Some(token) => tokenize_spec(left, read).push(token),
        None => tokenize_spec(left, read),
    };
    assert(scan(left + one, read) == (Scan { tokens: emitted, pending: Seq::empty() })) by {
        assert((left + one).drop_last() == left);
    }
    lemma_scan_concat(start, left + one, right, read);
    lemma_scan_keeps_tokens(emitted, start, right, read);
    assert(emitted + start.tokens == emitted);
    let end = scan(right, read);
    assert(flush(emitted + end.tokens, end.pending, read) == emitted + flush(
        end.tokens,
        end.pending,
        read,
    ));
}

/// A symbol splits the input: the tokens are those of what stands before
/// it, the symbol's own token, and those of what stands after it.
pub proof fn lemma_symbol_splits(left: Seq<char>, c: char, right: Seq<char>, read: Reader)
    requires
        symbol(c) is Some,
    ensures
        tokenize_spec(left + seq![c] + right, read) == tokenize_spec(left, read).push(
            symbol(c)->Some_0,
        ) + tokenize_spec(right, read),
{
    lemma_tokens_after_delimiter(left, c, right, read);
}

/// A space splits the input and leaves no token of its own.
pub proof fn lemma_space_splits(left: Seq<char>, right: Seq<char>, read: Reader)
    ensures
        tokenize_spec(left + seq![' '] + right, read) == tokenize_spec(left, read) + tokenize_spec(
            right,
            read,
        ),
{
    lemma_tokens_after_delimiter(left, ' ', right, read);
}

/// A run of digits and `.` is gathered whole.
proof fn lemma_scan_literal(text: Seq<char>, read: Reader)
    requires
        forall|i: int| 0 <= i < text.len() ==> is_literal_char(#[trigger] text[i]),
    ensures
        scan(text, read) == (Scan { tokens: Seq::empty(), pending: text }),
    decreases text.len(),
{
    if text.len() > 0 {
        let front = text.drop_last();
        assert forall|i: int| 0 <= i < front.len() implies is_literal_char(#[trigger] front[i]) by {
            assert(front[i] == text[i]);
        }
        lemma_scan_literal(front, read);
        assert(is_literal_char(text[text.len() - 1]));
        assert(front.push(text.last()) == text);
    } else {
        assert(text == Seq::<char>::empty());
    }
}

/// A literal alone is one number if it can be read, and nothing if it
/// cannot.
pub proof fn lemma_literal_alone(text: Seq<char>, read: Reader)
    requires
        is_literal_text(text),
    ensures
        tokenize_spec(text, read) == match read(text) {
            Some(bits) => seq![Token::Number(bits)],
            None => Seq::<Token>::empty(),
        },
{
    lemma_scan_literal(text, read);
    match read(text) {
        Some(bits) => {
            assert(Seq::<Token>::empty().push(Token::Number(bits)) == seq![Token::Number(bits)]);
        },
        None => {},
    }
}

/// Every token on the operator stack is a binary operator.
pub open spec fn all_operators(operators: Seq<Token>) -> bool {
    forall|i: int| 0 <= i < operators.len() ==> (#[trigger] operators[i]).is_operator()
}

/// What is left of a stack of operators when its top has gone is a stack of
/// operators.
proof fn lemma_rest_holds_operators(operators: Seq<Token>)
    requires
        all_operators(operators),
        operators.len() > 0,
    ensures
        all_operators(operators.drop_last()),
{
    let rest = operators.drop_last();
    assert forall|i: int| 0 <= i < rest.len() implies (#[trigger] rest[i]).is_operator() by {
        assert(rest[i] == operators[i]);
    }
}

/// Applying stacked operators for an incoming one keeps the operator stack
/// a stack of operators.
proof fn lemma_reduce_keeps_operators(stacks: Stacks, incoming: Token, g: Arithmetic)
    requires
        all_operators(stacks.operators),
    ensures
        reduce(stacks, incoming, g) is Ok ==> all_operators(
            reduce(stacks, incoming, g)->Ok_0.operators,
        ),
    decreases stacks.operators.len(),
{
    if stacks.operators.len() > 0 && has_precedence_spec(stacks.operators.last(), incoming) {
        match apply_spec(stacks.numbers, stacks.operators.last(), g) {
            Err(e) => {},
            Ok(numbers) => {
                let rest = stacks.operators.drop_last();
                lemma_rest_holds_operators(stacks.operators);
                lemma_reduce_keeps_operators(Stacks { numbers, operators: rest }, incoming, g);
            },
        }
    }
}

/// The operator stack never holds a number or a parenthesis: whatever the
/// tokens, only binary operators are stacked.
pub proof fn lemma_operator_stack_holds_operators(tokens: Seq<Token>, g: Arithmetic)
    ensures
        run(tokens, g) is Ok ==> all_operators(run(tokens, g)->Ok_0.operators),
    decreases tokens.len(),
{
    if tokens.len() > 0 {
        lemma_operator_stack_holds_operators(tokens.drop_last(), g);
        match run(tokens.drop_last(), g) {
            Err(e) => {},
            Ok(stacks) => {
                let token = tokens.last();
                lemma_reduce_keeps_operators(stacks, token, g);
                if token.is_operator() {
                    match reduce(stacks, token, g) {
                        Err(e) => {},
                        Ok(reduced) => {
                            let pushed = reduced.operators.push(token);
                            assert forall|i: int| 0 <= i < pushed.len() implies (
                            #[trigger] pushed[i]).is_operator() by {
                                if i < reduced.operators.len() {
                                    assert(pushed[i] == reduced.operators[i]);
                                }
                            }
                        },
                    }
                }
            },
        }
    }
}

} // verus!
