//! Lexical analysis: from the characters of an expression to its tokens.
//!
//! The tokenizer never fails. It gathers runs of digits and `.` into a
//! pending literal, hands each finished literal to the caller's reader, and
//! drops the literal silently when the reader cannot make a number of it.

use vstd::prelude::*;
use crate::token::{no_numbers, Token};

verus! {

/// `String::push` appends one character to the end of the string.
pub assume_specification[ String::push ](s: &mut String, ch: char)
    ensures
        final(s)@ == old(s)@.push(ch),
;

/// `String::clear` removes all contents of the string.
pub assume_specification[ String::clear ](s: &mut String)
    ensures
        final(s)@ == Seq::<char>::empty(),
;

/// A character that may be part of a numeric literal: a decimal digit or `.`.
pub open spec fn is_literal_char(c: char) -> bool {
    ('0' <= c && c <= '9') || c == '.'
}

/// A non-empty run of literal characters: the only kind of text that the
/// tokenizer ever hands to a reader.
pub open spec fn is_literal_text(text: Seq<char>) -> bool {
    text.len() > 0 && forall|i: int| 0 <= i < text.len() ==> is_literal_char(#[trigger] text[i])
}

/// No character of the input can be part of a numeric literal.
pub open spec fn no_literal_chars(input: Seq<char>) -> bool {
    forall|i: int| 0 <= i < input.len() ==> !is_literal_char(#[trigger] input[i])
}

/// No character of the text is a decimal digit.
pub open spec fn no_digits(text: Seq<char>) -> bool {
    forall|i: int| 0 <= i < text.len() ==> !('0' <= #[trigger] text[i] && text[i] <= '9')
}

/// The token that a symbol character stands for, if it is one of
/// `+ - * / ( )`.
pub open spec fn symbol(c: char) -> Option<Token> {
    if c == '+' {
        Some(Token::Plus)
    } else if c == '-' {
        Some(Token::Minus)
    } else if c == '*' {
        Some(Token::Multiply)
    } else if c == '/' {
        Some(Token::Divide)
    } else if c == '(' {
        Some(Token::LeftParen)
    } else if c == ')' {
        Some(Token::RightParen)
    } else {
        None
    }
}

/// A function from literal text to the number it denotes, if any. It is the
/// mathematical counterpart of the reader that `tokenize` is called with.
pub type Reader = spec_fn(Seq<char>) -> Option<u64>;

/// The executable reader `parse` computes `read`: on every literal text,
/// whatever `parse` returns is what `read` gives.
pub open spec fn reads<P: Fn(&str) -> Option<u64>>(parse: &P, read: Reader) -> bool {
    forall|text: &str, r: Option<u64>|
        is_literal_text(text@) && #[trigger] parse.ensures((text,), r) ==> r == read(text@)
}

/// The executable reader `parse` makes no number of a literal without a
/// digit, that is, of a run of `.` alone.
pub open spec fn dismisses_dots<P: Fn(&str) -> Option<u64>>(parse: &P) -> bool {
    forall|text: &str, r: Option<u64>|
        is_literal_text(text@) && no_digits(text@) && #[trigger] parse.ensures((text,), r)
            ==> r is None
}

/// The reader `read` makes no number of a literal without a digit.
pub open spec fn rejects_dots(read: Reader) -> bool {
    forall|text: Seq<char>|
        is_literal_text(text) && no_digits(text) ==> #[trigger] read(text) is None
}

/// The tokenizer between two characters: the tokens emitted so far and the
/// characters of the literal that is still being gathered.
pub struct Scan {
    pub tokens: Seq<Token>,
    pub pending: Seq<char>,
}

/// The tokens after the pending literal has been finished: a `Number` is
/// added if the literal is non-empty and `read` accepts it, nothing
/// otherwise.
pub open spec fn flush(tokens: Seq<Token>, pending: Seq<char>, read: Reader) -> Seq<Token> {
    if pending.len() == 0 {
        tokens
    } else {
        match read(pending) {
            Some(bits) => tokens.push(Token::Number(bits)),
            None => tokens,
        }
    }
}

/// One step of the tokenizer, on the character `c`.
pub open spec fn scan_char(state: Scan, c: char, read: Reader) -> Scan {
    if is_literal_char(c) {
        Scan { tokens: state.tokens, pending: state.pending.push(c) }
    } else if let Some(token) = symbol(c) {
        Scan { tokens: flush(state.tokens, state.pending, read).push(token), pending: Seq::empty() }
    } else if c == ' ' {
        Scan { tokens: flush(state.tokens, state.pending, read), pending: Seq::empty() }
    } else {
        state
    }
}

/// The tokenizer's state after it has read all of `input`, left to right,
/// starting from `state`.
pub open spec fn scan_from(state: Scan, input: Seq<char>, read: Reader) -> Scan
    decreases input.len(),
{
    if input.len() == 0 {
        state
    } else {
        scan_char(scan_from(state, input.drop_last(), read), input.last(), read)
    }
}

/// The tokenizer's state after it has read all of `input` from the start.
pub open spec fn scan(input: Seq<char>, read: Reader) -> Scan {
    scan_from(Scan { tokens: Seq::empty(), pending: Seq::empty() }, input, read)
}

/// The tokens of `input`: what the scan has emitted, and the literal that
/// was still pending at the end of the input.
pub open spec fn tokenize_spec(input: Seq<char>, read: Reader) -> Seq<Token> {
    let end = scan(input, read);
    flush(end.tokens, end.pending, read)
}

/// Finishes the pending literal: reads it, emits a `Number` if that
/// succeeded, and empties the buffer.
fn flush_number<P: Fn(&str) -> Option<u64>>(
    tokens: &mut Vec<Token>,
    number_str: &mut String,
    parse: &P,
)
    requires
        forall|text: &str| is_literal_text(text@) ==> #[trigger] parse.requires((text,)),
        old(number_str)@.len() > 0 ==> is_literal_text(old(number_str)@),
    ensures
        final(number_str)@.len() == 0,
        old(number_str)@.len() == 0 ==> final(tokens)@ == old(tokens)@,
        no_digits(old(number_str)@) && dismisses_dots(parse) ==> final(tokens)@ == old(tokens)@,
        forall|read: Reader| #[trigger]
            reads(parse, read) ==> final(tokens)@ == flush(old(tokens)@, old(number_str)@, read),
{
    if !number_str.as_str().is_empty() {
        if let Some(num) = parse(number_str.as_str()) {
            tokens.push(Token::Number(num));
        }
        number_str.clear();
    }
}

/// Splits `input` into tokens.
///
/// `parse` reads a numeric literal, a non-empty run of digits and `.`, and
/// returns the bit pattern of the binary64 value it denotes, or `None` if the
/// run is no number; such a run is dropped. Spaces end a literal, the six
/// symbols `+ - * / ( )` end a literal and become tokens, and every other
/// character is skipped as if it were not there.
pub fn tokenize<P: Fn(&str) -> Option<u64>>(input: &str, parse: P) -> (tokens: Vec<Token>)
    requires
        forall|text: &str| is_literal_text(text@) ==> #[trigger] parse.requires((text,)),
    ensures
        forall|read: Reader| #[trigger]
            reads(&parse, read) ==> tokens@ == tokenize_spec(input@, read),
        no_literal_chars(input@) ==> no_numbers(tokens@),
        no_digits(input@) && dismisses_dots(&parse) ==> no_numbers(tokens@),
{
    let mut tokens: Vec<Token> = Vec::new();
    let mut number_str = String::new();

    for c in it: input.chars()
        invariant
            it.seq() == input@,
            forall|text: &str| is_literal_text(text@) ==> #[trigger] parse.requires((text,)),
            number_str@.len() > 0 ==> is_literal_text(number_str@),
            no_literal_chars(input@) ==> number_str@.len() == 0 && no_numbers(tokens@),
            no_digits(input@) && dismisses_dots(&parse) ==> no_digits(number_str@) && no_numbers(
                tokens@,
            ),
            forall|read: Reader| #[trigger]
                reads(&parse, read) ==> (Scan { tokens: tokens@, pending: number_str@ }) == scan(
                    input@.take(it.index() as int),
                    read,
                ),
    {
        let ghost seen = input@.take(it.index() as int);
        let ghost next = input@.take(it.index() + 1);
        let ghost before = Scan { tokens: tokens@, pending: number_str@ };
        assert(next.drop_last() == seen && next.last() == c);
        match c {
            '0'..='9' | '.' => number_str.push(c),
            '+' | '-' | '*' | '/' | '(' | ')' => {
                flush_number(&mut tokens, &mut number_str, &parse);
                tokens.push(
                    match c {
                        '+' => Token::Plus,
                        '-' => Token::Minus,
                        '*' => Token::Multiply,
                        '/' => Token::Divide,
                        '(' => Token::LeftParen,
                        _ => Token::RightParen,
                    },
                );
            },
            ' ' => flush_number(&mut tokens, &mut number_str, &parse),
            _ => {},
        }
        proof {
            assert forall|read: Reader| #[trigger] reads(&parse, read) implies (Scan {
                tokens: tokens@,
                pending: number_str@,
            }) == scan(next, read) by {
                assert(scan(next, read) == scan_char(scan(seen, read), c, read));
                assert(before == scan(seen, read));
                assert(number_str@ =~= scan_char(before, c, read).pending);
                assert(tokens@ =~= scan_char(before, c, read).tokens);
            }
        }
    }

    assert(input@.take(input@.len() as int) == input@);
    flush_number(&mut tokens, &mut number_str, &parse);
    tokens
}

} // verus!
