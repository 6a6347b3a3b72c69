//! A small arithmetic calculator: a tokenizer for expressions over decimal
//! numbers and `+ - * /`, and a two-stack evaluator that honours operator
//! precedence and left associativity.
//!
//! Numbers are handled as bit patterns of IEEE 754 binary64 values. The two
//! operations on the values themselves, reading a literal and computing one
//! binary operation, are supplied by the caller; everything else, from the
//! first character to the result or the error message, is decided here.

pub mod token;
pub mod tokenizer;
pub mod evaluator;
pub mod laws;
pub mod grammar;
pub mod integers;
pub mod notation;

use vstd::prelude::*;
use crate::evaluator::{callable, computes, evaluate, evaluate_spec, Arithmetic};
use crate::token::Token;
use crate::tokenizer::{
    dismisses_dots, is_literal_text, no_digits, no_literal_chars, reads, tokenize, tokenize_spec,
    Reader,
};

verus! {

/// The outcome of calculating `input`: the value of its tokens, or the
/// message of the error that their evaluation met.
pub open spec fn calculate_spec(input: Seq<char>, read: Reader, g: Arithmetic) -> Result<
    u64,
    Seq<char>,
> {
    match evaluate_spec(tokenize_spec(input, read), g) {
        Ok(value) => Ok(value),
        Err(e) => Err(e.message_spec()),
    }
}

/// Calculates the value of the expression `input`.
///
/// The input is split into tokens, with `parse` reading the numeric
/// literals, and the tokens are evaluated, with `arith` performing the
/// operations. The result is the bit pattern of the value, or the text
/// `"Invalid expression"` or `"Division by zero"`.
pub fn calculate_inner<P: Fn(&str) -> Option<u64>, A: Fn(Token, u64, u64) -> u64>(
    input: &str,
    parse: P,
    arith: A,
) -> (r: Result<u64, String>)
    requires
        forall|text: &str| is_literal_text(text@) ==> #[trigger] parse.requires((text,)),
        callable(&arith),
    ensures
        forall|read: Reader, g: Arithmetic|
            #![trigger reads(&parse, read), computes(&arith, g)]
            reads(&parse, read) && computes(&arith, g) ==> match calculate_spec(input@, read, g) {
                Ok(value) => r == Ok::<u64, String>(value),
                Err(message) => r is Err && r->Err_0@ == message,
            },
        no_literal_chars(input@) ==> r is Err && r->Err_0@ == "Invalid expression"@,
        no_digits(input@) && dismisses_dots(&parse) ==> r is Err && r->Err_0@
            == "Invalid expression"@,
{
    let tokens = tokenize(input, parse);
    match evaluate(tokens, arith) {
        Ok(result) => Ok(result),
        Err(e) => Err(e.message()),
    }
}

} // verus!
