//! Tokens of an arithmetic expression.

use vstd::prelude::*;

verus! {

/// One lexical unit of an expression.
///
/// A number is carried as the bit pattern of an IEEE 754 binary64 value, so
/// that tokens are plain data that can be compared and reasoned about.
#[derive(Clone, Copy, Debug, PartialEq, Eq, Structural)]
pub enum Token {
    Number(u64),
    Plus,
    Minus,
    Multiply,
    Divide,
    LeftParen,
    RightParen,
}

impl Token {
    /// `+` or `-`.
    pub open spec fn is_additive(self) -> bool {
        self is Plus || self is Minus
    }

    /// `*` or `/`.
    pub open spec fn is_multiplicative(self) -> bool {
        self is Multiply || self is Divide
    }

    /// One of the four binary operators.
    pub open spec fn is_operator(self) -> bool {
        self.is_additive() || self.is_multiplicative()
    }

    /// The bit pattern that a `Number` carries; 0 for every other token.
    pub open spec fn bits(self) -> u64 {
        match self {
            Token::Number(bits) => bits,
            _ => 0,
        }
    }

    /// Binding strength of an operator: 2 for `*` and `/`, 1 for `+` and
    /// `-`, and 0 for every token that is no operator.
    pub open spec fn level(self) -> nat {
        if self.is_multiplicative() {
            2
        } else if self.is_additive() {
            1
        } else {
            0
        }
    }
}

/// No token of the sequence is a number.
pub open spec fn no_numbers(tokens: Seq<Token>) -> bool {
    forall|i: int| 0 <= i < tokens.len() ==> !(#[trigger] tokens[i] is Number)
}

/// Whether the operator on top of the operator stack must be applied before
/// `incoming` is pushed: both are operators and `top` binds at least as
/// tightly as `incoming`.
pub open spec fn has_precedence_spec(top: Token, incoming: Token) -> bool {
    top.is_operator() && incoming.is_operator() && top.level() >= incoming.level()
}

/// Decides whether `op1`, the operator on top of the stack, has precedence
/// over the incoming operator `op2`. Equal strength counts, which is what
/// makes operators of one tier associate to the left.
pub fn has_precedence(op1: &Token, op2: &Token) -> (r: bool)
    ensures
        r == has_precedence_spec(*op1, *op2),
{
    match (op1, op2) {
        (Token::Multiply, Token::Plus)
        | (Token::Multiply, Token::Minus)
        | (Token::Divide, Token::Plus)
        | (Token::Divide, Token::Minus) => true,
        (Token::Multiply, Token::Multiply)
        | (Token::Multiply, Token::Divide)
        | (Token::Divide, Token::Multiply)
        | (Token::Divide, Token::Divide) => true,
        (Token::Plus, Token::Plus)
        | (Token::Plus, Token::Minus)
        | (Token::Minus, Token::Plus)
        | (Token::Minus, Token::Minus) => true,
        _ => false,
    }
}

} // verus!
