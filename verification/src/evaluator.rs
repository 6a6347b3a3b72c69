//! Evaluation of a token sequence with an operand stack and an operator
//! stack.
//!
//! Numbers are bit patterns of IEEE 754 binary64 values. The evaluator
//! decides the order in which operators are applied, which operands they
//! get, and when an expression is rejected; the arithmetic on the values
//! themselves is done by a function that the caller supplies.

use vstd::prelude::*;
use crate::token::{has_precedence, has_precedence_spec, no_numbers, Token};

verus! {

/// Why an evaluation failed.
#[derive(Clone, Copy, Debug, PartialEq, Eq, Structural)]
pub enum EvalError {
    /// The tokens do not form an expression: an operator lacks an operand, a
    /// token stands where it is not supported, or nothing is left as the
    /// result.
    InvalidExpression,
    /// A division whose divisor is zero.
    DivisionByZero,
}

impl EvalError {
    /// The text of the error message.
    pub open spec fn message_spec(self) -> Seq<char> {
        match self {
            EvalError::InvalidExpression => "Invalid expression"@,
            EvalError::DivisionByZero => "Division by zero"@,
        }
    }

    /// The human-readable message for this error.
    pub fn message(&self) -> (text: String)
        ensures
            text@ == self.message_spec(),
    {
        match self {
            EvalError::InvalidExpression => "Invalid expression".to_owned(),
            EvalError::DivisionByZero => "Division by zero".to_owned(),
        }
    }
}

/// A function from an operator and its two operands, left one first, to the
/// value of the operation. It is the mathematical counterpart of the
/// arithmetic that `evaluate` is called with.
pub type Arithmetic = spec_fn(Token, u64, u64) -> u64;

/// The executable arithmetic `arith` computes `g`: on every operator and
/// pair of operands, whatever `arith` returns is what `g` gives.
pub open spec fn computes<A: Fn(Token, u64, u64) -> u64>(arith: &A, g: Arithmetic) -> bool {
    forall|op: Token, a: u64, b: u64, r: u64|
        op.is_operator() && #[trigger] arith.ensures((op, a, b), r) ==> r == g(op, a, b)
}

/// The bit patterns of positive and negative zero: every bit but the sign
/// bit is clear.
pub open spec fn is_zero_spec(bits: u64) -> bool {
    bits == 0 || bits == 0x8000_0000_0000_0000
}

/// `arith` may be called wherever the evaluator calls it: on every operator
/// and pair of operands, but for a division by zero.
pub open spec fn callable<A: Fn(Token, u64, u64) -> u64>(arith: &A) -> bool {
    forall|op: Token, a: u64, b: u64|
        op.is_operator() && !(op is Divide && is_zero_spec(b)) ==> #[trigger] arith.requires(
            (op, a, b),
        )
}

/// Whether `bits` is the bit pattern of a zero, of either sign.
pub fn is_zero(bits: u64) -> (r: bool)
    ensures
        r == is_zero_spec(bits),
{
    bits == 0 || bits == 0x8000_0000_0000_0000
}

/// The two stacks of the evaluator; the last element of each is its top.
pub struct Stacks {
    pub numbers: Seq<u64>,
    pub operators: Seq<Token>,
}

/// The right operand of the next operation: the top of the operand stack.
pub open spec fn right_operand(numbers: Seq<u64>) -> u64 {
    numbers[numbers.len() - 1]
}

/// The left operand of the next operation: the operand below the top.
pub open spec fn left_operand(numbers: Seq<u64>) -> u64 {
    numbers[numbers.len() - 2]
}

/// The operands that the next operation leaves alone: all but the two
/// topmost.
pub open spec fn below(numbers: Seq<u64>) -> Seq<u64> {
    numbers.take(numbers.len() - 2)
}

/// Whether applying `op` to the operand stack `numbers` succeeds, and the
/// error if it does not: the expression is invalid with fewer than two
/// operands and with a token that is no binary operator.
pub open spec fn apply_outcome(numbers: Seq<u64>, op: Token) -> Result<(), EvalError> {
    if numbers.len() < 2 || !op.is_operator() {
        Err(EvalError::InvalidExpression)
    } else if op is Divide && is_zero_spec(right_operand(numbers)) {
        Err(EvalError::DivisionByZero)
    } else {
        Ok(())
    }
}

/// The operand stack after `op` has been applied to `numbers`: the two
/// topmost operands are replaced by the value of the operation, of which the
/// lower one is the left operand.
pub open spec fn apply_spec(numbers: Seq<u64>, op: Token, g: Arithmetic) -> Result<
    Seq<u64>,
    EvalError,
> {
    match apply_outcome(numbers, op) {
        Err(e) => Err(e),
        Ok(_) => Ok(
            below(numbers).push(g(op, left_operand(numbers), right_operand(numbers))),
        ),
    }
}

/// The stacks after every operator on top of the operator stack that has
/// precedence over `incoming` has been applied, topmost first.
pub open spec fn reduce(stacks: Stacks, incoming: Token, g: Arithmetic) -> Result<
    Stacks,
    EvalError,
>
    decreases stacks.operators.len(),
{
    if stacks.operators.len() > 0 && has_precedence_spec(stacks.operators.last(), incoming) {
        match apply_spec(stacks.numbers, stacks.operators.last(), g) {
            Err(e) => Err(e),
            Ok(numbers) => reduce(
                Stacks { numbers, operators: stacks.operators.drop_last() },
                incoming,
                g,
            ),
        }
    } else {
        Ok(stacks)
    }
}

/// The stacks after one more token: a number is pushed as an operand; an
/// operator first has applied what has precedence over it and is then
/// pushed; a parenthesis is rejected.
pub open spec fn feed(stacks: Stacks, token: Token, g: Arithmetic) -> Result<Stacks, EvalError> {
    match token {
        Token::Number(bits) => Ok(
            Stacks { numbers: stacks.numbers.push(bits), operators: stacks.operators },
        ),
        Token::LeftParen | Token::RightParen => Err(EvalError::InvalidExpression),
        _ => match reduce(stacks, token, g) {
            Err(e) => Err(e),
            Ok(reduced) => Ok(
                Stacks { numbers: reduced.numbers, operators: reduced.operators.push(token) },
            ),
        },
    }
}

/// The stacks after all of `tokens` have been fed in order, starting from
/// empty stacks, or the first error that feeding them met.
pub open spec fn run(tokens: Seq<Token>, g: Arithmetic) -> Result<Stacks, EvalError>
    decreases tokens.len(),
{
    if tokens.len() == 0 {
        Ok(Stacks { numbers: Seq::empty(), operators: Seq::empty() })
    } else {
        match run(tokens.drop_last(), g) {
            Err(e) => Err(e),
            Ok(stacks) => feed(stacks, tokens.last(), g),
        }
    }
}

/// The operand stack after every operator left on the operator stack has
/// been applied, topmost first.
pub open spec fn drain(stacks: Stacks, g: Arithmetic) -> Result<Seq<u64>, EvalError>
    decreases stacks.operators.len(),
{
    if stacks.operators.len() > 0 {
        match apply_spec(stacks.numbers, stacks.operators.last(), g) {
            Err(e) => Err(e),
            Ok(numbers) => drain(Stacks { numbers, operators: stacks.operators.drop_last() }, g),
        }
    } else {
        Ok(stacks.numbers)
    }
}

/// What is left when the input has ended: the operators still stacked are
/// applied, and the top of the operand stack is the result. Operands below
/// it are ignored; an empty operand stack is an error.
pub open spec fn finish(stacks: Stacks, g: Arithmetic) -> Result<u64, EvalError> {
    match drain(stacks, g) {
        Err(e) => Err(e),
        Ok(numbers) => if numbers.len() > 0 {
            Ok(numbers.last())
        } else {
            Err(EvalError::InvalidExpression)
        },
    }
}

/// The result of evaluating `tokens` under the arithmetic `g`.
pub open spec fn evaluate_spec(tokens: Seq<Token>, g: Arithmetic) -> Result<u64, EvalError> {
    match run(tokens, g) {
        Err(e) => Err(e),
        Ok(stacks) => finish(stacks, g),
    }
}

/// Once a prefix of the tokens has met an error, that error is the outcome
/// of the whole run.
pub proof fn lemma_run_error_is_final(tokens: Seq<Token>, k: int, g: Arithmetic)
    requires
        0 <= k <= tokens.len(),
        run(tokens.take(k), g) is Err,
    ensures
        run(tokens, g) == run(tokens.take(k), g),
    decreases tokens.len() - k,
{
    if k == tokens.len() {
        assert(tokens.take(k) == tokens);
    } else {
        assert(tokens.take(k + 1).drop_last() == tokens.take(k));
        lemma_run_error_is_final(tokens, k + 1, g);
    }
}

/// Applies `operator` to the two topmost operands.
///
/// The operands are popped, the upper one first; the lower one is the left
/// operand. With fewer than two operands the stack is left as it is and the
/// expression is invalid. A division by a zero of either sign is an error
/// and is never handed to `arith`. A token that is no binary operator makes
/// the expression invalid too. On these two errors both operands are gone.
pub fn apply_operator<A: Fn(Token, u64, u64) -> u64>(
    numbers: &mut Vec<u64>,
    operator: Token,
    arith: &A,
) -> (r: Result<(), EvalError>)
    requires
        callable(arith),
    ensures
        r == apply_outcome(old(numbers)@, operator),
        match r {
            Ok(_) => {
                &&& final(numbers)@ == below(old(numbers)@).push(final(numbers)@.last())
                &&& arith.ensures(
                    (operator, left_operand(old(numbers)@), right_operand(old(numbers)@)),
                    final(numbers)@.last(),
                )
            },
            Err(_) => final(numbers)@ == if old(numbers)@.len() < 2 {
                old(numbers)@
            } else {
                below(old(numbers)@)
            },
        },
        forall|g: Arithmetic| #[trigger]
            computes(arith, g) && r is Ok ==> apply_spec(old(numbers)@, operator, g) == Ok::<
                Seq<u64>,
                EvalError,
            >(final(numbers)@),
{
    if numbers.len() < 2 {
        return Err(EvalError::InvalidExpression);
    }
    let b = numbers.pop().unwrap();
    let a = numbers.pop().unwrap();
    assert(numbers@ == below(old(numbers)@));

    let result = match operator {
        Token::Plus | Token::Minus | Token::Multiply => arith(operator, a, b),
        Token::Divide => {
            if is_zero(b) {
                return Err(EvalError::DivisionByZero);
            }
            arith(operator, a, b)
        },
        _ => {
            return Err(EvalError::InvalidExpression);
        },
    };

    numbers.push(result);
    assert(numbers@ == below(old(numbers)@).push(result));
    Ok(())
}

/// Evaluates `tokens` to a single number.
///
/// The tokens are read in order. A number is pushed on the operand stack. An
/// operator first has every stacked operator that has precedence over it
/// applied, then is pushed itself. A parenthesis ends the evaluation with
/// `InvalidExpression`. At the end the operators still stacked are applied
/// and the top of the operand stack is the result.
///
/// `arith` performs one operation: it is given `Plus`, `Minus`, `Multiply`
/// or `Divide` and the left and right operand, and returns the value. It is
/// never asked to divide by zero.
pub fn evaluate<A: Fn(Token, u64, u64) -> u64>(tokens: Vec<Token>, arith: A) -> (r: Result<
    u64,
    EvalError,
>)
    requires
        callable(&arith),
    ensures
        forall|g: Arithmetic| #[trigger] computes(&arith, g) ==> r == evaluate_spec(tokens@, g),
        no_numbers(tokens@) ==> r == Err::<u64, EvalError>(EvalError::InvalidExpression),
{
    let mut numbers: Vec<u64> = Vec::new();
    let mut operators: Vec<Token> = Vec::new();

    let mut i: usize = 0;
    while i < tokens.len()
        invariant
            i <= tokens.len(),
            callable(&arith),
            no_numbers(tokens@) ==> numbers@.len() == 0,
            forall|g: Arithmetic| #[trigger]
                computes(&arith, g) ==> run(tokens@.take(i as int), g) == Ok::<Stacks, EvalError>(
                    Stacks { numbers: numbers@, operators: operators@ },
                ),
        decreases tokens.len() - i,
    {
        let token = tokens[i];
        let ghost start = Stacks { numbers: numbers@, operators: operators@ };
        assert(tokens@.take(i + 1).drop_last() == tokens@.take(i as int));
        assert(tokens@.take(i + 1).last() == token);
        match token {
            Token::Number(num) => numbers.push(num),
            Token::Plus | Token::Minus | Token::Multiply | Token::Divide => {
                while operators.len() > 0 && has_precedence(
                    &operators[operators.len() - 1],
                    &token,
                )
                    invariant
                        i < tokens.len(),
                        callable(&arith),
                        no_numbers(tokens@) ==> numbers@.len() == 0,
                        token.is_operator(),
                        tokens@.take(i + 1).drop_last() == tokens@.take(i as int),
                        tokens@.take(i + 1).last() == token,
                        forall|g: Arithmetic| #[trigger]
                            computes(&arith, g) ==> run(tokens@.take(i as int), g) == Ok::<
                                Stacks,
                                EvalError,
                            >(start),
                        forall|g: Arithmetic| #[trigger]
                            computes(&arith, g) ==> reduce(start, token, g) == reduce(
                                Stacks { numbers: numbers@, operators: operators@ },
                                token,
                                g,
                            ),
                    decreases operators.len(),
                {
                    let ghost before = Stacks { numbers: numbers@, operators: operators@ };
                    let top = operators.pop().unwrap();
                    assert(top == before.operators.last());
                    assert(operators@ == before.operators.drop_last());
                    match apply_operator(&mut numbers, top, &arith) {
                        Ok(()) => {},
                        Err(e) => {
                            proof {
                                assert forall|g: Arithmetic| #[trigger]
                                    computes(&arith, g) implies Err::<u64, EvalError>(e)
                                    == evaluate_spec(tokens@, g) by {
                                    assert(reduce(before, token, g) == Err::<Stacks, EvalError>(e));
                                    assert(run(tokens@.take(i + 1), g) == Err::<Stacks, EvalError>(
                                        e,
                                    ));
                                    lemma_run_error_is_final(tokens@, i + 1, g);
                                }
                            }
                            return Err(e);
                        },
                    }
                }
                operators.push(token);
            },
            _ => {
                proof {
                    assert forall|g: Arithmetic| #[trigger] computes(&arith, g) implies Err::<
                        u64,
                        EvalError,
                    >(EvalError::InvalidExpression) == evaluate_spec(tokens@, g) by {
                        assert(run(tokens@.take(i + 1), g) == Err::<Stacks, EvalError>(
                            EvalError::InvalidExpression,
                        ));
                        lemma_run_error_is_final(tokens@, i + 1, g);
                    }
                }
                return Err(EvalError::InvalidExpression);
            },
        }
        i += 1;
    }

    assert(tokens@.take(tokens@.len() as int) == tokens@);
    let ghost end = Stacks { numbers: numbers@, operators: operators@ };
    while operators.len() > 0
        invariant
            callable(&arith),
            no_numbers(tokens@) ==> numbers@.len() == 0,
            forall|g: Arithmetic| #[trigger]
                computes(&arith, g) ==> run(tokens@, g) == Ok::<Stacks, EvalError>(end),
            forall|g: Arithmetic| #[trigger]
                computes(&arith, g) ==> drain(end, g) == drain(
                    Stacks { numbers: numbers@, operators: operators@ },
                    g,
                ),
        decreases operators.len(),
    {
        let ghost before = Stacks { numbers: numbers@, operators: operators@ };
        let top = operators.pop().unwrap();
        assert(top == before.operators.last());
        assert(operators@ == before.operators.drop_last());
        match apply_operator(&mut numbers, top, &arith) {
            Ok(()) => {},
            Err(e) => {
                proof {
                    assert forall|g: Arithmetic| #[trigger] computes(&arith, g) implies Err::<
                        u64,
                        EvalError,
                    >(e) == evaluate_spec(tokens@, g) by {
                        assert(drain(before, g) == Err::<Seq<u64>, EvalError>(e));
                    }
                }
                return Err(e);
            },
        }
    }

    match numbers.pop() {
        Some(result) => Ok(result),
        None => Err(EvalError::InvalidExpression),
    }
}

} // verus!
