//! The value of an infix expression as its grammar defines it, and the
//! proof that the two-stack evaluator computes exactly that value.
//!
//! An expression is a sum: products joined by `+` and `-`. A product is
//! numbers joined by `*` and `/`. Both are read from left to right, so that
//! `a - b - c` is `(a - b) - c` and `a + b * c` is `a + (b * c)`.

use vstd::prelude::*;
use crate::evaluator::{
    apply_spec, drain, evaluate_spec, feed, finish, is_zero_spec, reduce, run, Arithmetic,
    EvalError, Stacks,
};
use crate::calculate_spec;
use crate::token::{has_precedence_spec, Token};
use crate::tokenizer::{tokenize_spec, Reader};

verus! {

/// The tokens are numbers and binary operators in turn, with a number first
/// and last.
pub open spec fn is_infix(tokens: Seq<Token>) -> bool {
    &&& tokens.len() % 2 == 1
    &&& forall|i: int|
        0 <= i < tokens.len() ==> if i % 2 == 0 {
            (#[trigger] tokens[i]) is Number
        } else {
            tokens[i].is_operator()
        }
}

/// The position of the last `+` or `-` among the tokens, if there is one.
pub open spec fn last_additive(tokens: Seq<Token>) -> Option<int>
    decreases tokens.len(),
{
    if tokens.len() == 0 {
        None
    } else if tokens.last().is_additive() {
        Some(tokens.len() - 1)
    } else {
        last_additive(tokens.drop_last())
    }
}

/// `last_additive` finds an additive operator after which none follows, or
/// reports that there is none at all.
pub proof fn lemma_last_additive(tokens: Seq<Token>)
    ensures
        match last_additive(tokens) {
            Some(i) => {
                &&& 0 <= i < tokens.len()
                &&& tokens[i].is_additive()
                &&& forall|j: int| i < j < tokens.len() ==> !(#[trigger] tokens[j]).is_additive()
            },
            None => forall|j: int| 0 <= j < tokens.len() ==> !(#[trigger] tokens[j]).is_additive(),
        },
    decreases tokens.len(),
{
    if tokens.len() > 0 && !tokens.last().is_additive() {
        let front = tokens.drop_last();
        lemma_last_additive(front);
        match last_additive(front) {
            Some(i) => {
                assert(front[i] == tokens[i]);
                assert forall|j: int| i < j < tokens.len() implies !(
                #[trigger] tokens[j]).is_additive() by {
                    if j < front.len() {
                        assert(front[j] == tokens[j]);
                    }
                }
            },
            None => {
                assert forall|j: int| 0 <= j < tokens.len() implies !(
                #[trigger] tokens[j]).is_additive() by {
                    if j < front.len() {
                        assert(front[j] == tokens[j]);
                    }
                }
            },
        }
    }
}

/// The outcome of one operation on two outcomes: the first error of the
/// left and the right operand, else a division by zero, else the value.
pub open spec fn combine(
    op: Token,
    left: Result<u64, EvalError>,
    right: Result<u64, EvalError>,
    g: Arithmetic,
) -> Result<u64, EvalError> {
    match (left, right) {
        (Err(e), _) => Err(e),
        (Ok(_), Err(e)) => Err(e),
        (Ok(a), Ok(b)) => if op is Divide && is_zero_spec(b) {
            Err(EvalError::DivisionByZero)
        } else {
            Ok(g(op, a, b))
        },
    }
}

/// The value of a product, an infix expression without `+` and `-`: a
/// single number is its own value; otherwise all but the last number are
/// valued first, and the result is multiplied or divided by the last number.
pub open spec fn product_value(tokens: Seq<Token>, g: Arithmetic) -> Result<u64, EvalError>
    recommends
        is_infix(tokens),
    decreases tokens.len(),
{
    if tokens.len() < 3 {
        Ok(tokens.last().bits())
    } else {
        combine(
            tokens[tokens.len() - 2],
            product_value(tokens.take(tokens.len() - 2), g),
            Ok(tokens.last().bits()),
            g,
        )
    }
}

/// The value of an infix expression: without `+` and `-` it is a product;
/// otherwise it is split at the last `+` or `-`, what stands before is
/// valued as an expression, what stands after as a product, and the two are
/// added or subtracted.
pub open spec fn sum_value(tokens: Seq<Token>, g: Arithmetic) -> Result<u64, EvalError>
    recommends
        is_infix(tokens),
    decreases tokens.len(),
    via sum_value_decreases
{
    match last_additive(tokens) {
        None => product_value(tokens, g),
        Some(i) => combine(
            tokens[i],
            sum_value(tokens.take(i), g),
            product_value(tokens.skip(i + 1), g),
            g,
        ),
    }
}

#[via_fn]
proof fn sum_value_decreases(tokens: Seq<Token>, g: Arithmetic) {
    lemma_last_additive(tokens);
}

/// A product: an infix expression in which no `+` or `-` occurs.
pub open spec fn is_product(tokens: Seq<Token>) -> bool {
    &&& is_infix(tokens)
    &&& forall|i: int| 0 <= i < tokens.len() ==> !(#[trigger] tokens[i]).is_additive()
}

/// The product that ends an expression: all that stands after its last `+`
/// or `-`.
pub open spec fn trailing_product(tokens: Seq<Token>) -> Seq<Token> {
    match last_additive(tokens) {
        None => tokens,
        Some(i) => tokens.skip(i + 1),
    }
}

/// What stands before an operator of an infix expression is an infix
/// expression.
pub proof fn lemma_infix_prefix(tokens: Seq<Token>, k: int)
    requires
        is_infix(tokens),
        0 < k < tokens.len(),
        k % 2 == 1,
    ensures
        is_infix(tokens.take(k)),
{
    let prefix = tokens.take(k);
    assert forall|j: int| 0 <= j < prefix.len() implies if j % 2 == 0 {
        (#[trigger] prefix[j]) is Number
    } else {
        prefix[j].is_operator()
    } by {
        assert(prefix[j] == tokens[j]);
    }
}

/// The last `+` or `-` of an infix expression stands between an infix
/// expression and a product.
pub proof fn lemma_split(tokens: Seq<Token>)
    requires
        is_infix(tokens),
    ensures
        is_product(trailing_product(tokens)),
        match last_additive(tokens) {
            Some(i) => 0 < i < tokens.len() - 1 && i % 2 == 1 && is_infix(tokens.take(i)),
            None => true,
        },
{
    lemma_last_additive(tokens);
    match last_additive(tokens) {
        Some(i) => {
            assert(i % 2 == 1) by {
                if i % 2 == 0 {
                    assert(tokens[i] is Number);
                }
            }
            let before = tokens.take(i);
            let after = tokens.skip(i + 1);
            lemma_infix_prefix(tokens, i);
            assert(is_product(after)) by {
                assert forall|j: int| 0 <= j < after.len() implies (if j % 2 == 0 {
                    (#[trigger] after[j]) is Number
                } else {
                    after[j].is_operator()
                }) && !after[j].is_additive() by {
                    assert(after[j] == tokens[i + 1 + j]);
                }
            }
        },
        None => {},
    }
}

/// The stacks of the evaluator below the trailing product: empty if the
/// expression is a product, else the value of what stands before the last
/// `+` or `-`, and that operator.
spec fn base_stacks(tokens: Seq<Token>, g: Arithmetic) -> Result<Stacks, EvalError> {
    match last_additive(tokens) {
        None => Ok(Stacks { numbers: Seq::empty(), operators: Seq::empty() }),
        Some(i) => match sum_value(tokens.take(i), g) {
            Err(e) => Err(e),
            Ok(v) => Ok(Stacks { numbers: seq![v], operators: seq![tokens[i]] }),
        },
    }
}

/// The stacks once a product has been fed on top of `base`: its last number
/// and, if it has more than one, the value of all that stands before its
/// last operator, and that operator.
spec fn product_stacks(base: Stacks, product: Seq<Token>, g: Arithmetic) -> Result<
    Stacks,
    EvalError,
> {
    if product.len() < 3 {
        Ok(Stacks { numbers: base.numbers.push(product.last().bits()), operators: base.operators })
    } else {
        match product_value(product.take(product.len() - 2), g) {
            Err(e) => Err(e),
            Ok(v) => Ok(
                Stacks {
                    numbers: base.numbers.push(v).push(product.last().bits()),
                    operators: base.operators.push(product[product.len() - 2]),
                },
            ),
        }
    }
}

/// The stacks that the evaluator holds after it has been fed an infix
/// expression.
spec fn expected(tokens: Seq<Token>, g: Arithmetic) -> Result<Stacks, EvalError> {
    match base_stacks(tokens, g) {
        Err(e) => Err(e),
        Ok(base) => product_stacks(base, trailing_product(tokens), g),
    }
}

/// A base is empty, or one value under one `+` or `-`.
spec fn is_base(base: Stacks) -> bool {
    ||| base.numbers.len() == 0 && base.operators.len() == 0
    ||| base.numbers.len() == 1 && base.operators.len() == 1 && base.operators[0].is_additive()
}

/// Applying an operator to a stack that ends in `a`, `b` replaces the two by
/// the outcome of the operation on them.
proof fn lemma_apply_top(rest: Seq<u64>, a: u64, b: u64, op: Token, g: Arithmetic)
    requires
        op.is_operator(),
    ensures
        apply_spec(rest.push(a).push(b), op, g) == match combine(op, Ok(a), Ok(b), g) {
            Err(e) => Err::<Seq<u64>, EvalError>(e),
            Ok(v) => Ok(rest.push(v)),
        },
{
    let numbers = rest.push(a).push(b);
    assert(numbers.take(numbers.len() - 2) == rest);
}

/// When the next operator arrives, or the input ends, the pending operator
/// of the trailing product is applied first, which yields the product's
/// value on top of the base.
proof fn lemma_product_collapses(base: Stacks, product: Seq<Token>, incoming: Token, g: Arithmetic)
    requires
        is_product(product),
        incoming.is_operator(),
        product_stacks(base, product, g) is Ok,
    ensures
        reduce(product_stacks(base, product, g)->Ok_0, incoming, g) == match product_value(
            product,
            g,
        ) {
            Err(e) => Err::<Stacks, EvalError>(e),
            Ok(w) => reduce(
                Stacks { numbers: base.numbers.push(w), operators: base.operators },
                incoming,
                g,
            ),
        },
        drain(product_stacks(base, product, g)->Ok_0, g) == match product_value(product, g) {
            Err(e) => Err::<Seq<u64>, EvalError>(e),
            Ok(w) => drain(Stacks { numbers: base.numbers.push(w), operators: base.operators }, g),
        },
{
    let stacks = product_stacks(base, product, g)->Ok_0;
    if product.len() >= 3 {
        let op = product[product.len() - 2];
        let v = product_value(product.take(product.len() - 2), g)->Ok_0;
        let n = product.last().bits();
        assert(op.is_multiplicative());
        assert(stacks.operators.last() == op);
        assert(stacks.operators.drop_last() == base.operators);
        assert(has_precedence_spec(op, incoming));
        lemma_apply_top(base.numbers, v, n, op, g);
        assert(product_value(product, g) == combine(op, Ok(v), Ok(n), g));
    }
}

/// A base with a value on top of it collapses to one value: the value
/// itself over an empty base, else the sum or difference of the base's value
/// and it.
spec fn base_value(base: Stacks, w: u64, g: Arithmetic) -> u64 {
    if base.operators.len() == 0 {
        w
    } else {
        g(base.operators[0], base.numbers[0], w)
    }
}

/// What the evaluator does with a base and a value on top of it: an
/// incoming `*` or `/` leaves them, an incoming `+` or `-` and the end of
/// the input collapse them.
proof fn lemma_base_collapses(base: Stacks, w: u64, incoming: Token, g: Arithmetic)
    requires
        is_base(base),
        incoming.is_operator(),
    ensures
        incoming.is_multiplicative() ==> reduce(
            Stacks { numbers: base.numbers.push(w), operators: base.operators },
            incoming,
            g,
        ) == Ok::<Stacks, EvalError>(
            Stacks { numbers: base.numbers.push(w), operators: base.operators },
        ),
        incoming.is_additive() ==> reduce(
            Stacks { numbers: base.numbers.push(w), operators: base.operators },
            incoming,
            g,
        ) == Ok::<Stacks, EvalError>(
            Stacks { numbers: seq![base_value(base, w, g)], operators: Seq::empty() },
        ),
        drain(Stacks { numbers: base.numbers.push(w), operators: base.operators }, g) == Ok::<
            Seq<u64>,
            EvalError,
        >(seq![base_value(base, w, g)]),
{
    let stacks = Stacks { numbers: base.numbers.push(w), operators: base.operators };
    if base.operators.len() == 0 {
        assert(stacks.numbers == seq![w]);
        assert(stacks.operators == Seq::<Token>::empty());
    } else {
        let op = base.operators[0];
        let v = base.numbers[0];
        let after = Stacks { numbers: seq![g(op, v, w)], operators: Seq::empty() };
        assert(stacks.operators.last() == op);
        assert(stacks.operators.drop_last() == after.operators);
        assert(stacks.numbers == Seq::<u64>::empty().push(v).push(w));
        lemma_apply_top(Seq::<u64>::empty(), v, w, op, g);
        assert(Seq::<u64>::empty().push(g(op, v, w)) == after.numbers);
        assert(apply_spec(stacks.numbers, op, g) == Ok::<Seq<u64>, EvalError>(after.numbers));
        assert(drain(after, g) == Ok::<Seq<u64>, EvalError>(after.numbers));
        assert(reduce(after, incoming, g) == Ok::<Stacks, EvalError>(after));
    }
}

/// The value of an infix expression, told from its base and its trailing
/// product.
proof fn lemma_sum_from_base(tokens: Seq<Token>, g: Arithmetic)
    requires
        is_infix(tokens),
    ensures
        match base_stacks(tokens, g) {
            Err(e) => sum_value(tokens, g) == Err::<u64, EvalError>(e),
            Ok(base) => is_base(base) && sum_value(tokens, g) == match product_value(
                trailing_product(tokens),
                g,
            ) {
                Err(e) => Err::<u64, EvalError>(e),
                Ok(w) => Ok(base_value(base, w, g)),
            },
        },
{
    lemma_last_additive(tokens);
}

/// What the evaluator does with the stacks that an infix expression has
/// left: an incoming `*` or `/` has the trailing product valued, an incoming
/// `+` or `-` and the end of the input have the whole expression valued.
proof fn lemma_expected_collapses(tokens: Seq<Token>, incoming: Token, g: Arithmetic)
    requires
        is_infix(tokens),
        incoming.is_operator(),
    ensures
        match expected(tokens, g) {
            Err(e) => {
                &&& sum_value(tokens, g) == Err::<u64, EvalError>(e)
                &&& base_stacks(tokens, g) is Ok ==> product_value(trailing_product(tokens), g)
                    == Err::<u64, EvalError>(e)
            },
            Ok(stacks) => {
                &&& base_stacks(tokens, g) is Ok
                &&& finish(stacks, g) == sum_value(tokens, g)
                &&& incoming.is_additive() ==> reduce(stacks, incoming, g) == match sum_value(
                    tokens,
                    g,
                ) {
                    Err(e) => Err::<Stacks, EvalError>(e),
                    Ok(v) => Ok(Stacks { numbers: seq![v], operators: Seq::empty() }),
                }
                &&& incoming.is_multiplicative() ==> reduce(stacks, incoming, g)
                    == match product_value(trailing_product(tokens), g) {
                    Err(e) => Err::<Stacks, EvalError>(e),
                    Ok(w) => Ok(
                        Stacks {
                            numbers: base_stacks(tokens, g)->Ok_0.numbers.push(w),
                            operators: base_stacks(tokens, g)->Ok_0.operators,
                        },
                    ),
                }
            },
        },
{
    lemma_split(tokens);
    lemma_sum_from_base(tokens, g);
    let product = trailing_product(tokens);
    match base_stacks(tokens, g) {
        Err(e) => {},
        Ok(base) => {
            match product_stacks(base, product, g) {
                Err(e) => {
                    assert(product_value(product, g) == Err::<u64, EvalError>(e));
                },
                Ok(stacks) => {
                    lemma_product_collapses(base, product, incoming, g);
                    match product_value(product, g) {
                        Err(e) => {},
                        Ok(w) => {
                            lemma_base_collapses(base, w, incoming, g);
                        },
                    }
                },
            }
        },
    }
}

/// After an infix expression, one more `*` or `/` and one more number
/// lengthen the trailing product and leave the base as it was.
proof fn lemma_extend_product(shorter: Seq<Token>, op: Token, bits: u64, g: Arithmetic)
    requires
        is_infix(shorter),
        op.is_multiplicative(),
    ensures
        is_infix(shorter.push(op).push(Token::Number(bits))),
        base_stacks(shorter.push(op).push(Token::Number(bits)), g) == base_stacks(shorter, g),
        trailing_product(shorter.push(op).push(Token::Number(bits))) == trailing_product(
            shorter,
        ).push(op).push(Token::Number(bits)),
{
    let longer = shorter.push(op).push(Token::Number(bits));
    assert(longer.drop_last() == shorter.push(op));
    assert(shorter.push(op).drop_last() == shorter);
    assert(last_additive(longer) == last_additive(shorter.push(op)));
    assert(last_additive(shorter.push(op)) == last_additive(shorter));
    lemma_last_additive(shorter);
    match last_additive(shorter) {
        Some(i) => {
            assert(longer.take(i) == shorter.take(i));
            assert(longer.skip(i + 1) == shorter.skip(i + 1).push(op).push(Token::Number(bits)));
        },
        None => {},
    }
}

/// After an infix expression, one more `+` or `-` and one more number make
/// the expression so far the base and the number the trailing product.
proof fn lemma_extend_sum(shorter: Seq<Token>, op: Token, bits: u64, g: Arithmetic)
    requires
        is_infix(shorter),
        op.is_additive(),
    ensures
        is_infix(shorter.push(op).push(Token::Number(bits))),
        base_stacks(shorter.push(op).push(Token::Number(bits)), g) == match sum_value(shorter, g) {
            Err(e) => Err::<Stacks, EvalError>(e),
            Ok(v) => Ok(Stacks { numbers: seq![v], operators: seq![op] }),
        },
        trailing_product(shorter.push(op).push(Token::Number(bits))) == seq![Token::Number(bits)],
{
    let longer = shorter.push(op).push(Token::Number(bits));
    assert(longer.drop_last() == shorter.push(op));
    assert(last_additive(longer) == last_additive(shorter.push(op)));
    assert(last_additive(shorter.push(op)) == Some(shorter.len() as int));
    assert(longer.take(shorter.len() as int) == shorter);
    assert(longer.skip(shorter.len() as int + 1) == seq![Token::Number(bits)]);
}

/// Feeding one more token goes on from the stacks that the tokens before
/// it have left, unless they have met an error.
proof fn lemma_run_push(tokens: Seq<Token>, token: Token, g: Arithmetic)
    ensures
        run(tokens.push(token), g) == match run(tokens, g) {
            Err(e) => Err::<Stacks, EvalError>(e),
            Ok(stacks) => feed(stacks, token, g),
        },
{
    assert(tokens.push(token).drop_last() == tokens);
}

/// The stacks stay as expected when `+` or `-` and a number follow.
proof fn lemma_step_sum(shorter: Seq<Token>, op: Token, bits: u64, g: Arithmetic)
    requires
        is_infix(shorter),
        op.is_additive(),
        run(shorter, g) == expected(shorter, g),
    ensures
        run(shorter.push(op).push(Token::Number(bits)), g) == expected(
            shorter.push(op).push(Token::Number(bits)),
            g,
        ),
{
    let longer = shorter.push(op).push(Token::Number(bits));
    lemma_run_push(shorter, op, g);
    lemma_run_push(shorter.push(op), Token::Number(bits), g);
    lemma_expected_collapses(shorter, op, g);
    lemma_extend_sum(shorter, op, bits, g);
    match expected(shorter, g) {
        Err(e) => {
            assert(run(longer, g) == Err::<Stacks, EvalError>(e));
            assert(expected(longer, g) == Err::<Stacks, EvalError>(e));
        },
        Ok(stacks) => {
            match sum_value(shorter, g) {
                Err(e) => {
                    assert(feed(stacks, op, g) == Err::<Stacks, EvalError>(e));
                    assert(run(longer, g) == Err::<Stacks, EvalError>(e));
                    assert(expected(longer, g) == Err::<Stacks, EvalError>(e));
                },
                Ok(v) => {
                    let base = Stacks { numbers: seq![v], operators: seq![op] };
                    assert(Seq::<Token>::empty().push(op) == seq![op]);
                    assert(feed(stacks, op, g) == Ok::<Stacks, EvalError>(base));
                    let end = Stacks {
                        numbers: base.numbers.push(bits),
                        operators: base.operators,
                    };
                    assert(feed(base, Token::Number(bits), g) == Ok::<Stacks, EvalError>(end));
                    assert(run(longer, g) == Ok::<Stacks, EvalError>(end));
                    assert(base_stacks(longer, g) == Ok::<Stacks, EvalError>(base));
                    assert(trailing_product(longer).last().bits() == bits);
                    assert(product_stacks(base, trailing_product(longer), g) == Ok::<
                        Stacks,
                        EvalError,
                    >(end));
                },
            }
        },
    }
}

/// The stacks stay as expected when `*` or `/` and a number follow.
proof fn lemma_step_product(shorter: Seq<Token>, op: Token, bits: u64, g: Arithmetic)
    requires
        is_infix(shorter),
        op.is_multiplicative(),
        run(shorter, g) == expected(shorter, g),
    ensures
        run(shorter.push(op).push(Token::Number(bits)), g) == expected(
            shorter.push(op).push(Token::Number(bits)),
            g,
        ),
{
    let longer = shorter.push(op).push(Token::Number(bits));
    let product = trailing_product(shorter);
    let longer_product = trailing_product(longer);
    lemma_run_push(shorter, op, g);
    lemma_run_push(shorter.push(op), Token::Number(bits), g);
    lemma_expected_collapses(shorter, op, g);
    lemma_extend_product(shorter, op, bits, g);
    lemma_split(shorter);
    assert(longer_product.len() >= 3);
    assert(longer_product.take(longer_product.len() - 2) == product);
    assert(longer_product[longer_product.len() - 2] == op);
    assert(longer_product.last().bits() == bits);
    match base_stacks(shorter, g) {
        Err(e) => {
            assert(run(longer, g) == Err::<Stacks, EvalError>(e));
            assert(expected(longer, g) == Err::<Stacks, EvalError>(e));
        },
        Ok(base) => {
            match product_value(product, g) {
                Err(e) => {
                    assert(expected(longer, g) == Err::<Stacks, EvalError>(e));
                    match expected(shorter, g) {
                        Err(e2) => {
                            assert(run(longer, g) == Err::<Stacks, EvalError>(e));
                        },
                        Ok(stacks) => {
                            assert(feed(stacks, op, g) == Err::<Stacks, EvalError>(e));
                            assert(run(longer, g) == Err::<Stacks, EvalError>(e));
                        },
                    }
                },
                Ok(w) => {
                    let reduced = Stacks {
                        numbers: base.numbers.push(w),
                        operators: base.operators,
                    };
                    let pushed = Stacks {
                        numbers: reduced.numbers,
                        operators: reduced.operators.push(op),
                    };
                    let end = Stacks {
                        numbers: pushed.numbers.push(bits),
                        operators: pushed.operators,
                    };
                    assert(expected(shorter, g) is Ok);
                    let stacks = expected(shorter, g)->Ok_0;
                    assert(reduce(stacks, op, g) == Ok::<Stacks, EvalError>(reduced));
                    assert(feed(stacks, op, g) == Ok::<Stacks, EvalError>(pushed));
                    assert(feed(pushed, Token::Number(bits), g) == Ok::<Stacks, EvalError>(end));
                    assert(run(longer, g) == Ok::<Stacks, EvalError>(end));
                    assert(product_stacks(base, longer_product, g) == Ok::<Stacks, EvalError>(end));
                },
            }
        },
    }
}

/// Fed an infix expression, the evaluator holds the value of what stands
/// before the last `+` or `-` with that operator, and on top of them the
/// trailing product with its last operation still pending.
proof fn lemma_run_infix(tokens: Seq<Token>, g: Arithmetic)
    requires
        is_infix(tokens),
    ensures
        run(tokens, g) == expected(tokens, g),
    decreases tokens.len(),
{
    let bits = tokens.last().bits();
    assert(tokens.last() == Token::Number(bits));
    if tokens.len() == 1 {
        let start = Stacks { numbers: Seq::<u64>::empty(), operators: Seq::<Token>::empty() };
        assert(tokens == Seq::<Token>::empty().push(Token::Number(bits)));
        lemma_run_push(Seq::<Token>::empty(), Token::Number(bits), g);
        assert(run(Seq::<Token>::empty(), g) == Ok::<Stacks, EvalError>(start));
        assert(last_additive(tokens.drop_last()) == None::<int>);
        assert(last_additive(tokens) == None::<int>);
    } else {
        let shorter = tokens.take(tokens.len() - 2);
        let op = tokens[tokens.len() - 2];
        lemma_infix_prefix(tokens, tokens.len() - 2);
        assert(op.is_operator());
        assert(tokens == shorter.push(op).push(Token::Number(bits)));
        lemma_run_infix(shorter, g);
        if op.is_additive() {
            lemma_step_sum(shorter, op, bits, g);
        } else {
            lemma_step_product(shorter, op, bits, g);
        }
    }
}

/// The evaluator computes the value that the grammar gives: for every infix
/// expression, numbers joined by `+ - * /` without parentheses, the result
/// of the evaluation is the value of the expression read with `*` and `/`
/// binding tighter than `+` and `-`, and operators of one strength applied
/// from left to right. A division by zero anywhere in it is the error.
pub proof fn lemma_evaluate_infix(tokens: Seq<Token>, g: Arithmetic)
    requires
        is_infix(tokens),
    ensures
        evaluate_spec(tokens, g) == sum_value(tokens, g),
{
    lemma_run_infix(tokens, g);
    lemma_expected_collapses(tokens, Token::Plus, g);
}

/// Somewhere among the tokens a `/` stands directly before a zero.
pub open spec fn divides_by_zero(tokens: Seq<Token>) -> bool {
    exists|i: int|
        0 <= i < tokens.len() - 1 && (#[trigger] tokens[i]) is Divide && is_zero_spec(
            tokens[i + 1].bits(),
        )
}

/// A product has a value unless it divides by zero, whatever the
/// arithmetic.
proof fn lemma_product_outcome(tokens: Seq<Token>, g: Arithmetic)
    requires
        is_infix(tokens),
    ensures
        product_value(tokens, g) is Err <==> divides_by_zero(tokens),
        product_value(tokens, g) is Err ==> product_value(tokens, g) == Err::<u64, EvalError>(
            EvalError::DivisionByZero,
        ),
    decreases tokens.len(),
{
    if tokens.len() < 3 {
        assert(!divides_by_zero(tokens)) by {
            assert(tokens[0] is Number);
        }
    } else {
        let n = tokens.len() as int;
        let shorter = tokens.take(n - 2);
        lemma_infix_prefix(tokens, n - 2);
        lemma_product_outcome(shorter, g);
        let last_divides = tokens[n - 2] is Divide && is_zero_spec(tokens[n - 1].bits());
        assert(divides_by_zero(tokens) <==> divides_by_zero(shorter) || last_divides) by {
            if divides_by_zero(shorter) {
                let i = choose|i: int|
                    0 <= i < shorter.len() - 1 && (#[trigger] shorter[i]) is Divide && is_zero_spec(
                        shorter[i + 1].bits(),
                    );
                assert(tokens[i] == shorter[i] && tokens[i + 1] == shorter[i + 1]);
            }
            if last_divides {
                assert(tokens[n - 2] is Divide);
            }
            if divides_by_zero(tokens) {
                let i = choose|i: int|
                    0 <= i < tokens.len() - 1 && (#[trigger] tokens[i]) is Divide && is_zero_spec(
                        tokens[i + 1].bits(),
                    );
                if i < n - 3 {
                    assert(shorter[i] == tokens[i] && shorter[i + 1] == tokens[i + 1]);
                } else if i == n - 3 {
                    assert(tokens[n - 3] is Number);
                }
            }
        }
    }
}

/// An infix expression has a value unless a `/` in it stands directly
/// before a zero: no other error can come of it, and that one comes
/// whatever the arithmetic.
pub proof fn lemma_sum_outcome(tokens: Seq<Token>, g: Arithmetic)
    requires
        is_infix(tokens),
    ensures
        sum_value(tokens, g) is Err <==> divides_by_zero(tokens),
        sum_value(tokens, g) is Err ==> sum_value(tokens, g) == Err::<u64, EvalError>(
            EvalError::DivisionByZero,
        ),
    decreases tokens.len(),
{
    lemma_split(tokens);
    lemma_last_additive(tokens);
    match last_additive(tokens) {
        None => {
            lemma_product_outcome(tokens, g);
        },
        Some(i) => {
            let before = tokens.take(i);
            let after = tokens.skip(i + 1);
            lemma_sum_outcome(before, g);
            lemma_product_outcome(after, g);
            assert(divides_by_zero(tokens) <==> divides_by_zero(before) || divides_by_zero(after))
                by {
                if divides_by_zero(before) {
                    let k = choose|k: int|
                        0 <= k < before.len() - 1 && (#[trigger] before[k]) is Divide
                            && is_zero_spec(before[k + 1].bits());
                    assert(tokens[k] == before[k] && tokens[k + 1] == before[k + 1]);
                }
                if divides_by_zero(after) {
                    let k = choose|k: int|
                        0 <= k < after.len() - 1 && (#[trigger] after[k]) is Divide && is_zero_spec(
                            after[k + 1].bits(),
                        );
                    assert(tokens[i + 1 + k] == after[k] && tokens[i + 1 + k + 1] == after[k + 1]);
                    assert(tokens[i + 1 + k] is Divide);
                }
                if divides_by_zero(tokens) {
                    let k = choose|k: int|
                        0 <= k < tokens.len() - 1 && (#[trigger] tokens[k]) is Divide
                            && is_zero_spec(tokens[k + 1].bits());
                    if k < i - 1 {
                        assert(before[k] == tokens[k] && before[k + 1] == tokens[k + 1]);
                    } else if k == i - 1 {
                        assert(tokens[i - 1] is Number);
                    } else if k > i {
                        assert(after[k - i - 1] == tokens[k] && after[k - i] == tokens[k + 1]);
                        assert(after[k - i - 1] is Divide);
                    }
                }
            }
        },
    }
}

/// Success is owed to every infix expression that does not divide by zero:
/// its evaluation gives the value of the grammar, and the evaluation of one
/// that does divide by zero gives that error.
pub proof fn lemma_evaluate_infix_outcome(tokens: Seq<Token>, g: Arithmetic)
    requires
        is_infix(tokens),
    ensures
        divides_by_zero(tokens) ==> evaluate_spec(tokens, g) == Err::<u64, EvalError>(
            EvalError::DivisionByZero,
        ),
        !divides_by_zero(tokens) ==> evaluate_spec(tokens, g) is Ok && evaluate_spec(tokens, g)
            == sum_value(tokens, g),
{
    lemma_evaluate_infix(tokens, g);
    lemma_sum_outcome(tokens, g);
}

/// After an infix expression the operand stack holds exactly one element
/// more than the operator stack, which holds at most two operators; and
/// once those have been applied, exactly one operand remains: the result.
pub proof fn lemma_infix_stacks(tokens: Seq<Token>, g: Arithmetic)
    requires
        is_infix(tokens),
        run(tokens, g) is Ok,
    ensures
        run(tokens, g)->Ok_0.numbers.len() == run(tokens, g)->Ok_0.operators.len() + 1,
        run(tokens, g)->Ok_0.operators.len() <= 2,
        drain(run(tokens, g)->Ok_0, g) is Ok ==> drain(run(tokens, g)->Ok_0, g)->Ok_0.len() == 1,
{
    lemma_run_infix(tokens, g);
    lemma_split(tokens);
    lemma_sum_from_base(tokens, g);
    let base = base_stacks(tokens, g)->Ok_0;
    let product = trailing_product(tokens);
    lemma_product_collapses(base, product, Token::Plus, g);
    match product_value(product, g) {
        Err(e) => {},
        Ok(w) => {
            lemma_base_collapses(base, w, Token::Plus, g);
        },
    }
}

/// The calculation of an input whose tokens form an infix expression gives
/// the value of that expression, or the message of its division by zero.
pub proof fn lemma_calculate_infix(input: Seq<char>, read: Reader, g: Arithmetic)
    requires
        is_infix(tokenize_spec(input, read)),
    ensures
        calculate_spec(input, read, g) == match sum_value(tokenize_spec(input, read), g) {
            Ok(value) => Ok::<u64, Seq<char>>(value),
            Err(e) => Err(e.message_spec()),
        },
        divides_by_zero(tokenize_spec(input, read)) ==> calculate_spec(input, read, g) == Err::<
            u64,
            Seq<char>,
        >("Division by zero"@),
        !divides_by_zero(tokenize_spec(input, read)) ==> calculate_spec(input, read, g) is Ok,
{
    lemma_evaluate_infix(tokenize_spec(input, read), g);
    lemma_evaluate_infix_outcome(tokenize_spec(input, read), g);
}

} // verus!
