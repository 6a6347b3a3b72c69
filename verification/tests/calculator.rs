use rust_calc::calculate_inner;
use rust_calc::evaluator::{apply_operator, evaluate, is_zero, EvalError};
use rust_calc::token::{has_precedence, Token};
use rust_calc::tokenizer::tokenize;

/// Reads a literal as a binary64 value and returns its bit pattern.
fn parse(text: &str) -> Option<u64> {
    text.parse::<f64>().ok().map(f64::to_bits)
}

/// Binary64 arithmetic on bit patterns.
fn arith(op: Token, a: u64, b: u64) -> u64 {
    let (a, b) = (f64::from_bits(a), f64::from_bits(b));
    let value = match op {
        Token::Plus => a + b,
        Token::Minus => a - b,
        Token::Multiply => a * b,
        Token::Divide => {
            assert!(b != 0.0, "the evaluator asked for a division by zero");
            a / b
        }
        _ => panic!("the evaluator asked for an operation on a token that is no operator"),
    };
    value.to_bits()
}

fn number(value: f64) -> Token {
    Token::Number(value.to_bits())
}

fn calc(input: &str) -> Result<f64, String> {
    calculate_inner(input, parse, arith).map(f64::from_bits)
}

fn eval(tokens: Vec<Token>) -> Result<f64, EvalError> {
    evaluate(tokens, arith).map(f64::from_bits)
}

#[test]
fn test_tokenize() {
    let tokens = tokenize("2 + 2", parse);
    assert_eq!(tokens, vec![number(2.0), Token::Plus, number(2.0)]);
}

#[test]
fn test_evaluate() {
    let result = eval(vec![number(2.0), Token::Plus, number(2.0)]);
    assert_eq!(result, Ok(4.0));
}

#[test]
fn test_calculator_division() {
    let result = calc("10 / 2");
    assert_eq!(result, Ok(5.0));
}

#[test]
fn test_calculator_complex_expression() {
    let result = calc("10 + 2 * 3 - 4 / 2");
    assert_eq!(result, Ok(14.0));
}

#[test]
fn tokenize_all_symbols() {
    assert_eq!(
        tokenize("+-*/()", parse),
        vec![
            Token::Plus,
            Token::Minus,
            Token::Multiply,
            Token::Divide,
            Token::LeftParen,
            Token::RightParen
        ]
    );
}

#[test]
fn tokenize_multi_digit_and_fraction() {
    assert_eq!(tokenize("1234", parse), vec![number(1234.0)]);
    assert_eq!(tokenize("3.25*40", parse), vec![number(3.25), Token::Multiply, number(40.0)]);
    assert_eq!(tokenize("5.", parse), vec![number(5.0)]);
    assert_eq!(tokenize(".5", parse), vec![number(0.5)]);
}

#[test]
fn tokenize_space_ends_a_literal() {
    assert_eq!(tokenize("1 2", parse), vec![number(1.0), number(2.0)]);
    assert_eq!(tokenize("12", parse), vec![number(12.0)]);
}

#[test]
fn tokenize_drops_malformed_literals() {
    assert_eq!(tokenize("1.2.3", parse), vec![]);
    assert_eq!(tokenize(".", parse), vec![]);
    assert_eq!(tokenize("1.2.3+4", parse), vec![Token::Plus, number(4.0)]);
    assert_eq!(tokenize("7 .. 8", parse), vec![number(7.0), number(8.0)]);
}

#[test]
fn tokenize_skips_other_characters() {
    assert_eq!(tokenize("abc", parse), vec![]);
    assert_eq!(tokenize("1a2", parse), vec![number(12.0)]);
    assert_eq!(tokenize("1e5", parse), vec![number(15.0)]);
    assert_eq!(tokenize("2\t+\n2", parse), vec![number(2.0), Token::Plus, number(2.0)]);
    assert_eq!(tokenize("x=3^2", parse), vec![number(32.0)]);
}

#[test]
fn tokenize_empty_input() {
    assert_eq!(tokenize("", parse), vec![]);
    assert_eq!(tokenize("   ", parse), vec![]);
}

#[test]
fn tokenize_uses_the_reader_it_is_given() {
    let constant = |_: &str| Some(7u64);
    assert_eq!(tokenize("1+.", constant), vec![Token::Number(7), Token::Plus, Token::Number(7)]);
    let none = |_: &str| None;
    assert_eq!(tokenize("1+2", none), vec![Token::Plus]);
}

#[test]
fn tokenize_parentheses_are_tokens() {
    assert_eq!(
        tokenize("2 + (3 * 4)", parse),
        vec![
            number(2.0),
            Token::Plus,
            Token::LeftParen,
            number(3.0),
            Token::Multiply,
            number(4.0),
            Token::RightParen
        ]
    );
}

#[test]
fn has_precedence_table() {
    let additive = [Token::Plus, Token::Minus];
    let multiplicative = [Token::Multiply, Token::Divide];
    for top in multiplicative {
        for incoming in additive {
            assert!(has_precedence(&top, &incoming));
        }
        for incoming in multiplicative {
            assert!(has_precedence(&top, &incoming));
        }
    }
    for top in additive {
        for incoming in additive {
            assert!(has_precedence(&top, &incoming));
        }
        for incoming in multiplicative {
            assert!(!has_precedence(&top, &incoming));
        }
    }
}

#[test]
fn has_precedence_is_false_for_other_tokens() {
    let others = [number(1.0), Token::LeftParen, Token::RightParen];
    let operators = [Token::Plus, Token::Minus, Token::Multiply, Token::Divide];
    for other in others {
        for op in operators {
            assert!(!has_precedence(&other, &op));
            assert!(!has_precedence(&op, &other));
        }
        for second in others {
            assert!(!has_precedence(&other, &second));
        }
    }
}

#[test]
fn is_zero_of_both_signs() {
    assert!(is_zero(0.0f64.to_bits()));
    assert!(is_zero((-0.0f64).to_bits()));
    assert!(!is_zero(1.0f64.to_bits()));
    assert!(!is_zero(f64::MIN_POSITIVE.to_bits()));
    assert!(!is_zero(f64::NAN.to_bits()));
    assert!(!is_zero(1));
}

#[test]
fn apply_operator_takes_the_lower_operand_as_left() {
    let mut numbers = vec![1.0f64.to_bits(), 10.0f64.to_bits(), 4.0f64.to_bits()];
    assert_eq!(apply_operator(&mut numbers, Token::Minus, &arith), Ok(()));
    assert_eq!(numbers, vec![1.0f64.to_bits(), 6.0f64.to_bits()]);
    assert_eq!(apply_operator(&mut numbers, Token::Divide, &arith), Ok(()));
    assert_eq!(numbers, vec![(1.0f64 / 6.0).to_bits()]);
}

#[test]
fn apply_operator_each_operation() {
    let cases = [
        (Token::Plus, 9.0),
        (Token::Minus, 3.0),
        (Token::Multiply, 18.0),
        (Token::Divide, 2.0),
    ];
    for (op, expected) in cases {
        let mut numbers = vec![6.0f64.to_bits(), 3.0f64.to_bits()];
        assert_eq!(apply_operator(&mut numbers, op, &arith), Ok(()));
        assert_eq!(numbers, vec![f64::to_bits(expected)]);
    }
}

#[test]
fn apply_operator_needs_two_operands() {
    let mut numbers = vec![1.0f64.to_bits()];
    assert_eq!(
        apply_operator(&mut numbers, Token::Plus, &arith),
        Err(EvalError::InvalidExpression)
    );
    assert_eq!(numbers, vec![1.0f64.to_bits()]);
    let mut empty: Vec<u64> = vec![];
    assert_eq!(
        apply_operator(&mut empty, Token::Divide, &arith),
        Err(EvalError::InvalidExpression)
    );
    assert_eq!(empty, vec![]);
}

#[test]
fn apply_operator_division_by_zero() {
    let mut numbers = vec![7.0f64.to_bits(), 5.0f64.to_bits(), 0.0f64.to_bits()];
    assert_eq!(
        apply_operator(&mut numbers, Token::Divide, &arith),
        Err(EvalError::DivisionByZero)
    );
    assert_eq!(numbers, vec![7.0f64.to_bits()]);
    let mut negative = vec![5.0f64.to_bits(), (-0.0f64).to_bits()];
    assert_eq!(
        apply_operator(&mut negative, Token::Divide, &arith),
        Err(EvalError::DivisionByZero)
    );
}

#[test]
fn apply_operator_zero_is_fine_for_other_operations() {
    let mut numbers = vec![5.0f64.to_bits(), 0.0f64.to_bits()];
    assert_eq!(apply_operator(&mut numbers, Token::Multiply, &arith), Ok(()));
    assert_eq!(numbers, vec![0.0f64.to_bits()]);
    let mut dividend = vec![0.0f64.to_bits(), 5.0f64.to_bits()];
    assert_eq!(apply_operator(&mut dividend, Token::Divide, &arith), Ok(()));
    assert_eq!(dividend, vec![0.0f64.to_bits()]);
}

#[test]
fn apply_operator_rejects_other_tokens() {
    for token in [number(1.0), Token::LeftParen, Token::RightParen] {
        let mut numbers = vec![1.0f64.to_bits(), 2.0f64.to_bits(), 3.0f64.to_bits()];
        assert_eq!(
            apply_operator(&mut numbers, token, &arith),
            Err(EvalError::InvalidExpression)
        );
        assert_eq!(numbers, vec![1.0f64.to_bits()]);
        let mut short = vec![1.0f64.to_bits()];
        assert_eq!(
            apply_operator(&mut short, token, &arith),
            Err(EvalError::InvalidExpression)
        );
        assert_eq!(short, vec![1.0f64.to_bits()]);
    }
}

#[test]
fn error_messages() {
    assert_eq!(EvalError::InvalidExpression.message(), "Invalid expression");
    assert_eq!(EvalError::DivisionByZero.message(), "Division by zero");
}

#[test]
fn evaluate_precedence() {
    assert_eq!(calc("2 + 3 * 4"), Ok(14.0));
    assert_eq!(calc("2 * 3 + 4"), Ok(10.0));
    assert_eq!(calc("2 + 12 / 4"), Ok(5.0));
    assert_eq!(calc("20 - 2 * 3 * 2"), Ok(8.0));
    assert_eq!(calc("1 + 2 * 3 - 4 / 8 + 5"), Ok(11.5));
}

#[test]
fn evaluate_left_associativity() {
    assert_eq!(calc("10 - 4 - 3"), Ok(3.0));
    assert_eq!(calc("100 / 10 / 5"), Ok(2.0));
    assert_eq!(calc("2 - 3 + 4"), Ok(3.0));
    assert_eq!(calc("8 / 4 * 2"), Ok(4.0));
}

#[test]
fn evaluate_single_number() {
    assert_eq!(calc("42"), Ok(42.0));
    assert_eq!(eval(vec![number(0.5)]), Ok(0.5));
}

#[test]
fn evaluate_rounds_as_binary64() {
    assert_eq!(calc("0.1 + 0.2"), Ok(0.1 + 0.2));
    assert_eq!(calc("1 / 3"), Ok(1.0 / 3.0));
}

#[test]
fn division_by_zero_is_an_error() {
    assert_eq!(calc("5 / 0"), Err("Division by zero".to_string()));
    assert_eq!(calc("5 / 0.0"), Err("Division by zero".to_string()));
    assert_eq!(calc("0 / 0"), Err("Division by zero".to_string()));
    assert_eq!(calc("1 + 4 / 0 * 3"), Err("Division by zero".to_string()));
    assert_eq!(
        eval(vec![number(5.0), Token::Divide, number(-0.0)]),
        Err(EvalError::DivisionByZero)
    );
}

#[test]
fn whole_numbers_are_exact() {
    assert_eq!(calc("3 * 4 - 20"), Ok(-8.0));
    assert_eq!(calc("9007199254740991 + 1"), Ok(9007199254740992.0));
    assert_eq!(calc("94906265 * 94906265"), Ok(9007199136250225.0));
    assert_eq!(calc("1 - 9007199254740992"), Ok(-9007199254740991.0));
    assert_eq!(calc("2 + 3*4"), Ok(14.0));
    assert_eq!(calc("12345678 * 1000 + 999 - 12345678999"), Ok(0.0));
}

#[test]
fn division_of_zero_is_fine() {
    assert_eq!(calc("0 / 5"), Ok(0.0));
    assert_eq!(calc("0 * 5"), Ok(0.0));
}

#[test]
fn parentheses_are_rejected() {
    assert_eq!(calc("2 + (3 * 4)"), Err("Invalid expression".to_string()));
    assert_eq!(calc("(1)"), Err("Invalid expression".to_string()));
    assert_eq!(calc(")"), Err("Invalid expression".to_string()));
    assert_eq!(
        eval(vec![number(1.0), Token::LeftParen]),
        Err(EvalError::InvalidExpression)
    );
}

#[test]
fn an_earlier_division_by_zero_comes_before_a_parenthesis() {
    assert_eq!(calc("5 / 0 + ("), Err("Division by zero".to_string()));
    assert_eq!(calc("5 / 0 ("), Err("Invalid expression".to_string()));
}

#[test]
fn whitespace_is_insignificant() {
    assert_eq!(calc("1+1"), calc(" 1 + 1 "));
    assert_eq!(calc("1+1"), Ok(2.0));
    assert_eq!(calc("10+2*3-4/2"), calc("  10  +  2  *  3  -  4  /  2  "));
    assert_eq!(tokenize("1+1", parse), tokenize(" 1 + 1 ", parse));
}

#[test]
fn empty_and_operator_only_inputs_are_invalid() {
    let inputs = [
        "", " ", "+", "-", "*", "/", "+-", "*+", "+*", "- - -", "abc", ".", "1.2.3", "..", ". + .",
        "(.)*.", "a.b / .c",
    ];
    for input in inputs {
        assert_eq!(calc(input), Err("Invalid expression".to_string()), "input {:?}", input);
    }
    assert_eq!(eval(vec![]), Err(EvalError::InvalidExpression));
    assert_eq!(eval(vec![Token::Plus]), Err(EvalError::InvalidExpression));
}

#[test]
fn dots_alone_are_no_number() {
    assert_eq!(tokenize(". + ..", parse), vec![Token::Plus]);
    assert_eq!(
        tokenize("(.)*.", parse),
        vec![Token::LeftParen, Token::RightParen, Token::Multiply]
    );
    assert_eq!(tokenize("....", parse), vec![]);
}

#[test]
fn missing_operands_are_invalid() {
    assert_eq!(calc("1 +"), Err("Invalid expression".to_string()));
    assert_eq!(calc("* 2"), Err("Invalid expression".to_string()));
    assert_eq!(calc("-5"), Err("Invalid expression".to_string()));
    assert_eq!(calc("1 + * 2"), Err("Invalid expression".to_string()));
    assert_eq!(calc("1 + + 2"), Err("Invalid expression".to_string()));
}

#[test]
fn operands_below_the_result_are_ignored() {
    assert_eq!(calc("1 2"), Ok(2.0));
    assert_eq!(calc("1 2 +"), Ok(3.0));
    assert_eq!(calc("7 1 2 * 3"), Ok(6.0));
    assert_eq!(eval(vec![number(1.0), number(2.0), number(3.0)]), Ok(3.0));
}

#[test]
fn every_failure_is_one_of_the_two_errors() {
    let inputs = ["", "+", "1 +", "(", "1 / 0", "1 2 3 * /", "2 + (3 * 4)", "1 2 0 * /"];
    for input in inputs {
        let result = calc(input);
        assert!(
            result.is_ok()
                || result == Err("Invalid expression".to_string())
                || result == Err("Division by zero".to_string()),
            "input {:?}",
            input
        );
    }
    assert_eq!(calc("1 2 3 * /"), Ok(1.0 / 6.0));
    assert_eq!(calc("1 2 0 * /"), Err("Division by zero".to_string()));
}

#[test]
fn evaluate_uses_the_arithmetic_it_is_given() {
    let first = |_: Token, a: u64, _: u64| a;
    let tokens = vec![
        Token::Number(3),
        Token::Plus,
        Token::Number(4),
        Token::Multiply,
        Token::Number(5),
    ];
    assert_eq!(evaluate(tokens, first), Ok(3));
    let tag = |op: Token, a: u64, b: u64| match op {
        Token::Multiply => a * 100 + b,
        _ => a * 10 + b,
    };
    let tokens = vec![
        Token::Number(1),
        Token::Minus,
        Token::Number(2),
        Token::Multiply,
        Token::Number(3),
    ];
    assert_eq!(evaluate(tokens, tag), Ok(1 * 10 + (2 * 100 + 3)));
}

#[test]
fn large_literals_overflow_to_infinity() {
    let digits = "9".repeat(400);
    assert_eq!(calc(&digits), Ok(f64::INFINITY));
    let result = calc(&format!("{} - {}", digits, digits));
    assert!(matches!(result, Ok(value) if value.is_nan()));
}
