use calcrs::ast::Ast;
use calcrs::lex::Lexer;
use calcrs::parser::Parser;
use calcrs::token::TokenType;

/// The value of a tree, by the rules of the calculator.
fn value(tree: &Ast) -> f64 {
    match tree {
        Ast::Integer { value, .. } => *value as f64,
        Ast::Float { token } => token.text.parse::<f64>().expect("a float literal"),
        Ast::UnaryOp { op, value: operand } => match op.token_type {
            TokenType::Plus => value(operand),
            TokenType::Minus => -value(operand),
            other => panic!("no prefix operator: {:?}", other),
        },
        Ast::BinOp { left, op, right } => {
            let (a, b) = (value(left), value(right));
            match op.token_type {
                TokenType::Plus => a + b,
                TokenType::Minus => a - b,
                TokenType::Mul => a * b,
                TokenType::Div => a / b,
                TokenType::IntDiv => (a / b).floor(),
                TokenType::Pow => a.powf(b),
                TokenType::Mod => a % b,
                other => panic!("no binary operator: {:?}", other),
            }
        }
    }
}

fn evaluate(line: &str) -> f64 {
    let mut parser = Parser::new(Lexer::new(line.to_string())).ok().expect("a first token");
    value(&parser.parse().ok().expect("an expression"))
}

#[test]
fn binary_operators_on_literals() {
    assert_eq!(evaluate("2 + 3"), 5.0);
    assert_eq!(evaluate("7 / 2"), 3.5);
    assert_eq!(evaluate("2 - 3"), -1.0);
    assert_eq!(evaluate("6 * 7"), 42.0);
    assert_eq!(evaluate("7 % 4"), 3.0);
    assert_eq!(evaluate("1.5 + 2.25"), 3.75);
    assert_eq!(evaluate("1e3 * 2"), 2000.0);
    assert_eq!(evaluate("2.5e-1 / 5"), 0.05);
}

#[test]
fn integer_division_floors() {
    assert_eq!(evaluate("7 // 2"), 3.0);
    assert_eq!(evaluate("-7 // 2"), -4.0);
    assert_eq!(evaluate("7 // -2"), -4.0);
    assert_eq!(evaluate("-7 // -2"), 3.0);
}

#[test]
fn subtraction_is_left_associative() {
    assert_eq!(evaluate("8 - 3 - 2"), 3.0);
}

#[test]
fn multiplication_before_addition() {
    assert_eq!(evaluate("2 + 3 * 4"), 14.0);
}

#[test]
fn parentheses_first() {
    assert_eq!(evaluate("(2 + 3) * 4"), 20.0);
}

#[test]
fn unary_chaining() {
    assert_eq!(evaluate("--5"), 5.0);
    assert_eq!(evaluate("-2 ** 2"), 4.0);
    assert_eq!(evaluate("+-+5"), -5.0);
}

#[test]
fn power_and_modulo_chain_from_the_left() {
    assert_eq!(evaluate("2 ** 3 ** 2"), 64.0);
    assert_eq!(evaluate("2 * 3 ** 2"), 36.0);
    assert_eq!(evaluate("-7 % 3"), -1.0);
    assert_eq!(evaluate("7 % -3"), 1.0);
    assert_eq!(evaluate("2 ** -1"), 0.5);
    assert_eq!(evaluate("4 ** 0.5"), 2.0);
}

#[test]
fn division_by_zero_is_not_an_error() {
    assert_eq!(evaluate("1 / 0"), f64::INFINITY);
    assert_eq!(evaluate("-1 / 0"), f64::NEG_INFINITY);
    assert!(evaluate("0 / 0").is_nan());
    assert!(evaluate("-8 ** 0.5").is_nan());
}

#[test]
fn every_float_literal_converts() {
    for text in ["1.", "1.5", "1e5", "1E+5", "2.5e-3", "1.e2", "0.0", "10e007"] {
        let expected: f64 = text.parse().unwrap();
        assert_eq!(evaluate(text), expected);
    }
    assert_eq!(evaluate("1.e2"), 100.0);
    assert_eq!(evaluate("12."), 12.0);
}
