use calcrs::ast::Ast;
use calcrs::lex::Lexer;
use calcrs::parser::{Parser, ParserError};
use calcrs::token::TokenType;

fn parse(line: &str) -> Result<Ast, ParserError> {
    Parser::new(Lexer::new(line.to_string()))?.parse()
}

/// The tree in prefix form, each operator with its offset.
fn show(tree: &Ast) -> String {
    match tree {
        Ast::Integer { token, value } => {
            assert_eq!(token.token_type, TokenType::Integer);
            assert_eq!(token.text.parse::<i64>().ok(), Some(*value));
            format!("{}", value)
        }
        Ast::Float { token } => {
            assert_eq!(token.token_type, TokenType::Float);
            format!("f{}", token.text)
        }
        Ast::UnaryOp { op, value } => format!("({}@{} {})", op.text, op.pos, show(value)),
        Ast::BinOp { left, op, right } => {
            format!("({}@{} {} {})", op.text, op.pos, show(left), show(right))
        }
    }
}

fn shape(line: &str) -> String {
    show(&parse(line).expect("the line should parse"))
}

fn failure(line: &str) -> (String, usize) {
    let error = parse(line).expect_err("the line should not parse");
    (error.why, error.pos)
}

#[test]
fn a_literal_is_a_leaf() {
    assert_eq!(shape("42"), "42");
    assert_eq!(shape("  007 "), "7");
    assert_eq!(shape("1.5"), "f1.5");
    assert_eq!(shape("2e10"), "f2e10");
}

#[test]
fn leaves_keep_their_tokens() {
    match parse(" 12 ").unwrap() {
        Ast::Integer { token, value } => {
            assert_eq!(value, 12);
            assert_eq!(token.text, "12");
            assert_eq!(token.pos, 1);
        }
        other => panic!("not an integer leaf: {:?}", other),
    }
    match parse("3.25").unwrap() {
        Ast::Float { token } => {
            assert_eq!(token.token_type, TokenType::Float);
            assert_eq!(token.text, "3.25");
            assert_eq!(token.pos, 0);
        }
        other => panic!("not a float leaf: {:?}", other),
    }
}

#[test]
fn each_binary_operator_builds_one_node() {
    assert_eq!(shape("2 + 3"), "(+@2 2 3)");
    assert_eq!(shape("2 - 3"), "(-@2 2 3)");
    assert_eq!(shape("2 * 3"), "(*@2 2 3)");
    assert_eq!(shape("7 / 2"), "(/@2 7 2)");
    assert_eq!(shape("7 % 2"), "(%@2 7 2)");
    assert_eq!(shape("7 // 2"), "(//@2 7 2)");
    assert_eq!(shape("7 ** 2"), "(**@2 7 2)");
}

#[test]
fn operator_nodes_keep_their_kind() {
    match parse("7 // 2").unwrap() {
        Ast::BinOp { op, .. } => {
            assert_eq!(op.token_type, TokenType::IntDiv);
            assert_eq!(op.text, "//");
            assert_eq!(op.pos, 2);
        }
        other => panic!("not a binary node: {:?}", other),
    }
    match parse("-7").unwrap() {
        Ast::UnaryOp { op, .. } => {
            assert_eq!(op.token_type, TokenType::Minus);
            assert_eq!(op.pos, 0);
        }
        other => panic!("not a unary node: {:?}", other),
    }
}

#[test]
fn subtraction_groups_from_the_left() {
    assert_eq!(shape("8 - 3 - 2"), "(-@6 (-@2 8 3) 2)");
    assert_eq!(shape("1 + 2 - 3 + 4"), "(+@10 (-@6 (+@2 1 2) 3) 4)");
}

#[test]
fn term_binds_tighter_than_expr() {
    assert_eq!(shape("2 + 3 * 4"), "(+@2 2 (*@6 3 4))");
    assert_eq!(shape("2 * 3 + 4"), "(+@6 (*@2 2 3) 4)");
    assert_eq!(shape("1 - 8 // 3 % 2"), "(-@2 1 (%@11 (//@6 8 3) 2))");
}

#[test]
fn term_operators_share_one_precedence_and_group_from_the_left() {
    assert_eq!(shape("2 * 3 ** 2"), "(**@6 (*@2 2 3) 2)");
    assert_eq!(shape("2 ** 3 ** 2"), "(**@7 (**@2 2 3) 2)");
    assert_eq!(shape("7 % 4 * 2 / 3 // 1"), "(//@14 (/@10 (*@6 (%@2 7 4) 2) 3) 1)");
}

#[test]
fn parentheses_override_grouping() {
    assert_eq!(shape("(2 + 3) * 4"), "(*@8 (+@3 2 3) 4)");
    assert_eq!(shape("8 - (3 - 2)"), "(-@2 8 (-@7 3 2))");
    assert_eq!(shape("((7))"), "7");
    assert_eq!(shape("2 ** (3 ** 2)"), "(**@2 2 (**@8 3 2))");
}

#[test]
fn prefix_signs_chain_and_bind_tightest() {
    assert_eq!(shape("--5"), "(-@0 (-@1 5))");
    assert_eq!(shape("+-+5"), "(+@0 (-@1 (+@2 5)))");
    assert_eq!(shape("-2 ** 2"), "(**@3 (-@0 2) 2)");
    assert_eq!(shape("2 - -3"), "(-@2 2 (-@4 3))");
    assert_eq!(shape("-(1 + 2)"), "(-@0 (+@4 1 2))");
    assert_eq!(shape("2 * -3 + 1"), "(+@7 (*@2 2 (-@4 3)) 1)");
}

#[test]
fn missing_operand_is_reported_at_the_end_of_input() {
    assert_eq!(failure("2 + "), ("Unexpected token type Eof".to_string(), 4));
    assert_eq!(failure(""), ("Unexpected token type Eof".to_string(), 0));
    assert_eq!(failure("2 *"), ("Unexpected token type Eof".to_string(), 3));
    assert_eq!(failure("-"), ("Unexpected token type Eof".to_string(), 1));
}

#[test]
fn an_operator_where_an_operand_is_due_is_unexpected() {
    assert_eq!(failure("2 + * 3"), ("Unexpected token type Mul".to_string(), 4));
    assert_eq!(failure(")"), ("Unexpected token type Rparen".to_string(), 0));
    assert_eq!(failure("// 2"), ("Unexpected token type IntDiv".to_string(), 0));
    assert_eq!(failure("2 ** % 2"), ("Unexpected token type Mod".to_string(), 5));
    assert_eq!(failure("()"), ("Unexpected token type Rparen".to_string(), 1));
}

#[test]
fn a_bad_character_is_reported_where_it_stands() {
    assert_eq!(
        failure("2 $ 3"),
        ("syntax error input - unexpected character '$' at 2".to_string(), 2)
    );
    assert_eq!(
        failure("2 + 3 x"),
        ("syntax error input - unexpected character 'x' at 6".to_string(), 6)
    );
    assert_eq!(
        failure("(1e+)"),
        ("syntax error input - unexpected character ')' at 4".to_string(), 4)
    );
}

#[test]
fn a_bad_first_token_fails_construction() {
    let error = Parser::new(Lexer::new("  $".to_string())).err().unwrap();
    assert_eq!(error.why, "syntax error input - unexpected character '$' at 2");
    assert_eq!(error.pos, 2);
    assert!(Parser::new(Lexer::new("2 $".to_string())).is_ok());
}

#[test]
fn a_missing_right_parenthesis_is_a_mismatch() {
    assert_eq!(
        failure("(2 + 3"),
        (
            "expected token type Rparen but received Token { token_type: Eof, text: \"\", pos: 6 }"
                .to_string(),
            6
        )
    );
    assert_eq!(
        failure("(2 3)"),
        (
            "expected token type Rparen but received Token { token_type: Integer, text: \"3\", pos: 3 }"
                .to_string(),
            3
        )
    );
    assert_eq!(
        failure("((1.5 ("),
        (
            "expected token type Rparen but received Token { token_type: Lparen, text: \"(\", pos: 6 }"
                .to_string(),
            6
        )
    );
}

#[test]
fn the_first_error_inside_parentheses_is_the_one_returned() {
    assert_eq!(failure("(2 + "), ("Unexpected token type Eof".to_string(), 5));
    assert_eq!(failure("(2 + *)"), ("Unexpected token type Mul".to_string(), 5));
    assert_eq!(
        failure("(2 + $"),
        ("syntax error input - unexpected character '$' at 5".to_string(), 5)
    );
}

#[test]
fn the_mismatch_message_writes_the_token_as_debug_does() {
    let mut lexer = Lexer::new("12.5e3".to_string());
    let token = lexer.next_token().unwrap();
    let (why, _) = failure("(1 12.5e3");
    let at_three = why.replace("pos: 3", "pos: 0");
    assert_eq!(
        at_three,
        format!("expected token type {:?} but received {:?}", TokenType::Rparen, token)
    );
}

#[test]
fn the_largest_integer_is_held() {
    assert_eq!(shape("9223372036854775807"), "9223372036854775807");
    assert_eq!(shape("0000009223372036854775807"), "9223372036854775807");
    assert_eq!(shape("-9223372036854775807"), "(-@0 9223372036854775807)");
}

#[test]
fn an_integer_too_large_is_an_error_at_the_literal() {
    assert_eq!(
        failure(" 9223372036854775808"),
        (
            "integer literal out of range in Token { token_type: Integer, text: \"9223372036854775808\", pos: 1 }"
                .to_string(),
            1
        )
    );
    assert_eq!(failure("1 + 99999999999999999999999999").1, 4);
}

#[test]
fn parsing_stops_where_the_expression_ends() {
    let mut parser = Parser::new(Lexer::new("2 3 + 4".to_string())).ok().unwrap();
    assert_eq!(show(&parser.parse().ok().unwrap()), "2");
    assert_eq!(show(&parser.parse().ok().unwrap()), "(+@4 3 4)");
    let error = parser.parse().err().unwrap();
    assert_eq!((error.why.as_str(), error.pos), ("Unexpected token type Eof", 7));
}

#[test]
fn a_right_parenthesis_too_many_is_left_unread() {
    let mut parser = Parser::new(Lexer::new("1 + 2)".to_string())).ok().unwrap();
    assert_eq!(show(&parser.parse().ok().unwrap()), "(+@2 1 2)");
    let error = parser.parse().err().unwrap();
    assert_eq!((error.why.as_str(), error.pos), ("Unexpected token type Rparen", 5));
}

#[test]
fn a_failed_parse_leaves_the_parser_usable() {
    let mut parser = Parser::new(Lexer::new("* 5".to_string())).ok().unwrap();
    let error = parser.parse().err().unwrap();
    assert_eq!((error.why.as_str(), error.pos), ("Unexpected token type Mul", 0));
    let again = parser.parse().err().unwrap();
    assert_eq!((again.why.as_str(), again.pos), ("Unexpected token type Mul", 0));
}

#[test]
fn deep_nesting_parses() {
    let depth = 200;
    let line = format!("{}1{}", "(".repeat(depth), ")".repeat(depth));
    assert_eq!(shape(&line), "1");
    let line = format!("{}1", "-".repeat(depth));
    assert!(shape(&line).ends_with(&format!("1{}", ")".repeat(depth))));
}

/// The tokens of the tree, a left operand before its operator and a right
/// operand behind it.
fn in_order(tree: &Ast, out: &mut Vec<(usize, String)>) {
    match tree {
        Ast::Integer { token, .. } | Ast::Float { token } => {
            out.push((token.pos, token.text.clone()))
        }
        Ast::UnaryOp { op, value } => {
            out.push((op.pos, op.text.clone()));
            in_order(value, out);
        }
        Ast::BinOp { left, op, right } => {
            in_order(left, out);
            out.push((op.pos, op.text.clone()));
            in_order(right, out);
        }
    }
}

#[test]
fn the_tree_holds_the_tokens_of_the_line_in_their_order() {
    let line = " -(12 + 3.5e2) ** 2 // (7 % -4) - +8 * ((9))";
    let mut tokens = Vec::new();
    in_order(&parse(line).unwrap(), &mut tokens);
    let expected: Vec<(usize, String)> = [
        (1, "-"),
        (3, "12"),
        (6, "+"),
        (8, "3.5e2"),
        (15, "**"),
        (18, "2"),
        (20, "//"),
        (24, "7"),
        (26, "%"),
        (28, "-"),
        (29, "4"),
        (32, "-"),
        (34, "+"),
        (35, "8"),
        (37, "*"),
        (41, "9"),
    ]
    .iter()
    .map(|(pos, text)| (*pos, text.to_string()))
    .collect();
    assert_eq!(tokens, expected);
    for (pos, text) in tokens {
        assert_eq!(&line[pos..pos + text.len()], text);
    }
}
