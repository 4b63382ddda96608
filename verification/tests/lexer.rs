use calcrs::lex::{Lexer, SyntaxError};
use calcrs::token::{Token, TokenType};

fn tokens(line: &str) -> Vec<(TokenType, String, usize)> {
    let mut lexer = Lexer::new(line.to_string());
    let mut seen = Vec::new();
    loop {
        let token = lexer.next_token().expect("the line should lex");
        let done = token.token_type == TokenType::Eof;
        seen.push((token.token_type, token.text, token.pos));
        if done {
            return seen;
        }
    }
}

fn first(line: &str) -> Result<Token, SyntaxError> {
    Lexer::new(line.to_string()).next_token()
}

fn entry(kind: TokenType, text: &str, pos: usize) -> (TokenType, String, usize) {
    (kind, text.to_string(), pos)
}

#[test]
fn lexes_a_single_integer() {
    assert_eq!(
        tokens("42"),
        vec![entry(TokenType::Integer, "42", 0), entry(TokenType::Eof, "", 2)]
    );
}

#[test]
fn digit_runs_lex_as_one_integer_with_nothing_left() {
    for digits in ["0", "7", "007", "1234567890", "99999999999999999999999999"] {
        assert_eq!(
            tokens(digits),
            vec![
                entry(TokenType::Integer, digits, 0),
                entry(TokenType::Eof, "", digits.len())
            ]
        );
    }
}

#[test]
fn empty_line_is_end_of_input() {
    assert_eq!(tokens(""), vec![entry(TokenType::Eof, "", 0)]);
}

#[test]
fn blank_line_is_end_of_input_at_its_end() {
    assert_eq!(tokens(" \t\r\n\x0C "), vec![entry(TokenType::Eof, "", 6)]);
}

#[test]
fn end_of_input_repeats_without_moving() {
    let mut lexer = Lexer::new("1 ".to_string());
    assert_eq!(lexer.next_token().unwrap().token_type, TokenType::Integer);
    for _ in 0..5 {
        let end = lexer.next_token().unwrap();
        assert_eq!(end.token_type, TokenType::Eof);
        assert_eq!(end.text, "");
        assert_eq!(end.pos, 2);
    }
}

#[test]
fn single_character_symbols() {
    assert_eq!(
        tokens("+-*/%()"),
        vec![
            entry(TokenType::Plus, "+", 0),
            entry(TokenType::Minus, "-", 1),
            entry(TokenType::Mul, "*", 2),
            entry(TokenType::Div, "/", 3),
            entry(TokenType::Mod, "%", 4),
            entry(TokenType::Lparen, "(", 5),
            entry(TokenType::Rparen, ")", 6),
            entry(TokenType::Eof, "", 7),
        ]
    );
}

#[test]
fn two_character_operators_start_where_they_stand() {
    assert_eq!(
        tokens("2 ** 3 // 4"),
        vec![
            entry(TokenType::Integer, "2", 0),
            entry(TokenType::Pow, "**", 2),
            entry(TokenType::Integer, "3", 5),
            entry(TokenType::IntDiv, "//", 7),
            entry(TokenType::Integer, "4", 10),
            entry(TokenType::Eof, "", 11),
        ]
    );
}

#[test]
fn longest_operator_is_taken_first() {
    assert_eq!(
        tokens("***"),
        vec![
            entry(TokenType::Pow, "**", 0),
            entry(TokenType::Mul, "*", 2),
            entry(TokenType::Eof, "", 3)
        ]
    );
    assert_eq!(
        tokens("///"),
        vec![
            entry(TokenType::IntDiv, "//", 0),
            entry(TokenType::Div, "/", 2),
            entry(TokenType::Eof, "", 3)
        ]
    );
    assert_eq!(
        tokens("* *"),
        vec![
            entry(TokenType::Mul, "*", 0),
            entry(TokenType::Mul, "*", 2),
            entry(TokenType::Eof, "", 3)
        ]
    );
}

#[test]
fn whitespace_between_tokens_is_skipped() {
    assert_eq!(
        tokens("  12\t+\n 3 "),
        vec![
            entry(TokenType::Integer, "12", 2),
            entry(TokenType::Plus, "+", 5),
            entry(TokenType::Integer, "3", 8),
            entry(TokenType::Eof, "", 10),
        ]
    );
}

#[test]
fn a_point_makes_a_float() {
    assert_eq!(
        tokens("1.5"),
        vec![entry(TokenType::Float, "1.5", 0), entry(TokenType::Eof, "", 3)]
    );
    assert_eq!(
        tokens("12."),
        vec![entry(TokenType::Float, "12.", 0), entry(TokenType::Eof, "", 3)]
    );
    assert_eq!(
        tokens("1.+2"),
        vec![
            entry(TokenType::Float, "1.", 0),
            entry(TokenType::Plus, "+", 2),
            entry(TokenType::Integer, "2", 3),
            entry(TokenType::Eof, "", 4)
        ]
    );
}

#[test]
fn an_exponent_makes_a_float() {
    for text in ["1e5", "1E5", "1e+5", "1E-5", "2.5e-3", "1.e2", "10e007"] {
        assert_eq!(
            tokens(text),
            vec![
                entry(TokenType::Float, text, 0),
                entry(TokenType::Eof, "", text.len())
            ]
        );
    }
}

#[test]
fn a_number_ends_at_a_second_point() {
    assert_eq!(first("1.2.3").unwrap().text, "1.2");
    let mut lexer = Lexer::new("1.2.3".to_string());
    lexer.next_token().unwrap();
    let error = lexer.next_token().unwrap_err();
    assert_eq!((error.what, error.pos), ('.', 3));
}

#[test]
fn an_exponent_needs_a_digit() {
    let error = first("1e").unwrap_err();
    assert_eq!((error.what, error.pos), ('\0', 2));
    let error = first("1e+").unwrap_err();
    assert_eq!((error.what, error.pos), ('\0', 3));
    let error = first(" 1.5ex").unwrap_err();
    assert_eq!((error.what, error.pos), ('x', 5));
    let error = first("1e-)").unwrap_err();
    assert_eq!((error.what, error.pos), (')', 3));
    let error = first("2E+-1").unwrap_err();
    assert_eq!((error.what, error.pos), ('-', 3));
}

#[test]
fn scanning_resumes_where_an_exponent_failed() {
    let mut lexer = Lexer::new("1e-)".to_string());
    assert!(lexer.next_token().is_err());
    let next = lexer.next_token().unwrap();
    assert_eq!((next.token_type, next.pos), (TokenType::Rparen, 3));
}

#[test]
fn a_character_that_starts_no_token_is_an_error() {
    let mut lexer = Lexer::new("2 $ 3".to_string());
    let two = lexer.next_token().unwrap();
    assert_eq!((two.token_type, two.text.as_str(), two.pos), (TokenType::Integer, "2", 0));
    let error = lexer.next_token().unwrap_err();
    assert_eq!((error.what, error.pos), ('$', 2));
    let again = lexer.next_token().unwrap_err();
    assert_eq!((again.what, again.pos), ('$', 2));
}

#[test]
fn letters_and_a_lone_point_are_errors() {
    let error = first("x").unwrap_err();
    assert_eq!((error.what, error.pos), ('x', 0));
    let error = first("  .5").unwrap_err();
    assert_eq!((error.what, error.pos), ('.', 2));
    let error = first("e5").unwrap_err();
    assert_eq!((error.what, error.pos), ('e', 0));
}

#[test]
fn offsets_count_characters() {
    let mut lexer = Lexer::new("12 \u{e9} 3".to_string());
    assert_eq!(lexer.next_token().unwrap().text, "12");
    let error = lexer.next_token().unwrap_err();
    assert_eq!((error.what, error.pos), ('\u{e9}', 3));

    let error = first("\u{4e16}+").unwrap_err();
    assert_eq!((error.what, error.pos), ('\u{4e16}', 0));
    let error = first("*\u{e9}").map(|token| (token.token_type, token.text));
    assert_eq!(error.unwrap(), (TokenType::Mul, "*".to_string()));
}

#[test]
fn non_breaking_space_is_no_whitespace() {
    let error = first("\u{a0}1").unwrap_err();
    assert_eq!((error.what, error.pos), ('\u{a0}', 0));
    let error = first("\u{b}1").unwrap_err();
    assert_eq!((error.what, error.pos), ('\u{b}', 0));
}

#[test]
fn a_nul_in_the_line_is_an_error_not_the_end() {
    let error = first("\0").unwrap_err();
    assert_eq!((error.what, error.pos), ('\0', 0));
    assert_eq!(first("1\0").unwrap().token_type, TokenType::Integer);
}

#[test]
fn lexing_a_token_text_again_gives_the_same_kind() {
    let line = "12 + 3.5e-2 ** ( 7 // 2. ) % 1E9 - 4 * 5 / 6";
    for (kind, text, _) in tokens(line) {
        let again = first(&text).unwrap();
        assert_eq!(again.token_type, kind);
        assert_eq!(again.text, text);
        assert_eq!(again.pos, 0);
        let mut lexer = Lexer::new(text.clone());
        lexer.next_token().unwrap();
        assert_eq!(lexer.next_token().unwrap().token_type, TokenType::Eof);
    }
}

#[test]
fn syntax_error_message() {
    let error = SyntaxError { what: '$', pos: 2 };
    assert_eq!(error.message(), "SyntaxError: found unexpected '$' at 2");
    let error = SyntaxError { what: '\u{e9}', pos: 1234567890 };
    assert_eq!(error.message(), "SyntaxError: found unexpected '\u{e9}' at 1234567890");
    let error = SyntaxError { what: 'x', pos: 0 };
    assert_eq!(error.message(), "SyntaxError: found unexpected 'x' at 0");
}
