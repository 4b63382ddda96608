//! The wording of diagnostics. The texts are opaque to proofs that do not ask
//! for them: `reveal` one to reason about what it says.

use vstd::prelude::*;
use vstd::string::*;
use crate::decimal::{decimal_text, push_decimal};
use crate::scan::SyntaxErrorView;
use crate::token::{Token, TokenType, TokenView};

verus! {

/// The name of a token kind.
pub open spec fn kind_name(kind: TokenType) -> Seq<char> {
    match kind {
        TokenType::Eof => "Eof"@,
        TokenType::Integer => "Integer"@,
        TokenType::Float => "Float"@,
        TokenType::Plus => "Plus"@,
        TokenType::Minus => "Minus"@,
        TokenType::Mul => "Mul"@,
        TokenType::Div => "Div"@,
        TokenType::IntDiv => "IntDiv"@,
        TokenType::Pow => "Pow"@,
        TokenType::Mod => "Mod"@,
        TokenType::Lparen => "Lparen"@,
        TokenType::Rparen => "Rparen"@,
    }
}

/// A token written out with its three fields, the text between double quotes.
#[verifier::opaque]
pub open spec fn token_text(token: TokenView) -> Seq<char> {
    "Token { token_type: "@ + kind_name(token.token_type) + ", text: \""@ + token.text
        + "\", pos: "@ + decimal_text(token.pos as nat) + " }"@
}

/// What is said when a token of kind `expect` was due and `received` stood
/// there.
#[verifier::opaque]
pub open spec fn mismatch_text(expect: TokenType, received: TokenView) -> Seq<char> {
    "expected token type "@ + kind_name(expect) + " but received "@ + token_text(received)
}

/// What is said when a token of kind `kind` starts no operand.
#[verifier::opaque]
pub open spec fn unexpected_text(kind: TokenType) -> Seq<char> {
    "Unexpected token type "@ + kind_name(kind)
}

/// What is said when a number was due and `received` stood there.
#[verifier::opaque]
pub open spec fn not_numeric_text(received: TokenView) -> Seq<char> {
    "expected numeric token type but received "@ + token_text(received)
}

/// What is said when an integer literal is too large to hold.
#[verifier::opaque]
pub open spec fn out_of_range_text(received: TokenView) -> Seq<char> {
    "integer literal out of range in "@ + token_text(received)
}

/// What the parser says of a lexical error.
#[verifier::opaque]
pub open spec fn bad_character_text(error: SyntaxErrorView) -> Seq<char> {
    "syntax error input - unexpected character '"@.push(error.what) + "' at "@ + decimal_text(
        error.pos as nat,
    )
}

/// What a lexical error says of itself.
#[verifier::opaque]
pub open spec fn syntax_error_text(error: SyntaxErrorView) -> Seq<char> {
    "SyntaxError: found unexpected '"@.push(error.what) + "' at "@ + decimal_text(
        error.pos as nat,
    )
}

/// The name of a token kind.
pub fn kind_str(kind: TokenType) -> (name: &'static str)
    ensures
        name@ == kind_name(kind),
{
    match kind {
        TokenType::Eof => "Eof",
        TokenType::Integer => "Integer",
        TokenType::Float => "Float",
        TokenType::Plus => "Plus",
        TokenType::Minus => "Minus",
        TokenType::Mul => "Mul",
        TokenType::Div => "Div",
        TokenType::IntDiv => "IntDiv",
        TokenType::Pow => "Pow",
        TokenType::Mod => "Mod",
        TokenType::Lparen => "Lparen",
        TokenType::Rparen => "Rparen",
    }
}

/// Appends `token`, written out with its three fields, to `out`.
pub fn push_token(out: &mut String, token: &Token)
    ensures
        final(out)@ == old(out)@ + token_text(token@),
{
    out.append("Token { token_type: ");
    out.append(kind_str(token.token_type));
    out.append(", text: \"");
    out.append(token.text.as_str());
    out.append("\", pos: ");
    push_decimal(out, token.pos);
    out.append(" }");
    proof {
        reveal(token_text);
    }
    assert(out@ =~= old(out)@ + token_text(token@));
}

/// The message for a token of another kind than `expect`.
pub fn mismatch(expect: TokenType, received: &Token) -> (why: String)
    ensures
        why@ == mismatch_text(expect, received@),
{
    proof {
        reveal(mismatch_text);
    }
    let mut why = String::from_str("expected token type ");
    why.append(kind_str(expect));
    why.append(" but received ");
    push_token(&mut why, received);
    why
}

/// The message for a token of kind `kind` that starts no operand.
pub fn unexpected(kind: TokenType) -> (why: String)
    ensures
        why@ == unexpected_text(kind),
{
    proof {
        reveal(unexpected_text);
    }
    let mut why = String::from_str("Unexpected token type ");
    why.append(kind_str(kind));
    why
}

/// The message for a token that is no number.
pub fn not_numeric(received: &Token) -> (why: String)
    ensures
        why@ == not_numeric_text(received@),
{
    proof {
        reveal(not_numeric_text);
    }
    let mut why = String::from_str("expected numeric token type but received ");
    push_token(&mut why, received);
    why
}

/// The message for an integer literal that is too large to hold.
pub fn out_of_range(received: &Token) -> (why: String)
    ensures
        why@ == out_of_range_text(received@),
{
    proof {
        reveal(out_of_range_text);
    }
    let mut why = String::from_str("integer literal out of range in ");
    push_token(&mut why, received);
    why
}

/// The parser's message for the character `what` at offset `pos`.
pub fn bad_character(what: char, pos: usize) -> (why: String)
    ensures
        why@ == bad_character_text(SyntaxErrorView { what, pos: pos as int }),
{
    proof {
        reveal(bad_character_text);
    }
    let mut why = String::from_str("syntax error input - unexpected character '");
    why.push(what);
    why.append("' at ");
    push_decimal(&mut why, pos);
    why
}

} // verus!
