//! What the lexer reads, stated over the text as a sequence of characters:
//! where a run of spaces or digits ends, and which token starts at an offset.

use vstd::prelude::*;
use crate::chars::{all_digits, char_at, is_digit, is_space};
use crate::token::{TokenType, TokenView};

verus! {

/// The mathematical value of a lexical error: the character that starts no
/// token, and its offset.
pub struct SyntaxErrorView {
    pub what: char,
    pub pos: int,
}

/// One scanned token and the offset at which scanning resumes.
pub struct Scan {
    pub token: TokenView,
    pub next: int,
}

/// The first offset at or after `from` that holds no whitespace.
pub open spec fn spaces_end(text: Seq<char>, from: int) -> int
    decreases text.len() - from,
{
    if 0 <= from < text.len() && is_space(text[from]) {
        spaces_end(text, from + 1)
    } else {
        from
    }
}

/// The first offset at or after `from` that holds no digit.
pub open spec fn digits_end(text: Seq<char>, from: int) -> int
    decreases text.len() - from,
{
    if 0 <= from < text.len() && is_digit(text[from]) {
        digits_end(text, from + 1)
    } else {
        from
    }
}

/// The token of kind `token_type` that spans the offsets from `start` up to
/// `end`.
pub open spec fn span(text: Seq<char>, token_type: TokenType, start: int, end: int) -> Scan {
    Scan { token: TokenView { token_type, text: text.subrange(start, end), pos: start }, next: end }
}

/// The numeric literal whose first digit stands at `start`: digits, then
/// optionally a point and digits, then optionally an exponent marker, a sign
/// and at least one digit. A point or an exponent makes it a float. An
/// exponent without a digit is an error at the character where the digit was
/// due.
pub open spec fn number_at(text: Seq<char>, start: int) -> Result<Scan, SyntaxErrorView> {
    let whole = digits_end(text, start);
    let fraction = if char_at(text, whole) == '.' {
        digits_end(text, whole + 1)
    } else {
        whole
    };
    if char_at(text, fraction) == 'e' || char_at(text, fraction) == 'E' {
        let sign = char_at(text, fraction + 1);
        let exponent = if sign == '+' || sign == '-' {
            fraction + 2
        } else {
            fraction + 1
        };
        if is_digit(char_at(text, exponent)) {
            Ok(span(text, TokenType::Float, start, digits_end(text, exponent)))
        } else {
            Err(SyntaxErrorView { what: char_at(text, exponent), pos: exponent })
        }
    } else if fraction > whole {
        Ok(span(text, TokenType::Float, start, fraction))
    } else {
        Ok(span(text, TokenType::Integer, start, whole))
    }
}

/// The kind of the token that is the single character `c`.
pub open spec fn symbol_kind(c: char) -> Option<TokenType> {
    if c == '+' {
        Some(TokenType::Plus)
    } else if c == '-' {
        Some(TokenType::Minus)
    } else if c == '*' {
        Some(TokenType::Mul)
    } else if c == '/' {
        Some(TokenType::Div)
    } else if c == '%' {
        Some(TokenType::Mod)
    } else if c == '(' {
        Some(TokenType::Lparen)
    } else if c == ')' {
        Some(TokenType::Rparen)
    } else {
        None
    }
}

/// The token that scanning from `from` yields: after any whitespace, the end
/// of input, a number, one of the two-character operators, a one-character
/// symbol, or else an error at the character that starts none of these.
pub open spec fn token_at(text: Seq<char>, from: int) -> Result<Scan, SyntaxErrorView> {
    let start = spaces_end(text, from);
    let c = char_at(text, start);
    if start >= text.len() {
        Ok(
            Scan {
                token: TokenView { token_type: TokenType::Eof, text: Seq::empty(), pos: start },
                next: start,
            },
        )
    } else if is_digit(c) {
        number_at(text, start)
    } else if c == '*' && char_at(text, start + 1) == '*' {
        Ok(span(text, TokenType::Pow, start, start + 2))
    } else if c == '/' && char_at(text, start + 1) == '/' {
        Ok(span(text, TokenType::IntDiv, start, start + 2))
    } else {
        match symbol_kind(c) {
            Some(token_type) => Ok(span(text, token_type, start, start + 1)),
            None => Err(SyntaxErrorView { what: c, pos: start }),
        }
    }
}

/// Where scanning stands after `token_at`: behind the token, or at the
/// character that the error names.
pub open spec fn resume_at(text: Seq<char>, from: int) -> int {
    match token_at(text, from) {
        Ok(scan) => scan.next,
        Err(error) => error.pos,
    }
}

/// A run of spaces ends between `from` and the end of the text, holds only
/// spaces, and is followed by none.
pub proof fn lemma_spaces_end(text: Seq<char>, from: int)
    requires
        0 <= from <= text.len(),
    ensures
        from <= spaces_end(text, from) <= text.len(),
        forall|i: int| from <= i < spaces_end(text, from) ==> is_space(#[trigger] text[i]),
        !is_space(char_at(text, spaces_end(text, from))),
    decreases text.len() - from,
{
    if from < text.len() && is_space(text[from]) {
        lemma_spaces_end(text, from + 1);
    }
}

/// A run of digits ends between `from` and the end of the text, holds only
/// digits, and is followed by none.
pub proof fn lemma_digits_end(text: Seq<char>, from: int)
    requires
        0 <= from <= text.len(),
    ensures
        from <= digits_end(text, from) <= text.len(),
        forall|i: int| from <= i < digits_end(text, from) ==> is_digit(#[trigger] text[i]),
        !is_digit(char_at(text, digits_end(text, from))),
    decreases text.len() - from,
{
    if from < text.len() && is_digit(text[from]) {
        lemma_digits_end(text, from + 1);
    }
}

/// Scanning never moves backwards nor past the end of the text. A token
/// starts behind the whitespace that was skipped, its text is exactly the
/// characters from there to where scanning resumes, and only the end of
/// input is empty. An error names the character at its offset.
pub proof fn lemma_token_at_advances(text: Seq<char>, from: int)
    requires
        0 <= from <= text.len(),
    ensures
        from <= resume_at(text, from) <= text.len(),
        match token_at(text, from) {
            Ok(scan) => {
                &&& from <= scan.token.pos <= scan.next
                &&& scan.token.pos == spaces_end(text, from)
                &&& scan.token.text =~= text.subrange(scan.token.pos, scan.next)
                &&& scan.token.token_type != TokenType::Eof ==> scan.token.pos < scan.next
                &&& scan.token.token_type == TokenType::Eof ==> scan.next == text.len()
            },
            Err(error) => error.what == char_at(text, error.pos),
        },
{
    lemma_spaces_end(text, from);
    let start = spaces_end(text, from);
    if start < text.len() && is_digit(text[start]) {
        let whole = digits_end(text, start);
        lemma_digits_end(text, start);
        if char_at(text, whole) == '.' {
            lemma_digits_end(text, whole + 1);
        }
        let fraction = if char_at(text, whole) == '.' {
            digits_end(text, whole + 1)
        } else {
            whole
        };
        if char_at(text, fraction) == 'e' || char_at(text, fraction) == 'E' {
            let sign = char_at(text, fraction + 1);
            let exponent = if sign == '+' || sign == '-' {
                fraction + 2
            } else {
                fraction + 1
            };
            if is_digit(char_at(text, exponent)) {
                lemma_digits_end(text, exponent);
            }
        }
    }
}

/// Whether `token` is a token of `text`: scanning from the offset that the
/// token names yields that very token.
pub open spec fn is_token_of(text: Seq<char>, token: TokenView) -> bool {
    token_at(text, token.pos) matches Ok(scan) && scan.token == token
}

/// A token that scanning yields is a token of the text: it starts at the
/// offset that it names, behind the whitespace that was skipped.
pub proof fn lemma_token_at_yields_token_of(text: Seq<char>, from: int)
    ensures
        token_at(text, from) matches Ok(scan) ==> {
            &&& token_at(text, scan.token.pos) == token_at(text, from)
            &&& is_token_of(text, scan.token)
        },
{
    if 0 <= from <= text.len() {
        lemma_spaces_end(text, from);
        lemma_token_at_advances(text, from);
    }
}

/// From any offset whatever, in the text or not, scanning does not move
/// backwards; a token other than the end of input ends behind the offset,
/// and the end of input is found at or behind the end of the text.
pub proof fn lemma_token_at_moves_on(text: Seq<char>, from: int)
    ensures
        from <= resume_at(text, from),
        match token_at(text, from) {
            Ok(scan) => {
                &&& scan.token.token_type != TokenType::Eof ==> from < scan.next
                &&& scan.token.token_type == TokenType::Eof ==> text.len() <= scan.next
            },
            Err(error) => true,
        },
{
    if 0 <= from <= text.len() {
        lemma_token_at_advances(text, from);
    }
}

/// The token at the very start of `text`, where it is of kind `token_type`
/// and takes up the whole of `text`.
pub open spec fn whole_token(text: Seq<char>, token_type: TokenType) -> Scan {
    Scan { token: TokenView { token_type, text, pos: 0 }, next: text.len() as int }
}

/// A non-empty run of digits lexes as exactly one integer literal whose text
/// is the whole run, and nothing is left behind it but the end of input.
pub proof fn lemma_digits_lex_as_one_integer(digits: Seq<char>)
    requires
        digits.len() > 0,
        all_digits(digits),
    ensures
        token_at(digits, 0) == Ok::<Scan, SyntaxErrorView>(
            whole_token(digits, TokenType::Integer),
        ),
        token_at(digits, digits.len() as int) matches Ok(end) && end.token.token_type
            == TokenType::Eof && end.next == digits.len(),
{
    lemma_digits_end(digits, 0);
    assert(is_digit(digits[0]));
    assert(digits.subrange(0, digits.len() as int) =~= digits);
}

/// Once the end of input has been found, every later call finds it again, at
/// the same offset and without moving.
pub proof fn lemma_end_of_input_repeats(text: Seq<char>, from: int)
    ensures
        token_at(text, from) matches Ok(end) ==> (end.token.token_type == TokenType::Eof ==> {
            &&& end.token.pos == end.next
            &&& token_at(text, end.next) == token_at(text, from)
        }),
{
    lemma_token_at_moves_on(text, from);
    if 0 <= from <= text.len() {
        lemma_token_at_advances(text, from);
    }
}

/// A run of digits inside a piece of the text ends where it ends in the
/// text, as long as that is inside the piece.
pub proof fn lemma_digits_end_in_piece(text: Seq<char>, start: int, end: int, from: int)
    requires
        0 <= start <= from <= end <= text.len(),
        digits_end(text, from) <= end,
    ensures
        digits_end(text.subrange(start, end), from - start) == digits_end(text, from) - start,
    decreases end - from,
{
    let piece = text.subrange(start, end);
    lemma_digits_end(text, from);
    if from < end {
        assert(piece[from - start] == text[from]);
        if is_digit(text[from]) {
            lemma_digits_end_in_piece(text, start, end, from + 1);
        }
    }
}

/// A character inside a piece of the text is the character of the text,
/// and the piece ends where NUL is read.
pub proof fn lemma_char_in_piece(text: Seq<char>, start: int, end: int, at: int)
    requires
        0 <= start <= at <= end <= text.len(),
    ensures
        at < end ==> char_at(text.subrange(start, end), at - start) == char_at(text, at),
        at == end ==> char_at(text.subrange(start, end), at - start) == '\0',
{
}

/// Scanning the text of a number again, on its own, yields a number of the
/// same kind, with the same text.
pub proof fn lemma_number_text_lexes_alike(text: Seq<char>, start: int)
    requires
        0 <= start <= text.len(),
    ensures
        number_at(text, start) matches Ok(scan) ==> number_at(scan.token.text, 0) == Ok::<
            Scan,
            SyntaxErrorView,
        >(whole_token(scan.token.text, scan.token.token_type)),
{
    if let Ok(scan) = number_at(text, start) {
        let end = scan.next;
        let piece = text.subrange(start, end);
        lemma_digits_end(text, start);
        let whole = digits_end(text, start);
        let pointed = char_at(text, whole) == '.';
        if pointed {
            lemma_digits_end(text, whole + 1);
        }
        let fraction = if pointed {
            digits_end(text, whole + 1)
        } else {
            whole
        };
        let scientific = char_at(text, fraction) == 'e' || char_at(text, fraction) == 'E';
        let sign = char_at(text, fraction + 1);
        let signed = sign == '+' || sign == '-';
        let exponent = if signed {
            fraction + 2
        } else {
            fraction + 1
        };
        if scientific {
            lemma_digits_end(text, exponent);
            assert(end == digits_end(text, exponent));
            assert(exponent < end);
        } else {
            assert(end == fraction);
        }
        assert(start <= whole <= fraction <= end <= text.len());
        assert(piece.len() == end - start);
        assert(piece.subrange(0, piece.len() as int) =~= piece);

        lemma_digits_end_in_piece(text, start, end, start);
        assert(digits_end(piece, 0) == whole - start);
        lemma_char_in_piece(text, start, end, whole);
        if pointed {
            lemma_digits_end_in_piece(text, start, end, whole + 1);
            assert(digits_end(piece, whole - start + 1) == fraction - start);
        }
        lemma_char_in_piece(text, start, end, fraction);
        if scientific {
            lemma_char_in_piece(text, start, end, fraction + 1);
            lemma_char_in_piece(text, start, end, exponent);
            lemma_digits_end_in_piece(text, start, end, exponent);
            assert(digits_end(piece, exponent - start) == end - start);
        }
    }
}

/// Lexing the text of a token again, on its own, yields a token of the same
/// kind, with the same text.
pub proof fn lemma_token_text_lexes_alike(text: Seq<char>, from: int)
    requires
        0 <= from <= text.len(),
    ensures
        token_at(text, from) matches Ok(scan) ==> token_at(scan.token.text, 0) == Ok::<
            Scan,
            SyntaxErrorView,
        >(whole_token(scan.token.text, scan.token.token_type)),
{
    lemma_token_at_advances(text, from);
    if let Ok(scan) = token_at(text, from) {
        let start = scan.token.pos;
        let end = scan.next;
        let piece = scan.token.text;
        if scan.token.token_type != TokenType::Eof {
            assert(piece =~= text.subrange(start, end));
            assert(piece.subrange(0, piece.len() as int) =~= piece);
            assert(piece[0] == text[start]);
            lemma_char_in_piece(text, start, end, start + 1);
            if is_digit(text[start]) {
                lemma_number_text_lexes_alike(text, start);
            }
        }
    }
}

} // verus!
