//! The lexer: reads one token at a time from a line of text.

use vstd::prelude::*;
use vstd::string::*;
use crate::chars::{char_at, is_digit, is_space};
use crate::decimal::push_decimal;
use crate::message::syntax_error_text;
use crate::scan::{
    digits_end, lemma_digits_end, lemma_token_at_advances, number_at, resume_at, spaces_end,
    token_at, SyntaxErrorView,
};
use crate::token::{Token, TokenType};

verus! {

/// A character that starts no token, and its offset in the line.
#[derive(Debug)]
pub struct SyntaxError {
    pub what: char,
    pub pos: usize,
}

impl View for SyntaxError {
    type V = SyntaxErrorView;

    open spec fn view(&self) -> SyntaxErrorView {
        SyntaxErrorView { what: self.what, pos: self.pos as int }
    }
}

impl SyntaxError {
    /// This error in words: the character and its offset.
    pub fn message(&self) -> (text: String)
        ensures
            text@ == syntax_error_text(self@),
    {
        proof {
            reveal(syntax_error_text);
        }
        let mut text = String::from_str("SyntaxError: found unexpected '");
        text.push(self.what);
        text.append("' at ");
        push_decimal(&mut text, self.pos);
        text
    }
}

/// The mathematical value of a [`Lexer`]: the line, and the offset of the
/// next character to read.
pub struct LexerView {
    pub text: Seq<char>,
    pub pos: int,
}

/// A lexer over one line of text. Offsets count characters.
#[derive(Debug)]
pub struct Lexer {
    text: String,
    len: usize,
    pos: usize,
}

impl View for Lexer {
    type V = LexerView;

    closed spec fn view(&self) -> LexerView {
        LexerView { text: self.text@, pos: self.pos as int }
    }
}

impl Lexer {
    #[verifier::type_invariant]
    spec fn in_range(&self) -> bool {
        self.len == self.text@.len() && self.pos <= self.len
    }

    /// A lexer at the start of `text`.
    pub fn new(text: String) -> (lexer: Lexer)
        ensures
            lexer@ == (LexerView { text: text@, pos: 0 }),
    {
        let len: usize = text.as_str().unicode_len();
        Lexer { text, len, pos: 0 }
    }

    /// Reads the next token: skips whitespace, then yields the end of input,
    /// a number, an operator or a parenthesis, or fails at a character that
    /// starts none of these. At the end of the line it yields the end of
    /// input again on every call, and never moves past the end.
    pub fn next_token(&mut self) -> (result: Result<Token, SyntaxError>)
        ensures
            final(self)@.text == old(self)@.text,
            final(self)@.pos == resume_at(old(self)@.text, old(self)@.pos),
            old(self)@.pos <= final(self)@.pos <= final(self)@.text.len(),
            match token_at(old(self)@.text, old(self)@.pos) {
                Ok(scan) => result matches Ok(token) && token@ == scan.token,
                Err(error) => result matches Err(found) && found@ == error,
            },
    {
        proof {
            use_type_invariant(&*self);
            lemma_token_at_advances(self@.text, self@.pos);
        }
        self.skip_ws();
        proof {
            use_type_invariant(&*self);
        }

        if self.pos >= self.len {
            return Ok(Token { token_type: TokenType::Eof, text: String::new(), pos: self.pos });
        }
        let next_char: char = self.get_char();

        if is_digit(next_char) {
            return self.get_number();
        }
        let start: usize = self.pos;
        let after: char = self.char_at(start + 1);

        if next_char == '*' && after == '*' {
            self.pos += 2;
            return Ok(
                Token { token_type: TokenType::Pow, text: self.text_since(start), pos: start },
            );
        }
        if next_char == '/' && after == '/' {
            self.pos += 2;
            return Ok(
                Token { token_type: TokenType::IntDiv, text: self.text_since(start), pos: start },
            );
        }
        let token_type: TokenType = match next_char {
            '+' => TokenType::Plus,
            '-' => TokenType::Minus,
            '*' => TokenType::Mul,
            '/' => TokenType::Div,
            '%' => TokenType::Mod,
            '(' => TokenType::Lparen,
            ')' => TokenType::Rparen,
            _ => {
                return Err(SyntaxError { what: next_char, pos: start });
            },
        };

        self.pos += 1;
        Ok(Token { token_type, text: self.text_since(start), pos: start })
    }

    /// Reads the number that starts at the current offset.
    fn get_number(&mut self) -> (result: Result<Token, SyntaxError>)
        ensures
            final(self)@.text == old(self)@.text,
            match number_at(old(self)@.text, old(self)@.pos) {
                Ok(scan) => {
                    &&& result matches Ok(token)
                    &&& token@ == scan.token
                    &&& final(self)@.pos == scan.next
                },
                Err(error) => {
                    &&& result matches Err(found)
                    &&& found@ == error
                    &&& final(self)@.pos == error.pos
                },
            },
    {
        let start: usize = self.pos;
        let mut token_type: TokenType = TokenType::Integer;
        proof {
            use_type_invariant(&*self);
            lemma_digits_end(self@.text, self@.pos);
        }
        self.skip_digits();

        if self.get_char() == '.' {
            proof {
                use_type_invariant(&*self);
                lemma_digits_end(self@.text, self@.pos + 1);
            }
            self.pos += 1;
            self.skip_digits();
            token_type = TokenType::Float;
        }
        let marker: char = self.get_char();

        if marker == 'e' || marker == 'E' {
            proof {
                use_type_invariant(&*self);
            }
            self.pos += 1;
            let sign: char = self.get_char();

            if sign == '+' || sign == '-' {
                self.pos += 1;
            }
            let next: char = self.get_char();

            if !is_digit(next) {
                return Err(SyntaxError { what: next, pos: self.pos });
            }
            proof {
                lemma_digits_end(self@.text, self@.pos);
            }
            self.skip_digits();
            token_type = TokenType::Float;
        }
        Ok(Token { token_type, text: self.text_since(start), pos: start })
    }

    /// The character at offset `at`, or NUL past the end of the line.
    fn char_at(&self, at: usize) -> (c: char)
        ensures
            c == char_at(self@.text, at as int),
    {
        proof {
            use_type_invariant(self);
        }
        if at < self.len {
            self.text.as_str().get_char(at)
        } else {
            '\0'
        }
    }

    /// The character at the current offset, or NUL at the end of the line.
    fn get_char(&self) -> (c: char)
        ensures
            c == char_at(self@.text, self@.pos),
    {
        self.char_at(self.pos)
    }

    /// The characters from offset `start` up to the current offset.
    fn text_since(&self, start: usize) -> (text: String)
        requires
            start <= self@.pos,
        ensures
            text@ == self@.text.subrange(start as int, self@.pos),
    {
        proof {
            use_type_invariant(self);
        }
        self.text.as_str().substring_char(start, self.pos).to_owned()
    }

    /// Moves past any whitespace at the current offset.
    fn skip_ws(&mut self)
        ensures
            final(self)@.text == old(self)@.text,
            final(self)@.pos == spaces_end(old(self)@.text, old(self)@.pos),
    {
        proof {
            use_type_invariant(&*self);
        }
        while is_space(self.get_char())
            invariant
                self.text == old(self).text,
                self.len == self.text@.len(),
                old(self).pos <= self.pos <= self.len,
                spaces_end(self.text@, self.pos as int) == spaces_end(
                    self.text@,
                    old(self).pos as int,
                ),
            decreases self.len - self.pos,
        {
            self.pos += 1;
        }
    }

    /// Moves past any digits at the current offset.
    fn skip_digits(&mut self)
        ensures
            final(self)@.text == old(self)@.text,
            final(self)@.pos == digits_end(old(self)@.text, old(self)@.pos),
    {
        proof {
            use_type_invariant(&*self);
        }
        while is_digit(self.get_char())
            invariant
                self.text == old(self).text,
                self.len == self.text@.len(),
                old(self).pos <= self.pos <= self.len,
                digits_end(self.text@, self.pos as int) == digits_end(
                    self.text@,
                    old(self).pos as int,
                ),
            decreases self.len - self.pos,
        {
            self.pos += 1;
        }
    }
}

} // verus!
