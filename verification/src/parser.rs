//! The parser: builds the expression tree of a line by recursive descent.

use vstd::prelude::*;
use crate::ast::{Ast, AstView};
use crate::decimal::parse_integer;
use crate::grammar::{
    eat, error_at, expr, expr_tail, faithful, genuine, lemma_eat_consumes, lemma_expr_faithful,
    lemma_expr_well_formed, lemma_term_orderly, lemma_unary_orderly, lexical, number, remaining,
    term, term_tail, unary, Cursor, ParserErrorView,
};
use crate::lex::{Lexer, SyntaxError};
use crate::message::{
    bad_character, mismatch, not_numeric, out_of_range, unexpected, unexpected_text,
};
use crate::scan::{lemma_token_at_advances, lemma_token_at_yields_token_of, token_at};
use crate::token::{Token, TokenType, TokenView};

verus! {

/// Why a line could not be parsed, and the offset in the line where that
/// showed.
#[derive(Debug)]
pub struct ParserError {
    pub why: String,
    pub pos: usize,
}

impl View for ParserError {
    type V = ParserErrorView;

    open spec fn view(&self) -> ParserErrorView {
        ParserErrorView { why: self.why@, pos: self.pos as int }
    }
}

/// The mathematical value of a [`Parser`]: the line, and where it stands in
/// it.
pub struct ParserView {
    pub text: Seq<char>,
    pub cursor: Cursor,
}

/// A parser over one line, which looks one token ahead.
pub struct Parser {
    lexer: Lexer,
    current_token: Token,
}

impl View for Parser {
    type V = ParserView;

    closed spec fn view(&self) -> ParserView {
        ParserView {
            text: self.lexer@.text,
            cursor: Cursor { current: self.current_token@, pos: self.lexer@.pos },
        }
    }
}

/// The mathematical value of what a rule returned.
pub open spec fn tree_outcome(result: Result<Ast, ParserError>) -> Result<
    AstView,
    ParserErrorView,
> {
    match result {
        Ok(tree) => Ok(tree@),
        Err(error) => Err(error@),
    }
}

/// The mathematical value of what `eat` returned.
pub open spec fn token_outcome(result: Result<Token, ParserError>) -> Result<
    TokenView,
    ParserErrorView,
> {
    match result {
        Ok(token) => Ok(token@),
        Err(error) => Err(error@),
    }
}

impl Parser {
    /// A parser at the first token of the lexer's line. Fails where that
    /// token cannot be read.
    pub fn new(lexer: Lexer) -> (result: Result<Parser, ParserError>)
        ensures
            match token_at(lexer@.text, lexer@.pos) {
                Ok(scan) => {
                    &&& result matches Ok(parser)
                    &&& parser@.text == lexer@.text
                    &&& parser@.cursor == (Cursor { current: scan.token, pos: scan.next })
                    &&& genuine(parser@.text, parser@.cursor)
                },
                Err(error) => result matches Err(found) && found@ == lexical(error),
            },
    {
        let mut lexer = lexer;
        let ghost from = lexer@.pos;
        let drawn = lexer.next_token();
        proof {
            lemma_token_at_advances(lexer@.text, from);
            lemma_token_at_yields_token_of(lexer@.text, from);
        }
        match drawn {
            Ok(current_token) => Ok(Parser { lexer, current_token }),
            Err(syntax_err) => Err(Parser::syntax_to_parser_err(syntax_err)),
        }
    }

    /// Parses the rest of the line as far as one expression reaches, and
    /// returns its tree, or the first error met. The tree is that of the
    /// grammar's `expr`, and the parser is left where that rule ends. Every
    /// node of the tree holds a token of a kind that its position allows.
    /// A parser made by `new` stands at a place in its line and stays at
    /// one, and then every token in the tree is a token of the line and
    /// stands in the tree as it stands in the line.
    pub fn parse(&mut self) -> (result: Result<Ast, ParserError>)
        ensures
            final(self)@.text == old(self)@.text,
            final(self)@.cursor == expr(old(self)@.text, old(self)@.cursor).rest,
            tree_outcome(result) == expr(old(self)@.text, old(self)@.cursor).result,
            result matches Ok(tree) ==> tree@.well_formed(),
            genuine(old(self)@.text, old(self)@.cursor) ==> faithful(
                old(self)@.text,
                old(self)@.cursor,
                tree_outcome(result),
                final(self)@.cursor,
            ),
    {
        proof {
            lemma_expr_well_formed(self@.text, self@.cursor);
            if genuine(self@.text, self@.cursor) {
                lemma_expr_faithful(self@.text, self@.cursor);
            }
        }
        self.expr()
    }

    /// `expr := term ( (PLUS|MINUS) term )*`
    fn expr(&mut self) -> (result: Result<Ast, ParserError>)
        ensures
            final(self)@.text == old(self)@.text,
            final(self)@.cursor == expr(old(self)@.text, old(self)@.cursor).rest,
            tree_outcome(result) == expr(old(self)@.text, old(self)@.cursor).result,
        decreases remaining(old(self)@.text, old(self)@.cursor), 2nat,
    {
        let ghost text = self@.text;
        let ghost start = self@.cursor;
        proof {
            lemma_term_orderly(text, start);
        }
        let mut tree = match self.term() {
            Ok(tree) => tree,
            Err(error) => {
                return Err(error);
            },
        };

        while self.current_token.token_type.is_sign()
            invariant
                text == old(self)@.text,
                start == old(self)@.cursor,
                self@.text == text,
                remaining(text, self@.cursor) <= remaining(text, start),
                expr(text, start) == expr_tail(text, tree@, self@.cursor),
            decreases remaining(text, self@.cursor),
        {
            let ghost here = self@.cursor;
            let kind: TokenType = self.current_token.token_type;
            proof {
                lemma_eat_consumes(text, here, kind);
            }
            let op = match self.eat(kind) {
                Ok(op) => op,
                Err(error) => {
                    return Err(error);
                },
            };
            proof {
                lemma_term_orderly(text, self@.cursor);
            }
            let right = match self.term() {
                Ok(right) => right,
                Err(error) => {
                    return Err(error);
                },
            };

            tree = Ast::BinOp { left: Box::new(tree), op, right: Box::new(right) };
        }

        Ok(tree)
    }

    /// `term := unary ( (MUL|DIV|INTDIV|POW|MOD) unary )*`
    fn term(&mut self) -> (result: Result<Ast, ParserError>)
        ensures
            final(self)@.text == old(self)@.text,
            final(self)@.cursor == term(old(self)@.text, old(self)@.cursor).rest,
            tree_outcome(result) == term(old(self)@.text, old(self)@.cursor).result,
        decreases remaining(old(self)@.text, old(self)@.cursor), 1nat,
    {
        let ghost text = self@.text;
        let ghost start = self@.cursor;
        proof {
            lemma_unary_orderly(text, start);
        }
        let mut tree = match self.unary() {
            Ok(tree) => tree,
            Err(error) => {
                return Err(error);
            },
        };

        while self.current_token.token_type.is_factor_op()
            invariant
                text == old(self)@.text,
                start == old(self)@.cursor,
                self@.text == text,
                remaining(text, self@.cursor) <= remaining(text, start),
                term(text, start) == term_tail(text, tree@, self@.cursor),
            decreases remaining(text, self@.cursor),
        {
            let ghost here = self@.cursor;
            let kind: TokenType = self.current_token.token_type;
            proof {
                lemma_eat_consumes(text, here, kind);
            }
            let op = match self.eat(kind) {
                Ok(op) => op,
                Err(error) => {
                    return Err(error);
                },
            };
            proof {
                lemma_unary_orderly(text, self@.cursor);
            }
            let right = match self.unary() {
                Ok(right) => right,
                Err(error) => {
                    return Err(error);
                },
            };

            tree = Ast::BinOp { left: Box::new(tree), op, right: Box::new(right) };
        }

        Ok(tree)
    }

    /// `unary := (PLUS|MINUS) unary | LPAREN expr RPAREN | number`
    fn unary(&mut self) -> (result: Result<Ast, ParserError>)
        ensures
            final(self)@.text == old(self)@.text,
            final(self)@.cursor == unary(old(self)@.text, old(self)@.cursor).rest,
            tree_outcome(result) == unary(old(self)@.text, old(self)@.cursor).result,
        decreases remaining(old(self)@.text, old(self)@.cursor), 0nat,
    {
        let kind: TokenType = self.current_token.token_type;
        proof {
            lemma_eat_consumes(self@.text, self@.cursor, kind);
        }

        if kind.is_sign() {
            let op = match self.eat(kind) {
                Ok(op) => op,
                Err(error) => {
                    return Err(error);
                },
            };
            let value = match self.unary() {
                Ok(value) => value,
                Err(error) => {
                    return Err(error);
                },
            };

            return Ok(Ast::UnaryOp { op, value: Box::new(value) });
        }
        if kind == TokenType::Lparen {
            match self.eat(TokenType::Lparen) {
                Ok(_) => {},
                Err(error) => {
                    return Err(error);
                },
            }
            let tree = match self.expr() {
                Ok(tree) => tree,
                Err(error) => {
                    return Err(error);
                },
            };

            return match self.eat(TokenType::Rparen) {
                Ok(_) => Ok(tree),
                Err(error) => Err(error),
            };
        }
        if kind.is_number() {
            return self.number();
        }
        self.unexpected_token()
    }

    /// `number := INTEGER | FLOAT`
    fn number(&mut self) -> (result: Result<Ast, ParserError>)
        ensures
            final(self)@.text == old(self)@.text,
            final(self)@.cursor == number(old(self)@.text, old(self)@.cursor).rest,
            tree_outcome(result) == number(old(self)@.text, old(self)@.cursor).result,
    {
        match self.current_token.token_type {
            TokenType::Integer => {
                let token = match self.eat(TokenType::Integer) {
                    Ok(token) => token,
                    Err(error) => {
                        return Err(error);
                    },
                };

                match parse_integer(token.text.as_str()) {
                    Some(value) => Ok(Ast::Integer { token, value }),
                    None => Err(ParserError { why: out_of_range(&token), pos: token.pos }),
                }
            },
            TokenType::Float => {
                let token = match self.eat(TokenType::Float) {
                    Ok(token) => token,
                    Err(error) => {
                        return Err(error);
                    },
                };

                Ok(Ast::Float { token })
            },
            _ => {
                let why = not_numeric(&self.current_token);

                Err(ParserError { why, pos: self.current_token.pos })
            },
        }
    }

    /// The error for a current token that starts no operand.
    fn unexpected_token(&mut self) -> (result: Result<Ast, ParserError>)
        ensures
            *final(self) == *old(self),
            result matches Err(error) && error@ == error_at(
                unexpected_text(old(self)@.cursor.current.token_type),
                old(self)@.cursor.current,
            ),
    {
        let why = unexpected(self.current_token.token_type);

        Err(ParserError { why, pos: self.current_token.pos })
    }

    /// Takes the current token, which must be of kind `expect`, and reads
    /// the one after it.
    fn eat(&mut self, expect: TokenType) -> (result: Result<Token, ParserError>)
        ensures
            final(self)@.text == old(self)@.text,
            final(self)@.cursor == eat(old(self)@.text, old(self)@.cursor, expect).rest,
            token_outcome(result) == eat(old(self)@.text, old(self)@.cursor, expect).result,
    {
        if self.current_token.token_type == expect {
            return match self.lexer.next_token() {
                Ok(token) => {
                    let mut token = token;
                    std::mem::swap(&mut self.current_token, &mut token);
                    Ok(token)
                },
                Err(syntax_err) => Err(Parser::syntax_to_parser_err(syntax_err)),
            };
        }
        let why = mismatch(expect, &self.current_token);

        Err(ParserError { why, pos: self.current_token.pos })
    }

    /// A lexical error as the parser reports it.
    fn syntax_to_parser_err(syntax_err: SyntaxError) -> (error: ParserError)
        ensures
            error@ == lexical(syntax_err@),
    {
        let why = bad_character(syntax_err.what, syntax_err.pos);

        ParserError { why, pos: syntax_err.pos }
    }
}

} // verus!
