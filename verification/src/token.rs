//! Tokens: the atomic lexical units of an expression.

use vstd::prelude::*;

verus! {

/// The closed set of token kinds.
#[derive(Clone, Copy, Debug, PartialEq, Eq, Structural)]
pub enum TokenType {
    Eof,
    Integer,
    Float,
    Plus,
    Minus,
    Mul,
    Div,
    IntDiv,
    Pow,
    Mod,
    Lparen,
    Rparen,
}

/// A token: its kind, the exact characters it was read from, and the offset
/// of its first character in the line.
#[derive(Clone, Debug)]
pub struct Token {
    pub token_type: TokenType,
    pub text: String,
    pub pos: usize,
}

/// The mathematical value of a [`Token`].
pub struct TokenView {
    pub token_type: TokenType,
    pub text: Seq<char>,
    pub pos: int,
}

impl View for Token {
    type V = TokenView;

    open spec fn view(&self) -> TokenView {
        TokenView { token_type: self.token_type, text: self.text@, pos: self.pos as int }
    }
}

impl TokenType {
    /// The kinds that may stand as a prefix sign, and that `expr` chains on.
    /// Written `is_sign()` in contracts.
    pub open spec fn spec_is_sign(self) -> bool {
        self == TokenType::Plus || self == TokenType::Minus
    }

    /// The kinds that `term` chains on. Written `is_factor_op()` in
    /// contracts.
    pub open spec fn spec_is_factor_op(self) -> bool {
        self == TokenType::Mul || self == TokenType::Div || self == TokenType::IntDiv
            || self == TokenType::Pow || self == TokenType::Mod
    }

    /// The kinds of the two numeric literals. Written `is_number()` in
    /// contracts.
    pub open spec fn spec_is_number(self) -> bool {
        self == TokenType::Integer || self == TokenType::Float
    }

    /// The kinds that may stand between the two operands of a binary node.
    pub open spec fn is_binary_op(self) -> bool {
        self.is_sign() || self.is_factor_op()
    }

    /// Whether this kind is `Plus` or `Minus`.
    #[verifier::when_used_as_spec(spec_is_sign)]
    pub fn is_sign(self) -> (b: bool)
        ensures
            b == self.spec_is_sign(),
    {
        match self {
            TokenType::Plus | TokenType::Minus => true,
            _ => false,
        }
    }

    /// Whether this kind is one of `Mul`, `Div`, `IntDiv`, `Pow`, `Mod`.
    #[verifier::when_used_as_spec(spec_is_factor_op)]
    pub fn is_factor_op(self) -> (b: bool)
        ensures
            b == self.spec_is_factor_op(),
    {
        match self {
            TokenType::Mul
            | TokenType::Div
            | TokenType::IntDiv
            | TokenType::Pow
            | TokenType::Mod => true,
            _ => false,
        }
    }

    /// Whether this kind is `Integer` or `Float`.
    #[verifier::when_used_as_spec(spec_is_number)]
    pub fn is_number(self) -> (b: bool)
        ensures
            b == self.spec_is_number(),
    {
        match self {
            TokenType::Integer | TokenType::Float => true,
            _ => false,
        }
    }
}

} // verus!
