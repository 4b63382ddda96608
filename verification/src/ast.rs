//! The expression tree.

use vstd::prelude::*;
use crate::decimal::integer_value;
use crate::scan::is_token_of;
use crate::token::{Token, TokenType, TokenView};

verus! {

/// A node of the expression tree. Each node owns its children, and keeps the
/// token it was built from. A float literal is kept as its token: the text
/// is the value.
#[derive(Debug)]
#[allow(inconsistent_fields)]
pub enum Ast {
    Integer { token: Token, value: i64 },
    Float { token: Token },
    UnaryOp { op: Token, value: Box<Ast> },
    BinOp { left: Box<Ast>, op: Token, right: Box<Ast> },
}

/// The mathematical value of an [`Ast`].
#[allow(inconsistent_fields)]
pub enum AstView {
    Integer { token: TokenView, value: i64 },
    Float { token: TokenView },
    UnaryOp { op: TokenView, value: Box<AstView> },
    BinOp { left: Box<AstView>, op: TokenView, right: Box<AstView> },
}

impl Ast {
    /// The tree as a mathematical value, node by node.
    pub open spec fn tree(&self) -> AstView
        decreases self,
    {
        match self {
            Ast::Integer { token, value } => AstView::Integer { token: token@, value: *value },
            Ast::Float { token } => AstView::Float { token: token@ },
            Ast::UnaryOp { op, value } => AstView::UnaryOp {
                op: op@,
                value: Box::new(value.tree()),
            },
            Ast::BinOp { left, op, right } => AstView::BinOp {
                left: Box::new(left.tree()),
                op: op@,
                right: Box::new(right.tree()),
            },
        }
    }
}

impl AstView {
    /// Whether each node holds what its position allows: an integer leaf an
    /// integer token and the value of its digits, a float leaf a float token,
    /// a unary node a sign, a binary node a binary operator.
    pub open spec fn well_formed(self) -> bool
        decreases self,
    {
        match self {
            AstView::Integer { token, value } => {
                &&& token.token_type == TokenType::Integer
                &&& integer_value(token.text) == Some(value)
            },
            AstView::Float { token } => token.token_type == TokenType::Float,
            AstView::UnaryOp { op, value } => op.token_type.is_sign() && value.well_formed(),
            AstView::BinOp { left, op, right } => {
                &&& op.token_type.is_binary_op()
                &&& left.well_formed()
                &&& right.well_formed()
            },
        }
    }
}

impl AstView {
    /// Whether every token in the tree is a token of `text`, at the offset
    /// that it names.
    pub open spec fn drawn_from(self, text: Seq<char>) -> bool
        decreases self,
    {
        match self {
            AstView::Integer { token, value } => is_token_of(text, token),
            AstView::Float { token } => is_token_of(text, token),
            AstView::UnaryOp { op, value } => is_token_of(text, op) && value.drawn_from(text),
            AstView::BinOp { left, op, right } => {
                &&& is_token_of(text, op)
                &&& left.drawn_from(text)
                &&& right.drawn_from(text)
            },
        }
    }
}

impl AstView {
    /// Whether the tokens of the tree stand as they stand in the line, at
    /// offsets from `lo` up to `hi`: a leaf lies between the two, all of a
    /// left operand lies before its operator, and all of a right operand or
    /// of the operand of a sign lies behind its operator.
    pub open spec fn ordered_within(self, lo: int, hi: int) -> bool
        decreases self,
    {
        match self {
            AstView::Integer { token, value } => lo <= token.pos < hi,
            AstView::Float { token } => lo <= token.pos < hi,
            AstView::UnaryOp { op, value } => {
                &&& lo <= op.pos
                &&& value.ordered_within(op.pos + 1, hi)
            },
            AstView::BinOp { left, op, right } => {
                &&& left.ordered_within(lo, op.pos)
                &&& right.ordered_within(op.pos + 1, hi)
            },
        }
    }

    /// A tree that lies in order between two offsets has room between them,
    /// and lies in order between any two that are further apart.
    pub proof fn lemma_ordered_within_widens(self, lo: int, hi: int, lower: int, higher: int)
        requires
            self.ordered_within(lo, hi),
            lower <= lo,
            hi <= higher,
        ensures
            lo < hi,
            self.ordered_within(lower, higher),
        decreases self,
    {
        match self {
            AstView::Integer { token, value } => {},
            AstView::Float { token } => {},
            AstView::UnaryOp { op, value } => {
                value.lemma_ordered_within_widens(op.pos + 1, hi, op.pos + 1, higher);
            },
            AstView::BinOp { left, op, right } => {
                left.lemma_ordered_within_widens(lo, op.pos, lower, op.pos);
                right.lemma_ordered_within_widens(op.pos + 1, hi, op.pos + 1, higher);
            },
        }
    }
}

impl View for Ast {
    type V = AstView;

    open spec fn view(&self) -> AstView {
        self.tree()
    }
}

} // verus!
