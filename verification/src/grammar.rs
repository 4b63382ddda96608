//! What the parser builds, stated over the text:
//!
//! ```text
//! expr   := term ( (PLUS|MINUS) term )*
//! term   := unary ( (MUL|DIV|INTDIV|POW|MOD) unary )*
//! unary  := (PLUS|MINUS) unary | LPAREN expr RPAREN | number
//! number := INTEGER | FLOAT
//! ```
//!
//! All the operators of `term` have one precedence and group from the left,
//! as those of `expr` do, and a prefix sign binds tighter than any of them.

use vstd::prelude::*;
use crate::ast::AstView;
use crate::decimal::integer_value;
use crate::message::{
    bad_character_text, mismatch_text, not_numeric_text, out_of_range_text, unexpected_text,
};
use crate::scan::{
    is_token_of, lemma_token_at_advances, lemma_token_at_moves_on, lemma_token_at_yields_token_of,
    token_at, Scan, SyntaxErrorView,
};
use crate::token::{TokenType, TokenView};

verus! {

/// The mathematical value of a parse error: what went wrong, and the offset
/// in the line where it did.
pub struct ParserErrorView {
    pub why: Seq<char>,
    pub pos: int,
}

/// Where a parser stands: the token it looks at, and the offset from which
/// the token after that one will be read.
pub struct Cursor {
    pub current: TokenView,
    pub pos: int,
}

/// What one grammar rule yields, and where it leaves the parser.
pub struct Step<T> {
    pub result: Result<T, ParserErrorView>,
    pub rest: Cursor,
}

/// A rule that has built `value`.
pub open spec fn done<T>(value: T, rest: Cursor) -> Step<T> {
    Step { result: Ok(value), rest }
}

/// A rule that has failed with `error`.
pub open spec fn failed<T>(error: ParserErrorView, rest: Cursor) -> Step<T> {
    Step { result: Err(error), rest }
}

/// A lexical error as the parser reports it, at the same offset.
pub open spec fn lexical(error: SyntaxErrorView) -> ParserErrorView {
    ParserErrorView { why: bad_character_text(error), pos: error.pos }
}

/// A parse error at the token `at`.
pub open spec fn error_at(why: Seq<char>, at: TokenView) -> ParserErrorView {
    ParserErrorView { why, pos: at.pos }
}

/// How much is left to read at `cursor`: the characters not yet scanned, and
/// the current token unless it is the end of input.
pub open spec fn remaining(text: Seq<char>, cursor: Cursor) -> nat {
    let unread: nat = if cursor.pos < text.len() {
        (text.len() - cursor.pos) as nat
    } else {
        0
    };
    if cursor.current.token_type == TokenType::Eof {
        unread
    } else {
        unread + 1
    }
}

/// Whether going from `from` to `to` has used up input. It holds of every
/// rule that succeeds; the rules that repeat ask for it so that they are seen
/// to end.
pub open spec fn consumed(text: Seq<char>, from: Cursor, to: Cursor) -> bool {
    remaining(text, to) < remaining(text, from)
}

/// Takes the current token, which must be of kind `expect`, and reads the
/// one after it. A token of another kind is an error at that token and
/// leaves the parser where it is; a lexical error is reported at its own
/// offset and leaves the current token in place.
pub open spec fn eat(text: Seq<char>, cursor: Cursor, expect: TokenType) -> Step<TokenView> {
    if cursor.current.token_type != expect {
        failed(error_at(mismatch_text(expect, cursor.current), cursor.current), cursor)
    } else {
        match token_at(text, cursor.pos) {
            Ok(scan) => done(cursor.current, Cursor { current: scan.token, pos: scan.next }),
            Err(error) => failed(
                lexical(error),
                Cursor { current: cursor.current, pos: error.pos },
            ),
        }
    }
}

/// The leaf for the literal `token`: a float, or an integer with the value
/// of its digits, or an error at the token where that value cannot be held.
pub open spec fn literal(token: TokenView) -> Result<AstView, ParserErrorView> {
    if token.token_type == TokenType::Float {
        Ok(AstView::Float { token })
    } else {
        match integer_value(token.text) {
            Some(value) => Ok(AstView::Integer { token, value }),
            None => Err(error_at(out_of_range_text(token), token)),
        }
    }
}

/// `number := INTEGER | FLOAT`
pub open spec fn number(text: Seq<char>, cursor: Cursor) -> Step<AstView> {
    let kind = cursor.current.token_type;
    if kind.is_number() {
        let taken = eat(text, cursor, kind);
        match taken.result {
            Ok(token) => Step { result: literal(token), rest: taken.rest },
            Err(error) => failed(error, taken.rest),
        }
    } else {
        failed(error_at(not_numeric_text(cursor.current), cursor.current), cursor)
    }
}

/// Eating a token that is not the end of input uses up input, and a failed
/// attempt does not give any back.
pub proof fn lemma_eat_consumes(text: Seq<char>, cursor: Cursor, expect: TokenType)
    ensures
        remaining(text, eat(text, cursor, expect).rest) <= remaining(text, cursor),
        eat(text, cursor, expect).result is Ok && expect != TokenType::Eof ==> consumed(
            text,
            cursor,
            eat(text, cursor, expect).rest,
        ),
{
    lemma_token_at_moves_on(text, cursor.pos);
}

/// `unary := (PLUS|MINUS) unary | LPAREN expr RPAREN | number`
pub open spec fn unary(text: Seq<char>, cursor: Cursor) -> Step<AstView>
    decreases remaining(text, cursor), 0nat,
{
    let kind = cursor.current.token_type;
    if kind.is_sign() {
        let sign = eat(text, cursor, kind);
        match sign.result {
            Ok(op) => {
                proof {
                    lemma_eat_consumes(text, cursor, kind);
                }
                let operand = unary(text, sign.rest);
                match operand.result {
                    Ok(value) => done(
                        AstView::UnaryOp { op, value: Box::new(value) },
                        operand.rest,
                    ),
                    Err(error) => failed(error, operand.rest),
                }
            },
            Err(error) => failed(error, sign.rest),
        }
    } else if kind == TokenType::Lparen {
        let open = eat(text, cursor, TokenType::Lparen);
        match open.result {
            Ok(_) => {
                proof {
                    lemma_eat_consumes(text, cursor, kind);
                }
                let inner = expr(text, open.rest);
                match inner.result {
                    Ok(tree) => {
                        let close = eat(text, inner.rest, TokenType::Rparen);
                        match close.result {
                            Ok(_) => done(tree, close.rest),
                            Err(error) => failed(error, close.rest),
                        }
                    },
                    Err(error) => failed(error, inner.rest),
                }
            },
            Err(error) => failed(error, open.rest),
        }
    } else if kind.is_number() {
        number(text, cursor)
    } else {
        failed(error_at(unexpected_text(kind), cursor.current), cursor)
    }
}

/// `term := unary ( (MUL|DIV|INTDIV|POW|MOD) unary )*`
pub open spec fn term(text: Seq<char>, cursor: Cursor) -> Step<AstView>
    decreases remaining(text, cursor), 1nat,
{
    let first = unary(text, cursor);
    match first.result {
        Ok(tree) if consumed(text, cursor, first.rest) => term_tail(text, tree, first.rest),
        _ => first,
    }
}

/// The rest of a `term` whose operands so far make up `left`: while an
/// operator of `term` follows, it and the operand behind it are folded onto
/// `left` from the left.
pub open spec fn term_tail(text: Seq<char>, left: AstView, cursor: Cursor) -> Step<AstView>
    decreases remaining(text, cursor), 0nat,
{
    let kind = cursor.current.token_type;
    if kind.is_factor_op() {
        let taken = eat(text, cursor, kind);
        match taken.result {
            Ok(op) => {
                proof {
                    lemma_eat_consumes(text, cursor, kind);
                }
                let operand = unary(text, taken.rest);
                match operand.result {
                    Ok(right) if consumed(text, cursor, operand.rest) => term_tail(
                        text,
                        AstView::BinOp { left: Box::new(left), op, right: Box::new(right) },
                        operand.rest,
                    ),
                    _ => operand,
                }
            },
            Err(error) => failed(error, taken.rest),
        }
    } else {
        done(left, cursor)
    }
}

/// `expr := term ( (PLUS|MINUS) term )*`
pub open spec fn expr(text: Seq<char>, cursor: Cursor) -> Step<AstView>
    decreases remaining(text, cursor), 2nat,
{
    let first = term(text, cursor);
    match first.result {
        Ok(tree) if consumed(text, cursor, first.rest) => expr_tail(text, tree, first.rest),
        _ => first,
    }
}

/// The rest of an `expr` whose terms so far make up `left`: while a sign
/// follows, it and the term behind it are folded onto `left` from the left.
pub open spec fn expr_tail(text: Seq<char>, left: AstView, cursor: Cursor) -> Step<AstView>
    decreases remaining(text, cursor), 0nat,
{
    let kind = cursor.current.token_type;
    if kind.is_sign() {
        let taken = eat(text, cursor, kind);
        match taken.result {
            Ok(op) => {
                proof {
                    lemma_eat_consumes(text, cursor, kind);
                }
                let operand = term(text, taken.rest);
                match operand.result {
                    Ok(right) if consumed(text, cursor, operand.rest) => expr_tail(
                        text,
                        AstView::BinOp { left: Box::new(left), op, right: Box::new(right) },
                        operand.rest,
                    ),
                    _ => operand,
                }
            },
            Err(error) => failed(error, taken.rest),
        }
    } else {
        done(left, cursor)
    }
}

/// Whether a step from `from` is in order: it gives no input back, and has
/// used some up where it succeeded.
pub open spec fn orderly<T>(text: Seq<char>, from: Cursor, step: Step<T>) -> bool {
    &&& remaining(text, step.rest) <= remaining(text, from)
    &&& step.result is Ok ==> consumed(text, from, step.rest)
}

/// `number` gives no input back, and a number takes some.
pub proof fn lemma_number_orderly(text: Seq<char>, cursor: Cursor)
    ensures
        orderly(text, cursor, number(text, cursor)),
{
    lemma_eat_consumes(text, cursor, cursor.current.token_type);
}

/// `unary` gives no input back, and an operand takes some.
pub proof fn lemma_unary_orderly(text: Seq<char>, cursor: Cursor)
    ensures
        orderly(text, cursor, unary(text, cursor)),
    decreases remaining(text, cursor), 0nat,
{
    let kind = cursor.current.token_type;
    lemma_eat_consumes(text, cursor, kind);
    if kind.is_sign() {
        let sign = eat(text, cursor, kind);
        if sign.result is Ok {
            lemma_unary_orderly(text, sign.rest);
        }
    } else if kind == TokenType::Lparen {
        let open = eat(text, cursor, kind);
        if open.result is Ok {
            lemma_expr_orderly(text, open.rest);
            let inner = expr(text, open.rest);
            if inner.result is Ok {
                lemma_eat_consumes(text, inner.rest, TokenType::Rparen);
            }
        }
    } else if kind.is_number() {
        lemma_number_orderly(text, cursor);
    }
}

/// `term` gives no input back, and a term takes some.
pub proof fn lemma_term_orderly(text: Seq<char>, cursor: Cursor)
    ensures
        orderly(text, cursor, term(text, cursor)),
    decreases remaining(text, cursor), 1nat,
{
    lemma_unary_orderly(text, cursor);
    let first = unary(text, cursor);
    if let Ok(tree) = first.result {
        lemma_term_tail_orderly(text, tree, first.rest);
    }
}

/// The rest of a `term` gives no input back.
pub proof fn lemma_term_tail_orderly(text: Seq<char>, left: AstView, cursor: Cursor)
    ensures
        remaining(text, term_tail(text, left, cursor).rest) <= remaining(text, cursor),
    decreases remaining(text, cursor), 0nat,
{
    let kind = cursor.current.token_type;
    if kind.is_factor_op() {
        lemma_eat_consumes(text, cursor, kind);
        let taken = eat(text, cursor, kind);
        if let Ok(op) = taken.result {
            lemma_unary_orderly(text, taken.rest);
            let operand = unary(text, taken.rest);
            if let Ok(right) = operand.result {
                lemma_term_tail_orderly(
                    text,
                    AstView::BinOp { left: Box::new(left), op, right: Box::new(right) },
                    operand.rest,
                );
            }
        }
    }
}

/// `expr` gives no input back, and an expression takes some.
pub proof fn lemma_expr_orderly(text: Seq<char>, cursor: Cursor)
    ensures
        orderly(text, cursor, expr(text, cursor)),
    decreases remaining(text, cursor), 2nat,
{
    lemma_term_orderly(text, cursor);
    let first = term(text, cursor);
    if let Ok(tree) = first.result {
        lemma_expr_tail_orderly(text, tree, first.rest);
    }
}

/// The rest of an `expr` gives no input back.
pub proof fn lemma_expr_tail_orderly(text: Seq<char>, left: AstView, cursor: Cursor)
    ensures
        remaining(text, expr_tail(text, left, cursor).rest) <= remaining(text, cursor),
    decreases remaining(text, cursor), 0nat,
{
    let kind = cursor.current.token_type;
    if kind.is_sign() {
        lemma_eat_consumes(text, cursor, kind);
        let taken = eat(text, cursor, kind);
        if let Ok(op) = taken.result {
            lemma_term_orderly(text, taken.rest);
            let operand = term(text, taken.rest);
            if let Ok(right) = operand.result {
                lemma_expr_tail_orderly(
                    text,
                    AstView::BinOp { left: Box::new(left), op, right: Box::new(right) },
                    operand.rest,
                );
            }
        }
    }
}

/// A `term` is its first operand and then the rest: the rule always has
/// used up input where the rest begins.
pub proof fn lemma_term_unfolds(text: Seq<char>, cursor: Cursor)
    ensures
        term(text, cursor) == match unary(text, cursor).result {
            Ok(tree) => term_tail(text, tree, unary(text, cursor).rest),
            Err(error) => unary(text, cursor),
        },
{
    lemma_unary_orderly(text, cursor);
}

/// The rest of a `term` folds one operator and one operand onto what is
/// there, and goes on behind them.
pub proof fn lemma_term_tail_unfolds(text: Seq<char>, left: AstView, cursor: Cursor)
    requires
        cursor.current.token_type.is_factor_op(),
    ensures
        term_tail(text, left, cursor) == match eat(
            text,
            cursor,
            cursor.current.token_type,
        ).result {
            Ok(op) => {
                let operand = unary(text, eat(text, cursor, cursor.current.token_type).rest);
                match operand.result {
                    Ok(right) => term_tail(
                        text,
                        AstView::BinOp { left: Box::new(left), op, right: Box::new(right) },
                        operand.rest,
                    ),
                    Err(error) => operand,
                }
            },
            Err(error) => failed(error, eat(text, cursor, cursor.current.token_type).rest),
        },
{
    let kind = cursor.current.token_type;
    lemma_eat_consumes(text, cursor, kind);
    lemma_unary_orderly(text, eat(text, cursor, kind).rest);
}

/// An `expr` is its first term and then the rest.
pub proof fn lemma_expr_unfolds(text: Seq<char>, cursor: Cursor)
    ensures
        expr(text, cursor) == match term(text, cursor).result {
            Ok(tree) => expr_tail(text, tree, term(text, cursor).rest),
            Err(error) => term(text, cursor),
        },
{
    lemma_term_orderly(text, cursor);
}

/// The rest of an `expr` folds one sign and one term onto what is there, and
/// goes on behind them.
pub proof fn lemma_expr_tail_unfolds(text: Seq<char>, left: AstView, cursor: Cursor)
    requires
        cursor.current.token_type.is_sign(),
    ensures
        expr_tail(text, left, cursor) == match eat(
            text,
            cursor,
            cursor.current.token_type,
        ).result {
            Ok(op) => {
                let operand = term(text, eat(text, cursor, cursor.current.token_type).rest);
                match operand.result {
                    Ok(right) => expr_tail(
                        text,
                        AstView::BinOp { left: Box::new(left), op, right: Box::new(right) },
                        operand.rest,
                    ),
                    Err(error) => operand,
                }
            },
            Err(error) => failed(error, eat(text, cursor, cursor.current.token_type).rest),
        },
{
    let kind = cursor.current.token_type;
    lemma_eat_consumes(text, cursor, kind);
    lemma_term_orderly(text, eat(text, cursor, kind).rest);
}

/// Every tree that `unary` builds is well formed.
pub proof fn lemma_unary_well_formed(text: Seq<char>, cursor: Cursor)
    ensures
        unary(text, cursor).result matches Ok(tree) ==> tree.well_formed(),
    decreases remaining(text, cursor), 0nat,
{
    let kind = cursor.current.token_type;
    lemma_eat_consumes(text, cursor, kind);
    if kind.is_sign() {
        let sign = eat(text, cursor, kind);
        if sign.result is Ok {
            lemma_unary_well_formed(text, sign.rest);
        }
    } else if kind == TokenType::Lparen {
        let open = eat(text, cursor, kind);
        if open.result is Ok {
            lemma_expr_well_formed(text, open.rest);
        }
    }
}

/// Every tree that `term` builds is well formed.
pub proof fn lemma_term_well_formed(text: Seq<char>, cursor: Cursor)
    ensures
        term(text, cursor).result matches Ok(tree) ==> tree.well_formed(),
    decreases remaining(text, cursor), 1nat,
{
    lemma_unary_well_formed(text, cursor);
    let first = unary(text, cursor);
    if let Ok(tree) = first.result {
        if consumed(text, cursor, first.rest) {
            lemma_term_tail_well_formed(text, tree, first.rest);
        }
    }
}

/// The rest of a `term` keeps a well-formed tree well formed.
pub proof fn lemma_term_tail_well_formed(text: Seq<char>, left: AstView, cursor: Cursor)
    requires
        left.well_formed(),
    ensures
        term_tail(text, left, cursor).result matches Ok(tree) ==> tree.well_formed(),
    decreases remaining(text, cursor), 0nat,
{
    let kind = cursor.current.token_type;
    if kind.is_factor_op() {
        lemma_eat_consumes(text, cursor, kind);
        let taken = eat(text, cursor, kind);
        if let Ok(op) = taken.result {
            lemma_unary_well_formed(text, taken.rest);
            let operand = unary(text, taken.rest);
            if let Ok(right) = operand.result {
                if consumed(text, cursor, operand.rest) {
                    lemma_term_tail_well_formed(
                        text,
                        AstView::BinOp { left: Box::new(left), op, right: Box::new(right) },
                        operand.rest,
                    );
                }
            }
        }
    }
}

/// Every tree that `expr` builds is well formed: each node holds a token of
/// a kind that its position allows.
pub proof fn lemma_expr_well_formed(text: Seq<char>, cursor: Cursor)
    ensures
        expr(text, cursor).result matches Ok(tree) ==> tree.well_formed(),
    decreases remaining(text, cursor), 2nat,
{
    lemma_term_well_formed(text, cursor);
    let first = term(text, cursor);
    if let Ok(tree) = first.result {
        if consumed(text, cursor, first.rest) {
            lemma_expr_tail_well_formed(text, tree, first.rest);
        }
    }
}

/// The rest of an `expr` keeps a well-formed tree well formed.
pub proof fn lemma_expr_tail_well_formed(text: Seq<char>, left: AstView, cursor: Cursor)
    requires
        left.well_formed(),
    ensures
        expr_tail(text, left, cursor).result matches Ok(tree) ==> tree.well_formed(),
    decreases remaining(text, cursor), 0nat,
{
    let kind = cursor.current.token_type;
    if kind.is_sign() {
        lemma_eat_consumes(text, cursor, kind);
        let taken = eat(text, cursor, kind);
        if let Ok(op) = taken.result {
            lemma_term_well_formed(text, taken.rest);
            let operand = term(text, taken.rest);
            if let Ok(right) = operand.result {
                if consumed(text, cursor, operand.rest) {
                    lemma_expr_tail_well_formed(
                        text,
                        AstView::BinOp { left: Box::new(left), op, right: Box::new(right) },
                        operand.rest,
                    );
                }
            }
        }
    }
}

/// Whether `cursor` is a place in `text`: its token is a token of the text
/// that ends at or before its offset, and its offset lies in the text.
pub open spec fn genuine(text: Seq<char>, cursor: Cursor) -> bool {
    &&& is_token_of(text, cursor.current)
    &&& cursor.current.pos <= cursor.pos <= text.len()
    &&& cursor.current.token_type != TokenType::Eof ==> cursor.current.pos < cursor.pos
}

/// Whether a rule that went from `from` to `to` and yielded `result` has
/// read the line as it stands: it ends at a place in the text behind or at
/// the one where it began, and every token of a tree that it built is a
/// token of the text and stands in order between the two places.
pub open spec fn faithful(
    text: Seq<char>,
    from: Cursor,
    result: Result<AstView, ParserErrorView>,
    to: Cursor,
) -> bool {
    &&& genuine(text, to)
    &&& from.current.pos <= to.current.pos
    &&& result matches Ok(tree) ==> tree.drawn_from(text) && tree.ordered_within(
        from.current.pos,
        to.current.pos,
    )
}

/// Eating at a place in the text leads to a place in the text, further on
/// where a token other than the end of input was taken, and the token taken
/// is a token of the text.
pub proof fn lemma_eat_genuine(text: Seq<char>, cursor: Cursor, expect: TokenType)
    requires
        genuine(text, cursor),
    ensures
        genuine(text, eat(text, cursor, expect).rest),
        cursor.current.pos <= eat(text, cursor, expect).rest.current.pos,
        eat(text, cursor, expect).result matches Ok(token) ==> {
            &&& token == cursor.current
            &&& is_token_of(text, token)
            &&& expect != TokenType::Eof ==> token.pos < eat(
                text,
                cursor,
                expect,
            ).rest.current.pos
        },
{
    lemma_token_at_advances(text, cursor.pos);
    lemma_token_at_yields_token_of(text, cursor.pos);
}

/// `unary` reads the line as it stands.
pub proof fn lemma_unary_faithful(text: Seq<char>, cursor: Cursor)
    requires
        genuine(text, cursor),
    ensures
        faithful(text, cursor, unary(text, cursor).result, unary(text, cursor).rest),
    decreases remaining(text, cursor), 0nat,
{
    let kind = cursor.current.token_type;
    lemma_eat_consumes(text, cursor, kind);
    lemma_eat_genuine(text, cursor, kind);
    if kind.is_sign() {
        let sign = eat(text, cursor, kind);
        if sign.result is Ok {
            lemma_unary_faithful(text, sign.rest);
            let operand = unary(text, sign.rest);
            if let Ok(value) = operand.result {
                value.lemma_ordered_within_widens(
                    sign.rest.current.pos,
                    operand.rest.current.pos,
                    cursor.current.pos + 1,
                    operand.rest.current.pos,
                );
            }
        }
    } else if kind == TokenType::Lparen {
        let open = eat(text, cursor, kind);
        if open.result is Ok {
            lemma_expr_faithful(text, open.rest);
            let inner = expr(text, open.rest);
            lemma_eat_genuine(text, inner.rest, TokenType::Rparen);
            if let Ok(tree) = inner.result {
                let close = eat(text, inner.rest, TokenType::Rparen);
                tree.lemma_ordered_within_widens(
                    open.rest.current.pos,
                    inner.rest.current.pos,
                    cursor.current.pos,
                    close.rest.current.pos,
                );
            }
        }
    }
}

/// `term` reads the line as it stands.
pub proof fn lemma_term_faithful(text: Seq<char>, cursor: Cursor)
    requires
        genuine(text, cursor),
    ensures
        faithful(text, cursor, term(text, cursor).result, term(text, cursor).rest),
    decreases remaining(text, cursor), 1nat,
{
    lemma_unary_faithful(text, cursor);
    let first = unary(text, cursor);
    if let Ok(tree) = first.result {
        if consumed(text, cursor, first.rest) {
            lemma_term_tail_faithful(text, cursor.current.pos, tree, first.rest);
        }
    }
}

/// The rest of a `term` reads the line as it stands: what it folds onto a
/// tree that lies in order from `lo` up to the current token lies in order
/// from `lo` up to where the rule ends.
pub proof fn lemma_term_tail_faithful(text: Seq<char>, lo: int, left: AstView, cursor: Cursor)
    requires
        genuine(text, cursor),
        left.drawn_from(text),
        left.ordered_within(lo, cursor.current.pos),
    ensures
        genuine(text, term_tail(text, left, cursor).rest),
        cursor.current.pos <= term_tail(text, left, cursor).rest.current.pos,
        term_tail(text, left, cursor).result matches Ok(tree) ==> tree.drawn_from(text)
            && tree.ordered_within(lo, term_tail(text, left, cursor).rest.current.pos),
    decreases remaining(text, cursor), 0nat,
{
    let kind = cursor.current.token_type;
    left.lemma_ordered_within_widens(lo, cursor.current.pos, lo, cursor.current.pos);
    if kind.is_factor_op() {
        lemma_eat_consumes(text, cursor, kind);
        lemma_eat_genuine(text, cursor, kind);
        let taken = eat(text, cursor, kind);
        if let Ok(op) = taken.result {
            lemma_unary_faithful(text, taken.rest);
            lemma_unary_orderly(text, taken.rest);
            let operand = unary(text, taken.rest);
            if let Ok(right) = operand.result {
                right.lemma_ordered_within_widens(
                    taken.rest.current.pos,
                    operand.rest.current.pos,
                    op.pos + 1,
                    operand.rest.current.pos,
                );
                if consumed(text, cursor, operand.rest) {
                    lemma_term_tail_faithful(
                        text,
                        lo,
                        AstView::BinOp { left: Box::new(left), op, right: Box::new(right) },
                        operand.rest,
                    );
                }
            }
        }
    }
}

/// `expr` reads the line as it stands: the rule ends at a place in the text,
/// and every token of the tree is a token of the text and stands in the
/// tree as it stands in the line.
pub proof fn lemma_expr_faithful(text: Seq<char>, cursor: Cursor)
    requires
        genuine(text, cursor),
    ensures
        faithful(text, cursor, expr(text, cursor).result, expr(text, cursor).rest),
    decreases remaining(text, cursor), 2nat,
{
    lemma_term_faithful(text, cursor);
    let first = term(text, cursor);
    if let Ok(tree) = first.result {
        if consumed(text, cursor, first.rest) {
            lemma_expr_tail_faithful(text, cursor.current.pos, tree, first.rest);
        }
    }
}

/// The rest of an `expr` reads the line as it stands: what it folds onto a
/// tree that lies in order from `lo` up to the current token lies in order
/// from `lo` up to where the rule ends.
pub proof fn lemma_expr_tail_faithful(text: Seq<char>, lo: int, left: AstView, cursor: Cursor)
    requires
        genuine(text, cursor),
        left.drawn_from(text),
        left.ordered_within(lo, cursor.current.pos),
    ensures
        genuine(text, expr_tail(text, left, cursor).rest),
        cursor.current.pos <= expr_tail(text, left, cursor).rest.current.pos,
        expr_tail(text, left, cursor).result matches Ok(tree) ==> tree.drawn_from(text)
            && tree.ordered_within(lo, expr_tail(text, left, cursor).rest.current.pos),
    decreases remaining(text, cursor), 0nat,
{
    let kind = cursor.current.token_type;
    left.lemma_ordered_within_widens(lo, cursor.current.pos, lo, cursor.current.pos);
    if kind.is_sign() {
        lemma_eat_consumes(text, cursor, kind);
        lemma_eat_genuine(text, cursor, kind);
        let taken = eat(text, cursor, kind);
        if let Ok(op) = taken.result {
            lemma_term_faithful(text, taken.rest);
            lemma_term_orderly(text, taken.rest);
            let operand = term(text, taken.rest);
            if let Ok(right) = operand.result {
                right.lemma_ordered_within_widens(
                    taken.rest.current.pos,
                    operand.rest.current.pos,
                    op.pos + 1,
                    operand.rest.current.pos,
                );
                if consumed(text, cursor, operand.rest) {
                    lemma_expr_tail_faithful(
                        text,
                        lo,
                        AstView::BinOp { left: Box::new(left), op, right: Box::new(right) },
                        operand.rest,
                    );
                }
            }
        }
    }
}

/// A literal, a binary operator and a literal, with no operator behind
/// them, parse as the one binary node over the two leaves, whatever the
/// operator and however the three are spaced.
pub proof fn lemma_literal_operator_literal(
    text: Seq<char>,
    cursor: Cursor,
    op: Scan,
    right: Scan,
    end: Scan,
)
    requires
        cursor.current.token_type.is_number(),
        token_at(text, cursor.pos) == Ok::<Scan, SyntaxErrorView>(op),
        op.token.token_type.is_binary_op(),
        token_at(text, op.next) == Ok::<Scan, SyntaxErrorView>(right),
        right.token.token_type.is_number(),
        token_at(text, right.next) == Ok::<Scan, SyntaxErrorView>(end),
        !end.token.token_type.is_binary_op(),
    ensures
        expr(text, cursor) == match (literal(cursor.current), literal(right.token)) {
            (Ok(a), Ok(b)) => done(
                AstView::BinOp { left: Box::new(a), op: op.token, right: Box::new(b) },
                Cursor { current: end.token, pos: end.next },
            ),
            (Ok(a), Err(error)) => failed(error, Cursor { current: end.token, pos: end.next }),
            (Err(error), _) => failed(error, Cursor { current: op.token, pos: op.next }),
        },
{
    let at_op = Cursor { current: op.token, pos: op.next };
    let at_right = Cursor { current: right.token, pos: right.next };
    let at_end = Cursor { current: end.token, pos: end.next };
    assert(number(text, cursor) == Step { result: literal(cursor.current), rest: at_op });
    assert(unary(text, cursor) == number(text, cursor));
    assert(number(text, at_right) == Step { result: literal(right.token), rest: at_end });
    assert(unary(text, at_right) == number(text, at_right));
    lemma_term_unfolds(text, cursor);
    lemma_expr_unfolds(text, cursor);
    if let Ok(a) = literal(cursor.current) {
        if op.token.token_type.is_factor_op() {
            lemma_term_tail_unfolds(text, a, at_op);
            assert(eat(text, at_op, op.token.token_type) == done(op.token, at_right));
            if let Ok(b) = literal(right.token) {
                let tree = AstView::BinOp { left: Box::new(a), op: op.token, right: Box::new(b) };
                assert(term_tail(text, tree, at_end) == done(tree, at_end));
                assert(expr_tail(text, tree, at_end) == done(tree, at_end));
            }
        } else {
            assert(term_tail(text, a, at_op) == done(a, at_op));
            lemma_expr_tail_unfolds(text, a, at_op);
            assert(eat(text, at_op, op.token.token_type) == done(op.token, at_right));
            lemma_term_unfolds(text, at_right);
            if let Ok(b) = literal(right.token) {
                let tree = AstView::BinOp { left: Box::new(a), op: op.token, right: Box::new(b) };
                assert(term_tail(text, b, at_end) == done(b, at_end));
                assert(expr_tail(text, tree, at_end) == done(tree, at_end));
            }
        }
    }
}

} // verus!
