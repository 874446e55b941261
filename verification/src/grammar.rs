//! The grammar of the language, written as a functional parser over the
//! token model the lexer produces (`lexer::lex_result`): each function takes
//! the tokens and a position and gives the tree it reads there and the
//! position after it, or the syntax error (message and line) met on the way.
//! The executable parser in `parser` is proved to compute exactly these.
use vstd::prelude::*;
use crate::ast::{BinOp, LogicOp, SExpr, SFun, SProgram, SStmt, UnOp};
use crate::text::{int_text, str_bytes};
use crate::token::{SKind, TokenKind};

verus! {

/// A syntax error: its message and its line.
pub type PErr = (Seq<u8>, int);

/// The kind of the token at `i`; past the end there is only `Eof`.
pub open spec fn kind_at(ts: Seq<(SKind, int)>, i: int) -> SKind {
    if 0 <= i < ts.len() {
        ts[i].0
    } else {
        SKind::Plain(TokenKind::Eof)
    }
}

/// The line of the token at `i`.
pub open spec fn line_of(ts: Seq<(SKind, int)>, i: int) -> int {
    if 0 <= i < ts.len() {
        ts[i].1
    } else {
        0
    }
}

/// The token at `i` is the payload-free kind `k`.
pub open spec fn is_tok(ts: Seq<(SKind, int)>, i: int, k: TokenKind) -> bool {
    kind_at(ts, i) == SKind::Plain(k)
}

/// A step from `i` to `j` that consumed tokens and stayed within them. Every
/// successful parse is such a step; the grammar's loops go on only after one.
pub open spec fn advanced(ts: Seq<(SKind, int)>, i: int, j: int) -> bool {
    i < j <= ts.len()
}

/// The outcome of a parse that made no progress (never the case).
pub open spec fn stuck() -> PErr {
    (Seq::empty(), 0)
}

/// The name of a token kind's variant, as `Debug` prints it.
#[verifier::opaque]
pub open spec fn plain_name(k: TokenKind) -> Seq<u8> {
    match k {
        TokenKind::Number(_) => str_bytes("Number"),
        TokenKind::Str(_) => str_bytes("Str"),
        TokenKind::Ident(_) => str_bytes("Ident"),
        TokenKind::Let => str_bytes("Let"),
        TokenKind::Fn => str_bytes("Fn"),
        TokenKind::If => str_bytes("If"),
        TokenKind::Else => str_bytes("Else"),
        TokenKind::While => str_bytes("While"),
        TokenKind::For => str_bytes("For"),
        TokenKind::Return => str_bytes("Return"),
        TokenKind::True => str_bytes("True"),
        TokenKind::False => str_bytes("False"),
        TokenKind::Nil => str_bytes("Nil"),
        TokenKind::Print => str_bytes("Print"),
        TokenKind::LParen => str_bytes("LParen"),
        TokenKind::RParen => str_bytes("RParen"),
        TokenKind::LBrace => str_bytes("LBrace"),
        TokenKind::RBrace => str_bytes("RBrace"),
        TokenKind::LBracket => str_bytes("LBracket"),
        TokenKind::RBracket => str_bytes("RBracket"),
        TokenKind::Comma => str_bytes("Comma"),
        TokenKind::Semicolon => str_bytes("Semicolon"),
        TokenKind::Colon => str_bytes("Colon"),
        TokenKind::Plus => str_bytes("Plus"),
        TokenKind::Minus => str_bytes("Minus"),
        TokenKind::Star => str_bytes("Star"),
        TokenKind::Slash => str_bytes("Slash"),
        TokenKind::Percent => str_bytes("Percent"),
        TokenKind::Assign => str_bytes("Assign"),
        TokenKind::EqEq => str_bytes("EqEq"),
        TokenKind::NotEq => str_bytes("NotEq"),
        TokenKind::Lt => str_bytes("Lt"),
        TokenKind::LtEq => str_bytes("LtEq"),
        TokenKind::Gt => str_bytes("Gt"),
        TokenKind::GtEq => str_bytes("GtEq"),
        TokenKind::AndAnd => str_bytes("AndAnd"),
        TokenKind::OrOr => str_bytes("OrOr"),
        TokenKind::Bang => str_bytes("Bang"),
        TokenKind::Eof => str_bytes("Eof"),
    }
}

/// A lower-case hexadecimal digit.
pub open spec fn hex_digit(d: u8) -> u8 {
    if d < 10 { (48 + d) as u8 } else { (87 + d) as u8 }
}

/// A byte below 128 in lower-case hexadecimal, without leading zeros.
pub open spec fn hex_text(c: u8) -> Seq<u8> {
    if c < 16 { seq![hex_digit(c)] } else { seq![hex_digit(c / 16), hex_digit(c % 16)] }
}

/// A byte as it shows inside a `Debug`-quoted string: the named escapes,
/// `\u{..}` for the other ASCII control bytes and DEL, and any other byte
/// as it is.
pub open spec fn escape_byte(c: u8) -> Seq<u8> {
    if c == 0 {
        seq![92u8, 48u8]
    } else if c == 10 {
        seq![92u8, 110u8]
    } else if c == 9 {
        seq![92u8, 116u8]
    } else if c == 13 {
        seq![92u8, 114u8]
    } else if c == 34 || c == 92 {
        seq![92u8, c]
    } else if c < 32 || c == 127 {
        seq![92u8, 117u8, 123u8] + hex_text(c) + seq![125u8]
    } else {
        seq![c]
    }
}

/// The bytes as they show inside a `Debug`-quoted string.
pub open spec fn escaped(b: Seq<u8>) -> Seq<u8>
    decreases b.len(),
{
    if b.len() == 0 {
        Seq::empty()
    } else {
        escaped(b.drop_last()) + escape_byte(b.last())
    }
}

/// `"bytes"`, quoted and escaped.
pub open spec fn quoted(b: Seq<u8>) -> Seq<u8> {
    seq![34u8] + escaped(b) + seq![34u8]
}

/// A token kind as `Debug` prints it (a number shows as the float it
/// stands for, such as `Number(1.0)`).
#[verifier::opaque]
pub open spec fn kind_text(k: SKind) -> Seq<u8> {
    match k {
        SKind::Num(n) => str_bytes("Number") + str_bytes("(") + int_text(n) + str_bytes(".0)"),
        SKind::Str(s) => str_bytes("Str") + str_bytes("(") + quoted(s) + str_bytes(")"),
        SKind::Ident(s) => str_bytes("Ident") + str_bytes("(") + quoted(s) + str_bytes(")"),
        SKind::Plain(t) => plain_name(t),
    }
}

/// `expected <what> but found <token>`, at the token's line.
pub open spec fn expect_err(ts: Seq<(SKind, int)>, i: int, what: Seq<u8>) -> PErr {
    (str_bytes("expected ") + what + str_bytes(" but found ") + kind_text(kind_at(ts, i)), line_of(ts, i))
}

/// Consumes the payload-free token `k`: the position after it.
pub open spec fn expect_tok(ts: Seq<(SKind, int)>, i: int, k: TokenKind, what: Seq<u8>) -> Result<int, PErr> {
    if is_tok(ts, i, k) {
        Ok(i + 1)
    } else {
        Err(expect_err(ts, i, what))
    }
}

/// Consumes a name.
pub open spec fn expect_ident(ts: Seq<(SKind, int)>, i: int) -> Result<Seq<u8>, PErr> {
    match kind_at(ts, i) {
        SKind::Ident(n) => Ok(n),
        other => Err((str_bytes("expected identifier but found ") + kind_text(other), line_of(ts, i))),
    }
}

/// Left/right binding power of an infix operator. Left-associative
/// operators use `(n, n+1)`; a higher `n` binds tighter.
pub open spec fn binding_power(k: TokenKind) -> Option<(u8, u8)> {
    match k {
        TokenKind::OrOr => Some((1u8, 2u8)),
        TokenKind::AndAnd => Some((3u8, 4u8)),
        TokenKind::EqEq | TokenKind::NotEq => Some((5u8, 6u8)),
        TokenKind::Lt | TokenKind::LtEq | TokenKind::Gt | TokenKind::GtEq => Some((7u8, 8u8)),
        TokenKind::Plus | TokenKind::Minus => Some((9u8, 10u8)),
        TokenKind::Star | TokenKind::Slash | TokenKind::Percent => Some((11u8, 12u8)),
        _ => None,
    }
}

/// The binding power of the token kind, if it is an infix operator.
pub open spec fn infix_bp(k: SKind) -> Option<(u8, u8)> {
    match k {
        SKind::Plain(t) => binding_power(t),
        _ => None,
    }
}

/// The arithmetic or comparison operator an operator token stands for.
pub open spec fn binop_of(t: TokenKind) -> BinOp {
    match t {
        TokenKind::EqEq => BinOp::Eq,
        TokenKind::NotEq => BinOp::NotEq,
        TokenKind::Lt => BinOp::Lt,
        TokenKind::LtEq => BinOp::LtEq,
        TokenKind::Gt => BinOp::Gt,
        TokenKind::GtEq => BinOp::GtEq,
        TokenKind::Plus => BinOp::Add,
        TokenKind::Minus => BinOp::Sub,
        TokenKind::Star => BinOp::Mul,
        TokenKind::Slash => BinOp::Div,
        _ => BinOp::Mod,
    }
}

/// The node that the infix operator `op` makes of its two operands.
pub open spec fn infix_node(op: SKind, l: SExpr, r: SExpr, line: int) -> SExpr {
    match op {
        SKind::Plain(TokenKind::OrOr) => SExpr::Logical(LogicOp::Or, Box::new(l), Box::new(r)),
        SKind::Plain(TokenKind::AndAnd) => SExpr::Logical(LogicOp::And, Box::new(l), Box::new(r)),
        SKind::Plain(t) => SExpr::Binary(binop_of(t), Box::new(l), Box::new(r), line),
        _ => l,
    }
}

/// The list `prefix` followed by the list that `r` read.
pub open spec fn after_items<A>(prefix: Seq<A>, r: Result<(Seq<A>, int), PErr>) -> Result<(Seq<A>, int), PErr> {
    match r {
        Ok((s, j)) => Ok((prefix + s, j)),
        Err(e) => Err(e),
    }
}

/// expression := assignment
#[verifier::opaque]
pub open spec fn expression(ts: Seq<(SKind, int)>, i: int) -> Result<(SExpr, int), PErr>
    decreases ts.len() - i, 8int,
{
    assignment(ts, i)
}

/// assignment := binary ( `=` assignment )? where the left side is a name
/// or an index expression; `=` is right-associative.
#[verifier::opaque]
pub open spec fn assignment(ts: Seq<(SKind, int)>, i: int) -> Result<(SExpr, int), PErr>
    decreases ts.len() - i, 7int,
{
    match expr_bp(ts, i, 1) {
        Err(e) => Err(e),
        Ok((target, j)) => if is_tok(ts, j, TokenKind::Assign) {
            if advanced(ts, i, j) {
                match assignment(ts, j + 1) {
                    Err(e) => Err(e),
                    Ok((value, k)) => match target {
                        SExpr::Ident(name, _) => Ok((SExpr::Assign(name, Box::new(value), line_of(ts, i)), k)),
                        SExpr::Index(a, b, il) => Ok((SExpr::IndexAssign(a, b, Box::new(value), il), k)),
                        _ => Err((str_bytes("invalid assignment target"), line_of(ts, i))),
                    },
                }
            } else {
                Err(stuck())
            }
        } else {
            Ok((target, j))
        },
    }
}

/// An expression whose infix operators have a left binding power of at
/// least `min_bp`: a unary expression, then operators and their right
/// operands, each read with the operator's right binding power.
#[verifier::opaque]
pub open spec fn expr_bp(ts: Seq<(SKind, int)>, i: int, min_bp: u8) -> Result<(SExpr, int), PErr>
    decreases ts.len() - i, 6int,
{
    match unary(ts, i) {
        Err(e) => Err(e),
        Ok((lhs, j)) => if advanced(ts, i, j) {
            bp_loop(ts, j, min_bp, lhs)
        } else {
            Err(stuck())
        },
    }
}

/// The operators and operands that follow `lhs`, from `j` on.
#[verifier::opaque]
pub open spec fn bp_loop(ts: Seq<(SKind, int)>, j: int, min_bp: u8, lhs: SExpr) -> Result<(SExpr, int), PErr>
    decreases ts.len() - j, 6int,
{
    match infix_bp(kind_at(ts, j)) {
        None => Ok((lhs, j)),
        Some((l_bp, r_bp)) => if l_bp < min_bp {
            Ok((lhs, j))
        } else {
            match expr_bp(ts, j + 1, r_bp) {
                Err(e) => Err(e),
                Ok((rhs, k)) => if advanced(ts, j, k) {
                    bp_loop(ts, k, min_bp, infix_node(kind_at(ts, j), lhs, rhs, line_of(ts, j)))
                } else {
                    Err(stuck())
                },
            }
        },
    }
}

/// unary := `!` unary | `-` unary | postfix
#[verifier::opaque]
pub open spec fn unary(ts: Seq<(SKind, int)>, i: int) -> Result<(SExpr, int), PErr>
    decreases ts.len() - i, 5int,
{
    if is_tok(ts, i, TokenKind::Bang) {
        match unary(ts, i + 1) {
            Err(e) => Err(e),
            Ok((x, j)) => Ok((SExpr::Unary(UnOp::Not, Box::new(x), line_of(ts, i)), j)),
        }
    } else if is_tok(ts, i, TokenKind::Minus) {
        match unary(ts, i + 1) {
            Err(e) => Err(e),
            Ok((x, j)) => Ok((SExpr::Unary(UnOp::Neg, Box::new(x), line_of(ts, i)), j)),
        }
    } else {
        postfix(ts, i)
    }
}

/// postfix := primary ( `[` expression `]` )*
#[verifier::opaque]
pub open spec fn postfix(ts: Seq<(SKind, int)>, i: int) -> Result<(SExpr, int), PErr>
    decreases ts.len() - i, 4int,
{
    match primary(ts, i) {
        Err(e) => Err(e),
        Ok((e, j)) => if advanced(ts, i, j) {
            postfix_loop(ts, j, e)
        } else {
            Err(stuck())
        },
    }
}

/// The index suffixes that follow `e`, from `j` on.
#[verifier::opaque]
pub open spec fn postfix_loop(ts: Seq<(SKind, int)>, j: int, e: SExpr) -> Result<(SExpr, int), PErr>
    decreases ts.len() - j, 4int,
{
    if is_tok(ts, j, TokenKind::LBracket) {
        match expression(ts, j + 1) {
            Err(x) => Err(x),
            Ok((idx, k)) => match expect_tok(ts, k, TokenKind::RBracket, str_bytes("']' after index expression")) {
                Err(x) => Err(x),
                Ok(m) => if advanced(ts, j, m) {
                    postfix_loop(ts, m, SExpr::Index(Box::new(e), Box::new(idx), line_of(ts, j)))
                } else {
                    Err(stuck())
                },
            },
        }
    } else {
        Ok((e, j))
    }
}

/// primary := number | string | `true` | `false` | `nil` | name
///          | name `(` args `)` | `(` expression `)` | `[` args `]`
///          | `{` entries `}`
#[verifier::opaque]
pub open spec fn primary(ts: Seq<(SKind, int)>, i: int) -> Result<(SExpr, int), PErr>
    decreases ts.len() - i, 3int,
{
    let line = line_of(ts, i);
    match kind_at(ts, i) {
        SKind::Num(n) => Ok((SExpr::Number(n), i + 1)),
        SKind::Str(s) => Ok((SExpr::Str(s), i + 1)),
        SKind::Ident(name) => if is_tok(ts, i + 1, TokenKind::LParen) {
            match args(ts, i + 2) {
                Err(e) => Err(e),
                Ok((a, j)) => match expect_tok(ts, j, TokenKind::RParen, str_bytes("')' after call arguments")) {
                    Err(e) => Err(e),
                    Ok(k) => Ok((SExpr::Call(name, a, line), k)),
                },
            }
        } else {
            Ok((SExpr::Ident(name, line), i + 1))
        },
        SKind::Plain(TokenKind::True) => Ok((SExpr::Bool(true), i + 1)),
        SKind::Plain(TokenKind::False) => Ok((SExpr::Bool(false), i + 1)),
        SKind::Plain(TokenKind::Nil) => Ok((SExpr::Nil, i + 1)),
        SKind::Plain(TokenKind::LParen) => match expression(ts, i + 1) {
            Err(e) => Err(e),
            Ok((e, j)) => match expect_tok(ts, j, TokenKind::RParen, str_bytes("')' after parenthesized expression")) {
                Err(x) => Err(x),
                Ok(k) => Ok((e, k)),
            },
        },
        SKind::Plain(TokenKind::LBracket) => match args(ts, i + 1) {
            Err(e) => Err(e),
            Ok((a, j)) => match expect_tok(ts, j, TokenKind::RBracket, str_bytes("']' after array literal")) {
                Err(e) => Err(e),
                Ok(k) => Ok((SExpr::Array(a), k)),
            },
        },
        SKind::Plain(TokenKind::LBrace) => match map_entries(ts, i + 1) {
            Err(e) => Err(e),
            Ok((es, j)) => match expect_tok(ts, j, TokenKind::RBrace, str_bytes("'}' after map literal")) {
                Err(e) => Err(e),
                Ok(k) => Ok((SExpr::Dict(es), k)),
            },
        },
        other => Err((str_bytes("unexpected token ") + kind_text(other), line)),
    }
}

/// args := ( expression ( `,` expression )* )?, up to a `)` or `]` that
/// stays unread.
#[verifier::opaque]
pub open spec fn args(ts: Seq<(SKind, int)>, i: int) -> Result<(Seq<SExpr>, int), PErr>
    decreases ts.len() - i, 10int,
{
    if is_tok(ts, i, TokenKind::RParen) || is_tok(ts, i, TokenKind::RBracket) {
        Ok((Seq::empty(), i))
    } else {
        args_list(ts, i)
    }
}

/// expression ( `,` expression )*
#[verifier::opaque]
pub open spec fn args_list(ts: Seq<(SKind, int)>, i: int) -> Result<(Seq<SExpr>, int), PErr>
    decreases ts.len() - i, 9int,
{
    match expression(ts, i) {
        Err(e) => Err(e),
        Ok((e, j)) => if is_tok(ts, j, TokenKind::Comma) {
            if advanced(ts, i, j) {
                after_items(seq![e], args_list(ts, j + 1))
            } else {
                Err(stuck())
            }
        } else {
            Ok((seq![e], j))
        },
    }
}

/// entries := ( entry ( `,` entry )* )?, up to a `}` that stays unread.
#[verifier::opaque]
pub open spec fn map_entries(ts: Seq<(SKind, int)>, i: int) -> Result<(Seq<(Seq<u8>, SExpr)>, int), PErr>
    decreases ts.len() - i, 10int,
{
    if is_tok(ts, i, TokenKind::RBrace) {
        Ok((Seq::empty(), i))
    } else {
        entries_list(ts, i)
    }
}

/// entry ( `,` entry )* where entry := string `:` expression
#[verifier::opaque]
pub open spec fn entries_list(ts: Seq<(SKind, int)>, i: int) -> Result<(Seq<(Seq<u8>, SExpr)>, int), PErr>
    decreases ts.len() - i, 9int,
{
    match kind_at(ts, i) {
        SKind::Str(key) => match expect_tok(ts, i + 1, TokenKind::Colon, str_bytes("':' after map key")) {
            Err(e) => Err(e),
            Ok(j) => match expression(ts, j) {
                Err(e) => Err(e),
                Ok((v, k)) => if is_tok(ts, k, TokenKind::Comma) {
                    if advanced(ts, i, k) {
                        after_items(seq![(key, v)], entries_list(ts, k + 1))
                    } else {
                        Err(stuck())
                    }
                } else {
                    Ok((seq![(key, v)], k))
                },
            },
        },
        other => Err((str_bytes("expected string key in map literal, found ") + kind_text(other), line_of(ts, i))),
    }
}

/// statement := let | print | if | while | for | return | block | expression `;`
#[verifier::opaque]
pub open spec fn statement(ts: Seq<(SKind, int)>, i: int) -> Result<(SStmt, int), PErr>
    decreases ts.len() - i, 10int,
{
    match kind_at(ts, i) {
        SKind::Plain(TokenKind::Let) => let_stmt(ts, i),
        SKind::Plain(TokenKind::Print) => print_stmt(ts, i),
        SKind::Plain(TokenKind::If) => if_stmt(ts, i),
        SKind::Plain(TokenKind::While) => while_stmt(ts, i),
        SKind::Plain(TokenKind::For) => for_stmt(ts, i),
        SKind::Plain(TokenKind::Return) => return_stmt(ts, i),
        SKind::Plain(TokenKind::LBrace) => match block(ts, i) {
            Err(e) => Err(e),
            Ok((b, j)) => Ok((SStmt::Block(b), j)),
        },
        _ => expr_stmt(ts, i),
    }
}

/// block := `{` statement* `}`
#[verifier::opaque]
pub open spec fn block(ts: Seq<(SKind, int)>, i: int) -> Result<(Seq<SStmt>, int), PErr>
    decreases ts.len() - i, 9int,
{
    match expect_tok(ts, i, TokenKind::LBrace, str_bytes("'{'")) {
        Err(e) => Err(e),
        Ok(j) => match block_items(ts, j) {
            Err(e) => Err(e),
            Ok((stmts, k)) => match expect_tok(ts, k, TokenKind::RBrace, str_bytes("'}'")) {
                Err(e) => Err(e),
                Ok(m) => Ok((stmts, m)),
            },
        },
    }
}

/// The statements of a block, up to its `}` (or the end of the tokens).
#[verifier::opaque]
pub open spec fn block_items(ts: Seq<(SKind, int)>, j: int) -> Result<(Seq<SStmt>, int), PErr>
    decreases ts.len() - j, 11int,
{
    if is_tok(ts, j, TokenKind::RBrace) || is_tok(ts, j, TokenKind::Eof) {
        Ok((Seq::empty(), j))
    } else {
        match statement(ts, j) {
            Err(e) => Err(e),
            Ok((s, k)) => if advanced(ts, j, k) {
                after_items(seq![s], block_items(ts, k))
            } else {
                Err(stuck())
            },
        }
    }
}

/// let := `let` name `=` expression `;`
#[verifier::opaque]
pub open spec fn let_stmt(ts: Seq<(SKind, int)>, i: int) -> Result<(SStmt, int), PErr> {
    match expect_ident(ts, i + 1) {
        Err(e) => Err(e),
        Ok(name) => match expect_tok(ts, i + 2, TokenKind::Assign, str_bytes("'=' in let binding")) {
            Err(e) => Err(e),
            Ok(j) => match expression(ts, j) {
                Err(e) => Err(e),
                Ok((v, k)) => match expect_tok(ts, k, TokenKind::Semicolon, str_bytes("';' after let binding")) {
                    Err(e) => Err(e),
                    Ok(m) => Ok((SStmt::Let(name, v, line_of(ts, i)), m)),
                },
            },
        },
    }
}

/// print := `print` expression ( `,` expression )* `;`
#[verifier::opaque]
pub open spec fn print_stmt(ts: Seq<(SKind, int)>, i: int) -> Result<(SStmt, int), PErr> {
    match expression(ts, i + 1) {
        Err(e) => Err(e),
        Ok((first, j)) => match print_more(ts, j) {
            Err(e) => Err(e),
            Ok((rest, k)) => match expect_tok(ts, k, TokenKind::Semicolon, str_bytes("';' after print statement")) {
                Err(e) => Err(e),
                Ok(m) => Ok((SStmt::Print(seq![first] + rest, line_of(ts, i)), m)),
            },
        },
    }
}

/// ( `,` expression )*
#[verifier::opaque]
pub open spec fn print_more(ts: Seq<(SKind, int)>, j: int) -> Result<(Seq<SExpr>, int), PErr>
    decreases ts.len() - j,
{
    if is_tok(ts, j, TokenKind::Comma) {
        match expression(ts, j + 1) {
            Err(e) => Err(e),
            Ok((e, k)) => if advanced(ts, j, k) {
                after_items(seq![e], print_more(ts, k))
            } else {
                Err(stuck())
            },
        }
    } else {
        Ok((Seq::empty(), j))
    }
}

/// if := `if` `(` expression `)` block ( `else` ( if | block ) )?
#[verifier::opaque]
pub open spec fn if_stmt(ts: Seq<(SKind, int)>, i: int) -> Result<(SStmt, int), PErr>
    decreases ts.len() - i, 9int,
{
    match expect_tok(ts, i + 1, TokenKind::LParen, str_bytes("'(' after if")) {
        Err(e) => Err(e),
        Ok(j) => match expression(ts, j) {
            Err(e) => Err(e),
            Ok((c, k)) => match expect_tok(ts, k, TokenKind::RParen, str_bytes("')' after if condition")) {
                Err(e) => Err(e),
                Ok(m) => if advanced(ts, i, m) {
                    match block(ts, m) {
                        Err(e) => Err(e),
                        Ok((t, n)) => if is_tok(ts, n, TokenKind::Else) {
                            if !advanced(ts, i, n) {
                                Err(stuck())
                            } else if is_tok(ts, n + 1, TokenKind::If) {
                                match if_stmt(ts, n + 1) {
                                    Err(e) => Err(e),
                                    Ok((nested, q)) => Ok((SStmt::If(c, t, seq![nested]), q)),
                                }
                            } else {
                                match block(ts, n + 1) {
                                    Err(e) => Err(e),
                                    Ok((e, q)) => Ok((SStmt::If(c, t, e), q)),
                                }
                            }
                        } else {
                            Ok((SStmt::If(c, t, Seq::empty()), n))
                        },
                    }
                } else {
                    Err(stuck())
                },
            },
        },
    }
}

/// while := `while` `(` expression `)` block
#[verifier::opaque]
pub open spec fn while_stmt(ts: Seq<(SKind, int)>, i: int) -> Result<(SStmt, int), PErr>
    decreases ts.len() - i, 9int,
{
    match expect_tok(ts, i + 1, TokenKind::LParen, str_bytes("'(' after while")) {
        Err(e) => Err(e),
        Ok(j) => match expression(ts, j) {
            Err(e) => Err(e),
            Ok((c, k)) => match expect_tok(ts, k, TokenKind::RParen, str_bytes("')' after while condition")) {
                Err(e) => Err(e),
                Ok(m) => if advanced(ts, i, m) {
                    match block(ts, m) {
                        Err(e) => Err(e),
                        Ok((b, n)) => Ok((SStmt::While(c, b), n)),
                    }
                } else {
                    Err(stuck())
                },
            },
        },
    }
}

/// for := `for` `(` ( let | expression `;` ) expression `;` expression `)`
/// block, which stands for `{ init; while (cond) { body; post; } }`.
#[verifier::opaque]
pub open spec fn for_stmt(ts: Seq<(SKind, int)>, i: int) -> Result<(SStmt, int), PErr>
    decreases ts.len() - i, 9int,
{
    match expect_tok(ts, i + 1, TokenKind::LParen, str_bytes("'(' after for")) {
        Err(e) => Err(e),
        Ok(j) => match (if is_tok(ts, j, TokenKind::Let) { let_stmt(ts, j) } else { expr_stmt(ts, j) }) {
            Err(e) => Err(e),
            Ok((init, k)) => match expression(ts, k) {
                Err(e) => Err(e),
                Ok((cond, m)) => match expect_tok(ts, m, TokenKind::Semicolon, str_bytes("';' after for condition")) {
                    Err(e) => Err(e),
                    Ok(n) => match expression(ts, n) {
                        Err(e) => Err(e),
                        Ok((post, q)) => match expect_tok(ts, q, TokenKind::RParen, str_bytes("')' after for clauses")) {
                            Err(e) => Err(e),
                            Ok(r) => if advanced(ts, i, r) {
                                match block(ts, r) {
                                    Err(e) => Err(e),
                                    Ok((body, end)) => Ok((
                                        SStmt::Block(seq![init, SStmt::While(cond, body.push(SStmt::ExprStmt(post)))]),
                                        end,
                                    )),
                                }
                            } else {
                                Err(stuck())
                            },
                        },
                    },
                },
            },
        },
    }
}

/// return := `return` expression? `;`
#[verifier::opaque]
pub open spec fn return_stmt(ts: Seq<(SKind, int)>, i: int) -> Result<(SStmt, int), PErr> {
    let value: Result<(Option<SExpr>, int), PErr> = if is_tok(ts, i + 1, TokenKind::Semicolon) {
        Ok((None, i + 1))
    } else {
        match expression(ts, i + 1) {
            Err(e) => Err(e),
            Ok((v, j)) => Ok((Some(v), j)),
        }
    };
    match value {
        Err(e) => Err(e),
        Ok((v, j)) => match expect_tok(ts, j, TokenKind::Semicolon, str_bytes("';' after return")) {
            Err(e) => Err(e),
            Ok(k) => Ok((SStmt::Return(v, line_of(ts, i)), k)),
        },
    }
}

/// expression `;`
#[verifier::opaque]
pub open spec fn expr_stmt(ts: Seq<(SKind, int)>, i: int) -> Result<(SStmt, int), PErr> {
    match expression(ts, i) {
        Err(e) => Err(e),
        Ok((e, j)) => match expect_tok(ts, j, TokenKind::Semicolon, str_bytes("';' after expression")) {
            Err(x) => Err(x),
            Ok(k) => Ok((SStmt::ExprStmt(e), k)),
        },
    }
}

/// function := `fn` name `(` ( name ( `,` name )* )? `)` block
#[verifier::opaque]
pub open spec fn function_decl(ts: Seq<(SKind, int)>, i: int) -> Result<(SFun, int), PErr> {
    match expect_ident(ts, i + 1) {
        Err(e) => Err(e),
        Ok(name) => match expect_tok(ts, i + 2, TokenKind::LParen, str_bytes("'(' after function name")) {
            Err(e) => Err(e),
            Ok(j) => match (if is_tok(ts, j, TokenKind::RParen) { Ok((Seq::empty(), j)) } else { params(ts, j) }) {
                Err(e) => Err(e),
                Ok((ps, k)) => match expect_tok(ts, k, TokenKind::RParen, str_bytes("')' after parameter list")) {
                    Err(e) => Err(e),
                    Ok(m) => match block(ts, m) {
                        Err(e) => Err(e),
                        Ok((body, n)) => Ok((SFun { name, params: ps, body, line: line_of(ts, i) }, n)),
                    },
                },
            },
        },
    }
}

/// name ( `,` name )*
#[verifier::opaque]
pub open spec fn params(ts: Seq<(SKind, int)>, j: int) -> Result<(Seq<Seq<u8>>, int), PErr>
    decreases ts.len() - j,
{
    match expect_ident(ts, j) {
        Err(e) => Err(e),
        Ok(n) => if is_tok(ts, j + 1, TokenKind::Comma) {
            after_items(seq![n], params(ts, j + 2))
        } else {
            Ok((seq![n], j + 1))
        },
    }
}

/// The function declarations and the top-level statements from `i` to `Eof`.
#[verifier::opaque]
pub open spec fn program_items(ts: Seq<(SKind, int)>, i: int) -> Result<(Seq<SFun>, Seq<SStmt>), PErr>
    decreases ts.len() - i,
{
    if is_tok(ts, i, TokenKind::Eof) {
        Ok((Seq::empty(), Seq::empty()))
    } else if is_tok(ts, i, TokenKind::Fn) {
        match function_decl(ts, i) {
            Err(e) => Err(e),
            Ok((f, j)) => if advanced(ts, i, j) {
                match program_items(ts, j) {
                    Err(e) => Err(e),
                    Ok((fs, ss)) => Ok((seq![f] + fs, ss)),
                }
            } else {
                Err(stuck())
            },
        }
    } else {
        match statement(ts, i) {
            Err(e) => Err(e),
            Ok((s, j)) => if advanced(ts, i, j) {
                match program_items(ts, j) {
                    Err(e) => Err(e),
                    Ok((fs, ss)) => Ok((fs, seq![s] + ss)),
                }
            } else {
                Err(stuck())
            },
        }
    }
}

/// program := ( function | statement )* Eof
#[verifier::opaque]
pub open spec fn program(ts: Seq<(SKind, int)>) -> Result<SProgram, PErr> {
    match program_items(ts, 0) {
        Err(e) => Err(e),
        Ok((fs, ss)) => Ok(SProgram { functions: fs, main: ss }),
    }
}

/// Every infix operator is left-associative: its right binding power is one
/// more than its left, so an operator of the same class to its right does
/// not bind tighter than it does.
pub proof fn lemma_operators_left_associative(k: TokenKind)
    ensures
        binding_power(k) matches Some((l, r)) ==> r == l + 1,
{
}

/// The additive operators `+`, `-`.
pub open spec fn is_additive(k: TokenKind) -> bool {
    k == TokenKind::Plus || k == TokenKind::Minus
}

/// The multiplicative operators `*`, `/`, `%`.
pub open spec fn is_multiplicative(k: TokenKind) -> bool {
    k == TokenKind::Star || k == TokenKind::Slash || k == TokenKind::Percent
}

/// `%` binds exactly as tightly as `*` and `/`, and every multiplicative
/// operator binds more tightly than every additive one: its left binding
/// power exceeds both powers of `+` and `-`.
pub proof fn lemma_multiplicative_binds_tighter(a: TokenKind, m: TokenKind)
    requires
        is_additive(a),
        is_multiplicative(m),
    ensures
        binding_power(TokenKind::Percent) == binding_power(TokenKind::Star),
        binding_power(TokenKind::Slash) == binding_power(TokenKind::Star),
        binding_power(a) is Some,
        binding_power(m) is Some,
        binding_power(m)->Some_0.0 > binding_power(a)->Some_0.1,
        binding_power(m)->Some_0.0 > binding_power(a)->Some_0.0,
{
}

/// A number followed by the end of the expression, read at `i`.
proof fn lemma_number_operand(ts: Seq<(SKind, int)>, i: int, min_bp: u8)
    requires
        0 <= i,
        i + 1 < ts.len(),
        ts[i].0 is Num,
        infix_bp(ts[i + 1].0) is None,
        ts[i + 1].0 != SKind::Plain(TokenKind::LBracket),
    ensures
        expr_bp(ts, i, min_bp) == Ok::<(SExpr, int), PErr>((SExpr::Number(ts[i].0->Num_0), i + 1)),
{
    reveal(expr_bp);
    reveal(bp_loop);
    reveal(unary);
    reveal(postfix);
    reveal(postfix_loop);
    reveal(primary);
    assert(postfix(ts, i) == Ok::<(SExpr, int), PErr>((SExpr::Number(ts[i].0->Num_0), i + 1)));
    assert(unary(ts, i) == Ok::<(SExpr, int), PErr>((SExpr::Number(ts[i].0->Num_0), i + 1)));
}

/// In `x p y q z`, with `p` and `q` infix operators and `x`, `y`, `z`
/// numbers, `q` takes the middle operand exactly when its left binding
/// power exceeds the right binding power of `p`: the expression is then
/// `x p (y q z)`, and otherwise `(x p y) q z`.
pub proof fn lemma_two_operators_grouping(ts: Seq<(SKind, int)>, i: int, p: TokenKind, q: TokenKind)
    requires
        0 <= i,
        i + 5 < ts.len(),
        ts[i].0 is Num,
        ts[i + 1].0 == SKind::Plain(p),
        ts[i + 2].0 is Num,
        ts[i + 3].0 == SKind::Plain(q),
        ts[i + 4].0 is Num,
        binding_power(p) is Some,
        binding_power(q) is Some,
        infix_bp(ts[i + 5].0) is None,
        ts[i + 5].0 != SKind::Plain(TokenKind::LBracket),
        ts[i + 5].0 != SKind::Plain(TokenKind::Assign),
    ensures
        ({
            let x = SExpr::Number(ts[i].0->Num_0);
            let y = SExpr::Number(ts[i + 2].0->Num_0);
            let z = SExpr::Number(ts[i + 4].0->Num_0);
            let tree = if binding_power(q)->Some_0.0 > binding_power(p)->Some_0.1 {
                infix_node(SKind::Plain(p), x, infix_node(SKind::Plain(q), y, z, ts[i + 3].1), ts[i + 1].1)
            } else {
                infix_node(SKind::Plain(q), infix_node(SKind::Plain(p), x, y, ts[i + 1].1), z, ts[i + 3].1)
            };
            expression(ts, i) == Ok::<(SExpr, int), PErr>((tree, i + 5))
        }),
{
    reveal(expression);
    reveal(assignment);
    reveal(expr_bp);
    reveal(bp_loop);
    reveal(unary);
    reveal(postfix);
    reveal(postfix_loop);
    reveal(primary);
    let x = SExpr::Number(ts[i].0->Num_0);
    let y = SExpr::Number(ts[i + 2].0->Num_0);
    let z = SExpr::Number(ts[i + 4].0->Num_0);
    let (lp, rp) = binding_power(p)->Some_0;
    let (lq, rq) = binding_power(q)->Some_0;
    assert(infix_bp(kind_at(ts, i + 1)) == Some((lp, rp)));
    assert(infix_bp(kind_at(ts, i + 3)) == Some((lq, rq)));
    assert(lp >= 1 && lq >= 1);
    lemma_number_operand(ts, i + 4, rq);
    assert(postfix(ts, i + 2) == Ok::<(SExpr, int), PErr>((y, i + 3)));
    assert(unary(ts, i + 2) == Ok::<(SExpr, int), PErr>((y, i + 3)));
    assert(postfix(ts, i) == Ok::<(SExpr, int), PErr>((x, i + 1)));
    assert(unary(ts, i) == Ok::<(SExpr, int), PErr>((x, i + 1)));
    if lq > rp {
        let inner = infix_node(SKind::Plain(q), y, z, ts[i + 3].1);
        let whole = infix_node(SKind::Plain(p), x, inner, ts[i + 1].1);
        assert(bp_loop(ts, i + 5, rp, inner) == Ok::<(SExpr, int), PErr>((inner, i + 5)));
        assert(bp_loop(ts, i + 5, 1, whole) == Ok::<(SExpr, int), PErr>((whole, i + 5)));
        assert(bp_loop(ts, i + 3, rp, y) == Ok::<(SExpr, int), PErr>((inner, i + 5)));
        assert(expr_bp(ts, i + 2, rp) == Ok::<(SExpr, int), PErr>((inner, i + 5)));
        assert(bp_loop(ts, i + 1, 1, x) == Ok::<(SExpr, int), PErr>((whole, i + 5)));
        assert(expr_bp(ts, i, 1) == Ok::<(SExpr, int), PErr>((whole, i + 5)));
    } else {
        let left = infix_node(SKind::Plain(p), x, y, ts[i + 1].1);
        let whole = infix_node(SKind::Plain(q), left, z, ts[i + 3].1);
        assert(bp_loop(ts, i + 3, rp, y) == Ok::<(SExpr, int), PErr>((y, i + 3)));
        assert(expr_bp(ts, i + 2, rp) == Ok::<(SExpr, int), PErr>((y, i + 3)));
        assert(bp_loop(ts, i + 5, 1, whole) == Ok::<(SExpr, int), PErr>((whole, i + 5)));
        assert(bp_loop(ts, i + 3, 1, left) == Ok::<(SExpr, int), PErr>((whole, i + 5)));
        assert(bp_loop(ts, i + 1, 1, x) == Ok::<(SExpr, int), PErr>((whole, i + 5)));
        assert(expr_bp(ts, i, 1) == Ok::<(SExpr, int), PErr>((whole, i + 5)));
    }
}

/// The precedence levels of the infix operators, loosest first: `||`;
/// `&&`; `==` `!=`; `<` `<=` `>` `>=`; `+` `-`; `*` `/` `%`. Operators of
/// one level share their binding powers, and the left binding power of each
/// level exceeds both powers of every looser level.
pub proof fn lemma_precedence_levels()
    ensures
        binding_power(TokenKind::NotEq) == binding_power(TokenKind::EqEq),
        binding_power(TokenKind::LtEq) == binding_power(TokenKind::Lt),
        binding_power(TokenKind::Gt) == binding_power(TokenKind::Lt),
        binding_power(TokenKind::GtEq) == binding_power(TokenKind::Lt),
        binding_power(TokenKind::Minus) == binding_power(TokenKind::Plus),
        binding_power(TokenKind::Slash) == binding_power(TokenKind::Star),
        binding_power(TokenKind::Percent) == binding_power(TokenKind::Star),
        binding_power(TokenKind::OrOr) matches Some((_, r)) && binding_power(TokenKind::AndAnd) matches Some((l, _)) && r < l,
        binding_power(TokenKind::AndAnd) matches Some((_, r)) && binding_power(TokenKind::EqEq) matches Some((l, _)) && r < l,
        binding_power(TokenKind::EqEq) matches Some((_, r)) && binding_power(TokenKind::Lt) matches Some((l, _)) && r < l,
        binding_power(TokenKind::Lt) matches Some((_, r)) && binding_power(TokenKind::Plus) matches Some((l, _)) && r < l,
        binding_power(TokenKind::Plus) matches Some((_, r)) && binding_power(TokenKind::Star) matches Some((l, _)) && r < l,
{
}

/// In `x a y m z`, with `a` additive and `m` multiplicative (`1 + 7 % 4`),
/// the multiplicative operator takes the middle operand: the expression is
/// `x a (y m z)`, for all numbers `x`, `y`, `z`.
pub proof fn lemma_multiplicative_operand_grouping(ts: Seq<(SKind, int)>, i: int, a: TokenKind, m: TokenKind)
    requires
        0 <= i,
        i + 5 < ts.len(),
        ts[i].0 is Num,
        ts[i + 1].0 == SKind::Plain(a),
        ts[i + 2].0 is Num,
        ts[i + 3].0 == SKind::Plain(m),
        ts[i + 4].0 is Num,
        is_additive(a),
        is_multiplicative(m),
        infix_bp(ts[i + 5].0) is None,
        ts[i + 5].0 != SKind::Plain(TokenKind::LBracket),
        ts[i + 5].0 != SKind::Plain(TokenKind::Assign),
    ensures
        expression(ts, i) == Ok::<(SExpr, int), PErr>((
            SExpr::Binary(
                binop_of(a),
                Box::new(SExpr::Number(ts[i].0->Num_0)),
                Box::new(SExpr::Binary(
                    binop_of(m),
                    Box::new(SExpr::Number(ts[i + 2].0->Num_0)),
                    Box::new(SExpr::Number(ts[i + 4].0->Num_0)),
                    ts[i + 3].1,
                )),
                ts[i + 1].1,
            ),
            i + 5,
        )),
{
    lemma_multiplicative_binds_tighter(a, m);
    lemma_two_operators_grouping(ts, i, a, m);
}

/// Reading nothing before a list leaves it as it is.
pub proof fn lemma_after_empty<A>(r: Result<(Seq<A>, int), PErr>)
    ensures
        after_items(Seq::<A>::empty(), r) == r,
{
    if let Ok((s, j)) = r {
        assert(Seq::<A>::empty() + s =~= s);
    }
}

/// Two prefixes in turn are their concatenation.
pub proof fn lemma_after_after<A>(a: Seq<A>, b: Seq<A>, r: Result<(Seq<A>, int), PErr>)
    ensures
        after_items(a, after_items(b, r)) == after_items(a + b, r),
{
    if let Ok((s, j)) = r {
        assert(a + (b + s) =~= (a + b) + s);
    }
}

} // verus!
