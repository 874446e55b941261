//! Recursive-descent statement parser and Pratt (binding-power) expression
//! parser. Statements (`let`, `if`, `while`, `for`, `fn`, `return`, blocks)
//! each have their own function; expressions are parsed by one
//! `parse_expr_bp` loop keyed off a binding-power table, which is what
//! gives operator precedence.
use vstd::prelude::*;
use crate::ast::{
    entries_view, expr_view, exprs_view, fun_decl_view, fun_decls_view, lemma_entries_view_push,
    lemma_exprs_view_push, lemma_stmts_view_push, names_view, program_view, stmt_view, stmts_view,
    BinOp, Expr, FunctionDecl, LogicOp, Program, SExpr, SFun, SProgram, SStmt, Stmt, UnOp,
};
use crate::error::SfError;
use crate::grammar::{
    after_items, args, args_list, assignment, block, block_items, bp_loop, binding_power, entries_list,
    escaped, expect_err, expect_ident, expect_tok, expr_bp, expr_stmt, expression, for_stmt, hex_digit,
    function_decl, if_stmt, infix_bp, infix_node, is_tok, kind_at, kind_text, lemma_after_after,
    lemma_after_empty, let_stmt, line_of, map_entries, params, plain_name, postfix, postfix_loop,
    primary, print_more, print_stmt, program, program_items, quoted, return_stmt, statement, unary,
    while_stmt, PErr,
};
use crate::lexer::{lex, lex_error_is, lex_result, source_fits, tokens_view};
use crate::text::{copy_bytes, int_text, push_int, push_str, str_bytes};
use crate::token::{kind_view, SKind, Token, TokenKind};

verus! {

/// A number naming a token kind's variant, payload aside.
pub open spec fn tag(k: TokenKind) -> u8 {
    match k {
        TokenKind::Number(_) => 0,
        TokenKind::Str(_) => 1,
        TokenKind::Ident(_) => 2,
        TokenKind::Let => 3,
        TokenKind::Fn => 4,
        TokenKind::If => 5,
        TokenKind::Else => 6,
        TokenKind::While => 7,
        TokenKind::For => 8,
        TokenKind::Return => 9,
        TokenKind::True => 10,
        TokenKind::False => 11,
        TokenKind::Nil => 12,
        TokenKind::Print => 13,
        TokenKind::LParen => 14,
        TokenKind::RParen => 15,
        TokenKind::LBrace => 16,
        TokenKind::RBrace => 17,
        TokenKind::LBracket => 18,
        TokenKind::RBracket => 19,
        TokenKind::Comma => 20,
        TokenKind::Semicolon => 21,
        TokenKind::Colon => 22,
        TokenKind::Plus => 23,
        TokenKind::Minus => 24,
        TokenKind::Star => 25,
        TokenKind::Slash => 26,
        TokenKind::Percent => 27,
        TokenKind::Assign => 28,
        TokenKind::EqEq => 29,
        TokenKind::NotEq => 30,
        TokenKind::Lt => 31,
        TokenKind::LtEq => 32,
        TokenKind::Gt => 33,
        TokenKind::GtEq => 34,
        TokenKind::AndAnd => 35,
        TokenKind::OrOr => 36,
        TokenKind::Bang => 37,
        TokenKind::Eof => 38,
    }
}

fn kind_tag(k: &TokenKind) -> (t: u8)
    ensures
        t == tag(*k),
{
    match k {
        TokenKind::Number(_) => 0,
        TokenKind::Str(_) => 1,
        TokenKind::Ident(_) => 2,
        TokenKind::Let => 3,
        TokenKind::Fn => 4,
        TokenKind::If => 5,
        TokenKind::Else => 6,
        TokenKind::While => 7,
        TokenKind::For => 8,
        TokenKind::Return => 9,
        TokenKind::True => 10,
        TokenKind::False => 11,
        TokenKind::Nil => 12,
        TokenKind::Print => 13,
        TokenKind::LParen => 14,
        TokenKind::RParen => 15,
        TokenKind::LBrace => 16,
        TokenKind::RBrace => 17,
        TokenKind::LBracket => 18,
        TokenKind::RBracket => 19,
        TokenKind::Comma => 20,
        TokenKind::Semicolon => 21,
        TokenKind::Colon => 22,
        TokenKind::Plus => 23,
        TokenKind::Minus => 24,
        TokenKind::Star => 25,
        TokenKind::Slash => 26,
        TokenKind::Percent => 27,
        TokenKind::Assign => 28,
        TokenKind::EqEq => 29,
        TokenKind::NotEq => 30,
        TokenKind::Lt => 31,
        TokenKind::LtEq => 32,
        TokenKind::Gt => 33,
        TokenKind::GtEq => 34,
        TokenKind::AndAnd => 35,
        TokenKind::OrOr => 36,
        TokenKind::Bang => 37,
        TokenKind::Eof => 38,
    }
}

/// The name of a token kind's variant, as `Debug` prints it.
fn plain_kind_name(k: &TokenKind) -> (s: &'static str)
    ensures
        str_bytes(s) == plain_name(*k),
{
    reveal(plain_name);
    match k {
        TokenKind::Number(_) => "Number",
        TokenKind::Str(_) => "Str",
        TokenKind::Ident(_) => "Ident",
        TokenKind::Let => "Let",
        TokenKind::Fn => "Fn",
        TokenKind::If => "If",
        TokenKind::Else => "Else",
        TokenKind::While => "While",
        TokenKind::For => "For",
        TokenKind::Return => "Return",
        TokenKind::True => "True",
        TokenKind::False => "False",
        TokenKind::Nil => "Nil",
        TokenKind::Print => "Print",
        TokenKind::LParen => "LParen",
        TokenKind::RParen => "RParen",
        TokenKind::LBrace => "LBrace",
        TokenKind::RBrace => "RBrace",
        TokenKind::LBracket => "LBracket",
        TokenKind::RBracket => "RBracket",
        TokenKind::Comma => "Comma",
        TokenKind::Semicolon => "Semicolon",
        TokenKind::Colon => "Colon",
        TokenKind::Plus => "Plus",
        TokenKind::Minus => "Minus",
        TokenKind::Star => "Star",
        TokenKind::Slash => "Slash",
        TokenKind::Percent => "Percent",
        TokenKind::Assign => "Assign",
        TokenKind::EqEq => "EqEq",
        TokenKind::NotEq => "NotEq",
        TokenKind::Lt => "Lt",
        TokenKind::LtEq => "LtEq",
        TokenKind::Gt => "Gt",
        TokenKind::GtEq => "GtEq",
        TokenKind::AndAnd => "AndAnd",
        TokenKind::OrOr => "OrOr",
        TokenKind::Bang => "Bang",
        TokenKind::Eof => "Eof",
    }
}

/// A lower-case hexadecimal digit.
fn hex_digit_byte(d: u8) -> (r: u8)
    requires
        d < 16,
    ensures
        r == hex_digit(d),
{
    if d < 10 { 48 + d } else { 87 + d }
}

/// Appends `b` as a quoted, escaped string literal, as `Debug` shows one.
fn push_quoted(out: &mut Vec<u8>, b: &Vec<u8>)
    ensures
        final(out)@ == old(out)@ + quoted(b@),
{
    let ghost start = out@;
    out.push(34u8);
    let mut i: usize = 0;
    while i < b.len()
        invariant
            i <= b@.len(),
            out@ == start + seq![34u8] + escaped(b@.subrange(0, i as int)),
        decreases b@.len() - i,
    {
        let c = b[i];
        if c == 0 {
            out.push(92u8);
            out.push(48u8);
        } else if c == 10 {
            out.push(92u8);
            out.push(110u8);
        } else if c == 9 {
            out.push(92u8);
            out.push(116u8);
        } else if c == 13 {
            out.push(92u8);
            out.push(114u8);
        } else if c == 34 || c == 92 {
            out.push(92u8);
            out.push(c);
        } else if c < 32 || c == 127 {
            out.push(92u8);
            out.push(117u8);
            out.push(123u8);
            if c < 16 {
                out.push(hex_digit_byte(c));
            } else {
                out.push(hex_digit_byte(c / 16));
                out.push(hex_digit_byte(c % 16));
            }
            out.push(125u8);
        } else {
            out.push(c);
        }
        proof {
            let pre = b@.subrange(0, i as int);
            let next = b@.subrange(0, i + 1);
            assert(next.drop_last() =~= pre);
            assert(next.last() == c);
            assert(out@ =~= start + seq![34u8] + escaped(next));
        }
        i = i + 1;
    }
    out.push(34u8);
    assert(b@.subrange(0, b@.len() as int) =~= b@);
    assert(out@ =~= start + quoted(b@));
}

/// Appends the token kind as `Debug` shows it (a number shows as the float
/// the language's numbers stand for, such as `Number(1.0)`).
fn push_kind(out: &mut Vec<u8>, k: &TokenKind)
    ensures
        final(out)@ == old(out)@ + kind_text(kind_view(*k)),
{
    reveal(kind_text);
    reveal(plain_name);
    let ghost start = out@;
    push_str(out, plain_kind_name(k));
    match k {
        TokenKind::Number(n) => {
            push_str(out, "(");
            push_int(out, *n);
            push_str(out, ".0)");
            assert(out@ =~= start + kind_text(kind_view(*k)));
        },
        TokenKind::Str(s) => {
            push_str(out, "(");
            push_quoted(out, s);
            push_str(out, ")");
            assert(out@ =~= start + kind_text(kind_view(*k)));
        },
        TokenKind::Ident(s) => {
            push_str(out, "(");
            push_quoted(out, s);
            push_str(out, ")");
            assert(out@ =~= start + kind_text(kind_view(*k)));
        },
        _ => {},
    }
}

fn infix_binding_power(kind: &TokenKind) -> (r: Option<(u8, u8)>)
    ensures
        r == binding_power(*kind),
        r == infix_bp(kind_view(*kind)),
{
    match kind {
        TokenKind::OrOr => Some((1, 2)),
        TokenKind::AndAnd => Some((3, 4)),
        TokenKind::EqEq | TokenKind::NotEq => Some((5, 6)),
        TokenKind::Lt | TokenKind::LtEq | TokenKind::Gt | TokenKind::GtEq => Some((7, 8)),
        TokenKind::Plus | TokenKind::Minus => Some((9, 10)),
        TokenKind::Star | TokenKind::Slash | TokenKind::Percent => Some((11, 12)),
        _ => None,
    }
}

/// A variant of a payload-free kind is that kind.
proof fn lemma_tag_plain(a: TokenKind, b: TokenKind)
    requires
        tag(b) >= 3,
    ensures
        (tag(a) == tag(b)) == (kind_view(a) == SKind::Plain(b)),
{
}

/// A parser over a token list that ends with `Eof`.
pub struct Parser {
    pub tokens: Vec<Token>,
    pub pos: usize,
}

/// The parser moved forward over the same tokens, staying well formed.
pub open spec fn moved_on(before: Parser, after: Parser) -> bool {
    &&& after.wf()
    &&& after.tokens@ == before.tokens@
    &&& after.pos >= before.pos
}

/// A parse step's outcome: on success it consumed a token; an error is a
/// syntax error.
pub open spec fn parsed<T>(r: Result<T, SfError>, before: Parser, after: Parser) -> bool {
    &&& moved_on(before, after)
    &&& r is Ok ==> after.pos > before.pos
    &&& r is Err ==> r->Err_0 is Parse
}

/// The error stands for the syntax error `pe`.
pub open spec fn err_is(e: SfError, pe: PErr) -> bool {
    &&& e is Parse
    &&& e.spec_message() == pe.0
    &&& e.spec_line() as int == pe.1
}

/// Consuming a token gave what the grammar says, leaving the parser at `pos`.
pub open spec fn tok_out(r: Result<(), SfError>, pos: usize, s: Result<int, PErr>) -> bool {
    match s {
        Ok(j) => r is Ok && pos as int == j,
        Err(pe) => r is Err && err_is(r->Err_0, pe),
    }
}

/// Parsing an expression gave what the grammar says, leaving the parser at `pos`.
pub open spec fn expr_out(r: Result<Expr, SfError>, pos: usize, s: Result<(SExpr, int), PErr>) -> bool {
    match s {
        Ok((e, j)) => r is Ok && expr_view(r->Ok_0) == e && pos as int == j,
        Err(pe) => r is Err && err_is(r->Err_0, pe),
    }
}

pub open spec fn exprs_out(r: Result<Vec<Expr>, SfError>, pos: usize, s: Result<(Seq<SExpr>, int), PErr>) -> bool {
    match s {
        Ok((e, j)) => r is Ok && exprs_view(r->Ok_0@) == e && pos as int == j,
        Err(pe) => r is Err && err_is(r->Err_0, pe),
    }
}

pub open spec fn entries_out(
    r: Result<Vec<(Vec<u8>, Expr)>, SfError>,
    pos: usize,
    s: Result<(Seq<(Seq<u8>, SExpr)>, int), PErr>,
) -> bool {
    match s {
        Ok((e, j)) => r is Ok && entries_view(r->Ok_0@) == e && pos as int == j,
        Err(pe) => r is Err && err_is(r->Err_0, pe),
    }
}

pub open spec fn stmt_out(r: Result<Stmt, SfError>, pos: usize, s: Result<(SStmt, int), PErr>) -> bool {
    match s {
        Ok((e, j)) => r is Ok && stmt_view(r->Ok_0) == e && pos as int == j,
        Err(pe) => r is Err && err_is(r->Err_0, pe),
    }
}

pub open spec fn stmts_out(r: Result<Vec<Stmt>, SfError>, pos: usize, s: Result<(Seq<SStmt>, int), PErr>) -> bool {
    match s {
        Ok((e, j)) => r is Ok && stmts_view(r->Ok_0@) == e && pos as int == j,
        Err(pe) => r is Err && err_is(r->Err_0, pe),
    }
}

pub open spec fn fun_out(r: Result<FunctionDecl, SfError>, pos: usize, s: Result<(SFun, int), PErr>) -> bool {
    match s {
        Ok((f, j)) => r is Ok && fun_decl_view(r->Ok_0) == f && pos as int == j,
        Err(pe) => r is Err && err_is(r->Err_0, pe),
    }
}

/// The declarations and statements `fs` and `ss` followed by what `r` read.
pub open spec fn after_program(
    fs: Seq<SFun>,
    ss: Seq<SStmt>,
    r: Result<(Seq<SFun>, Seq<SStmt>), PErr>,
) -> Result<(Seq<SFun>, Seq<SStmt>), PErr> {
    match r {
        Ok((f2, s2)) => Ok((fs + f2, ss + s2)),
        Err(e) => Err(e),
    }
}

impl Parser {
    pub open spec fn wf(&self) -> bool {
        &&& self.tokens@.len() > 0
        &&& self.tokens@.last().kind == TokenKind::Eof
        &&& self.pos < self.tokens@.len()
    }

    pub open spec fn current(&self) -> TokenKind {
        self.tokens@[self.pos as int].kind
    }

    /// The model of the tokens.
    pub open spec fn ts(&self) -> Seq<(SKind, int)> {
        tokens_view(self.tokens@)
    }

    /// A parser at the first of `tokens`.
    pub fn new(tokens: Vec<Token>) -> (p: Parser)
        requires
            tokens@.len() > 0,
            tokens@.last().kind == TokenKind::Eof,
        ensures
            p.wf(),
            p.tokens@ == tokens@,
            p.pos == 0,
    {
        Parser { tokens, pos: 0 }
    }

    fn peek(&self) -> (t: &Token)
        requires
            self.wf(),
        ensures
            *t == self.tokens@[self.pos as int],
            kind_view(t.kind) == kind_at(self.ts(), self.pos as int),
    {
        &self.tokens[self.pos]
    }

    fn line(&self) -> (l: u32)
        requires
            self.wf(),
        ensures
            l == self.tokens@[self.pos as int].line,
            l as int == line_of(self.ts(), self.pos as int),
    {
        self.tokens[self.pos].line
    }

    fn is_eof(&self) -> (b: bool)
        requires
            self.wf(),
        ensures
            b == (self.current() == TokenKind::Eof),
            b == is_tok(self.ts(), self.pos as int, TokenKind::Eof),
    {
        match self.tokens[self.pos].kind {
            TokenKind::Eof => true,
            _ => false,
        }
    }

    /// Moves past the current token, unless it is `Eof`.
    fn advance(&mut self)
        requires
            old(self).wf(),
        ensures
            moved_on(*old(self), *final(self)),
            old(self).current() != TokenKind::Eof ==> final(self).pos == old(self).pos + 1,
    {
        // The position stays below the number of tokens, which a `usize` holds.
        let _count = self.tokens.len();
        if !self.is_eof() {
            self.pos = self.pos + 1;
        }
    }

    /// Whether the current token is of the same variant as `kind`.
    fn check(&self, kind: &TokenKind) -> (b: bool)
        requires
            self.wf(),
        ensures
            b == (tag(self.current()) == tag(*kind)),
            tag(*kind) >= 3 ==> b == is_tok(self.ts(), self.pos as int, *kind),
    {
        proof {
            if tag(*kind) >= 3 {
                lemma_tag_plain(self.current(), *kind);
            }
        }
        kind_tag(&self.tokens[self.pos].kind) == kind_tag(kind)
    }

    /// Consumes the current token if it is of the variant of `kind`.
    fn match_tok(&mut self, kind: &TokenKind) -> (b: bool)
        requires
            old(self).wf(),
            3 <= tag(*kind) < 38,
        ensures
            moved_on(*old(self), *final(self)),
            b == is_tok(old(self).ts(), old(self).pos as int, *kind),
            b ==> final(self).pos == old(self).pos + 1,
            !b ==> final(self).pos == old(self).pos,
    {
        if self.check(kind) {
            self.advance();
            true
        } else {
            false
        }
    }

    /// A syntax error `expected <what> but found <current token>`.
    fn expected(&self, what: &str) -> (e: SfError)
        requires
            self.wf(),
        ensures
            err_is(e, expect_err(self.ts(), self.pos as int, str_bytes(what))),
    {
        let mut m: Vec<u8> = Vec::new();
        push_str(&mut m, "expected ");
        push_str(&mut m, what);
        push_str(&mut m, " but found ");
        let t = self.peek();
        push_kind(&mut m, &t.kind);
        assert(m@ =~= expect_err(self.ts(), self.pos as int, str_bytes(what)).0);
        SfError::parse(m, self.line())
    }

    /// Consumes a token of the variant of `kind`, or fails.
    fn expect(&mut self, kind: &TokenKind, what: &str) -> (r: Result<(), SfError>)
        requires
            old(self).wf(),
            3 <= tag(*kind) < 38,
        ensures
            parsed(r, *old(self), *final(self)),
            tok_out(r, final(self).pos, expect_tok(old(self).ts(), old(self).pos as int, *kind, str_bytes(what))),
    {
        if self.check(kind) {
            self.advance();
            Ok(())
        } else {
            Err(self.expected(what))
        }
    }

    /// Consumes a name.
    fn expect_ident(&mut self) -> (r: Result<Vec<u8>, SfError>)
        requires
            old(self).wf(),
        ensures
            parsed(r, *old(self), *final(self)),
            match expect_ident(old(self).ts(), old(self).pos as int) {
                Ok(n) => r is Ok && r->Ok_0@ == n && final(self).pos == old(self).pos + 1,
                Err(pe) => r is Err && err_is(r->Err_0, pe),
            },
    {
        match &self.tokens[self.pos].kind {
            TokenKind::Ident(name) => {
                let name = copy_bytes(name);
                self.advance();
                Ok(name)
            },
            other => {
                let mut m: Vec<u8> = Vec::new();
                push_str(&mut m, "expected identifier but found ");
                push_kind(&mut m, other);
                assert(m@ =~= str_bytes("expected identifier but found ") + kind_text(kind_view(*other)));
                Err(SfError::parse(m, self.line()))
            },
        }
    }
}

impl Parser {
    /// A whole program: function declarations and top-level statements.
    pub fn parse_program(&mut self) -> (r: Result<Program, SfError>)
        requires
            old(self).wf(),
        ensures
            moved_on(*old(self), *final(self)),
            r is Err ==> r->Err_0 is Parse,
            r is Ok ==> final(self).current() == TokenKind::Eof,
            match program_items(old(self).ts(), old(self).pos as int) {
                Ok((fs, ss)) => r is Ok && program_view(r->Ok_0) == (SProgram { functions: fs, main: ss }),
                Err(pe) => r is Err && err_is(r->Err_0, pe),
            },
    {
        reveal(program_items);
        let ghost ts = self.ts();
        let ghost i0 = self.pos as int;
        let mut functions: Vec<FunctionDecl> = Vec::new();
        let mut main: Vec<Stmt> = Vec::new();
        let mut err: Option<SfError> = None;
        proof {
            assert(after_program(Seq::empty(), Seq::empty(), program_items(ts, i0)) == program_items(ts, i0)) by {
                if let Ok((f2, s2)) = program_items(ts, i0) {
                    assert(Seq::<SFun>::empty() + f2 =~= f2);
                    assert(Seq::<SStmt>::empty() + s2 =~= s2);
                }
            }
            assert(fun_decls_view(functions@) =~= Seq::empty());
        }
        while err.is_none() && !self.is_eof()
            invariant
                moved_on(*old(self), *self),
                self.ts() == ts,
                err is None ==> program_items(ts, i0) == after_program(
                    fun_decls_view(functions@),
                    stmts_view(main@),
                    program_items(ts, self.pos as int),
                ),
                err matches Some(e) ==> program_items(ts, i0) is Err && err_is(e, program_items(ts, i0)->Err_0),
            decreases self.tokens@.len() - self.pos + if err is None { 1int } else { 0int },
        {
            reveal(program_items);
            let ghost p = self.pos as int;
            if self.check(&TokenKind::Fn) {
                match self.parse_function_decl() {
                    Ok(f) => {
                        proof {
                            let fv = fun_decl_view(f);
                            assert(fun_decls_view(functions@.push(f)) =~= fun_decls_view(functions@).push(fv));
                            if let Ok((f2, s2)) = program_items(ts, self.pos as int) {
                                assert(fun_decls_view(functions@) + (seq![fv] + f2)
                                    =~= fun_decls_view(functions@).push(fv) + f2);
                            }
                        }
                        functions.push(f);
                    },
                    Err(e) => err = Some(e),
                }
            } else {
                match self.parse_statement() {
                    Ok(st) => {
                        proof {
                            let sv = stmt_view(st);
                            lemma_stmts_view_push(main@, st);
                            if let Ok((f2, s2)) = program_items(ts, self.pos as int) {
                                assert(stmts_view(main@) + (seq![sv] + s2) =~= stmts_view(main@).push(sv) + s2);
                            }
                        }
                        main.push(st);
                    },
                    Err(e) => err = Some(e),
                }
            }
        }
        match err {
            Some(e) => Err(e),
            None => {
                proof {
                    assert(fun_decls_view(functions@) + Seq::empty() =~= fun_decls_view(functions@));
                    assert(stmts_view(main@) + Seq::empty() =~= stmts_view(main@));
                }
                Ok(Program { functions, main })
            },
        }
    }

    /// `fn name(params) { body }`.
    fn parse_function_decl(&mut self) -> (r: Result<FunctionDecl, SfError>)
        requires
            old(self).wf(),
            old(self).current() == TokenKind::Fn,
        ensures
            parsed(r, *old(self), *final(self)),
            fun_out(r, final(self).pos, function_decl(old(self).ts(), old(self).pos as int)),
    {
        reveal(function_decl);
        reveal(params);
        let ghost ts = self.ts();
        let ghost i = self.pos as int;
        let line = self.line();
        self.advance();
        let name = self.expect_ident()?;
        self.expect(&TokenKind::LParen, "'(' after function name")?;
        let ghost j = self.pos as int;
        let mut ps: Vec<Vec<u8>> = Vec::new();
        assert(names_view(ps@) =~= Seq::empty());
        let mut err: Option<SfError> = None;
        if !self.check(&TokenKind::RParen) {
            let mut more = true;
            proof {
                lemma_after_empty(params(ts, j));
                assert(names_view(ps@) =~= Seq::empty());
            }
            while more && err.is_none()
                invariant
                    moved_on(*old(self), *self),
                    self.ts() == ts,
                    self.pos > old(self).pos,
                    err is None && more ==> params(ts, j) == after_items(names_view(ps@), params(ts, self.pos as int)),
                    err is None && !more ==> params(ts, j) == Ok::<(Seq<Seq<u8>>, int), PErr>((names_view(ps@), self.pos as int)),
                    err matches Some(e) ==> params(ts, j) is Err && err_is(e, params(ts, j)->Err_0),
                decreases self.tokens@.len() - self.pos + if more && err is None { 1int } else { 0int },
            {
                reveal(function_decl);
                reveal(params);
                let ghost q = self.pos as int;
                match self.expect_ident() {
                    Ok(p) => {
                        proof {
                            assert(names_view(ps@.push(p)) =~= names_view(ps@).push(p@));
                            lemma_after_after(names_view(ps@), seq![p@], params(ts, q + 2));
                            assert(names_view(ps@) + seq![p@] =~= names_view(ps@).push(p@));
                        }
                        ps.push(p);
                        more = self.match_tok(&TokenKind::Comma);
                    },
                    Err(e) => err = Some(e),
                }
            }
        }
        if let Some(e) = err {
            return Err(e);
        }
        self.expect(&TokenKind::RParen, "')' after parameter list")?;
        let body = self.parse_block()?;
        Ok(FunctionDecl { name, params: ps, body, line })
    }

    /// `{ statements }`.
    fn parse_block(&mut self) -> (r: Result<Vec<Stmt>, SfError>)
        requires
            old(self).wf(),
        ensures
            parsed(r, *old(self), *final(self)),
            stmts_out(r, final(self).pos, block(old(self).ts(), old(self).pos as int)),
        decreases old(self).tokens@.len() - old(self).pos, 9int,
    {
        reveal(block);
        reveal(block_items);
        reveal(statement);
        let ghost ts = self.ts();
        self.expect(&TokenKind::LBrace, "'{'")?;
        let ghost j = self.pos as int;
        let mut stmts: Vec<Stmt> = Vec::new();
        let mut err: Option<SfError> = None;
        proof {
            lemma_after_empty(block_items(ts, j));
            assert(stmts_view(stmts@) =~= Seq::empty());
        }
        while err.is_none() && !self.check(&TokenKind::RBrace) && !self.is_eof()
            invariant
                moved_on(*old(self), *self),
                self.ts() == ts,
                self.pos > old(self).pos,
                err is None ==> block_items(ts, j) == after_items(stmts_view(stmts@), block_items(ts, self.pos as int)),
                err matches Some(e) ==> block_items(ts, j) is Err && err_is(e, block_items(ts, j)->Err_0),
            decreases self.tokens@.len() - self.pos + if err is None { 1int } else { 0int },
        {
            reveal(block);
            reveal(block_items);
            reveal(statement);
            let ghost q = self.pos as int;
            match self.parse_statement() {
                Ok(st) => {
                    proof {
                        lemma_stmts_view_push(stmts@, st);
                        lemma_after_after(stmts_view(stmts@), seq![stmt_view(st)], block_items(ts, self.pos as int));
                        assert(stmts_view(stmts@) + seq![stmt_view(st)] =~= stmts_view(stmts@).push(stmt_view(st)));
                    }
                    stmts.push(st);
                },
                Err(e) => err = Some(e),
            }
        }
        if let Some(e) = err {
            return Err(e);
        }
        proof {
            assert(stmts_view(stmts@) + Seq::empty() =~= stmts_view(stmts@));
        }
        self.expect(&TokenKind::RBrace, "'}'")?;
        Ok(stmts)
    }

    fn parse_statement(&mut self) -> (r: Result<Stmt, SfError>)
        requires
            old(self).wf(),
        ensures
            parsed(r, *old(self), *final(self)),
            stmt_out(r, final(self).pos, statement(old(self).ts(), old(self).pos as int)),
        decreases old(self).tokens@.len() - old(self).pos, 10int,
    {
        reveal(statement);
        reveal(block);
        reveal(if_stmt);
        reveal(while_stmt);
        reveal(for_stmt);
        match &self.tokens[self.pos].kind {
            TokenKind::Let => self.parse_let(),
            TokenKind::Print => self.parse_print(),
            TokenKind::If => self.parse_if(),
            TokenKind::While => self.parse_while(),
            TokenKind::For => self.parse_for(),
            TokenKind::Return => self.parse_return(),
            TokenKind::LBrace => {
                let b = self.parse_block()?;
                Ok(Stmt::Block(b))
            },
            _ => self.parse_expr_stmt(),
        }
    }

    /// `let name = expr;`
    fn parse_let(&mut self) -> (r: Result<Stmt, SfError>)
        requires
            old(self).wf(),
            old(self).current() == TokenKind::Let,
        ensures
            parsed(r, *old(self), *final(self)),
            stmt_out(r, final(self).pos, let_stmt(old(self).ts(), old(self).pos as int)),
        decreases old(self).tokens@.len() - old(self).pos, 9int,
    {
        reveal(let_stmt);
        let line = self.line();
        self.advance();
        let name = self.expect_ident()?;
        self.expect(&TokenKind::Assign, "'=' in let binding")?;
        let value = self.parse_expression()?;
        self.expect(&TokenKind::Semicolon, "';' after let binding")?;
        Ok(Stmt::Let(name, value, line))
    }

    /// `print expr, expr, ...;`
    fn parse_print(&mut self) -> (r: Result<Stmt, SfError>)
        requires
            old(self).wf(),
            old(self).current() == TokenKind::Print,
        ensures
            parsed(r, *old(self), *final(self)),
            stmt_out(r, final(self).pos, print_stmt(old(self).ts(), old(self).pos as int)),
        decreases old(self).tokens@.len() - old(self).pos, 9int,
    {
        reveal(print_stmt);
        reveal(print_more);
        let ghost ts = self.ts();
        let line = self.line();
        self.advance();
        let first = self.parse_expression()?;
        let ghost j = self.pos as int;
        let mut parts: Vec<Expr> = Vec::new();
        parts.push(first);
        let ghost mut done: Seq<SExpr> = Seq::empty();
        let ghost mut c: int = j;
        proof {
            lemma_exprs_view_push(Seq::empty(), first);
            assert(exprs_view(Seq::<Expr>::empty()) =~= Seq::empty());
            assert(exprs_view(parts@) =~= seq![expr_view(first)] + done);
            lemma_after_empty(print_more(ts, j));
        }
        let mut err: Option<SfError> = None;
        let mut more = self.match_tok(&TokenKind::Comma);
        while more && err.is_none()
            invariant
                moved_on(*old(self), *self),
                self.ts() == ts,
                self.pos > old(self).pos,
                exprs_view(parts@) == seq![expr_view(first)] + done,
                err is None && more ==> is_tok(ts, c, TokenKind::Comma) && self.pos as int == c + 1
                    && print_more(ts, j) == after_items(done, print_more(ts, c)),
                err is None && !more ==> print_more(ts, j) == Ok::<(Seq<SExpr>, int), PErr>((done, self.pos as int)),
                err matches Some(e) ==> print_more(ts, j) is Err && err_is(e, print_more(ts, j)->Err_0),
            decreases self.tokens@.len() - self.pos + if more && err is None { 1int } else { 0int },
        {
            reveal(print_stmt);
            reveal(print_more);
            match self.parse_expression() {
                Ok(e) => {
                    proof {
                        let k = self.pos as int;
                        lemma_exprs_view_push(parts@, e);
                        lemma_after_after(done, seq![expr_view(e)], print_more(ts, k));
                        assert(done + seq![expr_view(e)] =~= done.push(expr_view(e)));
                        assert(seq![expr_view(first)] + done.push(expr_view(e))
                            =~= (seq![expr_view(first)] + done).push(expr_view(e)));
                        if !is_tok(ts, k, TokenKind::Comma) {
                            assert(done.push(expr_view(e)) + Seq::empty() =~= done.push(expr_view(e)));
                        }
                        done = done.push(expr_view(e));
                        c = k;
                    }
                    parts.push(e);
                    more = self.match_tok(&TokenKind::Comma);
                },
                Err(e) => err = Some(e),
            }
        }
        if let Some(e) = err {
            return Err(e);
        }
        self.expect(&TokenKind::Semicolon, "';' after print statement")?;
        Ok(Stmt::Print(parts, line))
    }

    /// `if (cond) { ... } else if ... else { ... }`
    fn parse_if(&mut self) -> (r: Result<Stmt, SfError>)
        requires
            old(self).wf(),
            old(self).current() == TokenKind::If,
        ensures
            parsed(r, *old(self), *final(self)),
            stmt_out(r, final(self).pos, if_stmt(old(self).ts(), old(self).pos as int)),
        decreases old(self).tokens@.len() - old(self).pos, 9int,
    {
        reveal(if_stmt);
        reveal(block);
        self.advance();
        self.expect(&TokenKind::LParen, "'(' after if")?;
        let cond = self.parse_expression()?;
        self.expect(&TokenKind::RParen, "')' after if condition")?;
        let then_branch = self.parse_block()?;
        let mut else_branch: Vec<Stmt> = Vec::new();
        proof {
            assert(stmts_view(else_branch@) =~= Seq::empty());
        }
        if self.match_tok(&TokenKind::Else) {
            if self.check(&TokenKind::If) {
                let nested = self.parse_if()?;
                proof {
                    lemma_stmts_view_push(else_branch@, nested);
                    assert(stmts_view(else_branch@).push(stmt_view(nested)) =~= seq![stmt_view(nested)]);
                }
                else_branch.push(nested);
            } else {
                else_branch = self.parse_block()?;
            }
        }
        Ok(Stmt::If(cond, then_branch, else_branch))
    }

    /// `while (cond) { ... }`
    fn parse_while(&mut self) -> (r: Result<Stmt, SfError>)
        requires
            old(self).wf(),
            old(self).current() == TokenKind::While,
        ensures
            parsed(r, *old(self), *final(self)),
            stmt_out(r, final(self).pos, while_stmt(old(self).ts(), old(self).pos as int)),
        decreases old(self).tokens@.len() - old(self).pos, 9int,
    {
        reveal(while_stmt);
        reveal(block);
        self.advance();
        self.expect(&TokenKind::LParen, "'(' after while")?;
        let cond = self.parse_expression()?;
        self.expect(&TokenKind::RParen, "')' after while condition")?;
        let body = self.parse_block()?;
        Ok(Stmt::While(cond, body))
    }

    /// Desugars `for (init; cond; post) { body }` into
    /// `{ init; while (cond) { body; post; } }`.
    fn parse_for(&mut self) -> (r: Result<Stmt, SfError>)
        requires
            old(self).wf(),
            old(self).current() == TokenKind::For,
        ensures
            parsed(r, *old(self), *final(self)),
            stmt_out(r, final(self).pos, for_stmt(old(self).ts(), old(self).pos as int)),
        decreases old(self).tokens@.len() - old(self).pos, 9int,
    {
        reveal(for_stmt);
        reveal(block);
        self.advance();
        self.expect(&TokenKind::LParen, "'(' after for")?;
        let init = if self.check(&TokenKind::Let) {
            self.parse_let()?
        } else {
            self.parse_expr_stmt()?
        };
        let cond = self.parse_expression()?;
        self.expect(&TokenKind::Semicolon, "';' after for condition")?;
        let post = self.parse_expression()?;
        self.expect(&TokenKind::RParen, "')' after for clauses")?;
        let mut body = self.parse_block()?;
        let ghost body0 = body@;
        let post_stmt = Stmt::ExprStmt(post);
        proof {
            lemma_stmts_view_push(body0, post_stmt);
        }
        body.push(post_stmt);
        let mut outer: Vec<Stmt> = Vec::new();
        outer.push(init);
        let w = Stmt::While(cond, body);
        proof {
            lemma_stmts_view_push(Seq::empty(), init);
            lemma_stmts_view_push(seq![init], w);
            assert(Seq::<Stmt>::empty().push(init) =~= seq![init]);
            assert(seq![init].push(w) =~= outer@.push(w));
            assert(stmts_view(Seq::<Stmt>::empty()) =~= Seq::empty());
            assert(stmts_view(outer@.push(w)) =~= seq![stmt_view(init), stmt_view(w)]);
        }
        outer.push(w);
        Ok(Stmt::Block(outer))
    }

    /// `return;` or `return expr;`
    fn parse_return(&mut self) -> (r: Result<Stmt, SfError>)
        requires
            old(self).wf(),
            old(self).current() == TokenKind::Return,
        ensures
            parsed(r, *old(self), *final(self)),
            stmt_out(r, final(self).pos, return_stmt(old(self).ts(), old(self).pos as int)),
        decreases old(self).tokens@.len() - old(self).pos, 9int,
    {
        reveal(return_stmt);
        let line = self.line();
        self.advance();
        let value = if self.check(&TokenKind::Semicolon) {
            None
        } else {
            Some(self.parse_expression()?)
        };
        self.expect(&TokenKind::Semicolon, "';' after return")?;
        Ok(Stmt::Return(value, line))
    }

    /// `expr;`
    fn parse_expr_stmt(&mut self) -> (r: Result<Stmt, SfError>)
        requires
            old(self).wf(),
        ensures
            parsed(r, *old(self), *final(self)),
            stmt_out(r, final(self).pos, expr_stmt(old(self).ts(), old(self).pos as int)),
        decreases old(self).tokens@.len() - old(self).pos, 9int,
    {
        reveal(expr_stmt);
        let expr = self.parse_expression()?;
        self.expect(&TokenKind::Semicolon, "';' after expression")?;
        Ok(Stmt::ExprStmt(expr))
    }

    fn parse_expression(&mut self) -> (r: Result<Expr, SfError>)
        requires
            old(self).wf(),
        ensures
            parsed(r, *old(self), *final(self)),
            expr_out(r, final(self).pos, expression(old(self).ts(), old(self).pos as int)),
        decreases old(self).tokens@.len() - old(self).pos, 8int,
    {
        reveal(expression);
        reveal(assignment);
        self.parse_assignment()
    }

    /// An assignment (right-associative) or any lower expression.
    fn parse_assignment(&mut self) -> (r: Result<Expr, SfError>)
        requires
            old(self).wf(),
        ensures
            parsed(r, *old(self), *final(self)),
            expr_out(r, final(self).pos, assignment(old(self).ts(), old(self).pos as int)),
        decreases old(self).tokens@.len() - old(self).pos, 7int,
    {
        reveal(assignment);
        reveal(expr_bp);
        let line = self.line();
        let target = self.parse_expr_bp(1)?;
        if self.check(&TokenKind::Assign) {
            self.advance();
            let value = self.parse_assignment()?;
            return match target {
                Expr::Ident(name, _) => Ok(Expr::Assign(name, Box::new(value), line)),
                Expr::Index(arr, idx, iline) => Ok(Expr::IndexAssign(arr, idx, Box::new(value), iline)),
                _ => {
                    let mut m: Vec<u8> = Vec::new();
                    push_str(&mut m, "invalid assignment target");
                    assert(m@ =~= str_bytes("invalid assignment target"));
                    Err(SfError::parse(m, line))
                },
            };
        }
        Ok(target)
    }

    /// An expression whose infix operators bind at least as tightly as `min_bp`.
    fn parse_expr_bp(&mut self, min_bp: u8) -> (r: Result<Expr, SfError>)
        requires
            old(self).wf(),
        ensures
            parsed(r, *old(self), *final(self)),
            expr_out(r, final(self).pos, expr_bp(old(self).ts(), old(self).pos as int, min_bp)),
        decreases old(self).tokens@.len() - old(self).pos, 6int,
    {
        reveal(expr_bp);
        reveal(bp_loop);
        reveal(unary);
        let ghost ts = self.ts();
        let ghost i = self.pos as int;
        let first = self.parse_unary()?;
        let mut lhs: Option<Expr> = Some(first);
        let mut err: Option<SfError> = None;
        let mut more = true;
        while more && err.is_none()
            invariant
                moved_on(*old(self), *self),
                self.ts() == ts,
                self.pos > old(self).pos,
                err is None ==> lhs is Some,
                err is None && more ==> expr_bp(ts, i, min_bp) == bp_loop(ts, self.pos as int, min_bp, expr_view(lhs->Some_0)),
                err is None && !more ==> expr_bp(ts, i, min_bp) == Ok::<(SExpr, int), PErr>((expr_view(lhs->Some_0), self.pos as int)),
                err matches Some(e) ==> expr_bp(ts, i, min_bp) is Err && err_is(e, expr_bp(ts, i, min_bp)->Err_0),
            decreases self.tokens@.len() - self.pos + if more && err is None { 1int } else { 0int },
        {
            reveal(expr_bp);
            reveal(bp_loop);
            reveal(unary);
            let ghost p = self.pos as int;
            let kind = &self.tokens[self.pos].kind;
            match infix_binding_power(kind) {
                None => {
                    more = false;
                },
                Some((l_bp, r_bp)) => {
                    if l_bp < min_bp {
                        more = false;
                    } else {
                        let op_tag = kind_tag(kind);
                        let ghost op = kind_view(*kind);
                        let line = self.line();
                        self.advance();
                        match self.parse_expr_bp(r_bp) {
                            Ok(rhs) => {
                                let l = lhs.take().unwrap();
                                let ghost lv = expr_view(l);
                                let ghost rv = expr_view(rhs);
                                let e = if op_tag == 36 {
                                    Expr::Logical(LogicOp::Or, Box::new(l), Box::new(rhs))
                                } else if op_tag == 35 {
                                    Expr::Logical(LogicOp::And, Box::new(l), Box::new(rhs))
                                } else {
                                    let op = if op_tag == 29 { BinOp::Eq }
                                        else if op_tag == 30 { BinOp::NotEq }
                                        else if op_tag == 31 { BinOp::Lt }
                                        else if op_tag == 32 { BinOp::LtEq }
                                        else if op_tag == 33 { BinOp::Gt }
                                        else if op_tag == 34 { BinOp::GtEq }
                                        else if op_tag == 23 { BinOp::Add }
                                        else if op_tag == 24 { BinOp::Sub }
                                        else if op_tag == 25 { BinOp::Mul }
                                        else if op_tag == 26 { BinOp::Div }
                                        else { BinOp::Mod };
                                    Expr::Binary(op, Box::new(l), Box::new(rhs), line)
                                };
                                assert(expr_view(e) == infix_node(op, lv, rv, line_of(ts, p)));
                                lhs = Some(e);
                            },
                            Err(e) => err = Some(e),
                        }
                    }
                },
            }
        }
        match err {
            Some(e) => Err(e),
            None => Ok(lhs.unwrap()),
        }
    }

    /// `!x`, `-x`, or a postfix expression.
    fn parse_unary(&mut self) -> (r: Result<Expr, SfError>)
        requires
            old(self).wf(),
        ensures
            parsed(r, *old(self), *final(self)),
            expr_out(r, final(self).pos, unary(old(self).ts(), old(self).pos as int)),
        decreases old(self).tokens@.len() - old(self).pos, 5int,
    {
        reveal(unary);
        reveal(postfix);
        let line = self.line();
        if self.match_tok(&TokenKind::Bang) {
            let operand = self.parse_unary()?;
            return Ok(Expr::Unary(UnOp::Not, Box::new(operand), line));
        }
        if self.match_tok(&TokenKind::Minus) {
            let operand = self.parse_unary()?;
            return Ok(Expr::Unary(UnOp::Neg, Box::new(operand), line));
        }
        self.parse_postfix()
    }

    /// A primary expression followed by any number of `[index]`.
    fn parse_postfix(&mut self) -> (r: Result<Expr, SfError>)
        requires
            old(self).wf(),
        ensures
            parsed(r, *old(self), *final(self)),
            expr_out(r, final(self).pos, postfix(old(self).ts(), old(self).pos as int)),
        decreases old(self).tokens@.len() - old(self).pos, 4int,
    {
        reveal(postfix);
        reveal(postfix_loop);
        reveal(primary);
        reveal(expression);
        let ghost ts = self.ts();
        let ghost i = self.pos as int;
        let first = self.parse_primary()?;
        let mut expr: Option<Expr> = Some(first);
        let mut err: Option<SfError> = None;
        while err.is_none() && self.check(&TokenKind::LBracket)
            invariant
                moved_on(*old(self), *self),
                self.ts() == ts,
                self.pos > old(self).pos,
                err is None ==> expr is Some,
                err is None ==> postfix(ts, i) == postfix_loop(ts, self.pos as int, expr_view(expr->Some_0)),
                err matches Some(e) ==> postfix(ts, i) is Err && err_is(e, postfix(ts, i)->Err_0),
            decreases self.tokens@.len() - self.pos + if err is None { 1int } else { 0int },
        {
            reveal(postfix);
            reveal(postfix_loop);
            reveal(primary);
            reveal(expression);
            let line = self.line();
            self.advance();
            match self.parse_expression() {
                Ok(index) => {
                    match self.expect(&TokenKind::RBracket, "']' after index expression") {
                        Ok(()) => {
                            let base = expr.take().unwrap();
                            expr = Some(Expr::Index(Box::new(base), Box::new(index), line));
                        },
                        Err(e) => err = Some(e),
                    }
                },
                Err(e) => err = Some(e),
            }
        }
        match err {
            Some(e) => Err(e),
            None => Ok(expr.unwrap()),
        }
    }

    /// Literals, names, calls, parenthesized expressions, array and map literals.
    fn parse_primary(&mut self) -> (r: Result<Expr, SfError>)
        requires
            old(self).wf(),
        ensures
            parsed(r, *old(self), *final(self)),
            expr_out(r, final(self).pos, primary(old(self).ts(), old(self).pos as int)),
        decreases old(self).tokens@.len() - old(self).pos, 3int,
    {
        reveal(primary);
        reveal(args);
        reveal(map_entries);
        reveal(expression);
        let line = self.line();
        match &self.tokens[self.pos].kind {
            TokenKind::Number(n) => {
                let n = *n;
                self.advance();
                Ok(Expr::Number(n))
            },
            TokenKind::Str(s) => {
                let s = copy_bytes(s);
                self.advance();
                Ok(Expr::Str(s))
            },
            TokenKind::True => {
                self.advance();
                Ok(Expr::Bool(true))
            },
            TokenKind::False => {
                self.advance();
                Ok(Expr::Bool(false))
            },
            TokenKind::Nil => {
                self.advance();
                Ok(Expr::Nil)
            },
            TokenKind::Ident(name) => {
                let name = copy_bytes(name);
                self.advance();
                if self.check(&TokenKind::LParen) {
                    self.advance();
                    let call_args = self.parse_args()?;
                    self.expect(&TokenKind::RParen, "')' after call arguments")?;
                    Ok(Expr::Call(name, call_args, line))
                } else {
                    Ok(Expr::Ident(name, line))
                }
            },
            TokenKind::LParen => {
                self.advance();
                let expr = self.parse_expression()?;
                self.expect(&TokenKind::RParen, "')' after parenthesized expression")?;
                Ok(expr)
            },
            TokenKind::LBracket => {
                self.advance();
                let items = self.parse_args()?;
                self.expect(&TokenKind::RBracket, "']' after array literal")?;
                Ok(Expr::Array(items))
            },
            TokenKind::LBrace => {
                self.advance();
                let entries = self.parse_map_entries()?;
                self.expect(&TokenKind::RBrace, "'}' after map literal")?;
                Ok(Expr::Dict(entries))
            },
            other => {
                let mut m: Vec<u8> = Vec::new();
                push_str(&mut m, "unexpected token ");
                push_kind(&mut m, other);
                assert(m@ =~= str_bytes("unexpected token ") + kind_text(kind_view(*other)));
                Err(SfError::parse(m, line))
            },
        }
    }

    /// The `"key": value` entries of a map literal, after its `{`.
    fn parse_map_entries(&mut self) -> (r: Result<Vec<(Vec<u8>, Expr)>, SfError>)
        requires
            old(self).wf(),
        ensures
            moved_on(*old(self), *final(self)),
            r is Err ==> r->Err_0 is Parse,
            entries_out(r, final(self).pos, map_entries(old(self).ts(), old(self).pos as int)),
        decreases old(self).tokens@.len() - old(self).pos, 10int,
    {
        reveal(map_entries);
        reveal(entries_list);
        reveal(expression);
        let ghost ts = self.ts();
        let ghost i = self.pos as int;
        let mut entries: Vec<(Vec<u8>, Expr)> = Vec::new();
        proof {
            assert(entries_view(entries@) =~= Seq::empty());
        }
        if self.check(&TokenKind::RBrace) {
            return Ok(entries);
        }
        let mut err: Option<SfError> = None;
        let mut more = true;
        proof {
            lemma_after_empty(entries_list(ts, i));
        }
        while more && err.is_none()
            invariant
                moved_on(*old(self), *self),
                self.ts() == ts,
                err is None && more ==> entries_list(ts, i) == after_items(entries_view(entries@), entries_list(ts, self.pos as int)),
                err is None && !more ==> entries_list(ts, i) == Ok::<(Seq<(Seq<u8>, SExpr)>, int), PErr>((entries_view(entries@), self.pos as int)),
                err matches Some(e) ==> entries_list(ts, i) is Err && err_is(e, entries_list(ts, i)->Err_0),
            decreases self.tokens@.len() - self.pos + if more && err is None { 1int } else { 0int },
        {
            reveal(map_entries);
            reveal(entries_list);
            reveal(expression);
            let ghost q = self.pos as int;
            match &self.tokens[self.pos].kind {
                TokenKind::Str(s) => {
                    let key = copy_bytes(s);
                    self.advance();
                    match self.expect(&TokenKind::Colon, "':' after map key") {
                        Ok(()) => {
                            match self.parse_expression() {
                                Ok(value) => {
                                    proof {
                                        let ev = (key@, expr_view(value));
                                        lemma_entries_view_push(entries@, (key, value));
                                        lemma_after_after(entries_view(entries@), seq![ev], entries_list(ts, self.pos + 1));
                                        assert(entries_view(entries@) + seq![ev] =~= entries_view(entries@).push(ev));
                                    }
                                    entries.push((key, value));
                                    more = self.match_tok(&TokenKind::Comma);
                                },
                                Err(e) => err = Some(e),
                            }
                        },
                        Err(e) => err = Some(e),
                    }
                },
                other => {
                    let mut m: Vec<u8> = Vec::new();
                    push_str(&mut m, "expected string key in map literal, found ");
                    push_kind(&mut m, other);
                    assert(m@ =~= str_bytes("expected string key in map literal, found ") + kind_text(kind_view(*other)));
                    err = Some(SfError::parse(m, self.line()));
                },
            }
        }
        match err {
            Some(e) => Err(e),
            None => Ok(entries),
        }
    }

    /// Comma-separated expressions up to a `)` or `]` (not consumed).
    fn parse_args(&mut self) -> (r: Result<Vec<Expr>, SfError>)
        requires
            old(self).wf(),
        ensures
            moved_on(*old(self), *final(self)),
            r is Err ==> r->Err_0 is Parse,
            exprs_out(r, final(self).pos, args(old(self).ts(), old(self).pos as int)),
        decreases old(self).tokens@.len() - old(self).pos, 10int,
    {
        reveal(args);
        reveal(args_list);
        reveal(expression);
        let ghost ts = self.ts();
        let ghost i = self.pos as int;
        let mut items: Vec<Expr> = Vec::new();
        proof {
            assert(exprs_view(items@) =~= Seq::empty());
        }
        if self.check(&TokenKind::RParen) || self.check(&TokenKind::RBracket) {
            return Ok(items);
        }
        let mut err: Option<SfError> = None;
        let mut more = true;
        proof {
            lemma_after_empty(args_list(ts, i));
        }
        while more && err.is_none()
            invariant
                moved_on(*old(self), *self),
                self.ts() == ts,
                err is None && more ==> args_list(ts, i) == after_items(exprs_view(items@), args_list(ts, self.pos as int)),
                err is None && !more ==> args_list(ts, i) == Ok::<(Seq<SExpr>, int), PErr>((exprs_view(items@), self.pos as int)),
                err matches Some(e) ==> args_list(ts, i) is Err && err_is(e, args_list(ts, i)->Err_0),
            decreases self.tokens@.len() - self.pos + if more && err is None { 1int } else { 0int },
        {
            reveal(args);
            reveal(args_list);
            reveal(expression);
            match self.parse_expression() {
                Ok(e) => {
                    proof {
                        let ev = expr_view(e);
                        lemma_exprs_view_push(items@, e);
                        lemma_after_after(exprs_view(items@), seq![ev], args_list(ts, self.pos + 1));
                        assert(exprs_view(items@) + seq![ev] =~= exprs_view(items@).push(ev));
                    }
                    items.push(e);
                    more = self.match_tok(&TokenKind::Comma);
                },
                Err(e) => err = Some(e),
            }
        }
        match err {
            Some(e) => Err(e),
            None => Ok(items),
        }
    }
}

/// Lexes and parses a whole program: the program the grammar reads in the
/// tokens of `src`, or the first lexical or syntax error.
pub fn parse(src: &str) -> (r: Result<Program, SfError>)
    requires
        source_fits(str_bytes(src)),
    ensures
        match lex_result(str_bytes(src)) {
            Err(le) => r is Err && lex_error_is(r->Err_0, le),
            Ok(ts) => match program(ts) {
                Ok(p) => r is Ok && program_view(r->Ok_0) == p,
                Err(pe) => r is Err && err_is(r->Err_0, pe),
            },
        },
{
    reveal(program);
    let tokens = lex(src)?;
    proof {
        crate::lexer::lemma_tokens_end_with_eof(str_bytes(src), 0);
        let t = tokens_view(tokens@);
        assert(t[t.len() - 1] == (kind_view(tokens@.last().kind), tokens@.last().line as int));
    }
    Parser::new(tokens).parse_program()
}

} // verus!
