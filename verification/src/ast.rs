//! Abstract syntax tree produced by the parser and shared by both execution
//! back ends: the tree-walking interpreter evaluates it directly, and the
//! bytecode compiler walks it once to emit `OpCode`s.
use vstd::prelude::*;

verus! {

#[derive(Debug, Clone, Copy, PartialEq, Eq, Structural)]
pub enum BinOp {
    Add,
    Sub,
    Mul,
    Div,
    Mod,
    Eq,
    NotEq,
    Lt,
    LtEq,
    Gt,
    GtEq,
}

#[derive(Debug, Clone, Copy, PartialEq, Eq, Structural)]
pub enum LogicOp {
    And,
    Or,
}

#[derive(Debug, Clone, Copy, PartialEq, Eq, Structural)]
pub enum UnOp {
    Neg,
    Not,
}

/// An expression. Numbers are the integers that a 64-bit float holds exactly
/// (see `value::MAX_SAFE`); names and strings are UTF-8 bytes; `u32` fields
/// are source lines.
#[derive(Debug)]
pub enum Expr {
    Number(i64),
    Str(Vec<u8>),
    Bool(bool),
    Nil,
    Ident(Vec<u8>, u32),
    Array(Vec<Expr>),
    Dict(Vec<(Vec<u8>, Expr)>),
    Index(Box<Expr>, Box<Expr>, u32),
    Unary(UnOp, Box<Expr>, u32),
    Binary(BinOp, Box<Expr>, Box<Expr>, u32),
    Logical(LogicOp, Box<Expr>, Box<Expr>),
    Assign(Vec<u8>, Box<Expr>, u32),
    IndexAssign(Box<Expr>, Box<Expr>, Box<Expr>, u32),
    Call(Vec<u8>, Vec<Expr>, u32),
}

#[derive(Debug)]
pub enum Stmt {
    Let(Vec<u8>, Expr, u32),
    ExprStmt(Expr),
    Print(Vec<Expr>, u32),
    If(Expr, Vec<Stmt>, Vec<Stmt>),
    While(Expr, Vec<Stmt>),
    /// A bare `{ ... }` block introducing its own lexical scope. Also used to
    /// desugar `for (init; cond; post) body` into
    /// `{ init; while (cond) { body; post; } }` without a dedicated AST node.
    Block(Vec<Stmt>),
    Return(Option<Expr>, u32),
}

/// A user function declaration: `fn name(params) { body }`.
#[derive(Debug)]
pub struct FunctionDecl {
    pub name: Vec<u8>,
    pub params: Vec<Vec<u8>>,
    pub body: Vec<Stmt>,
    pub line: u32,
}

/// A whole program: its function declarations, and the top-level statements
/// in source order.
#[derive(Debug)]
pub struct Program {
    pub functions: Vec<FunctionDecl>,
    pub main: Vec<Stmt>,
}

pub open spec fn max2(a: nat, b: nat) -> nat {
    if a >= b { a } else { b }
}

/// The height of an expression tree.
pub open spec fn expr_height(e: Expr) -> nat
    decreases e, 0int,
{
    match e {
        Expr::Array(items) => 1 + exprs_height(items, 0),
        Expr::Dict(entries) => 1 + entries_height(entries, 0),
        Expr::Index(a, b, _) => 1 + max2(expr_height(*a), expr_height(*b)),
        Expr::Unary(_, a, _) => 1 + expr_height(*a),
        Expr::Binary(_, a, b, _) => 1 + max2(expr_height(*a), expr_height(*b)),
        Expr::Logical(_, a, b) => 1 + max2(expr_height(*a), expr_height(*b)),
        Expr::Assign(_, a, _) => 1 + expr_height(*a),
        Expr::IndexAssign(a, b, c, _) => 1 + max2(expr_height(*a), max2(expr_height(*b), expr_height(*c))),
        Expr::Call(_, args, _) => 1 + exprs_height(args, 0),
        _ => 1,
    }
}

/// The greatest height of `items[i..]`, plus one for each.
pub open spec fn exprs_height(items: Vec<Expr>, i: int) -> nat
    decreases items, items@.len() - i,
{
    if i < 0 || i >= items@.len() {
        0
    } else {
        proof {
            assert(decreases_to!(items => items@));
            assert(decreases_to!(items@ => items@[i]));
        }
        max2(1 + expr_height(items@[i]), exprs_height(items, i + 1))
    }
}

pub open spec fn entries_height(entries: Vec<(Vec<u8>, Expr)>, i: int) -> nat
    decreases entries, entries@.len() - i,
{
    if i < 0 || i >= entries@.len() {
        0
    } else {
        proof {
            assert(decreases_to!(entries => entries@));
            assert(decreases_to!(entries@ => entries@[i]));
            assert(decreases_to!(entries@[i] => entries@[i].1));
        }
        max2(1 + expr_height(entries@[i].1), entries_height(entries, i + 1))
    }
}

/// The height of the loop part of a `while` statement.
pub open spec fn while_height(s: Stmt) -> nat
    decreases s, 0int,
{
    match s {
        Stmt::While(c, b) => 1 + max2(expr_height(c), stmts_height(b, 0)),
        _ => 0,
    }
}

/// The height of a statement tree.
pub open spec fn stmt_height(s: Stmt) -> nat
    decreases s, 1int,
{
    match s {
        Stmt::Let(_, e, _) => 1 + expr_height(e),
        Stmt::ExprStmt(e) => 1 + expr_height(e),
        Stmt::Print(es, _) => 1 + exprs_height(es, 0),
        Stmt::If(c, t, e) => 1 + max2(expr_height(c), max2(stmts_height(t, 0), stmts_height(e, 0))),
        Stmt::While(_, _) => 1 + while_height(s),
        Stmt::Block(b) => 1 + stmts_height(b, 0),
        Stmt::Return(e, _) => match e {
            Some(x) => 1 + expr_height(x),
            None => 1,
        },
    }
}

/// The greatest height of `stmts[i..]`, plus one for each.
pub open spec fn stmts_height(stmts: Vec<Stmt>, i: int) -> nat
    decreases stmts, stmts@.len() - i,
{
    if i < 0 || i >= stmts@.len() {
        0
    } else {
        proof {
            assert(decreases_to!(stmts => stmts@));
            assert(decreases_to!(stmts@ => stmts@[i]));
        }
        max2(1 + stmt_height(stmts@[i]), stmts_height(stmts, i + 1))
    }
}

pub proof fn lemma_stmts_height(stmts: Vec<Stmt>, i: int, k: int)
    requires
        0 <= i <= k < stmts@.len(),
    ensures
        stmts_height(stmts, i) >= 1 + stmt_height(stmts@[k]),
        stmts_height(stmts, i) >= stmts_height(stmts, k),
    decreases k - i,
{
    if i < k {
        lemma_stmts_height(stmts, i + 1, k);
    }
}

pub proof fn lemma_exprs_height(items: Vec<Expr>, i: int, k: int)
    requires
        0 <= i <= k < items@.len(),
    ensures
        exprs_height(items, i) >= 1 + expr_height(items@[k]),
        exprs_height(items, i) >= exprs_height(items, k),
    decreases k - i,
{
    if i < k {
        lemma_exprs_height(items, i + 1, k);
    }
}

pub proof fn lemma_entries_height(entries: Vec<(Vec<u8>, Expr)>, i: int, k: int)
    requires
        0 <= i <= k < entries@.len(),
    ensures
        entries_height(entries, i) >= 1 + expr_height(entries@[k].1),
        entries_height(entries, i) >= entries_height(entries, k),
    decreases k - i,
{
    if i < k {
        lemma_entries_height(entries, i + 1, k);
    }
}


/// The model of an expression: the same tree, with texts as byte sequences
/// and numbers and source lines as integers.
pub enum SExpr {
    Number(int),
    Str(Seq<u8>),
    Bool(bool),
    Nil,
    Ident(Seq<u8>, int),
    Array(Seq<SExpr>),
    Dict(Seq<(Seq<u8>, SExpr)>),
    Index(Box<SExpr>, Box<SExpr>, int),
    Unary(UnOp, Box<SExpr>, int),
    Binary(BinOp, Box<SExpr>, Box<SExpr>, int),
    Logical(LogicOp, Box<SExpr>, Box<SExpr>),
    Assign(Seq<u8>, Box<SExpr>, int),
    IndexAssign(Box<SExpr>, Box<SExpr>, Box<SExpr>, int),
    Call(Seq<u8>, Seq<SExpr>, int),
}

/// The model of a statement.
pub enum SStmt {
    Let(Seq<u8>, SExpr, int),
    ExprStmt(SExpr),
    Print(Seq<SExpr>, int),
    If(SExpr, Seq<SStmt>, Seq<SStmt>),
    While(SExpr, Seq<SStmt>),
    Block(Seq<SStmt>),
    Return(Option<SExpr>, int),
}

/// The model of a function declaration.
pub struct SFun {
    pub name: Seq<u8>,
    pub params: Seq<Seq<u8>>,
    pub body: Seq<SStmt>,
    pub line: int,
}

/// The model of a program.
pub struct SProgram {
    pub functions: Seq<SFun>,
    pub main: Seq<SStmt>,
}

pub open spec fn expr_view(e: Expr) -> SExpr
    decreases e,
{
    match e {
        Expr::Number(n) => SExpr::Number(n as int),
        Expr::Str(s) => SExpr::Str(s@),
        Expr::Bool(b) => SExpr::Bool(b),
        Expr::Nil => SExpr::Nil,
        Expr::Ident(n, l) => SExpr::Ident(n@, l as int),
        Expr::Array(items) => {
            proof {
                assert(decreases_to!(e => items));
                assert(decreases_to!(items => items@));
            }
            SExpr::Array(exprs_view(items@))
        },
        Expr::Dict(entries) => {
            proof {
                assert(decreases_to!(e => entries));
                assert(decreases_to!(entries => entries@));
            }
            SExpr::Dict(entries_view(entries@))
        },
        Expr::Index(a, b, l) => SExpr::Index(Box::new(expr_view(*a)), Box::new(expr_view(*b)), l as int),
        Expr::Unary(op, a, l) => SExpr::Unary(op, Box::new(expr_view(*a)), l as int),
        Expr::Binary(op, a, b, l) => SExpr::Binary(op, Box::new(expr_view(*a)), Box::new(expr_view(*b)), l as int),
        Expr::Logical(op, a, b) => SExpr::Logical(op, Box::new(expr_view(*a)), Box::new(expr_view(*b))),
        Expr::Assign(n, a, l) => SExpr::Assign(n@, Box::new(expr_view(*a)), l as int),
        Expr::IndexAssign(a, b, c, l) => SExpr::IndexAssign(
            Box::new(expr_view(*a)),
            Box::new(expr_view(*b)),
            Box::new(expr_view(*c)),
            l as int,
        ),
        Expr::Call(n, args, l) => {
            proof {
                assert(decreases_to!(e => args));
                assert(decreases_to!(args => args@));
            }
            SExpr::Call(n@, exprs_view(args@), l as int)
        },
    }
}

pub open spec fn exprs_view(s: Seq<Expr>) -> Seq<SExpr>
    decreases s,
{
    if s.len() == 0 {
        Seq::empty()
    } else {
        proof {
            assert(decreases_to!(s => s[s.len() - 1]));
        }
        exprs_view(s.subrange(0, s.len() - 1)).push(expr_view(s[s.len() - 1]))
    }
}

pub open spec fn entries_view(s: Seq<(Vec<u8>, Expr)>) -> Seq<(Seq<u8>, SExpr)>
    decreases s,
{
    if s.len() == 0 {
        Seq::empty()
    } else {
        proof {
            assert(decreases_to!(s => s[s.len() - 1]));
            assert(decreases_to!(s[s.len() - 1] => s[s.len() - 1].1));
        }
        entries_view(s.subrange(0, s.len() - 1)).push((s[s.len() - 1].0@, expr_view(s[s.len() - 1].1)))
    }
}

pub open spec fn stmt_view(s: Stmt) -> SStmt
    decreases s,
{
    match s {
        Stmt::Let(n, e, l) => SStmt::Let(n@, expr_view(e), l as int),
        Stmt::ExprStmt(e) => SStmt::ExprStmt(expr_view(e)),
        Stmt::Print(es, l) => SStmt::Print(exprs_view(es@), l as int),
        Stmt::If(c, t, e) => {
            proof {
                assert(decreases_to!(s => t));
                assert(decreases_to!(t => t@));
                assert(decreases_to!(s => e));
                assert(decreases_to!(e => e@));
            }
            SStmt::If(expr_view(c), stmts_view(t@), stmts_view(e@))
        },
        Stmt::While(c, b) => {
            proof {
                assert(decreases_to!(s => b));
                assert(decreases_to!(b => b@));
            }
            SStmt::While(expr_view(c), stmts_view(b@))
        },
        Stmt::Block(b) => {
            proof {
                assert(decreases_to!(s => b));
                assert(decreases_to!(b => b@));
            }
            SStmt::Block(stmts_view(b@))
        },
        Stmt::Return(e, l) => SStmt::Return(
            match e {
                Some(x) => Some(expr_view(x)),
                None => None,
            },
            l as int,
        ),
    }
}

pub open spec fn stmts_view(s: Seq<Stmt>) -> Seq<SStmt>
    decreases s,
{
    if s.len() == 0 {
        Seq::empty()
    } else {
        proof {
            assert(decreases_to!(s => s[s.len() - 1]));
        }
        stmts_view(s.subrange(0, s.len() - 1)).push(stmt_view(s[s.len() - 1]))
    }
}

pub open spec fn names_view(s: Seq<Vec<u8>>) -> Seq<Seq<u8>> {
    s.map_values(|n: Vec<u8>| n@)
}

pub open spec fn fun_decl_view(f: FunctionDecl) -> SFun {
    SFun { name: f.name@, params: names_view(f.params@), body: stmts_view(f.body@), line: f.line as int }
}

pub open spec fn fun_decls_view(s: Seq<FunctionDecl>) -> Seq<SFun> {
    s.map_values(|f: FunctionDecl| fun_decl_view(f))
}

pub open spec fn program_view(p: Program) -> SProgram {
    SProgram { functions: fun_decls_view(p.functions@), main: stmts_view(p.main@) }
}

/// Pushing onto a list of expressions pushes onto its model.
pub proof fn lemma_exprs_view_push(s: Seq<Expr>, e: Expr)
    ensures
        exprs_view(s.push(e)) == exprs_view(s).push(expr_view(e)),
{
    assert(s.push(e).subrange(0, s.len() as int) =~= s);
}

pub proof fn lemma_entries_view_push(s: Seq<(Vec<u8>, Expr)>, e: (Vec<u8>, Expr))
    ensures
        entries_view(s.push(e)) == entries_view(s).push((e.0@, expr_view(e.1))),
{
    assert(s.push(e).subrange(0, s.len() as int) =~= s);
}

pub proof fn lemma_stmts_view_push(s: Seq<Stmt>, st: Stmt)
    ensures
        stmts_view(s.push(st)) == stmts_view(s).push(stmt_view(st)),
{
    assert(s.push(st).subrange(0, s.len() as int) =~= s);
}

} // verus!
