//! The bytecode the compiler emits, written as functions of the state of
//! the compiler: the code, lines and constants emitted so far, the locals in
//! scope and the block depth. `compiler` is proved to emit exactly this.
use vstd::prelude::*;
use crate::ast::{BinOp, Expr, FunctionDecl, LogicOp, Program, Stmt, UnOp};
use crate::builtins::spec_builtin_id;
use crate::chunk::{retarget, OpCode};
use crate::text::str_bytes;
use crate::value::SVal;

verus! {

/// The state of the compiler of one function body.
#[verifier::ext_equal]
pub struct CState {
    pub code: Seq<OpCode>,
    pub lines: Seq<u32>,
    pub consts: Seq<SVal>,
    /// The locals in scope, innermost last: name and block depth.
    pub locals: Seq<(Seq<u8>, u32)>,
    pub depth: u32,
}

/// A compile error: its message and line.
pub type CErr = (Seq<u8>, u32);

/// The declared functions: name, index in the function table, arity.
pub type FunTable = Seq<(Seq<u8>, usize, usize)>;

pub open spec fn emit(st: CState, op: OpCode, line: u32) -> CState {
    CState { code: st.code.push(op), lines: st.lines.push(line), ..st }
}

/// `PushConst` of the new constant `v`.
pub open spec fn emit_const(st: CState, v: SVal, line: u32) -> CState {
    emit(CState { consts: st.consts.push(v), ..st }, OpCode::PushConst(st.consts.len() as usize), line)
}

/// The jump at `at` pointed at the next instruction.
pub open spec fn patch(st: CState, at: int) -> CState {
    CState { code: st.code.update(at, retarget(st.code[at], st.code.len() as usize)), ..st }
}

/// The slot of the innermost local called `name`.
pub open spec fn local_slot(ls: Seq<(Seq<u8>, u32)>, name: Seq<u8>) -> Option<usize>
    decreases ls.len(),
{
    if ls.len() == 0 {
        None
    } else if ls.last().0 == name {
        Some((ls.len() - 1) as usize)
    } else {
        local_slot(ls.drop_last(), name)
    }
}

/// The index and arity of the last declared function called `name`.
pub open spec fn function_slot(tab: FunTable, name: Seq<u8>) -> Option<(usize, usize)>
    decreases tab.len(),
{
    if tab.len() == 0 {
        None
    } else if tab.last().0 == name {
        Some((tab.last().1, tab.last().2))
    } else {
        function_slot(tab.drop_last(), name)
    }
}

/// `what 'name'`.
pub open spec fn named_msg(what: Seq<u8>, name: Seq<u8>) -> Seq<u8> {
    what + str_bytes(" '") + name + str_bytes("'")
}

pub open spec fn binop_code(op: BinOp) -> OpCode {
    match op {
        BinOp::Add => OpCode::Add,
        BinOp::Sub => OpCode::Sub,
        BinOp::Mul => OpCode::Mul,
        BinOp::Div => OpCode::Div,
        BinOp::Mod => OpCode::Mod,
        BinOp::Eq => OpCode::Eq,
        BinOp::NotEq => OpCode::NotEq,
        BinOp::Lt => OpCode::Lt,
        BinOp::LtEq => OpCode::LtEq,
        BinOp::Gt => OpCode::Gt,
        BinOp::GtEq => OpCode::GtEq,
    }
}

/// The code of an expression: it leaves the expression's value on the
/// stack. `&&` and `||` jump over their right operand, keeping the left
/// one, when it decides the result.
#[verifier::opaque]
pub open spec fn cexpr(tab: FunTable, st: CState, e: Expr) -> Result<CState, CErr>
    decreases e, 0int,
{
    match e {
        Expr::Number(n) => Ok(emit_const(st, SVal::Num(n as int), 0)),
        Expr::Str(s) => Ok(emit_const(st, SVal::Str(s@), 0)),
        Expr::Bool(b) => Ok(emit(st, if b { OpCode::PushTrue } else { OpCode::PushFalse }, 0)),
        Expr::Nil => Ok(emit(st, OpCode::PushNil, 0)),
        Expr::Ident(name, line) => match local_slot(st.locals, name@) {
            Some(i) => Ok(emit(st, OpCode::GetLocal(i), line)),
            None => Err((named_msg(str_bytes("undefined variable"), name@), line)),
        },
        Expr::Array(items) => {
            proof {
                assert(decreases_to!(e => items));
                assert(decreases_to!(items => items@));
            }
            match cexprs(tab, st, items@, 0) {
                Ok(s1) => Ok(emit(s1, OpCode::BuildArray(items@.len() as usize), 0)),
                Err(x) => Err(x),
            }
        },
        Expr::Dict(entries) => {
            proof {
                assert(decreases_to!(e => entries));
                assert(decreases_to!(entries => entries@));
            }
            match centries(tab, st, entries@, 0) {
                Ok(s1) => Ok(emit(s1, OpCode::BuildMap(entries@.len() as usize), 0)),
                Err(x) => Err(x),
            }
        },
        Expr::Index(b, i, line) => match cexpr(tab, st, *b) {
            Ok(s1) => match cexpr(tab, s1, *i) {
                Ok(s2) => Ok(emit(s2, OpCode::IndexGet, line)),
                Err(x) => Err(x),
            },
            Err(x) => Err(x),
        },
        Expr::Unary(op, a, line) => match cexpr(tab, st, *a) {
            Ok(s1) => Ok(emit(s1, if op == UnOp::Neg { OpCode::Neg } else { OpCode::Not }, line)),
            Err(x) => Err(x),
        },
        Expr::Binary(op, a, b, line) => match cexpr(tab, st, *a) {
            Ok(s1) => match cexpr(tab, s1, *b) {
                Ok(s2) => Ok(emit(s2, binop_code(op), line)),
                Err(x) => Err(x),
            },
            Err(x) => Err(x),
        },
        Expr::Logical(op, a, b) => match cexpr(tab, st, *a) {
            Ok(s1) => {
                let jump = if op == LogicOp::And { OpCode::JumpIfFalsePeek(0) } else { OpCode::JumpIfTruePeek(0) };
                let s2 = emit(emit(s1, jump, 0), OpCode::Pop, 0);
                match cexpr(tab, s2, *b) {
                    Ok(s3) => Ok(patch(s3, s1.code.len() as int)),
                    Err(x) => Err(x),
                }
            },
            Err(x) => Err(x),
        },
        Expr::Assign(name, v, line) => match cexpr(tab, st, *v) {
            Ok(s1) => match local_slot(s1.locals, name@) {
                Some(i) => Ok(emit(s1, OpCode::SetLocal(i), line)),
                None => Err((named_msg(str_bytes("assignment to undefined variable"), name@), line)),
            },
            Err(x) => Err(x),
        },
        Expr::IndexAssign(b, i, v, line) => match cexpr(tab, st, *b) {
            Ok(s1) => match cexpr(tab, s1, *i) {
                Ok(s2) => match cexpr(tab, s2, *v) {
                    Ok(s3) => Ok(emit(s3, OpCode::IndexSet, line)),
                    Err(x) => Err(x),
                },
                Err(x) => Err(x),
            },
            Err(x) => Err(x),
        },
        Expr::Call(name, args, line) => {
            proof {
                assert(decreases_to!(e => args));
                assert(decreases_to!(args => args@));
            }
            if args@.len() > 255 {
                Err((str_bytes("too many arguments in one call"), line))
            } else {
                match cexprs(tab, st, args@, 0) {
                    Ok(s1) => match spec_builtin_id(name@) {
                        Some(id) => Ok(emit(s1, OpCode::CallBuiltin(id, args@.len() as u8), line)),
                        None => match function_slot(tab, name@) {
                            Some((f, _)) => Ok(emit(s1, OpCode::Call(f, args@.len() as u8), line)),
                            None => Err((named_msg(str_bytes("undefined function"), name@), line)),
                        },
                    },
                    Err(x) => Err(x),
                }
            }
        },
    }
}

/// The code of `es[i..]`, in order.
#[verifier::opaque]
pub open spec fn cexprs(tab: FunTable, st: CState, es: Seq<Expr>, i: int) -> Result<CState, CErr>
    decreases es, es.len() - i,
{
    if i < 0 || i >= es.len() {
        Ok(st)
    } else {
        proof {
            assert(decreases_to!(es => es[i]));
        }
        match cexpr(tab, st, es[i]) {
            Ok(s1) => cexprs(tab, s1, es, i + 1),
            Err(x) => Err(x),
        }
    }
}

/// The code of the map entries `es[i..]`: each key constant, then its value.
#[verifier::opaque]
pub open spec fn centries(tab: FunTable, st: CState, es: Seq<(Vec<u8>, Expr)>, i: int) -> Result<CState, CErr>
    decreases es, es.len() - i,
{
    if i < 0 || i >= es.len() {
        Ok(st)
    } else {
        proof {
            assert(decreases_to!(es => es[i]));
            assert(decreases_to!(es[i] => es[i].1));
        }
        match cexpr(tab, emit_const(st, SVal::Str(es[i].0@), 0), es[i].1) {
            Ok(s1) => centries(tab, s1, es, i + 1),
            Err(x) => Err(x),
        }
    }
}

/// Leaves a block: one `Pop` for every local deeper than the current depth.
pub open spec fn pop_locals(st: CState, line: u32) -> CState
    decreases st.locals.len(),
{
    if st.locals.len() > 0 && st.locals.last().1 > st.depth {
        pop_locals(emit(CState { locals: st.locals.drop_last(), ..st }, OpCode::Pop, line), line)
    } else {
        st
    }
}

pub open spec fn end_scope(st: CState, line: u32) -> CState {
    pop_locals(CState { depth: if st.depth > 0 { (st.depth - 1) as u32 } else { 0 }, ..st }, line)
}

/// The code of a statement.
#[verifier::opaque]
pub open spec fn cstmt(tab: FunTable, st: CState, s: Stmt) -> Result<CState, CErr>
    decreases s, 0int,
{
    match s {
        Stmt::Let(name, e, _) => match cexpr(tab, st, e) {
            Ok(s1) => Ok(CState { locals: s1.locals.push((name@, s1.depth)), ..s1 }),
            Err(x) => Err(x),
        },
        Stmt::ExprStmt(e) => match cexpr(tab, st, e) {
            Ok(s1) => Ok(emit(s1, OpCode::Pop, 0)),
            Err(x) => Err(x),
        },
        Stmt::Print(es, line) => if es@.len() > 255 {
            Err((str_bytes("too many values in one print statement"), line))
        } else {
            match cexprs(tab, st, es@, 0) {
                Ok(s1) => Ok(emit(s1, OpCode::Print(es@.len() as u8), line)),
                Err(x) => Err(x),
            }
        },
        Stmt::If(c, t, e) => {
            proof {
                assert(decreases_to!(s => t));
                assert(decreases_to!(t => t@));
                assert(decreases_to!(s => e));
                assert(decreases_to!(e => e@));
            }
            match cexpr(tab, st, c) {
                Ok(s1) => match cscoped(tab, emit(s1, OpCode::JumpIfFalse(0), 0), t@, 0) {
                    Ok(s3) => match cscoped(tab, patch(emit(s3, OpCode::Jump(0), 0), s1.code.len() as int), e@, 0) {
                        Ok(s5) => Ok(patch(s5, s3.code.len() as int)),
                        Err(x) => Err(x),
                    },
                    Err(x) => Err(x),
                },
                Err(x) => Err(x),
            }
        },
        Stmt::While(c, b) => {
            proof {
                assert(decreases_to!(s => b));
                assert(decreases_to!(b => b@));
            }
            match cexpr(tab, st, c) {
                Ok(s1) => match cscoped(tab, emit(s1, OpCode::JumpIfFalse(0), 0), b@, 0) {
                    Ok(s3) => Ok(patch(emit(s3, OpCode::Jump(st.code.len() as usize), 0), s1.code.len() as int)),
                    Err(x) => Err(x),
                },
                Err(x) => Err(x),
            }
        },
        Stmt::Block(b) => {
            proof {
                assert(decreases_to!(s => b));
                assert(decreases_to!(b => b@));
            }
            cscoped(tab, st, b@, 0)
        },
        Stmt::Return(v, line) => match (match v {
            Some(e) => cexpr(tab, st, e),
            None => Ok(emit(st, OpCode::PushNil, line)),
        }) {
            Ok(s1) => Ok(emit(s1, OpCode::Return, line)),
            Err(x) => Err(x),
        },
    }
}

/// The code of `ss[i..]`, in order.
#[verifier::opaque]
pub open spec fn cblock(tab: FunTable, st: CState, ss: Seq<Stmt>, i: int) -> Result<CState, CErr>
    decreases ss, ss.len() - i,
{
    if i < 0 || i >= ss.len() {
        Ok(st)
    } else {
        proof {
            assert(decreases_to!(ss => ss[i]));
        }
        match cstmt(tab, st, ss[i]) {
            Ok(s1) => cblock(tab, s1, ss, i + 1),
            Err(x) => Err(x),
        }
    }
}

/// The code of a block in a scope of its own, whose locals it pops at its end.
#[verifier::opaque]
pub open spec fn cscoped(tab: FunTable, st: CState, ss: Seq<Stmt>, line: u32) -> Result<CState, CErr>
    decreases ss, ss.len() + 1,
{
    if st.depth == u32::MAX {
        Err((str_bytes("blocks nested too deeply"), line))
    } else {
        match cblock(tab, CState { depth: (st.depth + 1) as u32, ..st }, ss, 0) {
            Ok(s1) => Ok(end_scope(s1, line)),
            Err(x) => Err(x),
        }
    }
}

/// A fresh compiler of a body whose parameters are the first locals.
pub open spec fn initial(params: Seq<Seq<u8>>) -> CState {
    CState {
        code: Seq::empty(),
        lines: Seq::empty(),
        consts: Seq::empty(),
        locals: params.map_values(|p: Seq<u8>| (p, 0u32)),
        depth: 0,
    }
}

/// A body's code ends with an implicit `return nil`.
pub open spec fn finish(st: CState) -> CState {
    emit(emit(st, OpCode::PushNil, 0), OpCode::Return, 0)
}

/// The function table of the declarations: function `k` has index `k + 1`.
pub open spec fn decl_table(fs: Seq<FunctionDecl>) -> FunTable {
    Seq::new(fs.len(), |k: int| (fs[k].name@, (k + 1) as usize, fs[k].params@.len() as usize))
}

/// The first declaration from `k` on that is named like a builtin.
pub open spec fn first_shadow(fs: Seq<FunctionDecl>, k: int) -> Option<int>
    decreases fs.len() - k,
{
    if k < 0 || k >= fs.len() {
        None
    } else if spec_builtin_id(fs[k].name@) is Some {
        Some(k)
    } else {
        first_shadow(fs, k + 1)
    }
}

/// The finished code of the bodies of `fs[k..]`, in order.
pub open spec fn cfuns(tab: FunTable, fs: Seq<FunctionDecl>, k: int) -> Result<Seq<CState>, CErr>
    decreases fs.len() - k,
{
    if k < 0 || k >= fs.len() {
        Ok(Seq::empty())
    } else {
        match cblock(tab, initial(fs[k].params@.map_values(|p: Vec<u8>| p@)), fs[k].body@, 0) {
            Ok(s) => match cfuns(tab, fs, k + 1) {
                Ok(rest) => Ok(seq![finish(s)] + rest),
                Err(x) => Err(x),
            },
            Err(x) => Err(x),
        }
    }
}

/// The list `prefix` followed by the list that `r` gave.
pub open spec fn after_states(prefix: Seq<CState>, r: Result<Seq<CState>, CErr>) -> Result<Seq<CState>, CErr> {
    match r {
        Ok(s) => Ok(prefix + s),
        Err(x) => Err(x),
    }
}

/// The code of a whole program: the script first, then each declared
/// function; or the first compile error.
pub open spec fn compile_result(p: Program) -> Result<Seq<CState>, CErr> {
    let fs = p.functions@;
    if fs.len() >= usize::MAX - 1 {
        Err((str_bytes("too many functions"), 0))
    } else {
        match first_shadow(fs, 0) {
            Some(k) => Err((named_msg(str_bytes("cannot define a function with the builtin name"), fs[k].name@), fs[k].line)),
            None => {
                let tab = decl_table(fs);
                match cblock(tab, initial(Seq::empty()), p.main@, 0) {
                    Ok(m) => match cfuns(tab, fs, 0) {
                        Ok(rest) => Ok(seq![finish(m)] + rest),
                        Err(x) => Err(x),
                    },
                    Err(x) => Err(x),
                }
            },
        }
    }
}

/// No constant emitted so far is a reference.
pub open spec fn plain_consts(st: CState) -> bool {
    forall|k: int| 0 <= k < st.consts.len() ==> !(#[trigger] st.consts[k] is Arr) && !(st.consts[k] is Dict)
}

proof fn lemma_pop_locals_consts(st: CState, line: u32)
    ensures
        pop_locals(st, line).consts == st.consts,
    decreases st.locals.len(),
{
    if st.locals.len() > 0 && st.locals.last().1 > st.depth {
        lemma_pop_locals_consts(emit(CState { locals: st.locals.drop_last(), ..st }, OpCode::Pop, line), line);
    }
}

proof fn lemma_emit_const_plain(st: CState, v: SVal, line: u32)
    requires
        plain_consts(st),
        !(v is Arr) && !(v is Dict),
    ensures
        plain_consts(emit_const(st, v, line)),
{
    let c = emit_const(st, v, line).consts;
    assert forall|k: int| 0 <= k < c.len() implies !(#[trigger] c[k] is Arr) && !(c[k] is Dict) by {
        if k < st.consts.len() {
            assert(c[k] == st.consts[k]);
        }
    }
}

/// The constants the compiler emits are numbers and strings, never references.
pub proof fn lemma_cexpr_plain(tab: FunTable, st: CState, e: Expr)
    requires
        plain_consts(st),
    ensures
        cexpr(tab, st, e) matches Ok(s2) ==> plain_consts(s2),
    decreases e, 0int,
{
    reveal(cexpr);
    reveal(cexprs);
    reveal(centries);
    match e {
        Expr::Number(n) => lemma_emit_const_plain(st, SVal::Num(n as int), 0),
        Expr::Str(s) => lemma_emit_const_plain(st, SVal::Str(s@), 0),
        Expr::Array(items) => lemma_cexprs_plain(tab, st, items@, 0),
        Expr::Dict(entries) => lemma_centries_plain(tab, st, entries@, 0),
        Expr::Index(b, i, _) => {
            lemma_cexpr_plain(tab, st, *b);
            if let Ok(s1) = cexpr(tab, st, *b) {
                lemma_cexpr_plain(tab, s1, *i);
            }
        },
        Expr::Unary(_, a, _) => lemma_cexpr_plain(tab, st, *a),
        Expr::Binary(_, a, b, _) => {
            lemma_cexpr_plain(tab, st, *a);
            if let Ok(s1) = cexpr(tab, st, *a) {
                lemma_cexpr_plain(tab, s1, *b);
            }
        },
        Expr::Logical(op, a, b) => {
            lemma_cexpr_plain(tab, st, *a);
            if let Ok(s1) = cexpr(tab, st, *a) {
                let jump = if op == LogicOp::And { OpCode::JumpIfFalsePeek(0) } else { OpCode::JumpIfTruePeek(0) };
                lemma_cexpr_plain(tab, emit(emit(s1, jump, 0), OpCode::Pop, 0), *b);
            }
        },
        Expr::Assign(_, v, _) => lemma_cexpr_plain(tab, st, *v),
        Expr::IndexAssign(b, i, v, _) => {
            lemma_cexpr_plain(tab, st, *b);
            if let Ok(s1) = cexpr(tab, st, *b) {
                lemma_cexpr_plain(tab, s1, *i);
                if let Ok(s2) = cexpr(tab, s1, *i) {
                    lemma_cexpr_plain(tab, s2, *v);
                }
            }
        },
        Expr::Call(_, args, _) => lemma_cexprs_plain(tab, st, args@, 0),
        _ => {},
    }
}

pub proof fn lemma_cexprs_plain(tab: FunTable, st: CState, es: Seq<Expr>, i: int)
    requires
        plain_consts(st),
    ensures
        cexprs(tab, st, es, i) matches Ok(s2) ==> plain_consts(s2),
    decreases es, es.len() - i,
{
    reveal(cexprs);
    reveal(cexpr);
    if 0 <= i < es.len() {
        lemma_cexpr_plain(tab, st, es[i]);
        if let Ok(s1) = cexpr(tab, st, es[i]) {
            lemma_cexprs_plain(tab, s1, es, i + 1);
        }
    }
}

pub proof fn lemma_centries_plain(tab: FunTable, st: CState, es: Seq<(Vec<u8>, Expr)>, i: int)
    requires
        plain_consts(st),
    ensures
        centries(tab, st, es, i) matches Ok(s2) ==> plain_consts(s2),
    decreases es, es.len() - i,
{
    reveal(centries);
    reveal(cexpr);
    if 0 <= i < es.len() {
        let s0 = emit_const(st, SVal::Str(es[i].0@), 0);
        lemma_emit_const_plain(st, SVal::Str(es[i].0@), 0);
        lemma_cexpr_plain(tab, s0, es[i].1);
        if let Ok(s1) = cexpr(tab, s0, es[i].1) {
            lemma_centries_plain(tab, s1, es, i + 1);
        }
    }
}

pub proof fn lemma_cstmt_plain(tab: FunTable, st: CState, s: Stmt)
    requires
        plain_consts(st),
    ensures
        cstmt(tab, st, s) matches Ok(s2) ==> plain_consts(s2),
    decreases s, 0int,
{
    reveal(cstmt);
    reveal(cscoped);
    reveal(cblock);
    match s {
        Stmt::Let(_, e, _) => lemma_cexpr_plain(tab, st, e),
        Stmt::ExprStmt(e) => lemma_cexpr_plain(tab, st, e),
        Stmt::Print(es, _) => lemma_cexprs_plain(tab, st, es@, 0),
        Stmt::If(c, t, e) => {
            lemma_cexpr_plain(tab, st, c);
            if let Ok(s1) = cexpr(tab, st, c) {
                let s2 = emit(s1, OpCode::JumpIfFalse(0), 0);
                lemma_cscoped_plain(tab, s2, t@, 0);
                if let Ok(s3) = cscoped(tab, s2, t@, 0) {
                    lemma_cscoped_plain(tab, patch(emit(s3, OpCode::Jump(0), 0), s1.code.len() as int), e@, 0);
                }
            }
        },
        Stmt::While(c, b) => {
            lemma_cexpr_plain(tab, st, c);
            if let Ok(s1) = cexpr(tab, st, c) {
                lemma_cscoped_plain(tab, emit(s1, OpCode::JumpIfFalse(0), 0), b@, 0);
            }
        },
        Stmt::Block(b) => lemma_cscoped_plain(tab, st, b@, 0),
        Stmt::Return(v, line) => if let Some(e) = v {
            lemma_cexpr_plain(tab, st, e);
        },
    }
}

pub proof fn lemma_cblock_plain(tab: FunTable, st: CState, ss: Seq<Stmt>, i: int)
    requires
        plain_consts(st),
    ensures
        cblock(tab, st, ss, i) matches Ok(s2) ==> plain_consts(s2),
    decreases ss, ss.len() - i,
{
    reveal(cblock);
    reveal(cstmt);
    if 0 <= i < ss.len() {
        lemma_cstmt_plain(tab, st, ss[i]);
        if let Ok(s1) = cstmt(tab, st, ss[i]) {
            lemma_cblock_plain(tab, s1, ss, i + 1);
        }
    }
}

pub proof fn lemma_cscoped_plain(tab: FunTable, st: CState, ss: Seq<Stmt>, line: u32)
    requires
        plain_consts(st),
    ensures
        cscoped(tab, st, ss, line) matches Ok(s2) ==> plain_consts(s2),
    decreases ss, ss.len() + 1,
{
    reveal(cscoped);
    reveal(cblock);
    if st.depth < u32::MAX {
        let inner = CState { depth: (st.depth + 1) as u32, ..st };
        lemma_cblock_plain(tab, inner, ss, 0);
        if let Ok(s1) = cblock(tab, inner, ss, 0) {
            lemma_pop_locals_consts(CState { depth: if s1.depth > 0 { (s1.depth - 1) as u32 } else { 0 }, ..s1 }, line);
        }
    }
}

proof fn lemma_cfuns_plain(tab: FunTable, fs: Seq<FunctionDecl>, k: int)
    ensures
        cfuns(tab, fs, k) matches Ok(cs) ==> forall|j: int| 0 <= j < cs.len() ==> plain_consts(#[trigger] cs[j]),
    decreases fs.len() - k,
{
    if 0 <= k < fs.len() {
        let init = initial(fs[k].params@.map_values(|p: Vec<u8>| p@));
        lemma_cblock_plain(tab, init, fs[k].body@, 0);
        lemma_cfuns_plain(tab, fs, k + 1);
        if let Ok(s) = cblock(tab, init, fs[k].body@, 0) {
            if let Ok(rest) = cfuns(tab, fs, k + 1) {
                let all = seq![finish(s)] + rest;
                assert forall|j: int| 0 <= j < all.len() implies plain_consts(#[trigger] all[j]) by {
                    if j > 0 {
                        assert(all[j] == rest[j - 1]);
                    }
                }
            }
        }
    }
}

/// Every constant the compiler emits for a program is a number or a string.
pub proof fn lemma_compiled_consts_plain(p: Program)
    ensures
        compile_result(p) matches Ok(cs) ==> forall|j: int| 0 <= j < cs.len() ==> plain_consts(#[trigger] cs[j]),
{
    let fs = p.functions@;
    if compile_result(p) is Ok {
        let tab = decl_table(fs);
        let init = initial(Seq::empty());
        lemma_cblock_plain(tab, init, p.main@, 0);
        lemma_cfuns_plain(tab, fs, 0);
        let m = cblock(tab, init, p.main@, 0)->Ok_0;
        let rest = cfuns(tab, fs, 0)->Ok_0;
        let all = seq![finish(m)] + rest;
        assert forall|j: int| 0 <= j < all.len() implies plain_consts(#[trigger] all[j]) by {
            if j > 0 {
                assert(all[j] == rest[j - 1]);
            }
        }
    }
}

} // verus!
