//! Tree-walking interpreter: evaluates the AST directly, with no compilation
//! step. It is the second, independent way to run a program, beside the
//! bytecode VM.
//!
//! `eval_result`, `exec_result` and their companions state what evaluation
//! does. `fuel` bounds the nesting of calls and the iterations of each loop;
//! running out of it is a runtime error.
use vstd::prelude::*;
use crate::ast::{lemma_stmts_height, lemma_exprs_height, lemma_entries_height, expr_height, exprs_height, entries_height, stmt_height, stmts_height, while_height, BinOp, Expr, FunctionDecl, LogicOp, Program, Stmt, UnOp};
use crate::builtins::{builtin_result, call_builtin, lemma_builtin_keeps_heap_ok, spec_builtin_id};
use crate::error::SfError;
use crate::heap::{
    dict_get, dict_insert, dict_set, entries_ok, find_entry, heap_ok, index_get, index_get_result, index_set,
    index_set_result, kinds_kept, lemma_alloc_keeps_heap_ok, lemma_dict_from_ok, lemma_dict_get_ok,
    lemma_dict_insert_ok, lemma_index_get_ok, lemma_index_set_keeps_heap_ok, lemma_kinds_kept_entries_ok,
    lemma_kinds_kept_refl, lemma_kinds_kept_trans, lemma_kinds_kept_val_ok, obj_ok, show, val_ok,
};
use crate::text::{
    bytes_eq, copy_bytes, digits_of, extends, lemma_extends_append, lemma_extends_refl, lemma_extends_trans,
    push_bytes, push_digits, push_str, str_bytes,
};
use crate::vm::{print_from, print_text};
use crate::value::{
    binary_result, entries_view, eval_binary, is_runtime_error, kind_name_text, number_result, truthy,
    values_view, Heap, SObj, SVal, Value, MAX_SAFE,
};

verus! {

/// The fuel `run` starts with.
pub const FUEL: u64 = 0xffff_ffff_ffff_ffff;

pub type Scope = Seq<(Seq<u8>, SVal)>;

/// The interpreter's state: the variable scopes (innermost last), the heap,
/// and the output printed so far.
#[verifier::ext_equal]
pub struct IState {
    pub scopes: Seq<Scope>,
    pub heap: Seq<SObj>,
    pub out: Seq<u8>,
}

/// How a statement ended: normally, or by `return` with a value.
pub enum Flow {
    Normal,
    Ret(SVal),
}

/// A runtime error's message and line.
pub type IErr = (Seq<u8>, u32);

/// The value of variable `name`, from the innermost scope that binds it.
pub open spec fn lookup_var(scopes: Seq<Scope>, name: Seq<u8>) -> Option<SVal>
    decreases scopes.len(),
{
    if scopes.len() == 0 {
        None
    } else {
        match dict_get(scopes.last(), name) {
            Some(v) => Some(v),
            None => lookup_var(scopes.drop_last(), name),
        }
    }
}

/// The scopes after assigning `v` to `name` in the innermost scope that
/// binds it; `None` when no scope does.
pub open spec fn assign_var(scopes: Seq<Scope>, name: Seq<u8>, v: SVal) -> Option<Seq<Scope>>
    decreases scopes.len(),
{
    if scopes.len() == 0 {
        None
    } else if dict_get(scopes.last(), name) is Some {
        Some(scopes.update(scopes.len() - 1, dict_insert(scopes.last(), name, v)))
    } else {
        match assign_var(scopes.drop_last(), name, v) {
            Some(s2) => Some(s2.push(scopes.last())),
            None => None,
        }
    }
}

/// The scopes after `let name = v`: bound in the innermost scope.
pub open spec fn declare_var(scopes: Seq<Scope>, name: Seq<u8>, v: SVal) -> Seq<Scope> {
    if scopes.len() == 0 {
        scopes
    } else {
        scopes.update(scopes.len() - 1, dict_insert(scopes.last(), name, v))
    }
}

/// `i` is the last declaration of a function called `name`.
pub open spec fn last_decl_at(fs: Seq<FunctionDecl>, name: Seq<u8>, i: int) -> bool {
    &&& 0 <= i < fs.len()
    &&& fs[i].name@ == name
    &&& forall|j: int| i < j < fs.len() ==> fs[j].name@ != name
}

/// The declaration a call of `name` runs (the last one), or -1.
pub open spec fn find_function(fs: Seq<FunctionDecl>, name: Seq<u8>) -> int {
    if exists|i: int| last_decl_at(fs, name, i) {
        choose|i: int| last_decl_at(fs, name, i)
    } else {
        -1
    }
}

/// The scope of a call: each parameter bound to its argument in order.
pub open spec fn param_scope(params: Seq<Vec<u8>>, args: Seq<SVal>) -> Scope
    decreases params.len(),
{
    if params.len() == 0 || args.len() < params.len() {
        Seq::empty()
    } else {
        dict_insert(
            param_scope(params.drop_last(), args.subrange(0, args.len() - 1)),
            params.last()@,
            args[params.len() - 1],
        )
    }
}

pub open spec fn limit_err() -> IErr {
    (str_bytes("step limit exceeded"), 0u32)
}

pub open spec fn named_msg(what: &str, name: Seq<u8>) -> Seq<u8> {
    str_bytes(what) + str_bytes(" '") + name + str_bytes("'")
}

pub open spec fn call_arity_msg(name: Seq<u8>, arity: nat, argc: nat) -> Seq<u8> {
    str_bytes("function '") + name + str_bytes("' expects ") + digits_of(arity) + str_bytes(
        " argument(s), got ",
    ) + digits_of(argc)
}

pub open spec fn with_heap(st: IState, h: Seq<SObj>) -> IState {
    IState { heap: h, ..st }
}

/// The value of `e` in state `st`, and the state after evaluating it.
pub open spec fn eval_result(fs: Seq<FunctionDecl>, fuel: nat, e: Expr, st: IState) -> (IState, Result<SVal, IErr>)
    decreases fuel, expr_height(e), 0int,
{
    match e {
        Expr::Number(n) => (st, Ok(SVal::Num(n as int))),
        Expr::Str(s) => (st, Ok(SVal::Str(s@))),
        Expr::Bool(b) => (st, Ok(SVal::Bool(b))),
        Expr::Nil => (st, Ok(SVal::Nil)),
        Expr::Ident(name, line) => match lookup_var(st.scopes, name@) {
            Some(v) => (st, Ok(v)),
            None => (st, Err((named_msg("undefined variable", name@), line))),
        },
        Expr::Array(items) => {
            let (st1, r) = eval_items(fs, fuel, items, 0, st);
            match r {
                Ok(vals) => (with_heap(st1, st1.heap.push(SObj::Arr(vals))), Ok(SVal::Arr(st1.heap.len()))),
                Err(err) => (st1, Err(err)),
            }
        },
        Expr::Dict(entries) => {
            let (st1, r) = eval_entries(fs, fuel, entries, 0, st);
            match r {
                Ok(es) => (with_heap(st1, st1.heap.push(SObj::Dict(crate::heap::dict_from(es)))), Ok(SVal::Dict(st1.heap.len()))),
                Err(err) => (st1, Err(err)),
            }
        },
        Expr::Index(base, idx, line) => {
            let (st1, rb) = eval_result(fs, fuel, *base, st);
            match rb {
                Err(err) => (st1, Err(err)),
                Ok(b) => {
                    let (st2, ri) = eval_result(fs, fuel, *idx, st1);
                    match ri {
                        Err(err) => (st2, Err(err)),
                        Ok(i) => match index_get_result(st2.heap, b, i) {
                            Ok(v) => (st2, Ok(v)),
                            Err(m) => (st2, Err((m, line))),
                        },
                    }
                },
            }
        },
        Expr::Unary(op, operand, line) => {
            let (st1, r) = eval_result(fs, fuel, *operand, st);
            match r {
                Err(err) => (st1, Err(err)),
                Ok(v) => match op {
                    UnOp::Not => (st1, Ok(SVal::Bool(!truthy(v)))),
                    UnOp::Neg => match v {
                        SVal::Num(x) => match number_result(-x) {
                            Ok(nv) => (st1, Ok(nv)),
                            Err(m) => (st1, Err((m, line))),
                        },
                        _ => (st1, Err((str_bytes("expected a number, got ") + kind_name_text(v), line))),
                    },
                },
            }
        },
        Expr::Binary(op, lhs, rhs, line) => {
            let (st1, rl) = eval_result(fs, fuel, *lhs, st);
            match rl {
                Err(err) => (st1, Err(err)),
                Ok(l) => {
                    let (st2, rr) = eval_result(fs, fuel, *rhs, st1);
                    match rr {
                        Err(err) => (st2, Err(err)),
                        Ok(r) => match binary_result(op, l, r) {
                            Ok(v) => (st2, Ok(v)),
                            Err(m) => (st2, Err((m, line))),
                        },
                    }
                },
            }
        },
        Expr::Logical(op, lhs, rhs) => {
            let (st1, rl) = eval_result(fs, fuel, *lhs, st);
            match rl {
                Err(err) => (st1, Err(err)),
                Ok(l) => if (op == LogicOp::And && !truthy(l)) || (op == LogicOp::Or && truthy(l)) {
                    (st1, Ok(l))
                } else {
                    eval_result(fs, fuel, *rhs, st1)
                },
            }
        },
        Expr::Assign(name, value, line) => {
            let (st1, r) = eval_result(fs, fuel, *value, st);
            match r {
                Err(err) => (st1, Err(err)),
                Ok(v) => match assign_var(st1.scopes, name@, v) {
                    Some(sc) => (IState { scopes: sc, ..st1 }, Ok(v)),
                    None => (st1, Err((named_msg("assignment to undefined variable", name@), line))),
                },
            }
        },
        Expr::IndexAssign(base, idx, value, line) => {
            let (st1, rb) = eval_result(fs, fuel, *base, st);
            match rb {
                Err(err) => (st1, Err(err)),
                Ok(b) => {
                    let (st2, ri) = eval_result(fs, fuel, *idx, st1);
                    match ri {
                        Err(err) => (st2, Err(err)),
                        Ok(i) => {
                            let (st3, rv) = eval_result(fs, fuel, *value, st2);
                            match rv {
                                Err(err) => (st3, Err(err)),
                                Ok(v) => match index_set_result(st3.heap, b, i, v) {
                                    Ok(h) => (with_heap(st3, h), Ok(v)),
                                    Err(m) => (st3, Err((m, line))),
                                },
                            }
                        },
                    }
                },
            }
        },
        Expr::Call(name, args, line) => {
            let (st1, ra) = eval_items(fs, fuel, args, 0, st);
            match ra {
                Err(err) => (st1, Err(err)),
                Ok(vals) => match spec_builtin_id(name@) {
                    Some(id) => match builtin_result(id as int, vals, st1.heap) {
                        Ok((v, h)) => (with_heap(st1, h), Ok(v)),
                        Err(m) => (st1, Err((m, line))),
                    },
                    None => {
                        let k = find_function(fs, name@);
                        if k < 0 {
                            (st1, Err((named_msg("undefined function", name@), line)))
                        } else if fs[k].params@.len() != vals.len() {
                            (st1, Err((call_arity_msg(name@, fs[k].params@.len(), vals.len()), line)))
                        } else if fuel == 0 {
                            (st1, Err(limit_err()))
                        } else {
                            let callee = IState { scopes: seq![param_scope(fs[k].params@, vals)], ..st1 };
                            let (st2, rf) = exec_block(fs, (fuel - 1) as nat, fs[k].body, 0, callee);
                            let back = IState { scopes: st1.scopes, ..st2 };
                            match rf {
                                Err(err) => (back, Err(err)),
                                Ok(Flow::Ret(v)) => (back, Ok(v)),
                                Ok(Flow::Normal) => (back, Ok(SVal::Nil)),
                            }
                        }
                    },
                },
            }
        },
    }
}

/// The values of `items[i..]`, evaluated in order.
pub open spec fn eval_items(fs: Seq<FunctionDecl>, fuel: nat, items: Vec<Expr>, i: int, st: IState) -> (IState, Result<Seq<SVal>, IErr>)
    decreases fuel, exprs_height(items, i), items@.len() - i,
{
    if i < 0 || i >= items@.len() {
        (st, Ok(Seq::empty()))
    } else {
        proof {
            assert(decreases_to!(items => items@));
            assert(decreases_to!(items@ => items@[i]));
        }
        let (st1, r) = eval_result(fs, fuel, items@[i], st);
        match r {
            Err(err) => (st1, Err(err)),
            Ok(v) => {
                let (st2, rest) = eval_items(fs, fuel, items, i + 1, st1);
                match rest {
                    Err(err) => (st2, Err(err)),
                    Ok(vs) => (st2, Ok(seq![v] + vs)),
                }
            },
        }
    }
}

/// The entries of a map literal from `i` on, their values evaluated in order.
pub open spec fn eval_entries(fs: Seq<FunctionDecl>, fuel: nat, entries: Vec<(Vec<u8>, Expr)>, i: int, st: IState) -> (IState, Result<Seq<(Seq<u8>, SVal)>, IErr>)
    decreases fuel, entries_height(entries, i), entries@.len() - i,
{
    if i < 0 || i >= entries@.len() {
        (st, Ok(Seq::empty()))
    } else {
        proof {
            assert(decreases_to!(entries => entries@));
            assert(decreases_to!(entries@ => entries@[i]));
            assert(decreases_to!(entries@[i] => entries@[i].1));
        }
        let (st1, r) = eval_result(fs, fuel, entries@[i].1, st);
        match r {
            Err(err) => (st1, Err(err)),
            Ok(v) => {
                let (st2, rest) = eval_entries(fs, fuel, entries, i + 1, st1);
                match rest {
                    Err(err) => (st2, Err(err)),
                    Ok(es) => (st2, Ok(seq![(entries@[i].0@, v)] + es)),
                }
            },
        }
    }
}

/// Runs `stmts[i..]` in order, stopping at a `return`.
pub open spec fn exec_block(fs: Seq<FunctionDecl>, fuel: nat, stmts: Vec<Stmt>, i: int, st: IState) -> (IState, Result<Flow, IErr>)
    decreases fuel, stmts_height(stmts, i), stmts@.len() - i,
{
    if i < 0 || i >= stmts@.len() {
        (st, Ok(Flow::Normal))
    } else {
        proof {
            assert(decreases_to!(stmts => stmts@));
            assert(decreases_to!(stmts@ => stmts@[i]));
        }
        let (st1, r) = exec_result(fs, fuel, stmts@[i], st);
        match r {
            Ok(Flow::Normal) => exec_block(fs, fuel, stmts, i + 1, st1),
            _ => (st1, r),
        }
    }
}

/// Runs `stmts` in a scope of their own.
pub open spec fn exec_scoped(fs: Seq<FunctionDecl>, fuel: nat, stmts: Vec<Stmt>, st: IState) -> (IState, Result<Flow, IErr>)
    decreases fuel, stmts_height(stmts, 0), stmts@.len() + 1,
{
    let inner = IState { scopes: st.scopes.push(Seq::empty()), ..st };
    let (st1, r) = exec_block(fs, fuel, stmts, 0, inner);
    (IState { scopes: st1.scopes.drop_last(), ..st1 }, r)
}

/// Runs a `while` loop `w` for at most `fuel` more iterations.
pub open spec fn exec_while(fs: Seq<FunctionDecl>, fuel: nat, w: Stmt, st: IState) -> (IState, Result<Flow, IErr>)
    decreases fuel, while_height(w), 0int,
{
    match w {
        Stmt::While(cond, body) => {
            let (st1, rc) = eval_result(fs, fuel, cond, st);
            match rc {
                Err(err) => (st1, Err(err)),
                Ok(c) => if !truthy(c) {
                    (st1, Ok(Flow::Normal))
                } else if fuel == 0 {
                    (st1, Err(limit_err()))
                } else {
                    let (st2, rb) = exec_scoped(fs, fuel, body, st1);
                    match rb {
                        Ok(Flow::Normal) => exec_while(fs, (fuel - 1) as nat, w, st2),
                        _ => (st2, rb),
                    }
                },
            }
        },
        _ => (st, Ok(Flow::Normal)),
    }
}

/// What running statement `s` does.
pub open spec fn exec_result(fs: Seq<FunctionDecl>, fuel: nat, s: Stmt, st: IState) -> (IState, Result<Flow, IErr>)
    decreases fuel, stmt_height(s), 0int,
{
    match s {
        Stmt::Let(name, e, _) => {
            let (st1, r) = eval_result(fs, fuel, e, st);
            match r {
                Err(err) => (st1, Err(err)),
                Ok(v) => (IState { scopes: declare_var(st1.scopes, name@, v), ..st1 }, Ok(Flow::Normal)),
            }
        },
        Stmt::ExprStmt(e) => {
            let (st1, r) = eval_result(fs, fuel, e, st);
            match r {
                Err(err) => (st1, Err(err)),
                Ok(_) => (st1, Ok(Flow::Normal)),
            }
        },
        Stmt::Print(exprs, _) => {
            let (st1, r) = eval_items(fs, fuel, exprs, 0, st);
            match r {
                Err(err) => (st1, Err(err)),
                Ok(vs) => (IState { out: st1.out + print_text(st1.heap, vs), ..st1 }, Ok(Flow::Normal)),
            }
        },
        Stmt::If(cond, then_b, else_b) => {
            let (st1, r) = eval_result(fs, fuel, cond, st);
            match r {
                Err(err) => (st1, Err(err)),
                Ok(c) => if truthy(c) {
                    exec_scoped(fs, fuel, then_b, st1)
                } else {
                    exec_scoped(fs, fuel, else_b, st1)
                },
            }
        },
        Stmt::While(_, _) => exec_while(fs, fuel, s, st),
        Stmt::Block(stmts) => exec_scoped(fs, fuel, stmts, st),
        Stmt::Return(e, _) => match e {
            None => (st, Ok(Flow::Ret(SVal::Nil))),
            Some(x) => {
                let (st1, r) = eval_result(fs, fuel, x, st);
                match r {
                    Err(err) => (st1, Err(err)),
                    Ok(v) => (st1, Ok(Flow::Ret(v))),
                }
            },
        },
    }
}

/// A `return` ends a block: the statements after it do not run, and the
/// block ends in the state the `return` left, with its value.
pub proof fn lemma_block_stops_at_return(fs: Seq<FunctionDecl>, fuel: nat, stmts: Vec<Stmt>, i: int, st: IState, v: SVal)
    requires
        0 <= i < stmts@.len(),
        exec_result(fs, fuel, stmts@[i], st).1 == Ok::<Flow, IErr>(Flow::Ret(v)),
    ensures
        exec_block(fs, fuel, stmts, i, st) == (exec_result(fs, fuel, stmts@[i], st).0, Ok::<Flow, IErr>(Flow::Ret(v))),
{
}

/// A `return` inside a loop leaves the loop at once: when the condition
/// holds and a run of the body ends with a `return`, the `while` statement
/// ends there, in the state the body left and with the same returned value,
/// and the loop does not go on.
pub proof fn lemma_while_stops_at_return(fs: Seq<FunctionDecl>, fuel: nat, cond: Expr, body: Vec<Stmt>, st: IState, v: SVal)
    requires
        fuel > 0,
        eval_result(fs, fuel, cond, st).1 is Ok,
        truthy(eval_result(fs, fuel, cond, st).1->Ok_0),
        exec_scoped(fs, fuel, body, eval_result(fs, fuel, cond, st).0).1 == Ok::<Flow, IErr>(Flow::Ret(v)),
    ensures
        exec_result(fs, fuel, Stmt::While(cond, body), st)
            == (exec_scoped(fs, fuel, body, eval_result(fs, fuel, cond, st).0).0, Ok::<Flow, IErr>(Flow::Ret(v))),
{
}

/// A loop whose body starts with `return e;` returns the value of `e` as
/// soon as its condition holds, whatever else the body holds.
pub proof fn lemma_return_first_in_loop(fs: Seq<FunctionDecl>, fuel: nat, cond: Expr, body: Vec<Stmt>, e: Expr, line: u32, st: IState)
    requires
        fuel > 0,
        body@.len() > 0,
        body@[0] == Stmt::Return(Some(e), line),
        eval_result(fs, fuel, cond, st).1 is Ok,
        truthy(eval_result(fs, fuel, cond, st).1->Ok_0),
        ({
            let st1 = eval_result(fs, fuel, cond, st).0;
            eval_result(fs, fuel, e, IState { scopes: st1.scopes.push(Seq::empty()), ..st1 }).1 is Ok
        }),
    ensures
        ({
            let st1 = eval_result(fs, fuel, cond, st).0;
            exec_result(fs, fuel, Stmt::While(cond, body), st).1 == Ok::<Flow, IErr>(Flow::Ret(
                eval_result(fs, fuel, e, IState { scopes: st1.scopes.push(Seq::empty()), ..st1 }).1->Ok_0,
            ))
        }),
{
    let st1 = eval_result(fs, fuel, cond, st).0;
    let inner = IState { scopes: st1.scopes.push(Seq::empty()), ..st1 };
    let v = eval_result(fs, fuel, e, inner).1->Ok_0;
    assert(exec_result(fs, fuel, body@[0], inner).1 == Ok::<Flow, IErr>(Flow::Ret(v)));
    assert(exec_block(fs, fuel, body, 0, inner).1 == Ok::<Flow, IErr>(Flow::Ret(v)));
    lemma_while_stops_at_return(fs, fuel, cond, body, st, v);
}

/// In the scope a call starts with, each parameter names the argument at
/// its own position, where the parameter names are distinct.
pub proof fn lemma_param_scope_binds_arguments(params: Seq<Vec<u8>>, args: Seq<SVal>, j: int)
    requires
        params.len() == args.len(),
        0 <= j < params.len(),
        forall|a: int, b: int| 0 <= a < b < params.len() ==> params[a]@ != params[b]@,
    ensures
        lookup_var(seq![param_scope(params, args)], params[j]@) == Some(args[j]),
    decreases params.len(),
{
    let n = params.len() - 1;
    let ps = params.drop_last();
    let xs = args.subrange(0, n);
    let prev = param_scope(ps, xs);
    crate::heap::lemma_dict_get_insert(prev, params.last()@, args[n], params[j]@);
    if j < n {
        assert forall|a: int, b: int| 0 <= a < b < ps.len() implies ps[a]@ != ps[b]@ by {
            assert(ps[a] == params[a] && ps[b] == params[b]);
        }
        lemma_param_scope_binds_arguments(ps, xs, j);
        assert(ps[j] == params[j]);
        assert(params[j]@ != params[n]@);
        assert(seq![prev].last() == prev);
        assert(seq![prev].len() == 1);
        assert(seq![prev].drop_last() =~= Seq::<Scope>::empty());
        assert(lookup_var(Seq::<Scope>::empty(), ps[j]@) is None);
        assert(crate::heap::dict_get(prev, params[j]@) == Some(xs[j]));
        assert(xs[j] == args[j]);
    } else {
        assert(params[j] == params.last());
    }
    let sc = param_scope(params, args);
    assert(sc == crate::heap::dict_insert(prev, params.last()@, args[n]));
    assert(crate::heap::dict_get(sc, params[j]@) == Some(args[j]));
    assert(seq![sc].last() == sc);
}

/// A call of a user function runs its body in a scope of its own that binds
/// each parameter to its argument, and gives the value of the first
/// `return` the body runs, or `nil` where the body runs to its end; the
/// caller's variables are as they were before the call.
pub proof fn lemma_call_gives_returned_value(fs: Seq<FunctionDecl>, fuel: nat, name: Vec<u8>, args: Vec<Expr>, line: u32, st: IState)
    requires
        fuel > 0,
        spec_builtin_id(name@) is None,
        eval_items(fs, fuel, args, 0, st).1 is Ok,
        find_function(fs, name@) >= 0,
        fs[find_function(fs, name@)].params@.len() == eval_items(fs, fuel, args, 0, st).1->Ok_0.len(),
    ensures
        ({
            let (st1, ra) = eval_items(fs, fuel, args, 0, st);
            let f = fs[find_function(fs, name@)];
            let callee = IState { scopes: seq![param_scope(f.params@, ra->Ok_0)], ..st1 };
            let (st2, rf) = exec_block(fs, (fuel - 1) as nat, f.body, 0, callee);
            let (st3, r) = eval_result(fs, fuel, Expr::Call(name, args, line), st);
            &&& st3.scopes == st1.scopes
            &&& st3.heap == st2.heap
            &&& st3.out == st2.out
            &&& (rf matches Ok(Flow::Ret(v)) ==> r == Ok::<SVal, IErr>(v))
            &&& (rf == Ok::<Flow, IErr>(Flow::Normal) ==> r == Ok::<SVal, IErr>(SVal::Nil))
            &&& (rf is Err ==> r == Err::<SVal, IErr>(rf->Err_0))
        }),
{
}

// ------------------------------------------------------------------ //
// Printing only appends
// ------------------------------------------------------------------ //

/// Evaluating an expression only appends to the output.
pub proof fn lemma_eval_appends(fs: Seq<FunctionDecl>, fuel: nat, e: Expr, st: IState)
    ensures
        extends(st.out, eval_result(fs, fuel, e, st).0.out),
    decreases fuel, expr_height(e), 0int,
{
    lemma_extends_refl(st.out);
    match e {
        Expr::Array(items) => lemma_items_append(fs, fuel, items, 0, st),
        Expr::Dict(entries) => lemma_entries_append(fs, fuel, entries, 0, st),
        Expr::Index(base, idx, _) => {
            lemma_eval_appends(fs, fuel, *base, st);
            let st1 = eval_result(fs, fuel, *base, st).0;
            lemma_eval_appends(fs, fuel, *idx, st1);
            lemma_extends_trans(st.out, st1.out, eval_result(fs, fuel, *idx, st1).0.out);
        },
        Expr::Unary(_, operand, _) => lemma_eval_appends(fs, fuel, *operand, st),
        Expr::Binary(_, lhs, rhs, _) => {
            lemma_eval_appends(fs, fuel, *lhs, st);
            let st1 = eval_result(fs, fuel, *lhs, st).0;
            lemma_eval_appends(fs, fuel, *rhs, st1);
            lemma_extends_trans(st.out, st1.out, eval_result(fs, fuel, *rhs, st1).0.out);
        },
        Expr::Logical(_, lhs, rhs) => {
            lemma_eval_appends(fs, fuel, *lhs, st);
            let st1 = eval_result(fs, fuel, *lhs, st).0;
            lemma_eval_appends(fs, fuel, *rhs, st1);
            lemma_extends_trans(st.out, st1.out, eval_result(fs, fuel, *rhs, st1).0.out);
        },
        Expr::Assign(_, value, _) => lemma_eval_appends(fs, fuel, *value, st),
        Expr::IndexAssign(base, idx, value, _) => {
            lemma_eval_appends(fs, fuel, *base, st);
            let st1 = eval_result(fs, fuel, *base, st).0;
            lemma_eval_appends(fs, fuel, *idx, st1);
            let st2 = eval_result(fs, fuel, *idx, st1).0;
            lemma_eval_appends(fs, fuel, *value, st2);
            lemma_extends_trans(st.out, st1.out, st2.out);
            lemma_extends_trans(st.out, st2.out, eval_result(fs, fuel, *value, st2).0.out);
        },
        Expr::Call(name, args, _) => {
            lemma_items_append(fs, fuel, args, 0, st);
            let (st1, ra) = eval_items(fs, fuel, args, 0, st);
            if let Ok(vals) = ra {
                if spec_builtin_id(name@) is None {
                    let k = find_function(fs, name@);
                    if k >= 0 && fs[k].params@.len() == vals.len() && fuel > 0 {
                        let callee = IState { scopes: seq![param_scope(fs[k].params@, vals)], ..st1 };
                        lemma_block_appends(fs, (fuel - 1) as nat, fs[k].body, 0, callee);
                        lemma_extends_trans(st.out, st1.out, exec_block(fs, (fuel - 1) as nat, fs[k].body, 0, callee).0.out);
                    }
                }
            }
        },
        _ => {},
    }
}

pub proof fn lemma_items_append(fs: Seq<FunctionDecl>, fuel: nat, items: Vec<Expr>, i: int, st: IState)
    ensures
        extends(st.out, eval_items(fs, fuel, items, i, st).0.out),
    decreases fuel, exprs_height(items, i), items@.len() - i,
{
    lemma_extends_refl(st.out);
    if 0 <= i < items@.len() {
        lemma_eval_appends(fs, fuel, items@[i], st);
        let st1 = eval_result(fs, fuel, items@[i], st).0;
        lemma_items_append(fs, fuel, items, i + 1, st1);
        lemma_extends_trans(st.out, st1.out, eval_items(fs, fuel, items, i + 1, st1).0.out);
    }
}

pub proof fn lemma_entries_append(fs: Seq<FunctionDecl>, fuel: nat, entries: Vec<(Vec<u8>, Expr)>, i: int, st: IState)
    ensures
        extends(st.out, eval_entries(fs, fuel, entries, i, st).0.out),
    decreases fuel, entries_height(entries, i), entries@.len() - i,
{
    lemma_extends_refl(st.out);
    if 0 <= i < entries@.len() {
        lemma_eval_appends(fs, fuel, entries@[i].1, st);
        let st1 = eval_result(fs, fuel, entries@[i].1, st).0;
        lemma_entries_append(fs, fuel, entries, i + 1, st1);
        lemma_extends_trans(st.out, st1.out, eval_entries(fs, fuel, entries, i + 1, st1).0.out);
    }
}

#[verifier::rlimit(30)]
pub proof fn lemma_block_appends(fs: Seq<FunctionDecl>, fuel: nat, stmts: Vec<Stmt>, i: int, st: IState)
    ensures
        extends(st.out, exec_block(fs, fuel, stmts, i, st).0.out),
    decreases fuel, stmts_height(stmts, i), stmts@.len() - i,
{
    lemma_extends_refl(st.out);
    if 0 <= i < stmts@.len() {
        lemma_exec_appends(fs, fuel, stmts@[i], st);
        let (st1, r) = exec_result(fs, fuel, stmts@[i], st);
        if r == Ok::<Flow, IErr>(Flow::Normal) {
            lemma_block_appends(fs, fuel, stmts, i + 1, st1);
            lemma_extends_trans(st.out, st1.out, exec_block(fs, fuel, stmts, i + 1, st1).0.out);
        }
    }
}

pub proof fn lemma_scoped_appends(fs: Seq<FunctionDecl>, fuel: nat, stmts: Vec<Stmt>, st: IState)
    ensures
        extends(st.out, exec_scoped(fs, fuel, stmts, st).0.out),
    decreases fuel, stmts_height(stmts, 0), stmts@.len() + 1,
{
    let inner = IState { scopes: st.scopes.push(Seq::empty()), ..st };
    lemma_block_appends(fs, fuel, stmts, 0, inner);
}


pub proof fn lemma_while_appends(fs: Seq<FunctionDecl>, fuel: nat, w: Stmt, st: IState)
    ensures
        extends(st.out, exec_while(fs, fuel, w, st).0.out),
    decreases fuel, while_height(w), 0int,
{
    lemma_extends_refl(st.out);
    if let Stmt::While(cond, body) = w {
        lemma_eval_appends(fs, fuel, cond, st);
        let (st1, rc) = eval_result(fs, fuel, cond, st);
        if let Ok(c) = rc {
            if truthy(c) && fuel > 0 {
                lemma_scoped_appends(fs, fuel, body, st1);
                let (st2, rb) = exec_scoped(fs, fuel, body, st1);
                lemma_extends_trans(st.out, st1.out, st2.out);
                if rb == Ok::<Flow, IErr>(Flow::Normal) {
                    lemma_while_appends(fs, (fuel - 1) as nat, w, st2);
                    lemma_extends_trans(st.out, st2.out, exec_while(fs, (fuel - 1) as nat, w, st2).0.out);
                }
            }
        }
    }
}

pub proof fn lemma_exec_appends(fs: Seq<FunctionDecl>, fuel: nat, s: Stmt, st: IState)
    ensures
        extends(st.out, exec_result(fs, fuel, s, st).0.out),
    decreases fuel, stmt_height(s), 0int,
{
    lemma_extends_refl(st.out);
    match s {
        Stmt::Let(_, e, _) => lemma_eval_appends(fs, fuel, e, st),
        Stmt::ExprStmt(e) => lemma_eval_appends(fs, fuel, e, st),
        Stmt::Print(exprs, _) => {
            lemma_items_append(fs, fuel, exprs, 0, st);
            let (st1, r) = eval_items(fs, fuel, exprs, 0, st);
            if let Ok(vs) = r {
                lemma_extends_append(st1.out, print_text(st1.heap, vs));
                lemma_extends_trans(st.out, st1.out, st1.out + print_text(st1.heap, vs));
            }
        },
        Stmt::If(cond, then_b, else_b) => {
            lemma_eval_appends(fs, fuel, cond, st);
            let st1 = eval_result(fs, fuel, cond, st).0;
            lemma_scoped_appends(fs, fuel, then_b, st1);
            lemma_scoped_appends(fs, fuel, else_b, st1);
            lemma_extends_trans(st.out, st1.out, exec_scoped(fs, fuel, then_b, st1).0.out);
            lemma_extends_trans(st.out, st1.out, exec_scoped(fs, fuel, else_b, st1).0.out);
        },
        Stmt::While(_, _) => lemma_while_appends(fs, fuel, s, st),
        Stmt::Block(stmts) => lemma_scoped_appends(fs, fuel, stmts, st),
        Stmt::Return(e, _) => if let Some(x) = e {
            lemma_eval_appends(fs, fuel, x, st);
        },
    }
}

// ------------------------------------------------------------------ //
// References stay well formed
// ------------------------------------------------------------------ //

/// Every value bound in the scopes is well formed in `h`.
pub open spec fn scopes_ok(h: Seq<SObj>, sc: Seq<Scope>) -> bool {
    forall|i: int| 0 <= i < sc.len() ==> entries_ok(h, #[trigger] sc[i])
}

/// Every reference of the state, in its heap and in its variables, names an
/// object of its kind.
pub open spec fn state_ok(st: IState) -> bool {
    heap_ok(st.heap) && scopes_ok(st.heap, st.scopes)
}

/// `st2` is well formed, keeps every object of `st`, of the same kind, and
/// has as many scopes.
pub open spec fn kept_ok(st: IState, st2: IState) -> bool {
    &&& state_ok(st2)
    &&& kinds_kept(st.heap, st2.heap)
    &&& st2.scopes.len() == st.scopes.len()
}

proof fn lemma_scopes_kept(h: Seq<SObj>, h2: Seq<SObj>, sc: Seq<Scope>)
    requires
        kinds_kept(h, h2),
        scopes_ok(h, sc),
    ensures
        scopes_ok(h2, sc),
{
    assert forall|i: int| 0 <= i < sc.len() implies entries_ok(h2, #[trigger] sc[i]) by {
        lemma_kinds_kept_entries_ok(h, h2, sc[i]);
    }
}

proof fn lemma_lookup_ok(h: Seq<SObj>, sc: Seq<Scope>, name: Seq<u8>)
    requires
        scopes_ok(h, sc),
    ensures
        lookup_var(sc, name) matches Some(v) ==> val_ok(h, v),
    decreases sc.len(),
{
    if sc.len() > 0 {
        assert(entries_ok(h, sc[sc.len() - 1]));
        lemma_dict_get_ok(h, sc.last(), name);
        assert(scopes_ok(h, sc.drop_last()));
        lemma_lookup_ok(h, sc.drop_last(), name);
    }
}

proof fn lemma_assign_ok(h: Seq<SObj>, sc: Seq<Scope>, name: Seq<u8>, v: SVal)
    requires
        scopes_ok(h, sc),
        val_ok(h, v),
    ensures
        assign_var(sc, name, v) matches Some(s2) ==> scopes_ok(h, s2) && s2.len() == sc.len(),
    decreases sc.len(),
{
    if sc.len() > 0 {
        assert(entries_ok(h, sc[sc.len() - 1]));
        if dict_get(sc.last(), name) is Some {
            lemma_dict_insert_ok(h, sc.last(), name, v);
        } else {
            assert(scopes_ok(h, sc.drop_last()));
            lemma_assign_ok(h, sc.drop_last(), name, v);
            if let Some(s2) = assign_var(sc.drop_last(), name, v) {
                let s3 = s2.push(sc.last());
                assert forall|i: int| 0 <= i < s3.len() implies entries_ok(h, #[trigger] s3[i]) by {
                    if i < s2.len() {
                        assert(s3[i] == s2[i]);
                    }
                }
            }
        }
    }
}

proof fn lemma_declare_ok(h: Seq<SObj>, sc: Seq<Scope>, name: Seq<u8>, v: SVal)
    requires
        scopes_ok(h, sc),
        val_ok(h, v),
    ensures
        scopes_ok(h, declare_var(sc, name, v)),
{
    if sc.len() > 0 {
        assert(entries_ok(h, sc[sc.len() - 1]));
        lemma_dict_insert_ok(h, sc.last(), name, v);
    }
}

proof fn lemma_param_scope_ok(h: Seq<SObj>, params: Seq<Vec<u8>>, args: Seq<SVal>)
    requires
        forall|j: int| 0 <= j < args.len() ==> val_ok(h, #[trigger] args[j]),
    ensures
        entries_ok(h, param_scope(params, args)),
    decreases params.len(),
{
    if params.len() > 0 && args.len() >= params.len() {
        let rest = args.subrange(0, args.len() - 1);
        assert forall|j: int| 0 <= j < rest.len() implies val_ok(h, #[trigger] rest[j]) by {
            assert(rest[j] == args[j]);
        }
        lemma_param_scope_ok(h, params.drop_last(), rest);
        assert(val_ok(h, args[params.len() - 1]));
        lemma_dict_insert_ok(h, param_scope(params.drop_last(), rest), params.last()@, args[params.len() - 1]);
    }
}

/// The interpreter keeps every reference well formed: evaluating an
/// expression in a well-formed state leaves a well-formed state, keeps
/// every object of the same kind, and gives a well-formed value.
#[verifier::rlimit(60)]
pub proof fn lemma_eval_keeps_ok(fs: Seq<FunctionDecl>, fuel: nat, e: Expr, st: IState)
    requires
        state_ok(st),
    ensures
        kept_ok(st, eval_result(fs, fuel, e, st).0),
        eval_result(fs, fuel, e, st).1 matches Ok(v) ==> val_ok(eval_result(fs, fuel, e, st).0.heap, v),
    decreases fuel, expr_height(e), 0int,
{
    lemma_kinds_kept_refl(st.heap);
    match e {
        Expr::Ident(name, _) => lemma_lookup_ok(st.heap, st.scopes, name@),
        Expr::Array(items) => {
            lemma_items_keep_ok(fs, fuel, items, 0, st);
            let (st1, r) = eval_items(fs, fuel, items, 0, st);
            if let Ok(vals) = r {
                let o = SObj::Arr(vals);
                assert(obj_ok(st1.heap, o));
                lemma_alloc_keeps_heap_ok(st1.heap, o);
                lemma_scopes_kept(st1.heap, st1.heap.push(o), st1.scopes);
                lemma_kinds_kept_trans(st.heap, st1.heap, st1.heap.push(o));
            }
        },
        Expr::Dict(entries) => {
            lemma_entries_keep_ok(fs, fuel, entries, 0, st);
            let (st1, r) = eval_entries(fs, fuel, entries, 0, st);
            if let Ok(es) = r {
                assert(entries_ok(st1.heap, es));
                lemma_dict_from_ok(st1.heap, es);
                let o = SObj::Dict(crate::heap::dict_from(es));
                assert(obj_ok(st1.heap, o));
                lemma_alloc_keeps_heap_ok(st1.heap, o);
                lemma_scopes_kept(st1.heap, st1.heap.push(o), st1.scopes);
                lemma_kinds_kept_trans(st.heap, st1.heap, st1.heap.push(o));
            }
        },
        Expr::Index(base, idx, _) => {
            lemma_eval_keeps_ok(fs, fuel, *base, st);
            let (st1, rb) = eval_result(fs, fuel, *base, st);
            if let Ok(b) = rb {
                lemma_eval_keeps_ok(fs, fuel, *idx, st1);
                let (st2, ri) = eval_result(fs, fuel, *idx, st1);
                lemma_kinds_kept_trans(st.heap, st1.heap, st2.heap);
                lemma_kinds_kept_val_ok(st1.heap, st2.heap, b);
                if let Ok(i) = ri {
                    lemma_index_get_ok(st2.heap, b, i);
                }
            }
        },
        Expr::Unary(_, operand, _) => lemma_eval_keeps_ok(fs, fuel, *operand, st),
        Expr::Binary(_, lhs, rhs, _) => {
            lemma_eval_keeps_ok(fs, fuel, *lhs, st);
            let (st1, rl) = eval_result(fs, fuel, *lhs, st);
            if rl is Ok {
                lemma_eval_keeps_ok(fs, fuel, *rhs, st1);
                lemma_kinds_kept_trans(st.heap, st1.heap, eval_result(fs, fuel, *rhs, st1).0.heap);
            }
        },
        Expr::Logical(_, lhs, rhs) => {
            lemma_eval_keeps_ok(fs, fuel, *lhs, st);
            let (st1, rl) = eval_result(fs, fuel, *lhs, st);
            if rl is Ok {
                lemma_eval_keeps_ok(fs, fuel, *rhs, st1);
                lemma_kinds_kept_trans(st.heap, st1.heap, eval_result(fs, fuel, *rhs, st1).0.heap);
            }
        },
        Expr::Assign(name, value, _) => {
            lemma_eval_keeps_ok(fs, fuel, *value, st);
            let (st1, r) = eval_result(fs, fuel, *value, st);
            if let Ok(v) = r {
                lemma_assign_ok(st1.heap, st1.scopes, name@, v);
            }
        },
        Expr::IndexAssign(base, idx, value, _) => {
            lemma_eval_keeps_ok(fs, fuel, *base, st);
            let (st1, rb) = eval_result(fs, fuel, *base, st);
            if let Ok(b) = rb {
                lemma_eval_keeps_ok(fs, fuel, *idx, st1);
                let (st2, ri) = eval_result(fs, fuel, *idx, st1);
                lemma_kinds_kept_trans(st.heap, st1.heap, st2.heap);
                if ri is Ok {
                    lemma_eval_keeps_ok(fs, fuel, *value, st2);
                    let (st3, rv) = eval_result(fs, fuel, *value, st2);
                    lemma_kinds_kept_trans(st.heap, st2.heap, st3.heap);
                    lemma_kinds_kept_trans(st1.heap, st2.heap, st3.heap);
                    lemma_kinds_kept_val_ok(st1.heap, st3.heap, b);
                    if let Ok(v) = rv {
                        if index_set_result(st3.heap, b, ri->Ok_0, v) is Ok {
                            let h = index_set_result(st3.heap, b, ri->Ok_0, v)->Ok_0;
                            lemma_index_set_keeps_heap_ok(st3.heap, b, ri->Ok_0, v);
                            lemma_scopes_kept(st3.heap, h, st3.scopes);
                            lemma_kinds_kept_trans(st.heap, st3.heap, h);
                            lemma_kinds_kept_val_ok(st3.heap, h, v);
                        }
                    }
                }
            }
        },
        Expr::Call(name, args, _) => {
            lemma_items_keep_ok(fs, fuel, args, 0, st);
            let (st1, ra) = eval_items(fs, fuel, args, 0, st);
            if let Ok(vals) = ra {
                match spec_builtin_id(name@) {
                    Some(id) => {
                        if builtin_result(id as int, vals, st1.heap) is Ok {
                            lemma_builtin_keeps_heap_ok(id as int, vals, st1.heap);
                            let h = builtin_result(id as int, vals, st1.heap)->Ok_0.1;
                            lemma_scopes_kept(st1.heap, h, st1.scopes);
                            lemma_kinds_kept_trans(st.heap, st1.heap, h);
                        }
                    },
                    None => {
                        let k = find_function(fs, name@);
                        if k >= 0 && fs[k].params@.len() == vals.len() && fuel > 0 {
                            let callee = IState { scopes: seq![param_scope(fs[k].params@, vals)], ..st1 };
                            lemma_param_scope_ok(st1.heap, fs[k].params@, vals);
                            assert(state_ok(callee));
                            lemma_block_keeps_ok(fs, (fuel - 1) as nat, fs[k].body, 0, callee);
                            let st2 = exec_block(fs, (fuel - 1) as nat, fs[k].body, 0, callee).0;
                            lemma_scopes_kept(st1.heap, st2.heap, st1.scopes);
                            lemma_kinds_kept_trans(st.heap, st1.heap, st2.heap);
                        }
                    },
                }
            }
        },
        _ => {},
    }
}

pub proof fn lemma_items_keep_ok(fs: Seq<FunctionDecl>, fuel: nat, items: Vec<Expr>, i: int, st: IState)
    requires
        state_ok(st),
    ensures
        kept_ok(st, eval_items(fs, fuel, items, i, st).0),
        eval_items(fs, fuel, items, i, st).1 matches Ok(vs)
            ==> forall|j: int| 0 <= j < vs.len() ==> val_ok(eval_items(fs, fuel, items, i, st).0.heap, #[trigger] vs[j]),
    decreases fuel, exprs_height(items, i), items@.len() - i,
{
    lemma_kinds_kept_refl(st.heap);
    if 0 <= i < items@.len() {
        lemma_eval_keeps_ok(fs, fuel, items@[i], st);
        let (st1, r) = eval_result(fs, fuel, items@[i], st);
        if let Ok(v) = r {
            lemma_items_keep_ok(fs, fuel, items, i + 1, st1);
            let (st2, rest) = eval_items(fs, fuel, items, i + 1, st1);
            lemma_kinds_kept_trans(st.heap, st1.heap, st2.heap);
            lemma_kinds_kept_val_ok(st1.heap, st2.heap, v);
            if let Ok(vs) = rest {
                let all = seq![v] + vs;
                assert forall|j: int| 0 <= j < all.len() implies val_ok(st2.heap, #[trigger] all[j]) by {
                    if j > 0 {
                        assert(all[j] == vs[j - 1]);
                    }
                }
            }
        }
    }
}

pub proof fn lemma_entries_keep_ok(fs: Seq<FunctionDecl>, fuel: nat, entries: Vec<(Vec<u8>, Expr)>, i: int, st: IState)
    requires
        state_ok(st),
    ensures
        kept_ok(st, eval_entries(fs, fuel, entries, i, st).0),
        eval_entries(fs, fuel, entries, i, st).1 matches Ok(es) ==> entries_ok(eval_entries(fs, fuel, entries, i, st).0.heap, es),
    decreases fuel, entries_height(entries, i), entries@.len() - i,
{
    lemma_kinds_kept_refl(st.heap);
    if 0 <= i < entries@.len() {
        lemma_eval_keeps_ok(fs, fuel, entries@[i].1, st);
        let (st1, r) = eval_result(fs, fuel, entries@[i].1, st);
        if let Ok(v) = r {
            lemma_entries_keep_ok(fs, fuel, entries, i + 1, st1);
            let (st2, rest) = eval_entries(fs, fuel, entries, i + 1, st1);
            lemma_kinds_kept_trans(st.heap, st1.heap, st2.heap);
            lemma_kinds_kept_val_ok(st1.heap, st2.heap, v);
            if let Ok(es) = rest {
                let all = seq![(entries@[i].0@, v)] + es;
                assert forall|j: int| 0 <= j < all.len() implies val_ok(st2.heap, #[trigger] all[j].1) by {
                    if j > 0 {
                        assert(all[j] == es[j - 1]);
                    }
                }
            }
        }
    }
}

/// What a statement ends with, when it returns a value, is well formed.
pub open spec fn flow_ok(h: Seq<SObj>, r: Result<Flow, IErr>) -> bool {
    r matches Ok(Flow::Ret(v)) ==> val_ok(h, v)
}

pub proof fn lemma_block_keeps_ok(fs: Seq<FunctionDecl>, fuel: nat, stmts: Vec<Stmt>, i: int, st: IState)
    requires
        state_ok(st),
    ensures
        kept_ok(st, exec_block(fs, fuel, stmts, i, st).0),
        flow_ok(exec_block(fs, fuel, stmts, i, st).0.heap, exec_block(fs, fuel, stmts, i, st).1),
    decreases fuel, stmts_height(stmts, i), stmts@.len() - i,
{
    lemma_kinds_kept_refl(st.heap);
    if 0 <= i < stmts@.len() {
        lemma_exec_keeps_ok(fs, fuel, stmts@[i], st);
        let (st1, r) = exec_result(fs, fuel, stmts@[i], st);
        if r == Ok::<Flow, IErr>(Flow::Normal) {
            lemma_block_keeps_ok(fs, fuel, stmts, i + 1, st1);
            lemma_kinds_kept_trans(st.heap, st1.heap, exec_block(fs, fuel, stmts, i + 1, st1).0.heap);
        }
    }
}

pub proof fn lemma_scoped_keeps_ok(fs: Seq<FunctionDecl>, fuel: nat, stmts: Vec<Stmt>, st: IState)
    requires
        state_ok(st),
    ensures
        kept_ok(st, exec_scoped(fs, fuel, stmts, st).0),
        flow_ok(exec_scoped(fs, fuel, stmts, st).0.heap, exec_scoped(fs, fuel, stmts, st).1),
    decreases fuel, stmts_height(stmts, 0), stmts@.len() + 1,
{
    let inner = IState { scopes: st.scopes.push(Seq::empty()), ..st };
    assert(scopes_ok(st.heap, inner.scopes)) by {
        assert forall|i: int| 0 <= i < inner.scopes.len() implies entries_ok(st.heap, #[trigger] inner.scopes[i]) by {
            if i < st.scopes.len() {
                assert(inner.scopes[i] == st.scopes[i]);
            }
        }
    }
    lemma_block_keeps_ok(fs, fuel, stmts, 0, inner);
    let st1 = exec_block(fs, fuel, stmts, 0, inner).0;
    let sc = st1.scopes.drop_last();
    assert forall|i: int| 0 <= i < sc.len() implies entries_ok(st1.heap, #[trigger] sc[i]) by {
        assert(sc[i] == st1.scopes[i]);
    }
}


pub proof fn lemma_while_keeps_ok(fs: Seq<FunctionDecl>, fuel: nat, w: Stmt, st: IState)
    requires
        state_ok(st),
    ensures
        kept_ok(st, exec_while(fs, fuel, w, st).0),
        flow_ok(exec_while(fs, fuel, w, st).0.heap, exec_while(fs, fuel, w, st).1),
    decreases fuel, while_height(w), 0int,
{
    lemma_kinds_kept_refl(st.heap);
    if let Stmt::While(cond, body) = w {
        lemma_eval_keeps_ok(fs, fuel, cond, st);
        let (st1, rc) = eval_result(fs, fuel, cond, st);
        if let Ok(c) = rc {
            if truthy(c) && fuel > 0 {
                lemma_scoped_keeps_ok(fs, fuel, body, st1);
                let (st2, rb) = exec_scoped(fs, fuel, body, st1);
                lemma_kinds_kept_trans(st.heap, st1.heap, st2.heap);
                if rb == Ok::<Flow, IErr>(Flow::Normal) {
                    lemma_while_keeps_ok(fs, (fuel - 1) as nat, w, st2);
                    lemma_kinds_kept_trans(st.heap, st2.heap, exec_while(fs, (fuel - 1) as nat, w, st2).0.heap);
                }
            }
        }
    }
}

pub proof fn lemma_exec_keeps_ok(fs: Seq<FunctionDecl>, fuel: nat, s: Stmt, st: IState)
    requires
        state_ok(st),
    ensures
        kept_ok(st, exec_result(fs, fuel, s, st).0),
        flow_ok(exec_result(fs, fuel, s, st).0.heap, exec_result(fs, fuel, s, st).1),
    decreases fuel, stmt_height(s), 0int,
{
    lemma_kinds_kept_refl(st.heap);
    match s {
        Stmt::Let(name, e, _) => {
            lemma_eval_keeps_ok(fs, fuel, e, st);
            let (st1, r) = eval_result(fs, fuel, e, st);
            if let Ok(v) = r {
                lemma_declare_ok(st1.heap, st1.scopes, name@, v);
            }
        },
        Stmt::ExprStmt(e) => lemma_eval_keeps_ok(fs, fuel, e, st),
        Stmt::Print(exprs, _) => lemma_items_keep_ok(fs, fuel, exprs, 0, st),
        Stmt::If(cond, then_b, else_b) => {
            lemma_eval_keeps_ok(fs, fuel, cond, st);
            let st1 = eval_result(fs, fuel, cond, st).0;
            if eval_result(fs, fuel, cond, st).1 is Ok {
                lemma_scoped_keeps_ok(fs, fuel, then_b, st1);
                lemma_scoped_keeps_ok(fs, fuel, else_b, st1);
                lemma_kinds_kept_trans(st.heap, st1.heap, exec_scoped(fs, fuel, then_b, st1).0.heap);
                lemma_kinds_kept_trans(st.heap, st1.heap, exec_scoped(fs, fuel, else_b, st1).0.heap);
            }
        },
        Stmt::While(_, _) => lemma_while_keeps_ok(fs, fuel, s, st),
        Stmt::Block(stmts) => lemma_scoped_keeps_ok(fs, fuel, stmts, st),
        Stmt::Return(e, _) => if let Some(x) = e {
            lemma_eval_keeps_ok(fs, fuel, x, st);
        },
    }
}

// ------------------------------------------------------------------ //
// The interpreter
// ------------------------------------------------------------------ //

/// Variable scopes, innermost last.
pub type Scopes = Vec<Vec<(Vec<u8>, Value)>>;

pub open spec fn scopes_view(sc: Seq<Vec<(Vec<u8>, Value)>>) -> Seq<Scope> {
    sc.map_values(|s: Vec<(Vec<u8>, Value)>| entries_view(s@))
}

/// The tree-walking interpreter: the heap of the running program.
pub struct Interpreter {
    pub heap: Heap,
}

/// `r`, leaving `after`, is the outcome `spec` describes.
pub open spec fn evaluated(r: Result<Value, SfError>, after: IState, spec: (IState, Result<SVal, IErr>)) -> bool {
    &&& after == spec.0
    &&& match spec.1 {
        Ok(v) => r is Ok && r->Ok_0@ == v,
        Err((m, l)) => r is Err && is_runtime_error(r->Err_0, m, l),
    }
}

pub open spec fn flow_view(f: ExecFlow) -> Flow {
    match f {
        ExecFlow::Normal => Flow::Normal,
        ExecFlow::Ret(v) => Flow::Ret(v@),
    }
}

/// How a statement ended, with the returned value.
pub enum ExecFlow {
    Normal,
    Ret(Value),
}

pub open spec fn executed(r: Result<ExecFlow, SfError>, after: IState, spec: (IState, Result<Flow, IErr>)) -> bool {
    &&& after == spec.0
    &&& match spec.1 {
        Ok(f) => r is Ok && flow_view(r->Ok_0) == f,
        Err((m, l)) => r is Err && is_runtime_error(r->Err_0, m, l),
    }
}

fn text_error(t: &str, line: u32) -> (e: SfError)
    ensures
        is_runtime_error(e, str_bytes(t), line),
{
    let mut m: Vec<u8> = Vec::new();
    push_str(&mut m, t);
    assert(m@ =~= str_bytes(t));
    SfError::runtime(m, line)
}

fn named_error(what: &str, name: &Vec<u8>, line: u32) -> (e: SfError)
    ensures
        is_runtime_error(e, named_msg(what, name@), line),
{
    let mut m: Vec<u8> = Vec::new();
    push_str(&mut m, what);
    push_str(&mut m, " '");
    push_bytes(&mut m, name.as_slice());
    push_str(&mut m, "'");
    assert(m@ =~= named_msg(what, name@));
    SfError::runtime(m, line)
}

proof fn lemma_lookup_prefix(v: Seq<Scope>, name: Seq<u8>, i: int)
    requires
        0 <= i <= v.len(),
        forall|j: int| i <= j < v.len() ==> dict_get(#[trigger] v[j], name) is None,
    ensures
        lookup_var(v, name) == lookup_var(v.subrange(0, i), name),
    decreases v.len() - i,
{
    if i < v.len() {
        assert(v.drop_last() =~= v.subrange(0, v.len() - 1));
        lemma_lookup_prefix(v.drop_last(), name, i);
        assert(v.drop_last().subrange(0, i) =~= v.subrange(0, i));
    } else {
        assert(v.subrange(0, i) =~= v);
    }
}

proof fn lemma_assign_at(v: Seq<Scope>, name: Seq<u8>, val: SVal, k: int)
    requires
        0 <= k < v.len(),
        dict_get(v[k], name) is Some,
        forall|j: int| k < j < v.len() ==> dict_get(#[trigger] v[j], name) is None,
    ensures
        assign_var(v, name, val) == Some(v.update(k, dict_insert(v[k], name, val))),
    decreases v.len() - k,
{
    if k < v.len() - 1 {
        let d = v.drop_last();
        lemma_assign_at(d, name, val, k);
        assert(d.update(k, dict_insert(v[k], name, val)).push(v.last()) =~= v.update(k, dict_insert(v[k], name, val)));
    }
}

proof fn lemma_assign_none(v: Seq<Scope>, name: Seq<u8>, val: SVal)
    requires
        forall|j: int| 0 <= j < v.len() ==> dict_get(#[trigger] v[j], name) is None,
    ensures
        assign_var(v, name, val) is None,
    decreases v.len(),
{
    if v.len() > 0 {
        lemma_assign_none(v.drop_last(), name, val);
    }
}

/// The value of variable `name`.
fn lookup(scopes: &Scopes, name: &Vec<u8>) -> (r: Option<Value>)
    ensures
        match lookup_var(scopes_view(scopes@), name@) {
            Some(v) => r is Some && r->Some_0@ == v,
            None => r is None,
        },
{
    let ghost v = scopes_view(scopes@);
    let mut i = scopes.len();
    while i > 0
        invariant
            i <= scopes@.len(),
            v == scopes_view(scopes@),
            forall|j: int| i <= j < v.len() ==> dict_get(#[trigger] v[j], name@) is None,
        decreases i,
    {
        i = i - 1;
        assert(v[i as int] == entries_view(scopes@[i as int]@));
        match find_entry(&scopes[i], name.as_slice()) {
            Some(k) => {
                proof {
                    lemma_lookup_prefix(v, name@, i + 1);
                    let pre = v.subrange(0, i + 1);
                    assert(pre.last() == v[i as int]);
                    assert(entries_view(scopes@[i as int]@)[k as int].1 == scopes@[i as int]@[k as int].1@);
                }
                return Some(scopes[i][k].1.copy());
            },
            None => {},
        }
    }
    proof {
        lemma_lookup_prefix(v, name@, 0);
        assert(v.subrange(0, 0).len() == 0);
    }
    None
}

/// Assigns `val` to `name` in the innermost scope binding it; false when
/// none does.
fn assign(scopes: &mut Scopes, name: &Vec<u8>, val: Value) -> (found: bool)
    ensures
        final(scopes)@.len() == old(scopes)@.len(),
        match assign_var(scopes_view(old(scopes)@), name@, val@) {
            Some(sc) => found && scopes_view(final(scopes)@) == sc,
            None => !found && final(scopes)@ == old(scopes)@,
        },
{
    let ghost v = scopes_view(scopes@);
    let mut i = scopes.len();
    let mut hit: Option<usize> = None;
    while i > 0 && hit.is_none()
        invariant
            i <= scopes@.len(),
            v == scopes_view(scopes@),
            scopes@ == old(scopes)@,
            hit is None ==> forall|j: int| i <= j < v.len() ==> dict_get(#[trigger] v[j], name@) is None,
            hit matches Some(k) ==> k < scopes@.len() && dict_get(v[k as int], name@) is Some
                && forall|j: int| k < j < v.len() ==> dict_get(#[trigger] v[j], name@) is None,
        decreases i + if hit is None { 1int } else { 0int },
    {
        let ghost i0 = i;
        i = i - 1;
        assert(v[i as int] == entries_view(scopes@[i as int]@));
        if find_entry(&scopes[i], name.as_slice()).is_some() {
            hit = Some(i);
        }
    }
    match hit {
        Some(k) => {
            let ghost vk = v[k as int];
            assert(k < scopes@.len());
            proof {
                lemma_assign_at(v, name@, val@, k as int);
            }
            let mut scope: Vec<(Vec<u8>, Value)> = Vec::new();
            std::mem::swap(&mut scope, &mut scopes[k]);
            assert(entries_view(scope@) == vk);
            dict_set(&mut scope, copy_bytes(name), val);
            scopes.set(k, scope);
            assert(scopes_view(scopes@) =~= v.update(k as int, dict_insert(vk, name@, val@)));
            true
        },
        None => {
            proof {
                lemma_assign_none(v, name@, val@);
            }
            false
        },
    }
}

/// Binds `name` to `val` in the innermost scope.
fn declare(scopes: &mut Scopes, name: &Vec<u8>, val: Value)
    ensures
        final(scopes)@.len() == old(scopes)@.len(),
        scopes_view(final(scopes)@) == declare_var(scopes_view(old(scopes)@), name@, val@),
{
    let n = scopes.len();
    if n == 0 {
        return;
    }
    let ghost v = scopes_view(scopes@);
    let mut scope: Vec<(Vec<u8>, Value)> = Vec::new();
    std::mem::swap(&mut scope, &mut scopes[n - 1]);
    assert(entries_view(scope@) == v[n - 1]);
    dict_set(&mut scope, copy_bytes(name), val);
    scopes.set(n - 1, scope);
    assert(scopes_view(scopes@) =~= declare_var(v, name@, val@));
}

/// The declaration a call of `name` runs: the last one with that name.
fn find_decl(fs: &Vec<FunctionDecl>, name: &Vec<u8>) -> (r: Option<usize>)
    ensures
        match r {
            Some(k) => find_function(fs@, name@) == k && k < fs@.len(),
            None => find_function(fs@, name@) == -1,
        },
{
    let mut i = fs.len();
    while i > 0
        invariant
            i <= fs@.len(),
            forall|j: int| i <= j < fs@.len() ==> fs@[j].name@ != name@,
        decreases i,
    {
        i = i - 1;
        if bytes_eq(fs[i].name.as_slice(), name.as_slice()) {
            proof {
                assert(last_decl_at(fs@, name@, i as int));
                let c = choose|c: int| last_decl_at(fs@, name@, c);
                if c < i {
                    assert(fs@[i as int].name@ != name@);
                } else if c > i {
                    assert(fs@[c].name@ != name@);
                }
            }
            return Some(i);
        }
    }
    None
}

/// The scope of a call of `decl` with `args`.
fn bind_params(params: &Vec<Vec<u8>>, args: &Vec<Value>) -> (sc: Vec<(Vec<u8>, Value)>)
    requires
        params@.len() == args@.len(),
    ensures
        entries_view(sc@) == param_scope(params@, values_view(args@)),
{
    let mut sc: Vec<(Vec<u8>, Value)> = Vec::new();
    let mut i: usize = 0;
    assert(params@.subrange(0, 0).len() == 0);
    while i < params.len()
        invariant
            i <= params@.len(),
            params@.len() == args@.len(),
            entries_view(sc@) == param_scope(params@.subrange(0, i as int), values_view(args@).subrange(0, i as int)),
        decreases params@.len() - i,
    {
        proof {
            let p1 = params@.subrange(0, i + 1);
            let a1 = values_view(args@).subrange(0, i + 1);
            assert(p1.drop_last() =~= params@.subrange(0, i as int));
            assert(a1.subrange(0, a1.len() - 1) =~= values_view(args@).subrange(0, i as int));
            assert(a1[i as int] == args@[i as int]@);
        }
        dict_set(&mut sc, copy_bytes(&params[i]), args[i].copy());
        i = i + 1;
    }
    assert(params@.subrange(0, params@.len() as int) =~= params@);
    assert(values_view(args@).subrange(0, args@.len() as int) =~= values_view(args@));
    sc
}

pub open spec fn istate(h: Heap, scopes: Scopes, out: Vec<u8>) -> IState {
    IState { scopes: scopes_view(scopes@), heap: h@, out: out@ }
}

impl Interpreter {
    /// An interpreter with an empty heap.
    pub fn new() -> (i: Interpreter)
        ensures
            i.heap@.len() == 0,
    {
        Interpreter { heap: Heap::new() }
    }

    /// Evaluates `e`.
    fn eval(&mut self, fs: &Vec<FunctionDecl>, fuel: u64, e: &Expr, scopes: &mut Scopes, out: &mut Vec<u8>) -> (r: Result<Value, SfError>)
        ensures
            final(scopes)@.len() == old(scopes)@.len(),
            evaluated(r, istate(final(self).heap, *final(scopes), *final(out)), eval_result(fs@, fuel as nat, *e, istate(old(self).heap, *old(scopes), *old(out)))),
        decreases fuel, expr_height(*e), 1int,
    {
        let ghost st = istate(self.heap, *scopes, *out);
        match e {
            Expr::Number(n) => Ok(Value::Number(*n)),
            Expr::Str(t) => Ok(Value::Str(copy_bytes(t))),
            Expr::Bool(b) => Ok(Value::Bool(*b)),
            Expr::Nil => Ok(Value::Nil),
            Expr::Ident(name, line) => match lookup(scopes, name) {
                Some(v) => Ok(v),
                None => Err(named_error("undefined variable", name, *line)),
            },
            Expr::Array(items) => {
                let vals = self.eval_items(fs, fuel, items, 0, scopes, out)?;
                let ghost st1 = istate(self.heap, *scopes, *out);
                let ghost vv = values_view(vals@);
                let v = self.heap.alloc_array(vals);
                assert(istate(self.heap, *scopes, *out) =~= with_heap(st1, st1.heap.push(SObj::Arr(vv))));
                Ok(v)
            },
            Expr::Dict(entries) => {
                let es = self.eval_entries(fs, fuel, entries, 0, scopes, out)?;
                let ghost st1 = istate(self.heap, *scopes, *out);
                let ghost ev = entries_view(es@);
                let v = self.heap.alloc_dict(es);
                assert(istate(self.heap, *scopes, *out) =~= with_heap(st1, st1.heap.push(SObj::Dict(crate::heap::dict_from(ev)))));
                Ok(v)
            },
            Expr::Index(..) => self.eval_index(fs, fuel, e, scopes, out),
            Expr::Unary(..) => self.eval_unary(fs, fuel, e, scopes, out),
            Expr::Binary(..) => self.eval_binop(fs, fuel, e, scopes, out),
            Expr::Logical(..) => self.eval_logical(fs, fuel, e, scopes, out),
            Expr::Assign(..) => self.eval_assign(fs, fuel, e, scopes, out),
            Expr::IndexAssign(..) => self.eval_index_assign(fs, fuel, e, scopes, out),
            Expr::Call(..) => self.eval_call(fs, fuel, e, scopes, out),
        }
    }

    /// The values of `items[i..]`.
    fn eval_items(&mut self, fs: &Vec<FunctionDecl>, fuel: u64, items: &Vec<Expr>, i: usize, scopes: &mut Scopes, out: &mut Vec<u8>) -> (r: Result<Vec<Value>, SfError>)
        ensures
            final(scopes)@.len() == old(scopes)@.len(),
            ({
                let (st2, spec) = eval_items(fs@, fuel as nat, *items, i as int, istate(old(self).heap, *old(scopes), *old(out)));
                &&& istate(final(self).heap, *final(scopes), *final(out)) == st2
                &&& match spec {
                    Ok(vs) => r is Ok && values_view(r->Ok_0@) == vs,
                    Err((m, l)) => r is Err && is_runtime_error(r->Err_0, m, l),
                }
            }),
        decreases fuel, exprs_height(*items, i as int), items@.len() - i,
    {
        if i >= items.len() {
            let v: Vec<Value> = Vec::new();
            assert(values_view(v@) =~= Seq::<SVal>::empty());
            return Ok(v);
        }
        proof {
            lemma_exprs_height(*items, i as int, i as int);
        }
        let first = self.eval(fs, fuel, &items[i], scopes, out)?;
        let ghost fv = first@;
        let mut rest = self.eval_items(fs, fuel, items, i + 1, scopes, out)?;
        let ghost rv = values_view(rest@);
        let mut all: Vec<Value> = Vec::new();
        all.push(first);
        all.append(&mut rest);
        assert(values_view(all@) =~= seq![fv] + rv);
        Ok(all)
    }

    /// The entries of a map literal from `i` on.
    fn eval_entries(&mut self, fs: &Vec<FunctionDecl>, fuel: u64, entries: &Vec<(Vec<u8>, Expr)>, i: usize, scopes: &mut Scopes, out: &mut Vec<u8>) -> (r: Result<Vec<(Vec<u8>, Value)>, SfError>)
        ensures
            final(scopes)@.len() == old(scopes)@.len(),
            ({
                let (st2, spec) = eval_entries(fs@, fuel as nat, *entries, i as int, istate(old(self).heap, *old(scopes), *old(out)));
                &&& istate(final(self).heap, *final(scopes), *final(out)) == st2
                &&& match spec {
                    Ok(es) => r is Ok && entries_view(r->Ok_0@) == es,
                    Err((m, l)) => r is Err && is_runtime_error(r->Err_0, m, l),
                }
            }),
        decreases fuel, entries_height(*entries, i as int), entries@.len() - i,
    {
        if i >= entries.len() {
            let v: Vec<(Vec<u8>, Value)> = Vec::new();
            assert(entries_view(v@) =~= Seq::<(Seq<u8>, SVal)>::empty());
            return Ok(v);
        }
        proof {
            lemma_entries_height(*entries, i as int, i as int);
        }
        let first = self.eval(fs, fuel, &entries[i].1, scopes, out)?;
        let key = copy_bytes(&entries[i].0);
        let ghost fv = (key@, first@);
        let mut rest = self.eval_entries(fs, fuel, entries, i + 1, scopes, out)?;
        let ghost rv = entries_view(rest@);
        let mut all: Vec<(Vec<u8>, Value)> = Vec::new();
        all.push((key, first));
        all.append(&mut rest);
        assert(entries_view(all@) =~= seq![fv] + rv);
        Ok(all)
    }

    fn eval_index(&mut self, fs: &Vec<FunctionDecl>, fuel: u64, e: &Expr, scopes: &mut Scopes, out: &mut Vec<u8>) -> (r: Result<Value, SfError>)
        requires
            e is Index,
        ensures
            final(scopes)@.len() == old(scopes)@.len(),
            evaluated(r, istate(final(self).heap, *final(scopes), *final(out)), eval_result(fs@, fuel as nat, *e, istate(old(self).heap, *old(scopes), *old(out)))),
        decreases fuel, expr_height(*e), 0int,
    {
        match e {
            Expr::Index(base, idx, line) => {
                let b = self.eval(fs, fuel, base, scopes, out)?;
                let i = self.eval(fs, fuel, idx, scopes, out)?;
                index_get(&self.heap, &b, &i, *line)
            },
            _ => Ok(Value::Nil),
        }
    }

    fn eval_unary(&mut self, fs: &Vec<FunctionDecl>, fuel: u64, e: &Expr, scopes: &mut Scopes, out: &mut Vec<u8>) -> (r: Result<Value, SfError>)
        requires
            e is Unary,
        ensures
            final(scopes)@.len() == old(scopes)@.len(),
            evaluated(r, istate(final(self).heap, *final(scopes), *final(out)), eval_result(fs@, fuel as nat, *e, istate(old(self).heap, *old(scopes), *old(out)))),
        decreases fuel, expr_height(*e), 0int,
    {
        match e {
            Expr::Unary(op, operand, line) => {
                let v = self.eval(fs, fuel, operand, scopes, out)?;
                match op {
                    UnOp::Not => Ok(Value::Bool(!v.is_truthy())),
                    UnOp::Neg => match v {
                        Value::Number(x) => {
                            if x >= -MAX_SAFE && x <= MAX_SAFE {
                                Ok(Value::Number(-x))
                            } else {
                                Err(text_error("number out of range", *line))
                            }
                        },
                        _ => {
                            let mut m: Vec<u8> = Vec::new();
                            push_str(&mut m, "expected a number, got ");
                            push_str(&mut m, v.kind_name());
                            assert(m@ =~= str_bytes("expected a number, got ") + kind_name_text(v@));
                            Err(SfError::runtime(m, *line))
                        },
                    },
                }
            },
            _ => Ok(Value::Nil),
        }
    }

    fn eval_binop(&mut self, fs: &Vec<FunctionDecl>, fuel: u64, e: &Expr, scopes: &mut Scopes, out: &mut Vec<u8>) -> (r: Result<Value, SfError>)
        requires
            e is Binary,
        ensures
            final(scopes)@.len() == old(scopes)@.len(),
            evaluated(r, istate(final(self).heap, *final(scopes), *final(out)), eval_result(fs@, fuel as nat, *e, istate(old(self).heap, *old(scopes), *old(out)))),
        decreases fuel, expr_height(*e), 0int,
    {
        match e {
            Expr::Binary(op, lhs, rhs, line) => {
                let l = self.eval(fs, fuel, lhs, scopes, out)?;
                let r = self.eval(fs, fuel, rhs, scopes, out)?;
                eval_binary(*op, &l, &r, *line)
            },
            _ => Ok(Value::Nil),
        }
    }

    fn eval_logical(&mut self, fs: &Vec<FunctionDecl>, fuel: u64, e: &Expr, scopes: &mut Scopes, out: &mut Vec<u8>) -> (r: Result<Value, SfError>)
        requires
            e is Logical,
        ensures
            final(scopes)@.len() == old(scopes)@.len(),
            evaluated(r, istate(final(self).heap, *final(scopes), *final(out)), eval_result(fs@, fuel as nat, *e, istate(old(self).heap, *old(scopes), *old(out)))),
        decreases fuel, expr_height(*e), 0int,
    {
        match e {
            Expr::Logical(op, lhs, rhs) => {
                let l = self.eval(fs, fuel, lhs, scopes, out)?;
                let t = l.is_truthy();
                let short = match op {
                    LogicOp::And => !t,
                    LogicOp::Or => t,
                };
                if short {
                    Ok(l)
                } else {
                    self.eval(fs, fuel, rhs, scopes, out)
                }
            },
            _ => Ok(Value::Nil),
        }
    }

    fn eval_assign(&mut self, fs: &Vec<FunctionDecl>, fuel: u64, e: &Expr, scopes: &mut Scopes, out: &mut Vec<u8>) -> (r: Result<Value, SfError>)
        requires
            e is Assign,
        ensures
            final(scopes)@.len() == old(scopes)@.len(),
            evaluated(r, istate(final(self).heap, *final(scopes), *final(out)), eval_result(fs@, fuel as nat, *e, istate(old(self).heap, *old(scopes), *old(out)))),
        decreases fuel, expr_height(*e), 0int,
    {
        match e {
            Expr::Assign(name, value, line) => {
                let v = self.eval(fs, fuel, value, scopes, out)?;
                let kept = v.copy();
                if assign(scopes, name, v) {
                    Ok(kept)
                } else {
                    Err(named_error("assignment to undefined variable", name, *line))
                }
            },
            _ => Ok(Value::Nil),
        }
    }

    fn eval_index_assign(&mut self, fs: &Vec<FunctionDecl>, fuel: u64, e: &Expr, scopes: &mut Scopes, out: &mut Vec<u8>) -> (r: Result<Value, SfError>)
        requires
            e is IndexAssign,
        ensures
            final(scopes)@.len() == old(scopes)@.len(),
            evaluated(r, istate(final(self).heap, *final(scopes), *final(out)), eval_result(fs@, fuel as nat, *e, istate(old(self).heap, *old(scopes), *old(out)))),
        decreases fuel, expr_height(*e), 0int,
    {
        match e {
            Expr::IndexAssign(base, idx, value, line) => {
                let b = self.eval(fs, fuel, base, scopes, out)?;
                let i = self.eval(fs, fuel, idx, scopes, out)?;
                let v = self.eval(fs, fuel, value, scopes, out)?;
                let kept = v.copy();
                let ghost before = istate(self.heap, *scopes, *out);
                index_set(&mut self.heap, &b, &i, v, *line)?;
                assert(istate(self.heap, *scopes, *out) =~= with_heap(before, self.heap@));
                Ok(kept)
            },
            _ => Ok(Value::Nil),
        }
    }

    fn eval_call(&mut self, fs: &Vec<FunctionDecl>, fuel: u64, e: &Expr, scopes: &mut Scopes, out: &mut Vec<u8>) -> (r: Result<Value, SfError>)
        requires
            e is Call,
        ensures
            final(scopes)@.len() == old(scopes)@.len(),
            evaluated(r, istate(final(self).heap, *final(scopes), *final(out)), eval_result(fs@, fuel as nat, *e, istate(old(self).heap, *old(scopes), *old(out)))),
        decreases fuel, expr_height(*e), 0int,
    {
        match e {
            Expr::Call(name, args, line) => {
                let vals = self.eval_items(fs, fuel, args, 0, scopes, out)?;
                let ghost st1 = istate(self.heap, *scopes, *out);
                match call_builtin(name.as_slice(), &vals, *line, &mut self.heap) {
                    Err(err) => return Err(err),
                    Ok(Some(v)) => {
                        assert(istate(self.heap, *scopes, *out) =~= with_heap(st1, self.heap@));
                        return Ok(v);
                    },
                    Ok(None) => {},
                }
                let k = match find_decl(fs, name) {
                    Some(k) => k,
                    None => return Err(named_error("undefined function", name, *line)),
                };
                let decl = &fs[k];
                if decl.params.len() != vals.len() {
                    let mut m: Vec<u8> = Vec::new();
                    push_str(&mut m, "function '");
                    push_bytes(&mut m, name.as_slice());
                    push_str(&mut m, "' expects ");
                    push_digits(&mut m, decl.params.len() as u64);
                    push_str(&mut m, " argument(s), got ");
                    push_digits(&mut m, vals.len() as u64);
                    assert(m@ =~= call_arity_msg(name@, decl.params@.len(), values_view(vals@).len()));
                    return Err(SfError::runtime(m, *line));
                }
                if fuel == 0 {
                    return Err(text_error("step limit exceeded", 0));
                }
                let scope = bind_params(&decl.params, &vals);
                let mut callee: Scopes = Vec::new();
                callee.push(scope);
                assert(scopes_view(callee@) =~= seq![param_scope(fs@[k as int].params@, values_view(vals@))]);
                let flow = self.exec_block(fs, fuel - 1, &decl.body, &mut callee, out)?;
                match flow {
                    ExecFlow::Ret(v) => Ok(v),
                    ExecFlow::Normal => Ok(Value::Nil),
                }
            },
            _ => Ok(Value::Nil),
        }
    }
}

impl Interpreter {
    /// Runs statement `s`.
    fn exec_stmt(&mut self, fs: &Vec<FunctionDecl>, fuel: u64, s: &Stmt, scopes: &mut Scopes, out: &mut Vec<u8>) -> (r: Result<ExecFlow, SfError>)
        ensures
            final(scopes)@.len() == old(scopes)@.len(),
            executed(r, istate(final(self).heap, *final(scopes), *final(out)), exec_result(fs@, fuel as nat, *s, istate(old(self).heap, *old(scopes), *old(out)))),
        decreases fuel, stmt_height(*s), 1int,
    {
        match s {
            Stmt::Let(..) => self.exec_let(fs, fuel, s, scopes, out),
            Stmt::ExprStmt(..) | Stmt::Return(..) => self.exec_simple_stmt(fs, fuel, s, scopes, out),
            Stmt::Print(..) => self.exec_print(fs, fuel, s, scopes, out),
            Stmt::If(..) => self.exec_if(fs, fuel, s, scopes, out),
            Stmt::While(_, _) => self.exec_while(fs, fuel, s, scopes, out),
            Stmt::Block(stmts) => self.exec_scoped(fs, fuel, stmts, scopes, out),
        }
    }

    fn exec_let(&mut self, fs: &Vec<FunctionDecl>, fuel: u64, s: &Stmt, scopes: &mut Scopes, out: &mut Vec<u8>) -> (r: Result<ExecFlow, SfError>)
        requires
            s is Let,
        ensures
            final(scopes)@.len() == old(scopes)@.len(),
            executed(r, istate(final(self).heap, *final(scopes), *final(out)), exec_result(fs@, fuel as nat, *s, istate(old(self).heap, *old(scopes), *old(out)))),
        decreases fuel, stmt_height(*s), 0int,
    {
        match s {
            Stmt::Let(name, e, _) => {
                let v = self.eval(fs, fuel, e, scopes, out)?;
                let ghost st1 = istate(self.heap, *scopes, *out);
                let ghost vv = v@;
                declare(scopes, name, v);
                assert(istate(self.heap, *scopes, *out) =~= IState { scopes: declare_var(st1.scopes, name@, vv), ..st1 });
                Ok(ExecFlow::Normal)
            },
            _ => Ok(ExecFlow::Normal),
        }
    }

    fn exec_simple_stmt(&mut self, fs: &Vec<FunctionDecl>, fuel: u64, s: &Stmt, scopes: &mut Scopes, out: &mut Vec<u8>) -> (r: Result<ExecFlow, SfError>)
        requires
            s is ExprStmt || s is Return,
        ensures
            final(scopes)@.len() == old(scopes)@.len(),
            executed(r, istate(final(self).heap, *final(scopes), *final(out)), exec_result(fs@, fuel as nat, *s, istate(old(self).heap, *old(scopes), *old(out)))),
        decreases fuel, stmt_height(*s), 0int,
    {
        match s {
            Stmt::ExprStmt(e) => {
                self.eval(fs, fuel, e, scopes, out)?;
                Ok(ExecFlow::Normal)
            },
            Stmt::Return(e, _) => match e {
                None => Ok(ExecFlow::Ret(Value::Nil)),
                Some(x) => {
                    let v = self.eval(fs, fuel, x, scopes, out)?;
                    Ok(ExecFlow::Ret(v))
                },
            },
            _ => Ok(ExecFlow::Normal),
        }
    }

    fn exec_print(&mut self, fs: &Vec<FunctionDecl>, fuel: u64, s: &Stmt, scopes: &mut Scopes, out: &mut Vec<u8>) -> (r: Result<ExecFlow, SfError>)
        requires
            s is Print,
        ensures
            final(scopes)@.len() == old(scopes)@.len(),
            executed(r, istate(final(self).heap, *final(scopes), *final(out)), exec_result(fs@, fuel as nat, *s, istate(old(self).heap, *old(scopes), *old(out)))),
        decreases fuel, stmt_height(*s), 0int,
    {
        match s {
            Stmt::Print(exprs, _) => {
                let vals = self.eval_items(fs, fuel, exprs, 0, scopes, out)?;
                let ghost st1 = istate(self.heap, *scopes, *out);
                print_from(&self.heap, &vals, 0, out);
                assert(values_view(vals@).skip(0) =~= values_view(vals@));
                assert(istate(self.heap, *scopes, *out) =~= IState { out: st1.out + print_text(st1.heap, values_view(vals@)), ..st1 });
                Ok(ExecFlow::Normal)
            },
            _ => Ok(ExecFlow::Normal),
        }
    }

    fn exec_if(&mut self, fs: &Vec<FunctionDecl>, fuel: u64, s: &Stmt, scopes: &mut Scopes, out: &mut Vec<u8>) -> (r: Result<ExecFlow, SfError>)
        requires
            s is If,
        ensures
            final(scopes)@.len() == old(scopes)@.len(),
            executed(r, istate(final(self).heap, *final(scopes), *final(out)), exec_result(fs@, fuel as nat, *s, istate(old(self).heap, *old(scopes), *old(out)))),
        decreases fuel, stmt_height(*s), 0int,
    {
        match s {
            Stmt::If(cond, then_b, else_b) => {
                let c = self.eval(fs, fuel, cond, scopes, out)?;
                if c.is_truthy() {
                    self.exec_scoped(fs, fuel, then_b, scopes, out)
                } else {
                    self.exec_scoped(fs, fuel, else_b, scopes, out)
                }
            },
            _ => Ok(ExecFlow::Normal),
        }
    }

    /// Runs `stmts` in order, stopping at a `return`.
    fn exec_block(&mut self, fs: &Vec<FunctionDecl>, fuel: u64, stmts: &Vec<Stmt>, scopes: &mut Scopes, out: &mut Vec<u8>) -> (r: Result<ExecFlow, SfError>)
        ensures
            final(scopes)@.len() == old(scopes)@.len(),
            executed(r, istate(final(self).heap, *final(scopes), *final(out)), exec_block(fs@, fuel as nat, *stmts, 0, istate(old(self).heap, *old(scopes), *old(out)))),
        decreases fuel, stmts_height(*stmts, 0), 0int,
    {
        let ghost total = exec_block(fs@, fuel as nat, *stmts, 0, istate(self.heap, *scopes, *out));
        let mut i: usize = 0;
        let mut result: Option<Result<ExecFlow, SfError>> = None;
        while i < stmts.len() && result.is_none()
            invariant
                i <= stmts@.len(),
                scopes@.len() == old(scopes)@.len(),
                result is None ==> exec_block(fs@, fuel as nat, *stmts, i as int, istate(self.heap, *scopes, *out)) == total,
                result matches Some(r) ==> executed(r, istate(self.heap, *scopes, *out), total),
            decreases stmts@.len() - i + if result is None { 1int } else { 0int },
        {
            proof {
                lemma_stmts_height(*stmts, 0, i as int);
            }
            let ghost before = istate(self.heap, *scopes, *out);
            match self.exec_stmt(fs, fuel, &stmts[i], scopes, out) {
                Ok(ExecFlow::Normal) => {
                    i = i + 1;
                },
                other => {
                    result = Some(other);
                },
            }
        }
        match result {
            Some(r) => r,
            None => Ok(ExecFlow::Normal),
        }
    }

    /// Runs `stmts` in a scope of their own.
    fn exec_scoped(&mut self, fs: &Vec<FunctionDecl>, fuel: u64, stmts: &Vec<Stmt>, scopes: &mut Scopes, out: &mut Vec<u8>) -> (r: Result<ExecFlow, SfError>)
        ensures
            final(scopes)@.len() == old(scopes)@.len(),
            executed(r, istate(final(self).heap, *final(scopes), *final(out)), exec_scoped(fs@, fuel as nat, *stmts, istate(old(self).heap, *old(scopes), *old(out)))),
        decreases fuel, stmts_height(*stmts, 0), 1int,
    {
        let ghost st = istate(self.heap, *scopes, *out);
        let fresh: Vec<(Vec<u8>, Value)> = Vec::new();
        assert(entries_view(fresh@) =~= Seq::<(Seq<u8>, SVal)>::empty());
        scopes.push(fresh);
        assert(istate(self.heap, *scopes, *out) =~= IState { scopes: st.scopes.push(Seq::empty()), ..st });
        let r = self.exec_block(fs, fuel, stmts, scopes, out);
        let ghost mid = istate(self.heap, *scopes, *out);
        scopes.pop();
        assert(istate(self.heap, *scopes, *out) =~= IState { scopes: mid.scopes.drop_last(), ..mid });
        r
    }

    /// Runs the `while` loop `w`.
    fn exec_while(&mut self, fs: &Vec<FunctionDecl>, fuel: u64, w: &Stmt, scopes: &mut Scopes, out: &mut Vec<u8>) -> (r: Result<ExecFlow, SfError>)
        requires
            w is While,
        ensures
            final(scopes)@.len() == old(scopes)@.len(),
            executed(r, istate(final(self).heap, *final(scopes), *final(out)), exec_while(fs@, fuel as nat, *w, istate(old(self).heap, *old(scopes), *old(out)))),
        decreases fuel, while_height(*w), 0int,
    {
        let ghost total = exec_while(fs@, fuel as nat, *w, istate(self.heap, *scopes, *out));
        let (cond, body) = match w {
            Stmt::While(c, b) => (c, b),
            _ => {
                return Ok(ExecFlow::Normal);
            },
        };
        let mut f: u64 = fuel;
        let mut result: Option<Result<ExecFlow, SfError>> = None;
        while result.is_none()
            invariant
                f <= fuel,
                scopes@.len() == old(scopes)@.len(),
                *w == Stmt::While(*cond, *body),
                result is None ==> exec_while(fs@, f as nat, *w, istate(self.heap, *scopes, *out)) == total,
                result matches Some(r) ==> executed(r, istate(self.heap, *scopes, *out), total),
            decreases f, if result is None { 1int } else { 0int },
        {
            match self.eval(fs, f, cond, scopes, out) {
                Err(e) => {
                    result = Some(Err(e));
                },
                Ok(c) => {
                    if !c.is_truthy() {
                        result = Some(Ok(ExecFlow::Normal));
                    } else if f == 0 {
                        result = Some(Err(text_error("step limit exceeded", 0)));
                    } else {
                        match self.exec_scoped(fs, f, body, scopes, out) {
                            Ok(ExecFlow::Normal) => {
                                f = f - 1;
                            },
                            other => {
                                result = Some(other);
                            },
                        }
                    }
                },
            }
        }
        result.unwrap()
    }

    /// Runs a program's top-level statements in one global scope, appending
    /// everything it prints to `out`.
    pub fn run(&mut self, program: &Program, out: &mut Vec<u8>) -> (r: Result<(), SfError>)
        ensures
            ({
                let start = IState { scopes: seq![Seq::<(Seq<u8>, SVal)>::empty()], heap: old(self).heap@, out: old(out)@ };
                let (st, spec) = exec_block(program.functions@, FUEL as nat, program.main, 0, start);
                &&& final(out)@ == st.out
                &&& final(self).heap@ == st.heap
                &&& match spec {
                    Ok(_) => r is Ok,
                    Err((m, l)) => r is Err && is_runtime_error(r->Err_0, m, l),
                }
            }),
            heap_ok(old(self).heap@) ==> heap_ok(final(self).heap@),
    {
        proof {
            let start = IState { scopes: seq![Seq::<(Seq<u8>, SVal)>::empty()], heap: old(self).heap@, out: old(out)@ };
            if heap_ok(start.heap) {
                assert(scopes_ok(start.heap, start.scopes)) by {
                    assert forall|i: int| 0 <= i < start.scopes.len() implies entries_ok(start.heap, #[trigger] start.scopes[i]) by {}
                }
                lemma_block_keeps_ok(program.functions@, FUEL as nat, program.main, 0, start);
            }
        }
        let mut scopes: Scopes = Vec::new();
        let fresh: Vec<(Vec<u8>, Value)> = Vec::new();
        assert(entries_view(fresh@) =~= Seq::<(Seq<u8>, SVal)>::empty());
        scopes.push(fresh);
        assert(scopes_view(scopes@) =~= seq![Seq::<(Seq<u8>, SVal)>::empty()]);
        self.exec_block(&program.functions, FUEL, &program.main, &mut scopes, out)?;
        Ok(())
    }
}

} // verus!
