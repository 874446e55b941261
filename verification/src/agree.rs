//! Agreement of the two back ends on scripts without calls, arrays or maps:
//! scripts whose statements are `let`s, `print`s, expression statements,
//! blocks, `if`s and `while`s, over literals and variables with unary,
//! binary and logical operators and assignments. On such a script the VM,
//! running the code the compiler emits, keeps on its stack one slot per
//! local, matching the interpreter's scopes depth by depth, prints what the
//! tree-walking interpreter prints, and fails with the same error.
use vstd::prelude::*;
use crate::ast::{stmt_height, stmts_height, while_height, Expr, FunctionDecl, LogicOp, Stmt, UnOp};
use crate::chunk::OpCode;
use crate::codegen::{
    binop_code, cblock, cexpr, cexprs, cscoped, cstmt, emit, emit_const, end_scope, local_slot, patch, pop_locals, CState,
    FunTable,
};
use crate::heap::{dict_get, dict_insert, lemma_dict_get_insert, show};
use crate::interpreter::{
    assign_var, declare_var, eval_items, eval_result, exec_block, exec_result, exec_scoped, lookup_var,
    exec_while, limit_err, Flow, IErr, IState, Scope,
};
use crate::text::str_bytes;
use crate::value::{truthy, SVal};
use crate::vm::{binop_of, drop_top, is_binary, op_result, print_text, push, set_ip, step_result, FunView, StepOutcome, VmState};

verus! {

/// Expressions built from literals and variables with unary, binary and
/// logical operators and assignments.
pub open spec fn simple_expr(e: Expr) -> bool
    decreases e,
{
    match e {
        Expr::Number(_) => true,
        Expr::Str(_) => true,
        Expr::Bool(_) => true,
        Expr::Nil => true,
        Expr::Ident(_, _) => true,
        Expr::Unary(_, a, _) => simple_expr(*a),
        Expr::Binary(_, a, b, _) => simple_expr(*a) && simple_expr(*b),
        Expr::Assign(_, v, _) => simple_expr(*v),
        Expr::Logical(_, a, b) => simple_expr(*a) && simple_expr(*b),
        _ => false,
    }
}

/// A `let`, a `print` or an expression statement of simple expressions, or
/// a block, an `if` or a `while` over a simple condition and such statements.
pub open spec fn simple_stmt(s: Stmt) -> bool
    decreases s, 0int,
{
    match s {
        Stmt::Print(es, _) => forall|i: int| 0 <= i < es@.len() ==> simple_expr(#[trigger] es@[i]),
        Stmt::ExprStmt(e) => simple_expr(e),
        Stmt::Let(_, e, _) => simple_expr(e),
        Stmt::Block(b) => {
            proof {
                assert(decreases_to!(s => b));
                assert(decreases_to!(b => b@));
            }
            simple_stmts(b@, 0)
        },
        Stmt::If(c, t, e) => {
            proof {
                assert(decreases_to!(s => t));
                assert(decreases_to!(t => t@));
                assert(decreases_to!(s => e));
                assert(decreases_to!(e => e@));
            }
            simple_expr(c) && simple_stmts(t@, 0) && simple_stmts(e@, 0)
        },
        Stmt::While(c, b) => {
            proof {
                assert(decreases_to!(s => b));
                assert(decreases_to!(b => b@));
            }
            simple_expr(c) && simple_stmts(b@, 0)
        },
        _ => false,
    }
}

/// The statements `ss[i..]` are simple.
pub open spec fn simple_stmts(ss: Seq<Stmt>, i: int) -> bool
    decreases ss, ss.len() - i,
{
    if i < 0 || i >= ss.len() {
        true
    } else {
        proof {
            assert(decreases_to!(ss => ss[i]));
        }
        simple_stmt(ss[i]) && simple_stmts(ss, i + 1)
    }
}

/// What `k` steps of the machine come to: the state reached, a failure with
/// its message, line and the output printed before it, or the end of the
/// script.
pub enum Steps {
    At(VmState),
    Failed(Seq<u8>, u32, Seq<u8>),
    Ended(VmState),
}

pub open spec fn steps(fs: Seq<FunView>, s: VmState, k: nat) -> Steps
    decreases k,
{
    if k == 0 {
        Steps::At(s)
    } else {
        match step_result(fs, s) {
            StepOutcome::Continue(s1) => steps(fs, s1, (k - 1) as nat),
            StepOutcome::Done(s1) => Steps::Ended(s1),
            StepOutcome::Fail(m, l) => Steps::Failed(m, l, s.out),
        }
    }
}

/// `a + b` steps are `a` steps and then, unless they stopped, `b` more.
pub proof fn lemma_steps_add(fs: Seq<FunView>, s: VmState, a: nat, b: nat)
    ensures
        steps(fs, s, a + b) == match steps(fs, s, a) {
            Steps::At(s1) => steps(fs, s1, b),
            other => other,
        },
    decreases a,
{
    if a > 0 {
        if let StepOutcome::Continue(s1) = step_result(fs, s) {
            lemma_steps_add(fs, s1, (a - 1) as nat, b);
            assert((a + b - 1) as nat == ((a - 1) as nat + b) as nat);
        }
    }
}

/// A run with `fuel` steps left goes through `k` steps, unless it runs out
/// of steps first.
pub proof fn lemma_steps_run_or_limit(fs: Seq<FunView>, s: VmState, k: nat, fuel: nat)
    ensures
        match steps(fs, s, k) {
            Steps::At(s1) => k <= fuel ==> crate::vm::run_result(fs, s, fuel) == crate::vm::run_result(fs, s1, (fuel - k) as nat),
            Steps::Failed(m, l, o) => crate::vm::run_result(fs, s, fuel) == (Err::<VmState, (Seq<u8>, u32)>((m, l)), o)
                || crate::vm::run_result(fs, s, fuel).0 == Err::<VmState, (Seq<u8>, u32)>((str_bytes("step limit exceeded"), 0u32)),
            Steps::Ended(s1) => crate::vm::run_result(fs, s, fuel) == (Ok::<VmState, (Seq<u8>, u32)>(s1), s1.out)
                || crate::vm::run_result(fs, s, fuel).0 == Err::<VmState, (Seq<u8>, u32)>((str_bytes("step limit exceeded"), 0u32)),
        },
    decreases k,
{
    if k > 0 && fuel > 0 {
        if let StepOutcome::Continue(s1) = step_result(fs, s) {
            lemma_steps_run_or_limit(fs, s1, (k - 1) as nat, (fuel - 1) as nat);
            assert((fuel - 1 - (k - 1)) as nat == (fuel - k) as nat);
        }
    }
}

/// `a` is a prefix of `b`.
pub open spec fn prefix<T>(a: Seq<T>, b: Seq<T>) -> bool {
    a.len() <= b.len() && forall|i: int| 0 <= i < a.len() ==> #[trigger] b[i] == a[i]
}

/// `b` holds the instructions of `a` from position `ip` on.
pub open spec fn code_from(a: Seq<OpCode>, b: Seq<OpCode>, ip: int) -> bool {
    a.len() <= b.len() && forall|q: int| ip <= q < a.len() ==> #[trigger] b[q] == a[q]
}

/// The code, lines and constants of `a` begin those of `b`, with one line
/// per instruction.
pub open spec fn code_prefix(a: CState, b: CState) -> bool {
    &&& prefix(a.code, b.code)
    &&& prefix(a.lines, b.lines)
    &&& prefix(a.consts, b.consts)
    &&& a.code.len() == a.lines.len()
    &&& b.code.len() == b.lines.len()
}

/// The machine's current function holds the code of `c` and runs at `ip`.
pub open spec fn runs_code(fs: Seq<FunView>, s: VmState, c: CState, ip: int) -> bool {
    &&& s.frames.len() > 0
    &&& s.frames.last().function < fs.len()
    &&& s.frames.last().ip == ip
    &&& s.frames.last().base == 0
    &&& fs[s.frames.last().function as int].code.len() < usize::MAX
    &&& fs[s.frames.last().function as int].consts.len() <= usize::MAX
    &&& code_from(c.code, fs[s.frames.last().function as int].code, ip)
    &&& prefix(c.lines, fs[s.frames.last().function as int].lines)
    &&& prefix(c.consts, fs[s.frames.last().function as int].consts)
}

/// Prefixes compose.
proof fn lemma_prefix_trans<T>(a: Seq<T>, b: Seq<T>, c: Seq<T>)
    requires
        prefix(a, b),
        prefix(b, c),
    ensures
        prefix(a, c),
{
    assert forall|i: int| 0 <= i < a.len() implies #[trigger] c[i] == a[i] by {
        assert(c[i] == b[i]);
    }
}

/// Running code runs every prefix of it.
proof fn lemma_runs_code_prefix(fs: Seq<FunView>, s: VmState, a: CState, b: CState, ip: int)
    requires
        runs_code(fs, s, b, ip),
        code_prefix(a, b),
    ensures
        runs_code(fs, s, a, ip),
{
    let f = fs[s.frames.last().function as int];
    assert forall|q: int| ip <= q < a.code.len() implies #[trigger] f.code[q] == a.code[q] by {
        assert(f.code[q] == b.code[q]);
    }
    lemma_prefix_trans(a.lines, b.lines, f.lines);
    lemma_prefix_trans(a.consts, b.consts, f.consts);
}

/// Running code runs code that agrees with it from the current position on.
proof fn lemma_runs_code_agree(fs: Seq<FunView>, s: VmState, a: CState, b: CState, ip: int)
    requires
        runs_code(fs, s, b, ip),
        code_from(a.code, b.code, ip),
        prefix(a.lines, b.lines),
        prefix(a.consts, b.consts),
    ensures
        runs_code(fs, s, a, ip),
{
    let f = fs[s.frames.last().function as int];
    assert forall|q: int| ip <= q < a.code.len() implies #[trigger] f.code[q] == a.code[q] by {
        assert(f.code[q] == b.code[q]);
    }
    lemma_prefix_trans(a.lines, b.lines, f.lines);
    lemma_prefix_trans(a.consts, b.consts, f.consts);
}

/// Emitting an instruction only appends.
pub proof fn lemma_emit_prefix(st: CState, op: OpCode, line: u32)
    requires
        st.code.len() == st.lines.len(),
    ensures
        code_prefix(st, emit(st, op, line)),
{
}

/// Code prefixes compose.
pub proof fn lemma_code_prefix_trans(a: CState, b: CState, c: CState)
    requires
        code_prefix(a, b),
        code_prefix(b, c),
    ensures
        code_prefix(a, c),
{
    lemma_prefix_trans(a.code, b.code, c.code);
    lemma_prefix_trans(a.lines, b.lines, c.lines);
    lemma_prefix_trans(a.consts, b.consts, c.consts);
}

/// The slot `local_slot` finds holds the name asked for.
pub proof fn lemma_local_slot(ls: Seq<(Seq<u8>, u32)>, n: Seq<u8>)
    requires
        ls.len() <= usize::MAX,
    ensures
        local_slot(ls, n) is Some ==> local_slot(ls, n)->Some_0 < ls.len() && ls[local_slot(ls, n)->Some_0 as int].0 == n,
    decreases ls.len(),
{
    if ls.len() > 0 && ls.last().0 != n {
        lemma_local_slot(ls.drop_last(), n);
    }
}

/// The last slot of `ls` that holds `n` declared at depth `d`.
pub open spec fn slot_at(ls: Seq<(Seq<u8>, u32)>, n: Seq<u8>, d: int) -> Option<int>
    decreases ls.len(),
{
    if ls.len() == 0 {
        None
    } else if ls.last().0 == n && ls.last().1 == d {
        Some(ls.len() - 1)
    } else {
        slot_at(ls.drop_last(), n, d)
    }
}

/// The slot `slot_at` finds holds the name and depth asked for.
proof fn lemma_slot_at(ls: Seq<(Seq<u8>, u32)>, n: Seq<u8>, d: int)
    ensures
        slot_at(ls, n, d) is Some ==> 0 <= slot_at(ls, n, d)->Some_0 < ls.len() && ls[slot_at(ls, n, d)->Some_0].0 == n
            && ls[slot_at(ls, n, d)->Some_0].1 == d,
    decreases ls.len(),
{
    if ls.len() > 0 && !(ls.last().0 == n && ls.last().1 == d) {
        lemma_slot_at(ls.drop_last(), n, d);
    }
}

/// The value the stack holds in the slot `slot_at` finds, if any.
pub open spec fn slot_value(ls: Seq<(Seq<u8>, u32)>, stack: Seq<SVal>, n: Seq<u8>, d: int) -> Option<SVal> {
    match slot_at(ls, n, d) {
        Some(i) => Some(stack[i]),
        None => None,
    }
}

/// Scope `d` of the interpreter binds `n` just when some local of `ls` was
/// declared at depth `d` under that name, and then to the value the stack
/// holds for the last such local.
pub open spec fn name_matches(ls: Seq<(Seq<u8>, u32)>, stack: Seq<SVal>, scopes: Seq<Scope>, n: Seq<u8>) -> bool {
    forall|d: int| 0 <= d < scopes.len() ==> #[trigger] dict_get(scopes[d], n) == slot_value(ls, stack, n, d)
}

/// The locals were declared in order of depth, none deeper than `top`.
pub open spec fn depths_ok(ls: Seq<(Seq<u8>, u32)>, top: int) -> bool {
    &&& forall|i: int, j: int| 0 <= i < j < ls.len() ==> #[trigger] ls[i].1 <= #[trigger] ls[j].1
    &&& forall|i: int| 0 <= i < ls.len() ==> #[trigger] ls[i].1 <= top
}

/// The compiler's locals, held on the machine's stack, are the
/// interpreter's scopes: one scope per block depth, binding the names
/// declared at that depth to the values of their last locals.
pub open spec fn locals_agree(ls: Seq<(Seq<u8>, u32)>, stack: Seq<SVal>, scopes: Seq<Scope>) -> bool {
    &&& ls.len() <= stack.len()
    &&& ls.len() <= usize::MAX
    &&& scopes.len() > 0
    &&& depths_ok(ls, scopes.len() - 1)
    &&& forall|n: Seq<u8>| #[trigger] name_matches(ls, stack, scopes, n)
}

/// What a name looks up to, in scopes that match the locals.
pub open spec fn slot_lookup(ls: Seq<(Seq<u8>, u32)>, stack: Seq<SVal>, n: Seq<u8>) -> Option<SVal> {
    match local_slot(ls, n) {
        Some(i) => Some(stack[i as int]),
        None => None,
    }
}

/// An empty map binds nothing.
proof fn lemma_dict_get_empty(n: Seq<u8>)
    ensures
        dict_get(Seq::<(Seq<u8>, SVal)>::empty(), n) is None,
{
}

/// Looking a name up in the scopes finds the value of its last local.
proof fn lemma_lookup_name(ls: Seq<(Seq<u8>, u32)>, stack: Seq<SVal>, scopes: Seq<Scope>, n: Seq<u8>)
    requires
        depths_ok(ls, scopes.len() - 1),
        ls.len() <= stack.len(),
        ls.len() <= usize::MAX,
        name_matches(ls, stack, scopes, n),
    ensures
        lookup_var(scopes, n) == slot_lookup(ls, stack, n),
    decreases ls.len() + scopes.len(),
{
    if scopes.len() == 0 {
        if ls.len() > 0 {
            assert(ls[0].1 <= -1);
        }
    } else {
        let top = scopes.len() - 1;
        assert(dict_get(scopes[top], n) == slot_value(ls, stack, n, top));
        if ls.len() == 0 || ls.last().1 < top {
            lemma_slot_at(ls, n, top);
            if slot_at(ls, n, top) is Some {
                let i = slot_at(ls, n, top)->Some_0;
                if i < ls.len() - 1 {
                    assert(ls[i].1 <= ls[ls.len() - 1].1);
                }
            }
            let sc2 = scopes.drop_last();
            assert forall|i: int| 0 <= i < ls.len() implies #[trigger] ls[i].1 <= sc2.len() - 1 by {
                if i < ls.len() - 1 {
                    assert(ls[i].1 <= ls[ls.len() - 1].1);
                }
            }
            assert forall|d: int| 0 <= d < sc2.len() implies #[trigger] dict_get(sc2[d], n) == slot_value(ls, stack, n, d) by {
                assert(dict_get(scopes[d], n) == slot_value(ls, stack, n, d));
            }
            lemma_lookup_name(ls, stack, sc2, n);
        } else if ls.last().0 == n {
        } else {
            let ls2 = ls.drop_last();
            assert forall|d: int| 0 <= d < scopes.len() implies #[trigger] dict_get(scopes[d], n) == slot_value(ls2, stack, n, d) by {
                assert(dict_get(scopes[d], n) == slot_value(ls, stack, n, d));
            }
            lemma_lookup_name(ls2, stack, scopes, n);
        }
    }
}

/// In matching scopes, a name looks up to the value of its last local.
pub proof fn lemma_lookup_agrees(ls: Seq<(Seq<u8>, u32)>, stack: Seq<SVal>, scopes: Seq<Scope>, n: Seq<u8>)
    requires
        locals_agree(ls, stack, scopes),
    ensures
        lookup_var(scopes, n) == slot_lookup(ls, stack, n),
{
    assert(name_matches(ls, stack, scopes, n));
    lemma_lookup_name(ls, stack, scopes, n);
}

/// Assigning to a name rebinds it in the scope of its last local.
#[verifier::rlimit(40)]
proof fn lemma_assign_name(ls: Seq<(Seq<u8>, u32)>, stack: Seq<SVal>, scopes: Seq<Scope>, n: Seq<u8>, v: SVal)
    requires
        depths_ok(ls, scopes.len() - 1),
        ls.len() <= stack.len(),
        ls.len() <= usize::MAX,
        name_matches(ls, stack, scopes, n),
        local_slot(ls, n) is Some,
    ensures
        assign_var(scopes, n, v) is Some,
        assign_var(scopes, n, v)->Some_0.len() == scopes.len(),
        name_matches(ls, stack.update(local_slot(ls, n)->Some_0 as int, v), assign_var(scopes, n, v)->Some_0, n),
        forall|d: int, m: Seq<u8>| 0 <= d < scopes.len() && m != n ==> #[trigger] dict_get(
            assign_var(scopes, n, v)->Some_0[d],
            m,
        ) == dict_get(scopes[d], m),
    decreases ls.len() + scopes.len(),
{
    if scopes.len() == 0 {
        assert(ls[0].1 <= -1);
    } else {
        let top = scopes.len() - 1;
        let i = local_slot(ls, n)->Some_0 as int;
        lemma_local_slot(ls, n);
        assert(dict_get(scopes[top], n) == slot_value(ls, stack, n, top));
        if ls.last().1 < top {
            lemma_slot_at(ls, n, top);
            if slot_at(ls, n, top) is Some {
                let j = slot_at(ls, n, top)->Some_0;
                if j < ls.len() - 1 {
                    assert(ls[j].1 <= ls[ls.len() - 1].1);
                }
            }
            let sc1 = scopes.drop_last();
            assert forall|q: int| 0 <= q < ls.len() implies #[trigger] ls[q].1 <= sc1.len() - 1 by {
                if q < ls.len() - 1 {
                    assert(ls[q].1 <= ls[ls.len() - 1].1);
                }
            }
            assert forall|d: int| 0 <= d < sc1.len() implies #[trigger] dict_get(sc1[d], n) == slot_value(ls, stack, n, d) by {
                assert(dict_get(scopes[d], n) == slot_value(ls, stack, n, d));
            }
            lemma_assign_name(ls, stack, sc1, n, v);
            let sc2 = assign_var(sc1, n, v)->Some_0;
            assert(assign_var(scopes, n, v) == Some(sc2.push(scopes.last())));
            let st2 = stack.update(i, v);
            assert forall|d: int| 0 <= d < scopes.len() implies #[trigger] dict_get(sc2.push(scopes.last())[d], n)
                == slot_value(ls, st2, n, d) by {
                lemma_slot_at(ls, n, d);
                if d == top {
                } else {
                    assert(dict_get(sc2[d], n) == slot_value(ls, st2, n, d));
                }
            }
            assert forall|d: int, m: Seq<u8>| 0 <= d < scopes.len() && m != n implies #[trigger] dict_get(
                sc2.push(scopes.last())[d],
                m,
            ) == dict_get(scopes[d], m) by {
                if d < top {
                    assert(dict_get(sc2[d], m) == dict_get(sc1[d], m));
                }
            }
        } else if ls.last().0 == n {
            assert(i == ls.len() - 1);
            let sc2 = scopes.update(top, dict_insert(scopes[top], n, v));
            assert(assign_var(scopes, n, v) == Some(sc2));
            let st2 = stack.update(i, v);
            assert forall|d: int| 0 <= d < scopes.len() implies #[trigger] dict_get(sc2[d], n) == slot_value(ls, st2, n, d) by {
                lemma_dict_get_insert(scopes[top], n, v, n);
                lemma_slot_at(ls, n, d);
                if d != top {
                    assert(dict_get(scopes[d], n) == slot_value(ls, stack, n, d));
                }
            }
            assert forall|d: int, m: Seq<u8>| 0 <= d < scopes.len() && m != n implies #[trigger] dict_get(sc2[d], m)
                == dict_get(scopes[d], m) by {
                lemma_dict_get_insert(scopes[top], n, v, m);
            }
        } else {
            let ls2 = ls.drop_last();
            assert(ls2.len() < ls.len());
            assert forall|d: int| 0 <= d < scopes.len() implies #[trigger] dict_get(scopes[d], n) == slot_value(ls2, stack, n, d) by {
                assert(dict_get(scopes[d], n) == slot_value(ls, stack, n, d));
            }
            lemma_assign_name(ls2, stack, scopes, n, v);
            let sc2 = assign_var(scopes, n, v)->Some_0;
            let st2 = stack.update(i, v);
            assert forall|d: int| 0 <= d < scopes.len() implies #[trigger] dict_get(sc2[d], n) == slot_value(ls, st2, n, d) by {
                assert(dict_get(sc2[d], n) == slot_value(ls2, st2, n, d));
            }
        }
    }
}

/// Assigning to a local keeps the scopes matching the locals, with the
/// local's slot holding the new value.
pub proof fn lemma_assign_agrees(ls: Seq<(Seq<u8>, u32)>, stack: Seq<SVal>, scopes: Seq<Scope>, n: Seq<u8>, v: SVal)
    requires
        locals_agree(ls, stack, scopes),
        local_slot(ls, n) is Some,
    ensures
        assign_var(scopes, n, v) is Some,
        assign_var(scopes, n, v)->Some_0.len() == scopes.len(),
        locals_agree(ls, stack.update(local_slot(ls, n)->Some_0 as int, v), assign_var(scopes, n, v)->Some_0),
{
    assert(name_matches(ls, stack, scopes, n));
    lemma_assign_name(ls, stack, scopes, n, v);
    lemma_local_slot(ls, n);
    let i = local_slot(ls, n)->Some_0 as int;
    let sc2 = assign_var(scopes, n, v)->Some_0;
    let st2 = stack.update(i, v);
    assert forall|m: Seq<u8>| #[trigger] name_matches(ls, st2, sc2, m) by {
        if m != n {
            assert(name_matches(ls, stack, scopes, m));
            assert forall|d: int| 0 <= d < sc2.len() implies #[trigger] dict_get(sc2[d], m) == slot_value(ls, st2, m, d) by {
                assert(dict_get(scopes[d], m) == slot_value(ls, stack, m, d));
                lemma_slot_at(ls, m, d);
            }
        }
    }
}

/// Declaring a name in the innermost scope matches a new last local.
pub proof fn lemma_declare_agrees(ls: Seq<(Seq<u8>, u32)>, stack: Seq<SVal>, scopes: Seq<Scope>, n: Seq<u8>, v: SVal, dep: u32)
    requires
        locals_agree(ls, stack, scopes),
        stack.len() == ls.len(),
        ls.len() < usize::MAX,
        dep == scopes.len() - 1,
    ensures
        locals_agree(ls.push((n, dep)), stack.push(v), declare_var(scopes, n, v)),
        declare_var(scopes, n, v).len() == scopes.len(),
{
    let ls2 = ls.push((n, dep));
    let st2 = stack.push(v);
    let sc2 = declare_var(scopes, n, v);
    let top = scopes.len() - 1;
    assert(ls2.drop_last() =~= ls);
    assert forall|m: Seq<u8>| #[trigger] name_matches(ls2, st2, sc2, m) by {
        assert(name_matches(ls, stack, scopes, m));
        assert forall|d: int| 0 <= d < sc2.len() implies #[trigger] dict_get(sc2[d], m) == slot_value(ls2, st2, m, d) by {
            lemma_dict_get_insert(scopes[top], n, v, m);
            assert(dict_get(scopes[d], m) == slot_value(ls, stack, m, d));
            lemma_slot_at(ls, m, d);
        }
    }
    assert forall|i: int, j: int| 0 <= i < j < ls2.len() implies #[trigger] ls2[i].1 <= #[trigger] ls2[j].1 by {
        if j < ls.len() {
            assert(ls[i].1 <= ls[j].1);
        } else {
            assert(ls[i].1 <= top);
        }
    }
}

/// Entering a block opens an empty scope, matching no local.
pub proof fn lemma_enter_agrees(ls: Seq<(Seq<u8>, u32)>, stack: Seq<SVal>, scopes: Seq<Scope>)
    requires
        locals_agree(ls, stack, scopes),
    ensures
        locals_agree(ls, stack, scopes.push(Seq::empty())),
{
    let sc2 = scopes.push(Seq::<(Seq<u8>, SVal)>::empty());
    assert forall|m: Seq<u8>| #[trigger] name_matches(ls, stack, sc2, m) by {
        assert(name_matches(ls, stack, scopes, m));
        assert forall|d: int| 0 <= d < sc2.len() implies #[trigger] dict_get(sc2[d], m) == slot_value(ls, stack, m, d) by {
            lemma_slot_at(ls, m, d);
            if d < scopes.len() {
                assert(dict_get(scopes[d], m) == slot_value(ls, stack, m, d));
            } else {
                lemma_dict_get_empty(m);
            }
        }
    }
}

/// Agreement depends on the locals' part of the stack alone.
proof fn lemma_agree_same_locals(ls: Seq<(Seq<u8>, u32)>, a: Seq<SVal>, b: Seq<SVal>, sc: Seq<Scope>)
    requires
        locals_agree(ls, a, sc),
        ls.len() <= b.len(),
        forall|j: int| 0 <= j < ls.len() ==> #[trigger] b[j] == a[j],
    ensures
        locals_agree(ls, b, sc),
{
    assert forall|m: Seq<u8>| #[trigger] name_matches(ls, b, sc, m) by {
        assert(name_matches(ls, a, sc, m));
        assert forall|d: int| 0 <= d < sc.len() implies #[trigger] dict_get(sc[d], m) == slot_value(ls, b, m, d) by {
            assert(dict_get(sc[d], m) == slot_value(ls, a, m, d));
            lemma_slot_at(ls, m, d);
            if slot_at(ls, m, d) is Some {
                let i = slot_at(ls, m, d)->Some_0;
                assert(b[i] == a[i]);
            }
        }
    }
}

/// Leaving a block drops its scope and the locals declared in it.
pub proof fn lemma_exit_agrees(ls: Seq<(Seq<u8>, u32)>, stack: Seq<SVal>, scopes: Seq<Scope>, c: int)
    requires
        locals_agree(ls, stack, scopes),
        scopes.len() >= 2,
        0 <= c <= ls.len(),
        forall|i: int| c <= i < ls.len() ==> #[trigger] ls[i].1 == scopes.len() - 1,
        forall|i: int| 0 <= i < c ==> #[trigger] ls[i].1 < scopes.len() - 1,
    ensures
        locals_agree(ls.subrange(0, c), stack.subrange(0, c), scopes.drop_last()),
{
    let ls2 = ls.subrange(0, c);
    let st2 = stack.subrange(0, c);
    let sc2 = scopes.drop_last();
    assert forall|m: Seq<u8>| #[trigger] name_matches(ls2, st2, sc2, m) by {
        assert(name_matches(ls, stack, scopes, m));
        assert forall|d: int| 0 <= d < sc2.len() implies #[trigger] dict_get(sc2[d], m) == slot_value(ls2, st2, m, d) by {
            assert(dict_get(scopes[d], m) == slot_value(ls, stack, m, d));
            lemma_slot_at_prefix(ls, m, d, c);
            lemma_slot_at(ls2, m, d);
        }
    }
}

/// Dropping trailing locals of other depths keeps the last local of a depth.
proof fn lemma_slot_at_prefix(ls: Seq<(Seq<u8>, u32)>, m: Seq<u8>, d: int, c: int)
    requires
        0 <= c <= ls.len(),
        forall|i: int| c <= i < ls.len() ==> #[trigger] ls[i].1 != d,
    ensures
        slot_at(ls.subrange(0, c), m, d) == slot_at(ls, m, d),
    decreases ls.len() - c,
{
    if c < ls.len() {
        assert(ls.drop_last().subrange(0, c) =~= ls.subrange(0, c));
        lemma_slot_at_prefix(ls.drop_last(), m, d, c);
    } else {
        assert(ls.subrange(0, c) =~= ls);
    }
}

/// The code of a simple expression only appends, and leaves the locals
/// and depth as they were.
pub proof fn lemma_simple_expr_compiles(tab: FunTable, st: CState, e: Expr)
    requires
        simple_expr(e),
        cexpr(tab, st, e) is Ok,
        st.code.len() == st.lines.len(),
    ensures
        code_prefix(st, cexpr(tab, st, e)->Ok_0),
        cexpr(tab, st, e)->Ok_0.locals == st.locals,
        cexpr(tab, st, e)->Ok_0.depth == st.depth,
        cexpr(tab, st, e)->Ok_0.code.len() > st.code.len(),
    decreases e,
{
    reveal(cexpr);
    match e {
        Expr::Unary(op, a, line) => {
            lemma_simple_expr_compiles(tab, st, *a);
            let s1 = cexpr(tab, st, *a)->Ok_0;
            let code = if op == UnOp::Neg { OpCode::Neg } else { OpCode::Not };
            lemma_emit_prefix(s1, code, line);
            lemma_code_prefix_trans(st, s1, emit(s1, code, line));
        },
        Expr::Binary(op, a, b, line) => {
            lemma_simple_expr_compiles(tab, st, *a);
            let s1 = cexpr(tab, st, *a)->Ok_0;
            lemma_simple_expr_compiles(tab, s1, *b);
            let s2 = cexpr(tab, s1, *b)->Ok_0;
            lemma_emit_prefix(s2, binop_code(op), line);
            lemma_code_prefix_trans(st, s1, s2);
            lemma_code_prefix_trans(st, s2, emit(s2, binop_code(op), line));
        },
        Expr::Logical(op, a, b) => {
            lemma_simple_expr_compiles(tab, st, *a);
            let s1 = cexpr(tab, st, *a)->Ok_0;
            let jump = if op == LogicOp::And { OpCode::JumpIfFalsePeek(0) } else { OpCode::JumpIfTruePeek(0) };
            let s2 = emit(emit(s1, jump, 0), OpCode::Pop, 0);
            lemma_simple_expr_compiles(tab, s2, *b);
            let s3 = cexpr(tab, s2, *b)->Ok_0;
            assert forall|q: int| 0 <= q < st.code.len() implies #[trigger] s3.code[q] == st.code[q] by {
                assert(s3.code[q] == s2.code[q]);
                assert(s1.code[q] == st.code[q]);
            }
            assert forall|q: int| 0 <= q < st.lines.len() implies #[trigger] s3.lines[q] == st.lines[q] by {
                assert(s3.lines[q] == s2.lines[q]);
                assert(s1.lines[q] == st.lines[q]);
            }
            assert forall|q: int| 0 <= q < st.consts.len() implies #[trigger] s3.consts[q] == st.consts[q] by {
                assert(s3.consts[q] == s2.consts[q]);
                assert(s1.consts[q] == st.consts[q]);
            }
        },
        Expr::Assign(name, v, line) => {
            lemma_simple_expr_compiles(tab, st, *v);
            let s1 = cexpr(tab, st, *v)->Ok_0;
            let op = OpCode::SetLocal(local_slot(s1.locals, name@)->Some_0);
            lemma_emit_prefix(s1, op, line);
            lemma_code_prefix_trans(st, s1, emit(s1, op, line));
        },
        _ => {},
    }
}

/// Evaluating a simple expression keeps the interpreter's heap and output.
pub proof fn lemma_simple_eval_keeps(fs: Seq<FunctionDecl>, fuel: nat, e: Expr, st: IState)
    requires
        simple_expr(e),
    ensures
        eval_result(fs, fuel, e, st).0.heap == st.heap,
        eval_result(fs, fuel, e, st).0.out == st.out,
    decreases e,
{
    match e {
        Expr::Unary(_, a, _) => lemma_simple_eval_keeps(fs, fuel, *a, st),
        Expr::Binary(_, a, b, _) => {
            lemma_simple_eval_keeps(fs, fuel, *a, st);
            lemma_simple_eval_keeps(fs, fuel, *b, eval_result(fs, fuel, *a, st).0);
        },
        Expr::Assign(_, v, _) => lemma_simple_eval_keeps(fs, fuel, *v, st),
        Expr::Logical(_, a, b) => {
            lemma_simple_eval_keeps(fs, fuel, *a, st);
            lemma_simple_eval_keeps(fs, fuel, *b, eval_result(fs, fuel, *a, st).0);
        },
        _ => {},
    }
}

/// The steps that one outcome of a step comes to.
pub open spec fn outcome(o: StepOutcome, out: Seq<u8>) -> Steps {
    match o {
        StepOutcome::Continue(s1) => Steps::At(s1),
        StepOutcome::Done(s1) => Steps::Ended(s1),
        StepOutcome::Fail(m, l) => Steps::Failed(m, l, out),
    }
}

/// One step at `ip` runs the instruction there with its line.
proof fn lemma_one_step(fs: Seq<FunView>, s: VmState)
    requires
        s.frames.len() > 0,
        s.frames.last().function < fs.len(),
        s.frames.last().ip < fs[s.frames.last().function as int].code.len(),
        s.frames.last().ip < fs[s.frames.last().function as int].lines.len(),
    ensures
        steps(fs, s, 1) == outcome(
            op_result(
                fs,
                set_ip(s, (s.frames.last().ip + 1) as usize),
                fs[s.frames.last().function as int].code[s.frames.last().ip as int],
                fs[s.frames.last().function as int].lines[s.frames.last().ip as int],
            ),
            s.out,
        ),
{
    reveal(step_result);
    reveal_with_fuel(steps, 2);
}

/// One step of code `c` at `j` runs the instruction `c` has there.
pub proof fn lemma_step_at(fs: Seq<FunView>, s: VmState, c: CState, j: int)
    requires
        runs_code(fs, s, c, j),
        0 <= j < c.code.len(),
        c.code.len() == c.lines.len(),
    ensures
        steps(fs, s, 1) == outcome(op_result(fs, set_ip(s, (j + 1) as usize), c.code[j], c.lines[j]), s.out),
{
    let f = fs[s.frames.last().function as int];
    assert(f.code[j] == c.code[j]);
    assert(f.lines[j] == c.lines[j]);
    lemma_one_step(fs, s);
}

/// A state whose frames are those of `s` moved to `j` runs the same code at `j`.
pub proof fn lemma_runs_frames(fs: Seq<FunView>, s: VmState, x: VmState, c: CState, ip: int, j: int)
    requires
        runs_code(fs, s, c, ip),
        x.frames == set_ip(s, j as usize).frames,
        ip <= j < usize::MAX,
    ensures
        runs_code(fs, x, c, j),
{
}

/// Moving twice is moving once.
proof fn lemma_frames_set_ip(s: VmState, x: VmState, a: usize, b: usize)
    requires
        s.frames.len() > 0,
        x.frames == set_ip(s, a).frames,
    ensures
        set_ip(x, b).frames == set_ip(s, b).frames,
{
    assert(set_ip(x, b).frames =~= set_ip(s, b).frames);
}

/// The machine after a simple expression's code, from `s`: its value on
/// top, the instruction pointer at `ip`, heap and output as they were, and
/// the values above the `nl` locals untouched.
pub open spec fn expr_done(s: VmState, s2: VmState, ip: int, nl: int, v: SVal) -> bool {
    &&& s2.frames == set_ip(s, ip as usize).frames
    &&& s2.heap == s.heap
    &&& s2.out == s.out
    &&& s2.stack.len() == s.stack.len() + 1
    &&& s2.stack.last() == v
    &&& forall|j: int| nl <= j < s.stack.len() ==> #[trigger] s2.stack[j] == s.stack[j]
}

/// What running the code of a simple expression `e` from `s` comes to,
/// beside what the interpreter makes of `e` from `ist`: the same value,
/// with the locals agreeing after, or the same error.
pub open spec fn expr_ran(
    fs: Seq<FunView>,
    tab: FunTable,
    st: CState,
    e: Expr,
    s: VmState,
    ifs: Seq<FunctionDecl>,
    fuel: nat,
    ist: IState,
    s2: VmState,
    k: nat,
) -> bool {
    let st2 = cexpr(tab, st, e)->Ok_0;
    let (ist2, r) = eval_result(ifs, fuel, e, ist);
    match r {
        Ok(v) => {
            &&& steps(fs, s, k) == Steps::At(s2)
            &&& expr_done(s, s2, st2.code.len() as int, st.locals.len() as int, v)
            &&& locals_agree(st.locals, s2.stack.drop_last(), ist2.scopes)
            &&& ist2.scopes.len() == ist.scopes.len()
        },
        Err((m, l)) => steps(fs, s, k) == Steps::Failed(m, l, s.out),
    }
}

/// What `lemma_simple_expr_runs` asks of its start.
pub open spec fn expr_pre(fs: Seq<FunView>, tab: FunTable, st: CState, e: Expr, s: VmState, ist: IState) -> bool {
    &&& simple_expr(e)
    &&& cexpr(tab, st, e) is Ok
    &&& st.code.len() == st.lines.len()
    &&& st.locals.len() <= st.code.len()
    &&& runs_code(fs, s, cexpr(tab, st, e)->Ok_0, st.code.len() as int)
    &&& locals_agree(st.locals, s.stack, ist.scopes)
}

/// Pushing a value on top keeps the locals agreeing and the values below.
proof fn lemma_push_done(s: VmState, v: SVal, k: int, ls: Seq<(Seq<u8>, u32)>, sc: Seq<Scope>)
    requires
        s.frames.len() > 0,
        locals_agree(ls, s.stack, sc),
    ensures
        expr_done(s, push(set_ip(s, k as usize), v), k, ls.len() as int, v),
        locals_agree(ls, push(set_ip(s, k as usize), v).stack.drop_last(), sc),
{
    assert(push(set_ip(s, k as usize), v).stack.drop_last() =~= s.stack);
}

#[verifier::rlimit(80)]
proof fn lemma_literal_runs(
    fs: Seq<FunView>,
    tab: FunTable,
    st: CState,
    e: Expr,
    s: VmState,
    ifs: Seq<FunctionDecl>,
    fuel: nat,
    ist: IState,
) -> (r: (VmState, nat))
    requires
        e is Number || e is Str || e is Bool || e is Nil,
        expr_pre(fs, tab, st, e, s, ist),
    ensures
        expr_ran(fs, tab, st, e, s, ifs, fuel, ist, r.0, r.1),
{
    let st2 = cexpr(tab, st, e)->Ok_0;
    let ip = st.code.len() as int;
    let f = fs[s.frames.last().function as int];
    let v = eval_result(ifs, fuel, e, ist).1->Ok_0;
    match e {
        Expr::Number(n) => {
            assert(st2 == emit_const(st, SVal::Num(n as int), 0)) by {
                reveal(cexpr);
            }
            assert(f.consts[st.consts.len() as int] == st2.consts[st.consts.len() as int]);
            lemma_step_at(fs, s, st2, ip);
        },
        Expr::Str(x) => {
            assert(st2 == emit_const(st, SVal::Str(x@), 0)) by {
                reveal(cexpr);
            }
            assert(f.consts[st.consts.len() as int] == st2.consts[st.consts.len() as int]);
            lemma_step_at(fs, s, st2, ip);
        },
        Expr::Bool(bv) => {
            assert(st2 == emit(st, if bv { OpCode::PushTrue } else { OpCode::PushFalse }, 0)) by {
                reveal(cexpr);
            }
            lemma_step_at(fs, s, st2, ip);
        },
        _ => {
            assert(st2 == emit(st, OpCode::PushNil, 0)) by {
                reveal(cexpr);
            }
            lemma_step_at(fs, s, st2, ip);
        },
    }
    lemma_push_done(s, v, ip + 1, st.locals, ist.scopes);
    (push(set_ip(s, (ip + 1) as usize), v), 1)
}

#[verifier::rlimit(40)]
proof fn lemma_ident_runs(
    fs: Seq<FunView>,
    tab: FunTable,
    st: CState,
    e: Expr,
    s: VmState,
    ifs: Seq<FunctionDecl>,
    fuel: nat,
    ist: IState,
) -> (r: (VmState, nat))
    requires
        e is Ident,
        expr_pre(fs, tab, st, e, s, ist),
    ensures
        expr_ran(fs, tab, st, e, s, ifs, fuel, ist, r.0, r.1),
{
    if let Expr::Ident(name, line) = e {
        let i = local_slot(st.locals, name@)->Some_0;
        let st2 = emit(st, OpCode::GetLocal(i), line);
        assert(local_slot(st.locals, name@) is Some && cexpr(tab, st, e) == Ok::<CState, (Seq<u8>, u32)>(st2)) by {
            reveal(cexpr);
        }
        lemma_local_slot(st.locals, name@);
        let ip = st.code.len() as int;
        lemma_step_at(fs, s, st2, ip);
        let v = s.stack[i as int];
        lemma_lookup_agrees(st.locals, s.stack, ist.scopes, name@);
        assert(lookup_var(ist.scopes, name@) == Some(v));
        lemma_push_done(s, v, ip + 1, st.locals, ist.scopes);
        (push(set_ip(s, (ip + 1) as usize), v), 1)
    } else {
        (s, 0)
    }
}

#[verifier::rlimit(60)]
proof fn lemma_unary_runs(
    fs: Seq<FunView>,
    tab: FunTable,
    st: CState,
    e: Expr,
    s: VmState,
    ifs: Seq<FunctionDecl>,
    fuel: nat,
    ist: IState,
) -> (r: (VmState, nat))
    requires
        e is Unary,
        expr_pre(fs, tab, st, e, s, ist),
    ensures
        expr_ran(fs, tab, st, e, s, ifs, fuel, ist, r.0, r.1),
    decreases e, 0int,
{
    if let Expr::Unary(op, a, line) = e {
        let code = if op == UnOp::Neg { OpCode::Neg } else { OpCode::Not };
        assert(cexpr(tab, st, *a) is Ok && cexpr(tab, st, e) == Ok::<CState, (Seq<u8>, u32)>(
            emit(cexpr(tab, st, *a)->Ok_0, code, line),
        )) by {
            reveal(cexpr);
        }
        let s1 = cexpr(tab, st, *a)->Ok_0;
        let st2 = emit(s1, code, line);
        lemma_simple_expr_compiles(tab, st, *a);
        let ip = st.code.len() as int;
        let j = s1.code.len() as int;
        lemma_emit_prefix(s1, code, line);
        lemma_runs_code_prefix(fs, s, s1, st2, ip);
        let (sa, ka) = lemma_simple_expr_runs(fs, tab, st, *a, s, ifs, fuel, ist);
        lemma_steps_add(fs, s, ka, 1);
        if let Ok(va) = eval_result(ifs, fuel, *a, ist).1 {
            lemma_runs_frames(fs, s, sa, st2, ip, j);
            lemma_step_at(fs, sa, st2, j);
            let x = set_ip(sa, (j + 1) as usize);
            lemma_frames_set_ip(s, sa, j as usize, (j + 1) as usize);
            assert(drop_top(x, 1).stack =~= sa.stack.drop_last());
            if let Ok(v) = eval_result(ifs, fuel, e, ist).1 {
                let s2 = push(drop_top(x, 1), v);
                assert(s2.stack.drop_last() =~= sa.stack.drop_last());
                (s2, ka + 1)
            } else {
                (s, ka + 1)
            }
        } else {
            (s, ka)
        }
    } else {
        (s, 0)
    }
}

#[verifier::rlimit(80)]
proof fn lemma_binary_runs(
    fs: Seq<FunView>,
    tab: FunTable,
    st: CState,
    e: Expr,
    s: VmState,
    ifs: Seq<FunctionDecl>,
    fuel: nat,
    ist: IState,
) -> (r: (VmState, nat))
    requires
        e is Binary,
        expr_pre(fs, tab, st, e, s, ist),
    ensures
        expr_ran(fs, tab, st, e, s, ifs, fuel, ist, r.0, r.1),
    decreases e, 0int,
{
    if let Expr::Binary(op, a, b, line) = e {
        assert(cexpr(tab, st, *a) is Ok && cexpr(tab, cexpr(tab, st, *a)->Ok_0, *b) is Ok && cexpr(tab, st, e)
            == Ok::<CState, (Seq<u8>, u32)>(
            emit(cexpr(tab, cexpr(tab, st, *a)->Ok_0, *b)->Ok_0, binop_code(op), line),
        )) by {
            reveal(cexpr);
        }
        let s1 = cexpr(tab, st, *a)->Ok_0;
        let s2c = cexpr(tab, s1, *b)->Ok_0;
        let st2 = emit(s2c, binop_code(op), line);
        lemma_simple_expr_compiles(tab, st, *a);
        lemma_simple_expr_compiles(tab, s1, *b);
        let ip = st.code.len() as int;
        let i1 = s1.code.len() as int;
        let j = s2c.code.len() as int;
        let nl = st.locals.len() as int;
        lemma_emit_prefix(s2c, binop_code(op), line);
        lemma_code_prefix_trans(s1, s2c, st2);
        lemma_runs_code_prefix(fs, s, s1, st2, ip);
        let (sa, ka) = lemma_simple_expr_runs(fs, tab, st, *a, s, ifs, fuel, ist);
        let (ist1, ra) = eval_result(ifs, fuel, *a, ist);
        if let Ok(va) = ra {
            lemma_runs_frames(fs, s, sa, st2, ip, i1);
            lemma_runs_code_prefix(fs, sa, s2c, st2, i1);
            lemma_agree_same_locals(st.locals, sa.stack.drop_last(), sa.stack, ist1.scopes);
            let (sb, kb) = lemma_simple_expr_runs(fs, tab, s1, *b, sa, ifs, fuel, ist1);
            lemma_steps_add(fs, s, ka, (kb + 1) as nat);
            lemma_steps_add(fs, s, ka, kb);
            lemma_steps_add(fs, sa, kb, 1);
            if let Ok(vb) = eval_result(ifs, fuel, *b, ist1).1 {
                lemma_frames_set_ip(s, sa, i1 as usize, j as usize);
                lemma_runs_frames(fs, s, sb, st2, ip, j);
                lemma_step_at(fs, sb, st2, j);
                let x = set_ip(sb, (j + 1) as usize);
                lemma_frames_set_ip(s, sb, j as usize, (j + 1) as usize);
                let n = x.stack.len();
                assert(x.stack[n - 2] == sa.stack[s.stack.len() as int]);
                assert(x.stack[n - 2] == va);
                assert(x.stack[n - 1] == vb);
                assert(is_binary(binop_code(op)) && binop_of(binop_code(op)) == op);
                if let Ok(v) = eval_result(ifs, fuel, e, ist).1 {
                    let s2 = push(drop_top(x, 2), v);
                    assert(s2.stack.drop_last() =~= sb.stack.subrange(0, n - 2));
                    lemma_agree_same_locals(st.locals, sb.stack.drop_last(), s2.stack.drop_last(), eval_result(ifs, fuel, *b, ist1).0.scopes);
                    assert forall|q: int| nl <= q < s.stack.len() implies #[trigger] s2.stack[q] == s.stack[q] by {
                        assert(s2.stack[q] == sb.stack[q]);
                        assert(sb.stack[q] == sa.stack[q]);
                    }
                    (s2, ka + kb + 1)
                } else {
                    (s, ka + kb + 1)
                }
            } else {
                (s, ka + kb)
            }
        } else {
            (s, ka)
        }
    } else {
        (s, 0)
    }
}

#[verifier::rlimit(80)]
proof fn lemma_assign_runs(
    fs: Seq<FunView>,
    tab: FunTable,
    st: CState,
    e: Expr,
    s: VmState,
    ifs: Seq<FunctionDecl>,
    fuel: nat,
    ist: IState,
) -> (r: (VmState, nat))
    requires
        e is Assign,
        expr_pre(fs, tab, st, e, s, ist),
    ensures
        expr_ran(fs, tab, st, e, s, ifs, fuel, ist, r.0, r.1),
    decreases e, 0int,
{
    if let Expr::Assign(name, v, line) = e {
        assert(cexpr(tab, st, *v) is Ok && local_slot(cexpr(tab, st, *v)->Ok_0.locals, name@) is Some && cexpr(tab, st, e)
            == Ok::<CState, (Seq<u8>, u32)>(
            emit(cexpr(tab, st, *v)->Ok_0, OpCode::SetLocal(local_slot(cexpr(tab, st, *v)->Ok_0.locals, name@)->Some_0), line),
        )) by {
            reveal(cexpr);
        }
        let s1 = cexpr(tab, st, *v)->Ok_0;
        lemma_simple_expr_compiles(tab, st, *v);
        let i = local_slot(st.locals, name@)->Some_0;
        let st2 = emit(s1, OpCode::SetLocal(i), line);
        lemma_local_slot(st.locals, name@);
        let ip = st.code.len() as int;
        let j = s1.code.len() as int;
        let nl = st.locals.len() as int;
        lemma_emit_prefix(s1, OpCode::SetLocal(i), line);
        lemma_runs_code_prefix(fs, s, s1, st2, ip);
        let (sv, kv) = lemma_simple_expr_runs(fs, tab, st, *v, s, ifs, fuel, ist);
        lemma_steps_add(fs, s, kv, 1);
        let (ist1, rv) = eval_result(ifs, fuel, *v, ist);
        if let Ok(val) = rv {
            let sd = sv.stack.drop_last();
            lemma_assign_agrees(st.locals, sd, ist1.scopes, name@, val);
            lemma_runs_frames(fs, s, sv, st2, ip, j);
            lemma_step_at(fs, sv, st2, j);
            let x = set_ip(sv, (j + 1) as usize);
            lemma_frames_set_ip(s, sv, j as usize, (j + 1) as usize);
            let s2 = VmState { stack: x.stack.update(i as int, x.stack.last()), ..x };
            assert(s2.stack.last() == val);
            assert forall|q: int| nl <= q < s.stack.len() implies #[trigger] s2.stack[q] == s.stack[q] by {
                assert(s2.stack[q] == sv.stack[q]);
            }
            assert(s2.stack.drop_last() =~= sd.update(i as int, val));
            (s2, kv + 1)
        } else {
            (s, kv)
        }
    } else {
        (s, 0)
    }
}

/// The code of `&&` and `||`: the left operand, a jump that keeps it when
/// it decides the result, a `Pop` of it, and the right operand.
#[verifier::rlimit(80)]
proof fn lemma_logical_runs(
    fs: Seq<FunView>,
    tab: FunTable,
    st: CState,
    e: Expr,
    s: VmState,
    ifs: Seq<FunctionDecl>,
    fuel: nat,
    ist: IState,
) -> (r: (VmState, nat))
    requires
        e is Logical,
        expr_pre(fs, tab, st, e, s, ist),
    ensures
        expr_ran(fs, tab, st, e, s, ifs, fuel, ist, r.0, r.1),
    decreases e, 0int,
{
    if let Expr::Logical(op, a, b) = e {
        let jump = if op == LogicOp::And { OpCode::JumpIfFalsePeek(0) } else { OpCode::JumpIfTruePeek(0) };
        let s1 = cexpr(tab, st, *a)->Ok_0;
        let s2c = emit(emit(s1, jump, 0), OpCode::Pop, 0);
        let s3 = cexpr(tab, s2c, *b)->Ok_0;
        let st2 = patch(s3, s1.code.len() as int);
        assert(cexpr(tab, st, *a) is Ok && cexpr(tab, s2c, *b) is Ok && cexpr(tab, st, e) == Ok::<CState, (Seq<u8>, u32)>(
            st2,
        )) by {
            reveal(cexpr);
        }
        lemma_simple_expr_compiles(tab, st, *a);
        lemma_simple_expr_compiles(tab, s2c, *b);
        let ip = st.code.len() as int;
        let p1 = s1.code.len() as int;
        let end = s3.code.len() as int;
        let nl = st.locals.len() as int;
        assert(s3.code[p1] == s2c.code[p1]);
        assert(s3.code[p1 + 1] == s2c.code[p1 + 1]);
        assert(st2.code[p1] == if op == LogicOp::And {
            OpCode::JumpIfFalsePeek(end as usize)
        } else {
            OpCode::JumpIfTruePeek(end as usize)
        });
        assert(st2.code[p1 + 1] == OpCode::Pop);
        assert(code_prefix(s1, st2)) by {
            assert forall|q: int| 0 <= q < s1.code.len() implies #[trigger] st2.code[q] == s1.code[q] by {
                assert(s3.code[q] == s2c.code[q]);
            }
            assert forall|q: int| 0 <= q < s1.lines.len() implies #[trigger] st2.lines[q] == s1.lines[q] by {
                assert(s3.lines[q] == s2c.lines[q]);
            }
            assert forall|q: int| 0 <= q < s1.consts.len() implies #[trigger] st2.consts[q] == s1.consts[q] by {
                assert(s3.consts[q] == s2c.consts[q]);
            }
        }
        lemma_runs_code_prefix(fs, s, s1, st2, ip);
        let (sa, ka) = lemma_simple_expr_runs(fs, tab, st, *a, s, ifs, fuel, ist);
        let (ist1, ra) = eval_result(ifs, fuel, *a, ist);
        if let Ok(va) = ra {
            lemma_runs_frames(fs, s, sa, st2, ip, p1);
            lemma_step_at(fs, sa, st2, p1);
            lemma_steps_add(fs, s, ka, 1);
            let x = set_ip(sa, (p1 + 1) as usize);
            lemma_frames_set_ip(s, sa, p1 as usize, (p1 + 1) as usize);
            if (op == LogicOp::And && !truthy(va)) || (op == LogicOp::Or && truthy(va)) {
                let s2 = set_ip(x, end as usize);
                lemma_frames_set_ip(s, x, (p1 + 1) as usize, end as usize);
                (s2, ka + 1)
            } else {
                lemma_runs_frames(fs, s, x, st2, ip, p1 + 1);
                lemma_step_at(fs, x, st2, p1 + 1);
                let y = drop_top(set_ip(x, (p1 + 2) as usize), 1);
                lemma_frames_set_ip(s, x, (p1 + 1) as usize, (p1 + 2) as usize);
                assert(y.stack =~= sa.stack.drop_last());
                lemma_steps_add(fs, s, ka + 1, 1);
                lemma_runs_frames(fs, s, y, st2, ip, p1 + 2);
                assert forall|q: int| p1 + 2 <= q < end implies #[trigger] st2.code[q] == s3.code[q] by {}
                assert(prefix(s3.lines, st2.lines));
                assert(prefix(s3.consts, st2.consts));
                lemma_runs_code_agree(fs, y, s3, st2, p1 + 2);
                let (sb, kb) = lemma_simple_expr_runs(fs, tab, s2c, *b, y, ifs, fuel, ist1);
                lemma_steps_add(fs, s, ka + 2, kb);
                if eval_result(ifs, fuel, *b, ist1).1 is Ok {
                    lemma_frames_set_ip(s, y, (p1 + 2) as usize, end as usize);
                    assert forall|q: int| nl <= q < s.stack.len() implies #[trigger] sb.stack[q] == s.stack[q] by {
                        assert(sb.stack[q] == y.stack[q]);
                        assert(y.stack[q] == sa.stack[q]);
                    }
                }
                (sb, ka + 2 + kb)
            }
        } else {
            (s, ka)
        }
    } else {
        (s, 0)
    }
}

/// The VM runs the code of a simple expression as the interpreter evaluates
/// it: it pushes the same value, with every local holding what the
/// interpreter's scopes give its name, or fails with the same message and
/// line.
pub proof fn lemma_simple_expr_runs(
    fs: Seq<FunView>,
    tab: FunTable,
    st: CState,
    e: Expr,
    s: VmState,
    ifs: Seq<FunctionDecl>,
    fuel: nat,
    ist: IState,
) -> (r: (VmState, nat))
    requires
        expr_pre(fs, tab, st, e, s, ist),
    ensures
        expr_ran(fs, tab, st, e, s, ifs, fuel, ist, r.0, r.1),
    decreases e, 1int,
{
    match e {
        Expr::Unary(_, _, _) => lemma_unary_runs(fs, tab, st, e, s, ifs, fuel, ist),
        Expr::Binary(_, _, _, _) => lemma_binary_runs(fs, tab, st, e, s, ifs, fuel, ist),
        Expr::Assign(_, _, _) => lemma_assign_runs(fs, tab, st, e, s, ifs, fuel, ist),
        Expr::Logical(_, _, _) => lemma_logical_runs(fs, tab, st, e, s, ifs, fuel, ist),
        Expr::Ident(_, _) => lemma_ident_runs(fs, tab, st, e, s, ifs, fuel, ist),
        _ => lemma_literal_runs(fs, tab, st, e, s, ifs, fuel, ist),
    }
}


/// The code of simple expressions only appends, and leaves the locals and
/// depth as they were.
pub proof fn lemma_simple_exprs_compile(tab: FunTable, st: CState, es: Seq<Expr>, i: int)
    requires
        0 <= i <= es.len(),
        forall|j: int| 0 <= j < es.len() ==> simple_expr(#[trigger] es[j]),
        cexprs(tab, st, es, i) is Ok,
        st.code.len() == st.lines.len(),
    ensures
        code_prefix(st, cexprs(tab, st, es, i)->Ok_0),
        cexprs(tab, st, es, i)->Ok_0.locals == st.locals,
        cexprs(tab, st, es, i)->Ok_0.depth == st.depth,
        cexprs(tab, st, es, i)->Ok_0.code.len() >= st.code.len(),
    decreases es.len() - i,
{
    if i < es.len() {
        assert(cexpr(tab, st, es[i]) is Ok && cexprs(tab, st, es, i) == cexprs(tab, cexpr(tab, st, es[i])->Ok_0, es, i + 1)) by {
            reveal(cexpr);
            reveal(cexprs);
        }
        lemma_simple_expr_compiles(tab, st, es[i]);
        let s1 = cexpr(tab, st, es[i])->Ok_0;
        lemma_simple_exprs_compile(tab, s1, es, i + 1);
        lemma_code_prefix_trans(st, s1, cexprs(tab, s1, es, i + 1)->Ok_0);
    } else {
        assert(cexprs(tab, st, es, i) == Ok::<CState, (Seq<u8>, u32)>(st)) by {
            reveal(cexpr);
            reveal(cexprs);
        }
    }
}

/// Evaluating simple expressions keeps the interpreter's heap and output,
/// and gives one value for each.
pub proof fn lemma_simple_items_keep(fs: Seq<FunctionDecl>, fuel: nat, items: Vec<Expr>, i: int, st: IState)
    requires
        0 <= i <= items@.len(),
        forall|j: int| 0 <= j < items@.len() ==> simple_expr(#[trigger] items@[j]),
    ensures
        eval_items(fs, fuel, items, i, st).0.heap == st.heap,
        eval_items(fs, fuel, items, i, st).0.out == st.out,
        eval_items(fs, fuel, items, i, st).1 matches Ok(vs) ==> vs.len() == items@.len() - i,
    decreases items@.len() - i,
{
    if i < items@.len() {
        lemma_simple_eval_keeps(fs, fuel, items@[i], st);
        let (st1, r) = eval_result(fs, fuel, items@[i], st);
        lemma_simple_items_keep(fs, fuel, items, i + 1, st1);
    }
}

/// The machine after the code of several simple expressions, from `s`:
/// their values on top in order, the instruction pointer at `ip`, heap and
/// output as they were, and the values above the `nl` locals untouched.
pub open spec fn exprs_done(s: VmState, s2: VmState, ip: int, nl: int, vs: Seq<SVal>) -> bool {
    &&& s2.frames == set_ip(s, ip as usize).frames
    &&& s2.heap == s.heap
    &&& s2.out == s.out
    &&& s2.stack.len() == s.stack.len() + vs.len()
    &&& s2.stack.subrange(s.stack.len() as int, s2.stack.len() as int) == vs
    &&& forall|j: int| nl <= j < s.stack.len() ==> #[trigger] s2.stack[j] == s.stack[j]
}

/// What running the code of simple expressions `items[i..]` from `s`
/// comes to, beside what the interpreter makes of them from `ist`.
pub open spec fn exprs_ran(
    fs: Seq<FunView>,
    tab: FunTable,
    st: CState,
    items: Vec<Expr>,
    i: int,
    s: VmState,
    ifs: Seq<FunctionDecl>,
    fuel: nat,
    ist: IState,
    s2: VmState,
    k: nat,
) -> bool {
    let st2 = cexprs(tab, st, items@, i)->Ok_0;
    let (ist2, r) = eval_items(ifs, fuel, items, i, ist);
    match r {
        Ok(vs) => {
            &&& steps(fs, s, k) == Steps::At(s2)
            &&& exprs_done(s, s2, st2.code.len() as int, st.locals.len() as int, vs)
            &&& locals_agree(st.locals, s2.stack.subrange(0, s.stack.len() as int), ist2.scopes)
            &&& ist2.scopes.len() == ist.scopes.len()
        },
        Err((m, l)) => steps(fs, s, k) == Steps::Failed(m, l, s.out),
    }
}

/// The VM runs the code of simple expressions as the interpreter evaluates
/// them: it pushes their values in order, or fails at the first error.
#[verifier::rlimit(80)]
pub proof fn lemma_simple_exprs_run(
    fs: Seq<FunView>,
    tab: FunTable,
    st: CState,
    items: Vec<Expr>,
    i: int,
    s: VmState,
    ifs: Seq<FunctionDecl>,
    fuel: nat,
    ist: IState,
) -> (r: (VmState, nat))
    requires
        0 <= i <= items@.len(),
        forall|j: int| 0 <= j < items@.len() ==> simple_expr(#[trigger] items@[j]),
        cexprs(tab, st, items@, i) is Ok,
        st.code.len() == st.lines.len(),
        st.locals.len() <= st.code.len(),
        runs_code(fs, s, cexprs(tab, st, items@, i)->Ok_0, st.code.len() as int),
        locals_agree(st.locals, s.stack, ist.scopes),
    ensures
        exprs_ran(fs, tab, st, items, i, s, ifs, fuel, ist, r.0, r.1),
    decreases items@.len() - i,
{
    let es = items@;
    let st2 = cexprs(tab, st, es, i)->Ok_0;
    let nl = st.locals.len() as int;
    if i < es.len() {
        assert(cexpr(tab, st, es[i]) is Ok && cexprs(tab, st, es, i) == cexprs(tab, cexpr(tab, st, es[i])->Ok_0, es, i + 1)) by {
            reveal(cexpr);
            reveal(cexprs);
        }
        lemma_simple_expr_compiles(tab, st, es[i]);
        let s1 = cexpr(tab, st, es[i])->Ok_0;
        lemma_simple_exprs_compile(tab, s1, es, i + 1);
        let ip = st.code.len() as int;
        let j = s1.code.len() as int;
        lemma_runs_code_prefix(fs, s, s1, st2, ip);
        let (sa, ka) = lemma_simple_expr_runs(fs, tab, st, es[i], s, ifs, fuel, ist);
        let (ist1, r) = eval_result(ifs, fuel, es[i], ist);
        if let Ok(v) = r {
            lemma_runs_frames(fs, s, sa, st2, ip, j);
            lemma_agree_same_locals(st.locals, sa.stack.drop_last(), sa.stack, ist1.scopes);
            let (sb, kb) = lemma_simple_exprs_run(fs, tab, s1, items, i + 1, sa, ifs, fuel, ist1);
            lemma_steps_add(fs, s, ka, kb);
            if let Ok(rest) = eval_items(ifs, fuel, items, i + 1, ist1).1 {
                lemma_frames_set_ip(s, sa, j as usize, st2.code.len() as usize);
                let n0 = s.stack.len() as int;
                assert(sb.stack.subrange(n0, sb.stack.len() as int) =~= seq![v] + rest) by {
                    assert(sb.stack[n0] == sa.stack[n0]);
                    assert forall|q: int| 0 <= q < rest.len() implies sb.stack[n0 + 1 + q] == rest[q] by {
                        assert(sb.stack.subrange(n0 + 1, sb.stack.len() as int)[q] == rest[q]);
                    }
                }
                assert forall|q: int| nl <= q < s.stack.len() implies #[trigger] sb.stack[q] == s.stack[q] by {
                    assert(sb.stack[q] == sa.stack[q]);
                }
                lemma_agree_same_locals(st.locals, sb.stack.subrange(0, sa.stack.len() as int), sb.stack.subrange(0, n0), eval_items(ifs, fuel, items, i + 1, ist1).0.scopes);
            }
            (sb, ka + kb)
        } else {
            (s, ka)
        }
    } else {
        assert(st2 == st) by {
            reveal(cexpr);
            reveal(cexprs);
        }
        assert(set_ip(s, st.code.len() as usize).frames =~= s.frames);
        assert(s.stack.subrange(s.stack.len() as int, s.stack.len() as int) =~= Seq::<SVal>::empty());
        assert(s.stack.subrange(0, s.stack.len() as int) =~= s.stack);
        reveal_with_fuel(steps, 1);
        (s, 0)
    }
}


/// What compiling a statement or block does to the compiler's state: it
/// only appends code, keeps the depth, and only appends locals declared at
/// that depth.
pub open spec fn grows(st: CState, st2: CState) -> bool {
    &&& code_prefix(st, st2)
    &&& st2.depth == st.depth
    &&& st2.locals.len() <= st2.code.len()
    &&& st.locals.len() <= st2.locals.len()
    &&& st2.locals.subrange(0, st.locals.len() as int) == st.locals
    &&& forall|i: int| st.locals.len() <= i < st2.locals.len() ==> #[trigger] st2.locals[i].1 == st.depth
}

proof fn lemma_grows_trans(a: CState, b: CState, c: CState)
    requires
        grows(a, b),
        grows(b, c),
    ensures
        grows(a, c),
{
    lemma_code_prefix_trans(a, b, c);
    assert(c.locals.subrange(0, a.locals.len() as int) =~= a.locals) by {
        assert forall|i: int| 0 <= i < a.locals.len() implies c.locals[i] == a.locals[i] by {
            assert(c.locals.subrange(0, b.locals.len() as int)[i] == b.locals[i]);
            assert(b.locals.subrange(0, a.locals.len() as int)[i] == a.locals[i]);
        }
    }
    assert forall|i: int| a.locals.len() <= i < c.locals.len() implies #[trigger] c.locals[i].1 == a.depth by {
        if i < b.locals.len() {
            assert(c.locals.subrange(0, b.locals.len() as int)[i] == b.locals[i]);
            assert(b.locals[i].1 == a.depth);
        }
    }
}

/// Growing keeps the locals in order of depth.
proof fn lemma_grows_depths(st: CState, st2: CState)
    requires
        grows(st, st2),
        depths_ok(st.locals, st.depth as int),
    ensures
        depths_ok(st2.locals, st2.depth as int),
{
    let n0 = st.locals.len() as int;
    assert forall|i: int| 0 <= i < n0 implies #[trigger] st2.locals[i] == st.locals[i] by {
        assert(st2.locals.subrange(0, n0)[i] == st.locals[i]);
    }
    assert forall|i: int, j: int| 0 <= i < j < st2.locals.len() implies #[trigger] st2.locals[i].1 <= #[trigger] st2.locals[j].1 by {
        if j < n0 {
            assert(st2.locals[i] == st.locals[i]);
            assert(st2.locals[j] == st.locals[j]);
        } else if i < n0 {
            assert(st2.locals[i] == st.locals[i]);
        }
    }
    assert forall|i: int| 0 <= i < st2.locals.len() implies #[trigger] st2.locals[i].1 <= st2.depth by {
        if i < n0 {
            assert(st2.locals[i] == st.locals[i]);
        }
    }
}

/// Ending a scope pops the locals declared in it, one `Pop` each.
proof fn lemma_pop_locals(st: CState, line: u32) -> (c: int)
    requires
        st.code.len() == st.lines.len(),
        depths_ok(st.locals, st.depth + 1),
    ensures
        0 <= c <= st.locals.len(),
        pop_locals(st, line).locals == st.locals.subrange(0, c),
        forall|i: int| c <= i < st.locals.len() ==> #[trigger] st.locals[i].1 == st.depth + 1,
        forall|i: int| 0 <= i < c ==> #[trigger] st.locals[i].1 <= st.depth,
        pop_locals(st, line).depth == st.depth,
        code_prefix(st, pop_locals(st, line)),
        pop_locals(st, line).code.len() == st.code.len() + (st.locals.len() - c),
        forall|q: int| st.code.len() <= q < pop_locals(st, line).code.len() ==> #[trigger] pop_locals(st, line).code[q]
            == OpCode::Pop,
    decreases st.locals.len(),
{
    let ls = st.locals;
    if ls.len() > 0 && ls.last().1 > st.depth {
        let st1 = emit(CState { locals: ls.drop_last(), ..st }, OpCode::Pop, line);
        assert forall|i: int, j: int| 0 <= i < j < st1.locals.len() implies #[trigger] st1.locals[i].1 <= #[trigger] st1.locals[j].1 by {
            assert(ls[i].1 <= ls[j].1);
        }
        assert forall|i: int| 0 <= i < st1.locals.len() implies #[trigger] st1.locals[i].1 <= st1.depth + 1 by {
            assert(ls[i].1 <= st.depth + 1);
        }
        let c = lemma_pop_locals(st1, line);
        assert(ls.drop_last().subrange(0, c) =~= ls.subrange(0, c));
        assert forall|i: int| c <= i < ls.len() implies #[trigger] ls[i].1 == st.depth + 1 by {
            if i < ls.len() - 1 {
                assert(st1.locals[i] == ls[i]);
            }
        }
        assert forall|i: int| 0 <= i < c implies #[trigger] ls[i].1 <= st.depth by {
            assert(st1.locals[i] == ls[i]);
        }
        lemma_emit_prefix(CState { locals: ls.drop_last(), ..st }, OpCode::Pop, line);
        lemma_code_prefix_trans(st, st1, pop_locals(st1, line));
        c
    } else {
        assert forall|i: int| 0 <= i < ls.len() implies #[trigger] ls[i].1 <= st.depth by {
            if i < ls.len() - 1 {
                assert(ls[i].1 <= ls[ls.len() - 1].1);
            }
        }
        assert(ls.subrange(0, ls.len() as int) =~= ls);
        ls.len() as int
    }
}

/// The code of a simple statement only appends, and declares locals only
/// at the statement's depth.
pub proof fn lemma_simple_stmt_compiles(tab: FunTable, st: CState, stm: Stmt)
    requires
        simple_stmt(stm),
        cstmt(tab, st, stm) is Ok,
        st.code.len() == st.lines.len(),
        st.locals.len() <= st.code.len(),
        depths_ok(st.locals, st.depth as int),
    ensures
        grows(st, cstmt(tab, st, stm)->Ok_0),
    decreases stm, 0int,
{
    let st2 = cstmt(tab, st, stm)->Ok_0;
    assert(st.locals.subrange(0, st.locals.len() as int) =~= st.locals);
    match stm {
        Stmt::ExprStmt(e) => {
            assert(cexpr(tab, st, e) is Ok && st2 == emit(cexpr(tab, st, e)->Ok_0, OpCode::Pop, 0)) by {
                reveal(cstmt);
                reveal(cblock);
                reveal(cscoped);
            }
            lemma_simple_expr_compiles(tab, st, e);
            let s1 = cexpr(tab, st, e)->Ok_0;
            lemma_emit_prefix(s1, OpCode::Pop, 0);
            lemma_code_prefix_trans(st, s1, st2);
        },
        Stmt::Let(name, e, _) => {
            assert(cexpr(tab, st, e) is Ok && st2 == CState {
                locals: cexpr(tab, st, e)->Ok_0.locals.push((name@, cexpr(tab, st, e)->Ok_0.depth)),
                ..cexpr(tab, st, e)->Ok_0
            }) by {
                reveal(cstmt);
                reveal(cblock);
                reveal(cscoped);
            }
            lemma_simple_expr_compiles(tab, st, e);
            assert(st2.locals.subrange(0, st.locals.len() as int) =~= st.locals);
        },
        Stmt::Print(es, line) => {
            assert(es@.len() <= 255 && cexprs(tab, st, es@, 0) is Ok && st2 == emit(
                cexprs(tab, st, es@, 0)->Ok_0,
                OpCode::Print(es@.len() as u8),
                line,
            )) by {
                reveal(cstmt);
                reveal(cblock);
                reveal(cscoped);
            }
            lemma_simple_exprs_compile(tab, st, es@, 0);
            let s1 = cexprs(tab, st, es@, 0)->Ok_0;
            let op = OpCode::Print(es@.len() as u8);
            lemma_emit_prefix(s1, op, line);
            lemma_code_prefix_trans(st, s1, st2);
        },
        Stmt::Block(b) => {
            assert(st2 == cscoped(tab, st, b@, 0)->Ok_0 && cscoped(tab, st, b@, 0) is Ok) by {
                reveal(cstmt);
                reveal(cblock);
                reveal(cscoped);
            }
            lemma_simple_scoped_compiles(tab, st, b@, 0);
        },
        Stmt::If(c, t, e) => {
            assert(decreases_to!(stm => t));
            assert(decreases_to!(t => t@));
            assert(decreases_to!(stm => e));
            assert(decreases_to!(e => e@));
            let s1 = cexpr(tab, st, c)->Ok_0;
            let sj = emit(s1, OpCode::JumpIfFalse(0), 0);
            let s3 = cscoped(tab, sj, t@, 0)->Ok_0;
            let sk = patch(emit(s3, OpCode::Jump(0), 0), s1.code.len() as int);
            let s5 = cscoped(tab, sk, e@, 0)->Ok_0;
            assert(cexpr(tab, st, c) is Ok && cscoped(tab, sj, t@, 0) is Ok && cscoped(tab, sk, e@, 0) is Ok && st2 == patch(
                s5,
                s3.code.len() as int,
            )) by {
                reveal(cstmt);
                reveal(cblock);
                reveal(cscoped);
            }
            lemma_simple_expr_compiles(tab, st, c);
            lemma_simple_scoped_compiles(tab, sj, t@, 0);
            lemma_simple_scoped_compiles(tab, sk, e@, 0);
            assert forall|q: int| 0 <= q < st.code.len() implies #[trigger] st2.code[q] == st.code[q] by {
                assert(st2.code[q] == s5.code[q]);
                assert(s5.code[q] == sk.code[q]);
                assert(sk.code[q] == s3.code[q]);
                assert(s3.code[q] == sj.code[q]);
                assert(sj.code[q] == s1.code[q]);
            }
            assert forall|q: int| 0 <= q < st.lines.len() implies #[trigger] st2.lines[q] == st.lines[q] by {
                assert(s5.lines[q] == sk.lines[q]);
                assert(s3.lines[q] == sj.lines[q]);
                assert(sj.lines[q] == s1.lines[q]);
            }
            assert forall|q: int| 0 <= q < st.consts.len() implies #[trigger] st2.consts[q] == st.consts[q] by {
                assert(s5.consts[q] == sk.consts[q]);
                assert(s3.consts[q] == sj.consts[q]);
                assert(sj.consts[q] == s1.consts[q]);
            }
        },
        Stmt::While(c, b) => {
            assert(decreases_to!(stm => b));
            assert(decreases_to!(b => b@));
            let s1 = cexpr(tab, st, c)->Ok_0;
            let sj = emit(s1, OpCode::JumpIfFalse(0), 0);
            let s3 = cscoped(tab, sj, b@, 0)->Ok_0;
            assert(cexpr(tab, st, c) is Ok && cscoped(tab, sj, b@, 0) is Ok && st2 == patch(
                emit(s3, OpCode::Jump(st.code.len() as usize), 0),
                s1.code.len() as int,
            )) by {
                reveal(cstmt);
                reveal(cblock);
                reveal(cscoped);
            }
            lemma_simple_expr_compiles(tab, st, c);
            lemma_simple_scoped_compiles(tab, sj, b@, 0);
            assert forall|q: int| 0 <= q < st.code.len() implies #[trigger] st2.code[q] == st.code[q] by {
                assert(s3.code[q] == sj.code[q]);
                assert(sj.code[q] == s1.code[q]);
            }
            assert forall|q: int| 0 <= q < st.lines.len() implies #[trigger] st2.lines[q] == st.lines[q] by {
                assert(s3.lines[q] == sj.lines[q]);
                assert(sj.lines[q] == s1.lines[q]);
            }
            assert forall|q: int| 0 <= q < st.consts.len() implies #[trigger] st2.consts[q] == st.consts[q] by {
                assert(s3.consts[q] == sj.consts[q]);
                assert(sj.consts[q] == s1.consts[q]);
            }
        },
        _ => {},
    }
}

/// The code of simple statements only appends, and declares locals only at
/// their depth.
pub proof fn lemma_simple_block_compiles(tab: FunTable, st: CState, ss: Seq<Stmt>, i: int)
    requires
        0 <= i <= ss.len(),
        simple_stmts(ss, i),
        cblock(tab, st, ss, i) is Ok,
        st.code.len() == st.lines.len(),
        st.locals.len() <= st.code.len(),
        depths_ok(st.locals, st.depth as int),
    ensures
        grows(st, cblock(tab, st, ss, i)->Ok_0),
    decreases ss, ss.len() - i,
{
    if i < ss.len() {
        assert(cstmt(tab, st, ss[i]) is Ok && cblock(tab, st, ss, i) == cblock(tab, cstmt(tab, st, ss[i])->Ok_0, ss, i + 1)) by {
            reveal(cstmt);
            reveal(cblock);
            reveal(cscoped);
        }
        let s1 = cstmt(tab, st, ss[i])->Ok_0;
        lemma_simple_stmt_compiles(tab, st, ss[i]);
        lemma_grows_depths(st, s1);
        lemma_simple_block_compiles(tab, s1, ss, i + 1);
        lemma_grows_trans(st, s1, cblock(tab, s1, ss, i + 1)->Ok_0);
    } else {
        assert(cblock(tab, st, ss, i) == Ok::<CState, (Seq<u8>, u32)>(st)) by {
            reveal(cstmt);
            reveal(cblock);
            reveal(cscoped);
        }
        assert(st.locals.subrange(0, st.locals.len() as int) =~= st.locals);
    }
}

/// A block in a scope of its own leaves the locals as they were.
pub proof fn lemma_simple_scoped_compiles(tab: FunTable, st: CState, ss: Seq<Stmt>, line: u32)
    requires
        simple_stmts(ss, 0),
        cscoped(tab, st, ss, line) is Ok,
        st.code.len() == st.lines.len(),
        st.locals.len() <= st.code.len(),
        depths_ok(st.locals, st.depth as int),
    ensures
        grows(st, cscoped(tab, st, ss, line)->Ok_0),
        cscoped(tab, st, ss, line)->Ok_0.locals == st.locals,
    decreases ss, ss.len() + 1,
{
    let inner = CState { depth: (st.depth + 1) as u32, ..st };
    assert(st.depth < u32::MAX && cblock(tab, inner, ss, 0) is Ok && cscoped(tab, st, ss, line)
        == Ok::<CState, (Seq<u8>, u32)>(end_scope(cblock(tab, inner, ss, 0)->Ok_0, line))) by {
        reveal(cstmt);
        reveal(cblock);
        reveal(cscoped);
    }
    lemma_simple_block_compiles(tab, inner, ss, 0);
    let b = cblock(tab, inner, ss, 0)->Ok_0;
    lemma_grows_depths(inner, b);
    let b2 = CState { depth: st.depth, ..b };
    let c = lemma_pop_locals(b2, line);
    let n0 = st.locals.len() as int;
    assert forall|i: int| 0 <= i < n0 implies #[trigger] b.locals[i] == st.locals[i] by {
        assert(b.locals.subrange(0, n0)[i] == st.locals[i]);
    }
    assert(c == n0) by {
        if c < n0 {
            assert(b.locals[c].1 == st.depth + 1);
            assert(b.locals[c] == st.locals[c]);
        }
        if c > n0 {
            assert(b.locals[n0].1 <= st.depth);
        }
    }
    let r = pop_locals(b2, line);
    assert(r.locals =~= st.locals);
    lemma_code_prefix_trans(st, b, r);
    assert(r.locals.subrange(0, n0) =~= st.locals);
}

/// `m` `Pop`s at `ip` drop the top `m` values.
proof fn lemma_pops_run(fs: Seq<FunView>, s: VmState, c: CState, ip: int, m: nat) -> (r: VmState)
    requires
        runs_code(fs, s, c, ip),
        c.code.len() == c.lines.len(),
        ip + m <= c.code.len(),
        forall|q: int| ip <= q < ip + m ==> #[trigger] c.code[q] == OpCode::Pop,
        m <= s.stack.len(),
    ensures
        steps(fs, s, m) == Steps::At(r),
        r.stack == s.stack.subrange(0, s.stack.len() - m),
        r.frames == set_ip(s, (ip + m) as usize).frames,
        r.heap == s.heap,
        r.out == s.out,
    decreases m,
{
    if m == 0 {
        assert(s.stack.subrange(0, s.stack.len() as int) =~= s.stack);
        assert(set_ip(s, ip as usize).frames =~= s.frames);
        reveal_with_fuel(steps, 1);
        s
    } else {
        lemma_step_at(fs, s, c, ip);
        let x = drop_top(set_ip(s, (ip + 1) as usize), 1);
        lemma_runs_frames(fs, s, x, c, ip, ip + 1);
        let r = lemma_pops_run(fs, x, c, ip + 1, (m - 1) as nat);
        lemma_steps_add(fs, s, 1, (m - 1) as nat);
        lemma_frames_set_ip(s, x, (ip + 1) as usize, (ip + m) as usize);
        assert(r.stack =~= s.stack.subrange(0, s.stack.len() - m));
        r
    }
}

/// What `lemma_simple_stmt_runs` asks of its start: the machine's stack
/// holds exactly the locals, matching the interpreter's scopes, one per
/// depth, and both have the same heap and output.
pub open spec fn stmt_pre(fs: Seq<FunView>, tab: FunTable, st: CState, stm: Stmt, s: VmState, ist: IState) -> bool {
    &&& simple_stmt(stm)
    &&& cstmt(tab, st, stm) is Ok
    &&& st.code.len() == st.lines.len()
    &&& st.locals.len() <= st.code.len()
    &&& runs_code(fs, s, cstmt(tab, st, stm)->Ok_0, st.code.len() as int)
    &&& s.stack.len() == st.locals.len()
    &&& locals_agree(st.locals, s.stack, ist.scopes)
    &&& ist.scopes.len() == st.depth + 1
    &&& s.heap == ist.heap
    &&& s.out == ist.out
}

/// The state after a statement or block, beside what the interpreter
/// made of it: the same output, the stack holding exactly the locals,
/// matching the interpreter's scopes.
pub open spec fn ended_alike(s: VmState, s2: VmState, st2: CState, ist: IState, ist2: IState) -> bool {
    &&& s2.frames == set_ip(s, st2.code.len() as usize).frames
    &&& s2.heap == s.heap
    &&& s2.out == ist2.out
    &&& s2.stack.len() == st2.locals.len()
    &&& locals_agree(st2.locals, s2.stack, ist2.scopes)
    &&& ist2.scopes.len() == ist.scopes.len()
    &&& ist2.heap == ist.heap
}

/// What running `k` steps of the code of a simple statement from `s` comes
/// to, beside what the interpreter makes of it from `ist`.
pub open spec fn stmt_ran(
    fs: Seq<FunView>,
    tab: FunTable,
    st: CState,
    stm: Stmt,
    s: VmState,
    ifs: Seq<FunctionDecl>,
    fuel: nat,
    ist: IState,
    s2: VmState,
    k: nat,
) -> bool {
    let st2 = cstmt(tab, st, stm)->Ok_0;
    let (ist2, r) = exec_result(ifs, fuel, stm, ist);
    match r {
        Ok(f) => f == Flow::Normal && steps(fs, s, k) == Steps::At(s2) && ended_alike(s, s2, st2, ist, ist2),
        Err((m, l)) => (m, l) != limit_err() ==> steps(fs, s, k) == Steps::Failed(m, l, ist2.out),
    }
}

#[verifier::rlimit(60)]
proof fn lemma_expr_stmt_runs(
    fs: Seq<FunView>,
    tab: FunTable,
    st: CState,
    stm: Stmt,
    s: VmState,
    ifs: Seq<FunctionDecl>,
    fuel: nat,
    ist: IState,
) -> (r: (VmState, nat))
    requires
        stm is ExprStmt,
        stmt_pre(fs, tab, st, stm, s, ist),
    ensures
        stmt_ran(fs, tab, st, stm, s, ifs, fuel, ist, r.0, r.1),
{
    if let Stmt::ExprStmt(e) = stm {
        assert(cexpr(tab, st, e) is Ok && cstmt(tab, st, stm) == Ok::<CState, (Seq<u8>, u32)>(
            emit(cexpr(tab, st, e)->Ok_0, OpCode::Pop, 0),
        )) by {
            reveal(cstmt);
            reveal(cblock);
            reveal(cscoped);
        }
        lemma_simple_expr_compiles(tab, st, e);
        let s1 = cexpr(tab, st, e)->Ok_0;
        let st2 = emit(s1, OpCode::Pop, 0);
        let ip = st.code.len() as int;
        let j = s1.code.len() as int;
        lemma_emit_prefix(s1, OpCode::Pop, 0);
        lemma_runs_code_prefix(fs, s, s1, st2, ip);
        let (se, ke) = lemma_simple_expr_runs(fs, tab, st, e, s, ifs, fuel, ist);
        lemma_simple_eval_keeps(ifs, fuel, e, ist);
        lemma_steps_add(fs, s, ke, 1);
        let k = ke + 1;
        if let Ok(v) = eval_result(ifs, fuel, e, ist).1 {
            lemma_runs_frames(fs, s, se, st2, ip, j);
            lemma_step_at(fs, se, st2, j);
            let x = set_ip(se, (j + 1) as usize);
            lemma_frames_set_ip(s, se, j as usize, (j + 1) as usize);
            let s2 = drop_top(x, 1);
            assert(s2.stack =~= se.stack.drop_last());
            (s2, k)
        } else {
            (s, k)
        }
    } else {
        (s, 0)
    }
}

#[verifier::rlimit(60)]
proof fn lemma_let_stmt_runs(
    fs: Seq<FunView>,
    tab: FunTable,
    st: CState,
    stm: Stmt,
    s: VmState,
    ifs: Seq<FunctionDecl>,
    fuel: nat,
    ist: IState,
) -> (r: (VmState, nat))
    requires
        stm is Let,
        stmt_pre(fs, tab, st, stm, s, ist),
    ensures
        stmt_ran(fs, tab, st, stm, s, ifs, fuel, ist, r.0, r.1),
{
    if let Stmt::Let(name, e, _) = stm {
        assert(cexpr(tab, st, e) is Ok && cstmt(tab, st, stm) == Ok::<CState, (Seq<u8>, u32)>(
            CState { locals: cexpr(tab, st, e)->Ok_0.locals.push((name@, cexpr(tab, st, e)->Ok_0.depth)), ..cexpr(tab, st, e)->Ok_0 },
        )) by {
            reveal(cstmt);
            reveal(cblock);
            reveal(cscoped);
        }
        lemma_simple_expr_compiles(tab, st, e);
        let s1 = cexpr(tab, st, e)->Ok_0;
        let x = (name@, s1.depth);
        let st2 = CState { locals: s1.locals.push(x), ..s1 };
        let ip = st.code.len() as int;
        let (se, k) = lemma_simple_expr_runs(fs, tab, st, e, s, ifs, fuel, ist);
        lemma_simple_eval_keeps(ifs, fuel, e, ist);
        let (ist1, r) = eval_result(ifs, fuel, e, ist);
        if let Ok(v) = r {
            let f = fs[s.frames.last().function as int];
            assert(s1.code.len() <= f.code.len());
            let sd = se.stack.drop_last();
            lemma_declare_agrees(st.locals, sd, ist1.scopes, name@, v, s1.depth);
            assert(sd.push(v) =~= se.stack);
            (se, k)
        } else {
            (s, k)
        }
    } else {
        (s, 0)
    }
}

#[verifier::rlimit(80)]
proof fn lemma_print_stmt_runs(
    fs: Seq<FunView>,
    tab: FunTable,
    st: CState,
    stm: Stmt,
    s: VmState,
    ifs: Seq<FunctionDecl>,
    fuel: nat,
    ist: IState,
) -> (r: (VmState, nat))
    requires
        stm is Print,
        stmt_pre(fs, tab, st, stm, s, ist),
    ensures
        stmt_ran(fs, tab, st, stm, s, ifs, fuel, ist, r.0, r.1),
{
    if let Stmt::Print(es, line) = stm {
        let n = es@.len();
        let op = OpCode::Print(n as u8);
        assert(n <= 255 && cexprs(tab, st, es@, 0) is Ok && cstmt(tab, st, stm) == Ok::<CState, (Seq<u8>, u32)>(
            emit(cexprs(tab, st, es@, 0)->Ok_0, op, line),
        )) by {
            reveal(cstmt);
            reveal(cblock);
            reveal(cscoped);
        }
        lemma_simple_exprs_compile(tab, st, es@, 0);
        let s1 = cexprs(tab, st, es@, 0)->Ok_0;
        let st2 = emit(s1, op, line);
        let ip = st.code.len() as int;
        let j = s1.code.len() as int;
        lemma_emit_prefix(s1, op, line);
        lemma_runs_code_prefix(fs, s, s1, st2, ip);
        let (sl, kl) = lemma_simple_exprs_run(fs, tab, st, es, 0, s, ifs, fuel, ist);
        lemma_simple_items_keep(ifs, fuel, es, 0, ist);
        lemma_steps_add(fs, s, kl, 1);
        let k = kl + 1;
        let (ist1, r) = eval_items(ifs, fuel, es, 0, ist);
        if let Ok(vs) = r {
            lemma_runs_frames(fs, s, sl, st2, ip, j);
            lemma_step_at(fs, sl, st2, j);
            assert((n as u8) as int == n);
            let a = set_ip(sl, (j + 1) as usize);
            lemma_frames_set_ip(s, sl, j as usize, (j + 1) as usize);
            let na = a.stack.len();
            let s2 = VmState { out: a.out + print_text(a.heap, a.stack.subrange(na - n, na as int)), ..drop_top(a, n as int) };
            assert(a.stack.subrange(na - n, na as int) =~= vs);
            assert(s2.stack =~= sl.stack.subrange(0, s.stack.len() as int));
            (s2, k)
        } else {
            (s, k)
        }
    } else {
        (s, 0)
    }
}

/// What running `k` steps of the code of a block in a scope of its own
/// comes to, beside what the interpreter makes of it.
pub open spec fn scoped_ran(
    fs: Seq<FunView>,
    tab: FunTable,
    st: CState,
    stmts: Vec<Stmt>,
    line: u32,
    s: VmState,
    ifs: Seq<FunctionDecl>,
    fuel: nat,
    ist: IState,
    s2: VmState,
    k: nat,
) -> bool {
    let st2 = cscoped(tab, st, stmts@, line)->Ok_0;
    let (ist2, r) = exec_scoped(ifs, fuel, stmts, ist);
    match r {
        Ok(f) => f == Flow::Normal && steps(fs, s, k) == Steps::At(s2) && ended_alike(s, s2, st2, ist, ist2),
        Err((m, l)) => (m, l) != limit_err() ==> steps(fs, s, k) == Steps::Failed(m, l, ist2.out),
    }
}

/// The VM runs the code of simple statements in a scope of their own as
/// the interpreter does: entering the scope, running them, and dropping
/// the scope's locals.
#[verifier::rlimit(80)]
pub proof fn lemma_simple_scoped_runs(
    fs: Seq<FunView>,
    tab: FunTable,
    st: CState,
    stmts: Vec<Stmt>,
    line: u32,
    s: VmState,
    ifs: Seq<FunctionDecl>,
    fuel: nat,
    ist: IState,
) -> (r: (VmState, nat))
    requires
        simple_stmts(stmts@, 0),
        cscoped(tab, st, stmts@, line) is Ok,
        st.code.len() == st.lines.len(),
        st.locals.len() <= st.code.len(),
        runs_code(fs, s, cscoped(tab, st, stmts@, line)->Ok_0, st.code.len() as int),
        s.stack.len() == st.locals.len(),
        locals_agree(st.locals, s.stack, ist.scopes),
        ist.scopes.len() == st.depth + 1,
        s.heap == ist.heap,
        s.out == ist.out,
    ensures
        scoped_ran(fs, tab, st, stmts, line, s, ifs, fuel, ist, r.0, r.1),
    decreases fuel, stmts_height(stmts, 0), stmts@.len() + 1,
{
    let inner = CState { depth: (st.depth + 1) as u32, ..st };
    assert(st.depth < u32::MAX && cblock(tab, inner, stmts@, 0) is Ok && cscoped(tab, st, stmts@, line)
        == Ok::<CState, (Seq<u8>, u32)>(end_scope(cblock(tab, inner, stmts@, 0)->Ok_0, line))) by {
        reveal(cstmt);
        reveal(cblock);
        reveal(cscoped);
    }
    lemma_simple_scoped_compiles(tab, st, stmts@, line);
    lemma_simple_block_compiles(tab, inner, stmts@, 0);
    let b = cblock(tab, inner, stmts@, 0)->Ok_0;
    lemma_grows_depths(inner, b);
    let b2 = CState { depth: st.depth, ..b };
    let c = lemma_pop_locals(b2, line);
    let st2 = pop_locals(b2, line);
    let n0 = st.locals.len() as int;
    assert forall|i: int| 0 <= i < n0 implies #[trigger] b.locals[i] == st.locals[i] by {
        assert(b.locals.subrange(0, n0)[i] == st.locals[i]);
    }
    assert(c == n0) by {
        if c < n0 {
            assert(b.locals[c].1 == st.depth + 1);
            assert(b.locals[c] == st.locals[c]);
        }
        if c > n0 {
            assert(b.locals[n0].1 <= st.depth);
        }
    }
    let ip = st.code.len() as int;
    let ist_in = IState { scopes: ist.scopes.push(Seq::empty()), ..ist };
    lemma_enter_agrees(st.locals, s.stack, ist.scopes);
    lemma_code_prefix_trans(inner, b, st2);
    lemma_runs_code_prefix(fs, s, b, st2, ip);
    let (sb, kb) = lemma_simple_block_runs(fs, tab, inner, stmts, 0, s, ifs, fuel, ist_in);
    let (ist1, rb) = exec_block(ifs, fuel, stmts, 0, ist_in);
    if rb is Ok {
        let j = b.code.len() as int;
        let m = (b.locals.len() - n0) as nat;
        lemma_runs_frames(fs, s, sb, st2, ip, j);
        let sp = lemma_pops_run(fs, sb, st2, j, m);
        lemma_steps_add(fs, s, kb, m);
        lemma_frames_set_ip(s, sb, j as usize, (j + m) as usize);
        lemma_exit_agrees(b.locals, sb.stack, ist1.scopes, n0);
        assert(b.locals.subrange(0, n0) =~= st.locals);
        assert(sp.stack =~= sb.stack.subrange(0, n0));
        (sp, kb + m)
    } else {
        (sb, kb)
    }
}

/// What `lemma_simple_block_runs` asks of its start.
pub open spec fn block_pre(
    fs: Seq<FunView>,
    tab: FunTable,
    st: CState,
    stmts: Vec<Stmt>,
    i: int,
    s: VmState,
    ist: IState,
) -> bool {
    &&& 0 <= i <= stmts@.len()
    &&& simple_stmts(stmts@, i)
    &&& cblock(tab, st, stmts@, i) is Ok
    &&& st.code.len() == st.lines.len()
    &&& st.locals.len() <= st.code.len()
    &&& runs_code(fs, s, cblock(tab, st, stmts@, i)->Ok_0, st.code.len() as int)
    &&& s.stack.len() == st.locals.len()
    &&& locals_agree(st.locals, s.stack, ist.scopes)
    &&& ist.scopes.len() == st.depth + 1
    &&& s.heap == ist.heap
    &&& s.out == ist.out
}

/// What running `k` steps of the code of simple statements `stmts[i..]`
/// from `s` comes to, beside what the interpreter makes of them.
pub open spec fn block_ran(
    fs: Seq<FunView>,
    tab: FunTable,
    st: CState,
    stmts: Vec<Stmt>,
    i: int,
    s: VmState,
    ifs: Seq<FunctionDecl>,
    fuel: nat,
    ist: IState,
    s2: VmState,
    k: nat,
) -> bool {
    let st2 = cblock(tab, st, stmts@, i)->Ok_0;
    let (ist2, r) = exec_block(ifs, fuel, stmts, i, ist);
    match r {
        Ok(f) => f == Flow::Normal && steps(fs, s, k) == Steps::At(s2) && ended_alike(s, s2, st2, ist, ist2),
        Err((m, l)) => (m, l) != limit_err() ==> steps(fs, s, k) == Steps::Failed(m, l, ist2.out),
    }
}

/// The VM runs the code of simple statements as the interpreter executes
/// them: it prints the same text, and fails, if it does, with the same
/// error after the same output.
#[verifier::rlimit(100)]
pub proof fn lemma_simple_block_runs(
    fs: Seq<FunView>,
    tab: FunTable,
    st: CState,
    stmts: Vec<Stmt>,
    i: int,
    s: VmState,
    ifs: Seq<FunctionDecl>,
    fuel: nat,
    ist: IState,
) -> (r: (VmState, nat))
    requires
        block_pre(fs, tab, st, stmts, i, s, ist),
    ensures
        block_ran(fs, tab, st, stmts, i, s, ifs, fuel, ist, r.0, r.1),
    decreases fuel, stmts_height(stmts, i), stmts@.len() - i,
{
    let ss = stmts@;
    let st2 = cblock(tab, st, ss, i)->Ok_0;
    if i < ss.len() {
        assert(cstmt(tab, st, ss[i]) is Ok && cblock(tab, st, ss, i) == cblock(tab, cstmt(tab, st, ss[i])->Ok_0, ss, i + 1)) by {
            reveal(cstmt);
            reveal(cblock);
            reveal(cscoped);
        }
        let s1 = cstmt(tab, st, ss[i])->Ok_0;
        lemma_simple_stmt_compiles(tab, st, ss[i]);
        lemma_grows_depths(st, s1);
        lemma_simple_block_compiles(tab, s1, ss, i + 1);
        let ip = st.code.len() as int;
        let j = s1.code.len() as int;
        lemma_runs_code_prefix(fs, s, s1, st2, ip);
        let (sa, ka) = lemma_simple_stmt_runs(fs, tab, st, ss[i], s, ifs, fuel, ist);
        let (ist1, r) = exec_result(ifs, fuel, ss[i], ist);
        if r is Ok {
            lemma_runs_frames(fs, s, sa, st2, ip, j);
            let (sb, kb) = lemma_simple_block_runs(fs, tab, s1, stmts, i + 1, sa, ifs, fuel, ist1);
            lemma_steps_add(fs, s, ka, kb);
            lemma_frames_set_ip(s, sa, j as usize, st2.code.len() as usize);
            (sb, ka + kb)
        } else {
            (sa, ka)
        }
    } else {
        assert(st2 == st) by {
            reveal(cstmt);
            reveal(cblock);
            reveal(cscoped);
        }
        assert(set_ip(s, st.code.len() as usize).frames =~= s.frames);
        reveal_with_fuel(steps, 1);
        (s, 0)
    }
}

/// The code of an `if` as the compiler lays it out: the condition, a
/// conditional jump past the `then` block, the `then` block, a jump past
/// the `else` block, and the `else` block.
#[verifier::rlimit(100)]
proof fn lemma_if_stmt_runs(
    fs: Seq<FunView>,
    tab: FunTable,
    st: CState,
    stm: Stmt,
    s: VmState,
    ifs: Seq<FunctionDecl>,
    fuel: nat,
    ist: IState,
) -> (r: (VmState, nat))
    requires
        stm is If,
        stmt_pre(fs, tab, st, stm, s, ist),
    ensures
        stmt_ran(fs, tab, st, stm, s, ifs, fuel, ist, r.0, r.1),
    decreases fuel, stmt_height(stm), 0int,
{
    if let Stmt::If(c, t, e) = stm {
        let s1 = cexpr(tab, st, c)->Ok_0;
        let sj = emit(s1, OpCode::JumpIfFalse(0), 0);
        let s3 = cscoped(tab, sj, t@, 0)->Ok_0;
        let sk = patch(emit(s3, OpCode::Jump(0), 0), s1.code.len() as int);
        let s5 = cscoped(tab, sk, e@, 0)->Ok_0;
        let st2 = patch(s5, s3.code.len() as int);
        assert(cexpr(tab, st, c) is Ok && cscoped(tab, sj, t@, 0) is Ok && cscoped(tab, sk, e@, 0) is Ok && cstmt(tab, st, stm)
            == Ok::<CState, (Seq<u8>, u32)>(st2)) by {
            reveal(cstmt);
            reveal(cblock);
            reveal(cscoped);
        }
        lemma_simple_expr_compiles(tab, st, c);
        lemma_simple_scoped_compiles(tab, sj, t@, 0);
        lemma_simple_scoped_compiles(tab, sk, e@, 0);
        let ip = st.code.len() as int;
        let p1 = s1.code.len() as int;
        let p3 = s3.code.len() as int;
        let end = s5.code.len() as int;
        assert(sk.code[p1] == OpCode::JumpIfFalse((p3 + 1) as usize));
        assert(st2.code[p1] == OpCode::JumpIfFalse((p3 + 1) as usize)) by {
            assert(s5.code[p1] == sk.code[p1]);
        }
        assert(st2.code[p3] == OpCode::Jump(end as usize)) by {
            assert(s5.code[p3] == sk.code[p3]);
        }
        assert(st2.lines == s5.lines && st2.consts == s5.consts);
        // the condition's code
        assert forall|q: int| ip <= q < p1 implies #[trigger] st2.code[q] == s1.code[q] by {
            assert(st2.code[q] == s5.code[q]);
            assert(s5.code[q] == sk.code[q]);
            assert(sk.code[q] == s3.code[q]);
            assert(s3.code[q] == sj.code[q]);
        }
        assert(prefix(s1.lines, st2.lines)) by {
            assert forall|q: int| 0 <= q < s1.lines.len() implies #[trigger] st2.lines[q] == s1.lines[q] by {
                assert(s5.lines[q] == sk.lines[q]);
                assert(s3.lines[q] == sj.lines[q]);
            }
        }
        assert(prefix(s1.consts, st2.consts)) by {
            assert forall|q: int| 0 <= q < s1.consts.len() implies #[trigger] st2.consts[q] == s1.consts[q] by {
                assert(s5.consts[q] == sk.consts[q]);
                assert(s3.consts[q] == sj.consts[q]);
            }
        }
        lemma_runs_code_agree(fs, s, s1, st2, ip);
        let (sc, kc) = lemma_simple_expr_runs(fs, tab, st, c, s, ifs, fuel, ist);
        lemma_simple_eval_keeps(ifs, fuel, c, ist);
        let (ist1, rc) = eval_result(ifs, fuel, c, ist);
        if let Ok(cv) = rc {
            lemma_runs_frames(fs, s, sc, st2, ip, p1);
            lemma_step_at(fs, sc, st2, p1);
            let a = set_ip(sc, (p1 + 1) as usize);
            lemma_frames_set_ip(s, sc, p1 as usize, (p1 + 1) as usize);
            let x = drop_top(a, 1);
            assert(x.stack =~= sc.stack.drop_last());
            lemma_steps_add(fs, s, kc, 1);
            if truthy(cv) {
                // the then block
                assert forall|q: int| p1 + 1 <= q < p3 implies #[trigger] st2.code[q] == s3.code[q] by {
                    assert(st2.code[q] == s5.code[q]);
                    assert(s5.code[q] == sk.code[q]);
                }
                assert(prefix(s3.lines, st2.lines)) by {
                    assert forall|q: int| 0 <= q < s3.lines.len() implies #[trigger] st2.lines[q] == s3.lines[q] by {
                        assert(s5.lines[q] == sk.lines[q]);
                    }
                }
                assert(prefix(s3.consts, st2.consts)) by {
                    assert forall|q: int| 0 <= q < s3.consts.len() implies #[trigger] st2.consts[q] == s3.consts[q] by {
                        assert(s5.consts[q] == sk.consts[q]);
                    }
                }
                lemma_runs_frames(fs, s, x, st2, ip, p1 + 1);
                lemma_runs_code_agree(fs, x, s3, st2, p1 + 1);
                let (sb, kb) = lemma_simple_scoped_runs(fs, tab, sj, t, 0, x, ifs, fuel, ist1);
                lemma_steps_add(fs, s, kc + 1, kb);
                let (ist2, rb) = exec_scoped(ifs, fuel, t, ist1);
                if rb is Ok {
                    lemma_frames_set_ip(s, x, (p1 + 1) as usize, p3 as usize);
                    lemma_runs_frames(fs, s, sb, st2, ip, p3);
                    lemma_step_at(fs, sb, st2, p3);
                    let sf = set_ip(set_ip(sb, (p3 + 1) as usize), end as usize);
                    lemma_frames_set_ip(s, sb, p3 as usize, (p3 + 1) as usize);
                    lemma_frames_set_ip(s, set_ip(sb, (p3 + 1) as usize), (p3 + 1) as usize, end as usize);
                    lemma_steps_add(fs, s, kc + 1 + kb, 1);
                    (sf, kc + 1 + kb + 1)
                } else {
                    (sb, kc + 1 + kb)
                }
            } else {
                // the else block
                let y = set_ip(x, (p3 + 1) as usize);
                lemma_frames_set_ip(s, x, (p1 + 1) as usize, (p3 + 1) as usize);
                lemma_runs_frames(fs, s, y, st2, ip, p3 + 1);
                assert forall|q: int| p3 + 1 <= q < end implies #[trigger] st2.code[q] == s5.code[q] by {}
                assert(prefix(s5.lines, st2.lines));
                assert(prefix(s5.consts, st2.consts));
                lemma_runs_code_agree(fs, y, s5, st2, p3 + 1);
                let (se, ke) = lemma_simple_scoped_runs(fs, tab, sk, e, 0, y, ifs, fuel, ist1);
                lemma_steps_add(fs, s, kc + 1, ke);
                let (ist2, re) = exec_scoped(ifs, fuel, e, ist1);
                if re is Ok {
                    lemma_frames_set_ip(s, y, (p3 + 1) as usize, end as usize);
                }
                (se, kc + 1 + ke)
            }
        } else {
            (s, kc)
        }
    } else {
        (s, 0)
    }
}

/// The code of a `while` as the compiler lays it out: the condition, a
/// conditional jump out of the loop, the body, and a jump back to the
/// condition. The VM runs each round as the interpreter does.
#[verifier::rlimit(100)]
pub proof fn lemma_while_stmt_runs(
    fs: Seq<FunView>,
    tab: FunTable,
    st: CState,
    w: Stmt,
    s: VmState,
    ifs: Seq<FunctionDecl>,
    fuel: nat,
    ist: IState,
) -> (r: (VmState, nat))
    requires
        w is While,
        stmt_pre(fs, tab, st, w, s, ist),
    ensures
        stmt_ran(fs, tab, st, w, s, ifs, fuel, ist, r.0, r.1),
    decreases fuel, while_height(w), 0int,
{
    if let Stmt::While(c, b) = w {
        let ip = st.code.len() as int;
        let s1 = cexpr(tab, st, c)->Ok_0;
        let sj = emit(s1, OpCode::JumpIfFalse(0), 0);
        let s3 = cscoped(tab, sj, b@, 0)->Ok_0;
        let st2 = patch(emit(s3, OpCode::Jump(ip as usize), 0), s1.code.len() as int);
        assert(cexpr(tab, st, c) is Ok && cscoped(tab, sj, b@, 0) is Ok && cstmt(tab, st, w) == Ok::<CState, (Seq<u8>, u32)>(
            st2,
        )) by {
            reveal(cstmt);
            reveal(cblock);
            reveal(cscoped);
        }
        assert(exec_result(ifs, fuel, w, ist) == exec_while(ifs, fuel, w, ist));
        lemma_simple_expr_compiles(tab, st, c);
        lemma_simple_scoped_compiles(tab, sj, b@, 0);
        let p1 = s1.code.len() as int;
        let p3 = s3.code.len() as int;
        let end = p3 + 1;
        assert(st2.code[p1] == OpCode::JumpIfFalse(end as usize));
        assert(st2.code[p3] == OpCode::Jump(ip as usize));
        assert forall|q: int| ip <= q < p1 implies #[trigger] st2.code[q] == s1.code[q] by {
            assert(s3.code[q] == sj.code[q]);
        }
        assert(prefix(s1.lines, st2.lines)) by {
            assert forall|q: int| 0 <= q < s1.lines.len() implies #[trigger] st2.lines[q] == s1.lines[q] by {
                assert(s3.lines[q] == sj.lines[q]);
            }
        }
        assert(prefix(s1.consts, st2.consts)) by {
            assert forall|q: int| 0 <= q < s1.consts.len() implies #[trigger] st2.consts[q] == s1.consts[q] by {
                assert(s3.consts[q] == sj.consts[q]);
            }
        }
        lemma_runs_code_agree(fs, s, s1, st2, ip);
        let (sc, kc) = lemma_simple_expr_runs(fs, tab, st, c, s, ifs, fuel, ist);
        lemma_simple_eval_keeps(ifs, fuel, c, ist);
        let (ist1, rc) = eval_result(ifs, fuel, c, ist);
        if let Ok(cv) = rc {
            lemma_runs_frames(fs, s, sc, st2, ip, p1);
            lemma_step_at(fs, sc, st2, p1);
            let a = set_ip(sc, (p1 + 1) as usize);
            lemma_frames_set_ip(s, sc, p1 as usize, (p1 + 1) as usize);
            let x = drop_top(a, 1);
            assert(x.stack =~= sc.stack.drop_last());
            lemma_steps_add(fs, s, kc, 1);
            if !truthy(cv) {
                let sf = set_ip(x, end as usize);
                lemma_frames_set_ip(s, x, (p1 + 1) as usize, end as usize);
                (sf, kc + 1)
            } else if fuel == 0 {
                (s, kc + 1)
            } else {
                assert forall|q: int| p1 + 1 <= q < p3 implies #[trigger] st2.code[q] == s3.code[q] by {}
                assert(prefix(s3.lines, st2.lines));
                assert(prefix(s3.consts, st2.consts));
                lemma_runs_frames(fs, s, x, st2, ip, p1 + 1);
                lemma_runs_code_agree(fs, x, s3, st2, p1 + 1);
                let (sb, kb) = lemma_simple_scoped_runs(fs, tab, sj, b, 0, x, ifs, fuel, ist1);
                lemma_steps_add(fs, s, kc + 1, kb);
                let (ist2, rb) = exec_scoped(ifs, fuel, b, ist1);
                if rb is Ok {
                    lemma_frames_set_ip(s, x, (p1 + 1) as usize, p3 as usize);
                    lemma_runs_frames(fs, s, sb, st2, ip, p3);
                    lemma_step_at(fs, sb, st2, p3);
                    let s4 = set_ip(set_ip(sb, (p3 + 1) as usize), ip as usize);
                    lemma_frames_set_ip(s, sb, p3 as usize, (p3 + 1) as usize);
                    lemma_frames_set_ip(s, set_ip(sb, (p3 + 1) as usize), (p3 + 1) as usize, ip as usize);
                    lemma_steps_add(fs, s, kc + 1 + kb, 1);
                    lemma_runs_frames(fs, s, s4, st2, ip, ip);
                    let (s5, k5) = lemma_while_stmt_runs(fs, tab, st, w, s4, ifs, (fuel - 1) as nat, ist2);
                    lemma_steps_add(fs, s, kc + 1 + kb + 1, k5);
                    if exec_while(ifs, (fuel - 1) as nat, w, ist2).1 is Ok {
                        lemma_frames_set_ip(s, s4, ip as usize, end as usize);
                    }
                    (s5, kc + 1 + kb + 1 + k5)
                } else {
                    (sb, kc + 1 + kb)
                }
            }
        } else {
            (s, kc)
        }
    } else {
        (s, 0)
    }
}

/// The VM runs the code of a simple statement as the interpreter executes
/// it: it prints the same text, with every local holding what the
/// interpreter's scopes give its name, or fails with the same error after
/// the same output.
pub proof fn lemma_simple_stmt_runs(
    fs: Seq<FunView>,
    tab: FunTable,
    st: CState,
    stm: Stmt,
    s: VmState,
    ifs: Seq<FunctionDecl>,
    fuel: nat,
    ist: IState,
) -> (r: (VmState, nat))
    requires
        stmt_pre(fs, tab, st, stm, s, ist),
    ensures
        stmt_ran(fs, tab, st, stm, s, ifs, fuel, ist, r.0, r.1),
    decreases fuel, stmt_height(stm), 1int,
{
    match stm {
        Stmt::ExprStmt(_) => lemma_expr_stmt_runs(fs, tab, st, stm, s, ifs, fuel, ist),
        Stmt::Let(_, _, _) => lemma_let_stmt_runs(fs, tab, st, stm, s, ifs, fuel, ist),
        Stmt::Block(b) => {
            assert(cstmt(tab, st, stm) == cscoped(tab, st, b@, 0)) by {
                reveal(cstmt);
                reveal(cblock);
                reveal(cscoped);
            }
            lemma_simple_scoped_runs(fs, tab, st, b, 0, s, ifs, fuel, ist)
        },
        Stmt::If(_, _, _) => lemma_if_stmt_runs(fs, tab, st, stm, s, ifs, fuel, ist),
        Stmt::While(_, _) => lemma_while_stmt_runs(fs, tab, st, stm, s, ifs, fuel, ist),
        _ => lemma_print_stmt_runs(fs, tab, st, stm, s, ifs, fuel, ist),
    }
}

} // verus!
