//! A stack-based bytecode VM: one operand stack, one stack of call frames,
//! and a fetch-decode-execute loop over `OpCode`s.
//!
//! `step_result` states what one instruction does; `run` runs the program
//! as `run_result` describes: step after step until the top-level script
//! returns, an instruction fails, or the step budget is spent.
use vstd::prelude::*;
use crate::ast::BinOp;
use crate::builtins::{builtin_names, builtin_result, call_builtin_id, lemma_builtin_keeps_heap_ok};
use crate::chunk::{FunctionObj, OpCode};
use crate::error::SfError;
use crate::heap::{
    dict_from, entries_ok, heap_ok, index_get, index_get_result, index_set, index_set_result, kinds_kept,
    lemma_alloc_keeps_heap_ok, lemma_dict_from_ok, lemma_index_get_ok, lemma_index_set_keeps_heap_ok,
    lemma_kinds_kept_refl, lemma_kinds_kept_val_ok, obj_ok, show, val_ok,
};
use crate::text::{
    digits_of, extends, lemma_extends_append, lemma_extends_refl, lemma_extends_trans, push_bytes, push_digits, push_str,
    str_bytes,
};
use crate::value::{
    binary_result, eval_binary, is_runtime_error, kind_name_text, number_result, truthy,
    values_view, Heap, SObj, SVal, Value, MAX_SAFE,
};

verus! {

/// The step budget of `Vm::run`.
pub const STEP_LIMIT: u64 = 0xffff_ffff_ffff_ffff;

/// One activation record. `base` is the stack index of local slot 0:
/// parameters occupy `base..base+arity`, and further `let`s inside the
/// function get the slots after them.
#[derive(Debug, Clone, Copy)]
pub struct CallFrame {
    pub function: usize,
    pub ip: usize,
    pub base: usize,
}

/// The view of a compiled function.
pub struct FunView {
    pub name: Seq<u8>,
    pub arity: nat,
    pub code: Seq<OpCode>,
    pub lines: Seq<u32>,
    pub consts: Seq<SVal>,
}

pub open spec fn fun_view(f: FunctionObj) -> FunView {
    FunView {
        name: f.name@,
        arity: f.arity as nat,
        code: f.chunk.code@,
        lines: f.chunk.lines@,
        consts: values_view(f.chunk.constants@),
    }
}

pub open spec fn funs_view(fs: Seq<FunctionObj>) -> Seq<FunView> {
    fs.map_values(|f: FunctionObj| fun_view(f))
}

/// The state of the machine: operand stack, frames, heap, and the output
/// printed so far.
#[verifier::ext_equal]
pub struct VmState {
    pub stack: Seq<SVal>,
    pub frames: Seq<CallFrame>,
    pub heap: Seq<SObj>,
    pub out: Seq<u8>,
}

/// What one step does: go on, finish (the script returned), or fail with a
/// runtime error's message and line.
pub enum StepOutcome {
    Continue(VmState),
    Done(VmState),
    Fail(Seq<u8>, u32),
}

pub open spec fn underflow_msg() -> Seq<u8> {
    str_bytes("internal error: operand stack underflow")
}

pub open spec fn underflow() -> StepOutcome {
    StepOutcome::Fail(underflow_msg(), 0)
}

pub open spec fn internal(line: u32) -> StepOutcome {
    StepOutcome::Fail(str_bytes("internal error: malformed bytecode"), line)
}

pub open spec fn push(s: VmState, v: SVal) -> VmState {
    VmState { stack: s.stack.push(v), ..s }
}

pub open spec fn set_ip(s: VmState, ip: usize) -> VmState {
    let fi = s.frames.len() - 1;
    VmState { frames: s.frames.update(fi, CallFrame { ip, ..s.frames[fi] }), ..s }
}

pub open spec fn drop_top(s: VmState, n: int) -> VmState {
    VmState { stack: s.stack.subrange(0, s.stack.len() - n), ..s }
}

pub open spec fn binop_of(op: OpCode) -> BinOp {
    match op {
        OpCode::Add => BinOp::Add,
        OpCode::Sub => BinOp::Sub,
        OpCode::Mul => BinOp::Mul,
        OpCode::Div => BinOp::Div,
        OpCode::Mod => BinOp::Mod,
        OpCode::Eq => BinOp::Eq,
        OpCode::NotEq => BinOp::NotEq,
        OpCode::Lt => BinOp::Lt,
        OpCode::LtEq => BinOp::LtEq,
        OpCode::Gt => BinOp::Gt,
        _ => BinOp::GtEq,
    }
}

pub open spec fn is_binary(op: OpCode) -> bool {
    op is Add || op is Sub || op is Mul || op is Div || op is Mod || op is Eq || op is NotEq
        || op is Lt || op is LtEq || op is Gt || op is GtEq
}

/// The text `print` writes for `vals`: their texts separated by spaces,
/// and a newline.
pub open spec fn print_text(h: Seq<SObj>, vals: Seq<SVal>) -> Seq<u8>
    decreases vals.len(),
{
    if vals.len() == 0 {
        seq![10u8]
    } else if vals.len() == 1 {
        show(h, vals[0], Seq::empty()) + seq![10u8]
    } else {
        show(h, vals[0], Seq::empty()) + seq![32u8] + print_text(h, vals.drop_first())
    }
}

/// The entries of `s` in the opposite order.
pub open spec fn flip(s: Seq<(Seq<u8>, SVal)>) -> Seq<(Seq<u8>, SVal)> {
    Seq::new(s.len(), |i: int| s[s.len() - 1 - i])
}

/// The entries `BuildMap(n)` takes from the top `2n` stack values, in the
/// order it pops them (the last pair first), or the first key that is not
/// a string.
pub open spec fn map_pairs(top: Seq<SVal>) -> Result<Seq<(Seq<u8>, SVal)>, SVal>
    decreases top.len(),
{
    if top.len() < 2 {
        Ok(Seq::empty())
    } else {
        let key = top[top.len() - 2];
        let val = top[top.len() - 1];
        match key {
            SVal::Str(k) => match map_pairs(top.subrange(0, top.len() - 2)) {
                Ok(rest) => Ok(seq![(k, val)] + rest),
                Err(bad) => Err(bad),
            },
            _ => Err(key),
        }
    }
}

pub open spec fn bad_key_msg(key: SVal) -> Seq<u8> {
    str_bytes("internal error: map key compiled to a ") + kind_name_text(key)
}

pub open spec fn arity_mismatch_msg(name: Seq<u8>, arity: nat, argc: nat) -> Seq<u8> {
    str_bytes("function '") + name + str_bytes("' expects ") + digits_of(arity) + str_bytes(
        " argument(s), got ",
    ) + digits_of(argc)
}

pub open spec fn neg_msg(v: SVal) -> Seq<u8> {
    str_bytes("expected a number, got ") + kind_name_text(v)
}

/// What executing instruction `op` (at `line`) does to `s`, whose current
/// frame's `ip` already points past `op`.
pub open spec fn op_result(fs: Seq<FunView>, s: VmState, op: OpCode, line: u32) -> StepOutcome {
    let f = fs[s.frames.last().function as int];
    let base = s.frames.last().base;
    let n = s.stack.len();
    match op {
        OpCode::PushConst(i) => if i < f.consts.len() {
            StepOutcome::Continue(push(s, f.consts[i as int]))
        } else {
            internal(line)
        },
        OpCode::PushNil => StepOutcome::Continue(push(s, SVal::Nil)),
        OpCode::PushTrue => StepOutcome::Continue(push(s, SVal::Bool(true))),
        OpCode::PushFalse => StepOutcome::Continue(push(s, SVal::Bool(false))),
        OpCode::Pop => if n == 0 { underflow() } else { StepOutcome::Continue(drop_top(s, 1)) },
        OpCode::Neg => if n == 0 {
            underflow()
        } else {
            match s.stack.last() {
                SVal::Num(x) => match number_result(-x) {
                    Ok(v) => StepOutcome::Continue(push(drop_top(s, 1), v)),
                    Err(m) => StepOutcome::Fail(m, line),
                },
                other => StepOutcome::Fail(neg_msg(other), line),
            }
        },
        OpCode::Not => if n == 0 {
            underflow()
        } else {
            StepOutcome::Continue(push(drop_top(s, 1), SVal::Bool(!truthy(s.stack.last()))))
        },
        OpCode::GetLocal(slot) => if base + slot < n {
            StepOutcome::Continue(push(s, s.stack[base + slot]))
        } else {
            internal(line)
        },
        OpCode::SetLocal(slot) => if n == 0 {
            underflow()
        } else if base + slot < n {
            StepOutcome::Continue(VmState { stack: s.stack.update(base + slot, s.stack.last()), ..s })
        } else {
            internal(line)
        },
        OpCode::Jump(t) => StepOutcome::Continue(set_ip(s, t)),
        OpCode::JumpIfFalse(t) => if n == 0 {
            underflow()
        } else if truthy(s.stack.last()) {
            StepOutcome::Continue(drop_top(s, 1))
        } else {
            StepOutcome::Continue(set_ip(drop_top(s, 1), t))
        },
        OpCode::JumpIfFalsePeek(t) => if n > 0 && truthy(s.stack.last()) {
            StepOutcome::Continue(s)
        } else {
            StepOutcome::Continue(set_ip(s, t))
        },
        OpCode::JumpIfTruePeek(t) => if n > 0 && truthy(s.stack.last()) {
            StepOutcome::Continue(set_ip(s, t))
        } else {
            StepOutcome::Continue(s)
        },
        OpCode::BuildArray(c) => if c > n {
            underflow()
        } else {
            let s2 = drop_top(s, c as int);
            StepOutcome::Continue(push(
                VmState { heap: s.heap.push(SObj::Arr(s.stack.subrange(n - c, n as int))), ..s2 },
                SVal::Arr(s.heap.len()),
            ))
        },
        OpCode::BuildMap(c) => if 2 * c > n {
            underflow()
        } else {
            match map_pairs(s.stack.subrange(n - 2 * c, n as int)) {
                Err(bad) => StepOutcome::Fail(bad_key_msg(bad), line),
                Ok(pairs) => {
                    let s2 = drop_top(s, 2 * c);
                    StepOutcome::Continue(push(
                        VmState { heap: s.heap.push(SObj::Dict(dict_from(flip(pairs)))), ..s2 },
                        SVal::Dict(s.heap.len()),
                    ))
                },
            }
        },
        OpCode::IndexGet => if n < 2 {
            underflow()
        } else {
            match index_get_result(s.heap, s.stack[n - 2], s.stack[n - 1]) {
                Ok(v) => StepOutcome::Continue(push(drop_top(s, 2), v)),
                Err(m) => StepOutcome::Fail(m, line),
            }
        },
        OpCode::IndexSet => if n < 3 {
            underflow()
        } else {
            match index_set_result(s.heap, s.stack[n - 3], s.stack[n - 2], s.stack[n - 1]) {
                Ok(h) => StepOutcome::Continue(push(VmState { heap: h, ..drop_top(s, 3) }, s.stack[n - 1])),
                Err(m) => StepOutcome::Fail(m, line),
            }
        },
        OpCode::Call(fidx, argc) => if fidx >= fs.len() {
            internal(line)
        } else if fs[fidx as int].arity != argc {
            StepOutcome::Fail(arity_mismatch_msg(fs[fidx as int].name, fs[fidx as int].arity, argc as nat), line)
        } else if argc > n {
            underflow()
        } else {
            StepOutcome::Continue(VmState {
                frames: s.frames.push(CallFrame { function: fidx, ip: 0, base: (n - argc) as usize }),
                ..s
            })
        },
        OpCode::CallBuiltin(id, argc) => if argc > n {
            underflow()
        } else if id >= 4 {
            internal(line)
        } else {
            match builtin_result(id as int, s.stack.subrange(n - argc, n as int), s.heap) {
                Ok((v, h)) => StepOutcome::Continue(push(VmState { heap: h, ..drop_top(s, argc as int) }, v)),
                Err(m) => StepOutcome::Fail(m, line),
            }
        },
        OpCode::Print(argc) => if argc > n {
            underflow()
        } else {
            StepOutcome::Continue(VmState {
                out: s.out + print_text(s.heap, s.stack.subrange(n - argc, n as int)),
                ..drop_top(s, argc as int)
            })
        },
        OpCode::Return => if n == 0 {
            underflow()
        } else {
            let v = s.stack.last();
            let fb = s.frames.last().base;
            let keep = if fb < n - 1 { fb as int } else { n - 1 };
            let s2 = VmState { stack: s.stack.subrange(0, keep), frames: s.frames.drop_last(), ..s };
            if s2.frames.len() == 0 {
                StepOutcome::Done(s2)
            } else {
                StepOutcome::Continue(push(s2, v))
            }
        },
        _ => if is_binary(op) {
            if n < 2 {
                underflow()
            } else {
                match binary_result(binop_of(op), s.stack[n - 2], s.stack[n - 1]) {
                    Ok(v) => StepOutcome::Continue(push(drop_top(s, 2), v)),
                    Err(m) => StepOutcome::Fail(m, line),
                }
            }
        } else {
            internal(line)
        },
    }
}

/// One fetch-decode-execute step.
#[verifier::opaque]
pub open spec fn step_result(fs: Seq<FunView>, s: VmState) -> StepOutcome {
    let fr = s.frames.last();
    if s.frames.len() == 0 || fr.function >= fs.len() {
        internal(0)
    } else {
        let f = fs[fr.function as int];
        if fr.ip >= f.code.len() {
            StepOutcome::Fail(str_bytes("internal error: fell off the end of a chunk without Return"), 0)
        } else {
            let line = if fr.ip < f.lines.len() { f.lines[fr.ip as int] } else { 0u32 };
            op_result(fs, set_ip(s, (fr.ip + 1) as usize), f.code[fr.ip as int], line)
        }
    }
}

/// The outcome of running from `s` for at most `fuel` steps: success with
/// the final state, or a runtime error's message and line with the output
/// printed before it.
pub open spec fn run_result(fs: Seq<FunView>, s: VmState, fuel: nat) -> (Result<VmState, (Seq<u8>, u32)>, Seq<u8>)
    decreases fuel,
{
    if fuel == 0 {
        (Err((str_bytes("step limit exceeded"), 0u32)), s.out)
    } else {
        match step_result(fs, s) {
            StepOutcome::Continue(s2) => run_result(fs, s2, (fuel - 1) as nat),
            StepOutcome::Done(s2) => (Ok(s2), s2.out),
            StepOutcome::Fail(m, l) => (Err((m, l)), s.out),
        }
    }
}

/// The virtual machine: its function table (index 0 is the top-level
/// script), operand stack, call frames and heap.
pub struct Vm {
    pub functions: Vec<FunctionObj>,
    pub stack: Vec<Value>,
    pub frames: Vec<CallFrame>,
    pub heap: Heap,
}

/// What one executed step came to.
pub enum Stepped {
    Continue,
    Done,
    Fail(SfError),
}

impl Vm {
    /// The machine's state, with `out` as the output printed so far.
    pub open spec fn state(&self, out: Seq<u8>) -> VmState {
        VmState { stack: values_view(self.stack@), frames: self.frames@, heap: self.heap@, out }
    }

    pub open spec fn funs(&self) -> Seq<FunView> {
        funs_view(self.functions@)
    }

    /// A machine ready to run `functions[0]`, with an empty stack and heap.
    pub fn new(functions: Vec<FunctionObj>) -> (vm: Vm)
        ensures
            vm.functions@ == functions@,
            vm.stack@.len() == 0,
            vm.frames@.len() == 0,
            vm.heap@.len() == 0,
    {
        Vm { functions, stack: Vec::new(), frames: Vec::new(), heap: Heap::new() }
    }

    /// The number of values on the operand stack.
    pub fn stack_len(&self) -> (n: usize)
        ensures
            n == self.stack@.len(),
    {
        self.stack.len()
    }

    fn push(&mut self, v: Value)
        ensures
            final(self).stack@ == old(self).stack@.push(v),
            final(self).frames@ == old(self).frames@,
            final(self).heap@ == old(self).heap@,
            final(self).functions@ == old(self).functions@,
    {
        self.stack.push(v);
    }

    /// Removes and returns the top `c` values, bottom first.
    fn take_top(&mut self, c: usize) -> (vals: Vec<Value>)
        requires
            c <= old(self).stack@.len(),
        ensures
            vals@ == old(self).stack@.subrange(old(self).stack@.len() - c, old(self).stack@.len() as int),
            final(self).stack@ == old(self).stack@.subrange(0, old(self).stack@.len() - c),
            final(self).frames@ == old(self).frames@,
            final(self).heap@ == old(self).heap@,
            final(self).functions@ == old(self).functions@,
    {
        let at = self.stack.len() - c;
        self.stack.split_off(at)
    }
}

fn underflow_error() -> (e: SfError)
    ensures
        is_runtime_error(e, underflow_msg(), 0),
{
    let mut m: Vec<u8> = Vec::new();
    push_str(&mut m, "internal error: operand stack underflow");
    assert(m@ =~= underflow_msg());
    SfError::runtime(m, 0)
}

fn text_error(t: &str, line: u32) -> (e: SfError)
    ensures
        is_runtime_error(e, str_bytes(t), line),
{
    let mut m: Vec<u8> = Vec::new();
    push_str(&mut m, t);
    assert(m@ =~= str_bytes(t));
    SfError::runtime(m, line)
}

fn internal_error(line: u32) -> (e: SfError)
    ensures
        is_runtime_error(e, str_bytes("internal error: malformed bytecode"), line),
{
    text_error("internal error: malformed bytecode", line)
}

/// `r` with `p` put before its entries.
pub open spec fn prepend(p: Seq<(Seq<u8>, SVal)>, r: Result<Seq<(Seq<u8>, SVal)>, SVal>) -> Result<Seq<(Seq<u8>, SVal)>, SVal> {
    match r {
        Ok(rest) => Ok(p + rest),
        Err(b) => Err(b),
    }
}

proof fn lemma_map_pairs_step(sub: Seq<SVal>, ev: Seq<(Seq<u8>, SVal)>)
    requires
        sub.len() >= 2,
    ensures
        ({
            let key = sub[sub.len() - 2];
            let val = sub[sub.len() - 1];
            let sub2 = sub.subrange(0, sub.len() - 2);
            match key {
                SVal::Str(k) => prepend(ev, map_pairs(sub)) == prepend(ev.push((k, val)), map_pairs(sub2)),
                _ => prepend(ev, map_pairs(sub)) == Err::<Seq<(Seq<u8>, SVal)>, SVal>(key),
            }
        }),
{
    let key = sub[sub.len() - 2];
    let val = sub[sub.len() - 1];
    let sub2 = sub.subrange(0, sub.len() - 2);
    match key {
        SVal::Str(k) => {
            match map_pairs(sub2) {
                Ok(rest) => {
                    assert(ev + (seq![(k, val)] + rest) =~= ev.push((k, val)) + rest);
                },
                Err(_) => {},
            }
        },
        _ => {},
    }
}

/// The entries in the opposite order.
fn reverse_entries(v: Vec<(Vec<u8>, Value)>) -> (r: Vec<(Vec<u8>, Value)>)
    ensures
        crate::value::entries_view(r@) == flip(crate::value::entries_view(v@)),
{
    let ghost all = crate::value::entries_view(v@);
    let mut v = v;
    let mut r: Vec<(Vec<u8>, Value)> = Vec::new();
    while v.len() > 0
        invariant
            v@.len() <= all.len(),
            crate::value::entries_view(v@) == all.subrange(0, v@.len() as int),
            crate::value::entries_view(r@) == flip(all).subrange(0, all.len() - v@.len()),
        decreases v@.len(),
    {
        let ghost before = v@;
        let ghost rb = r@;
        let e = v.pop().unwrap();
        proof {
            assert(before[before.len() - 1] == e);
            assert(crate::value::entries_view(before)[before.len() - 1] == crate::value::entry_view(e));
            assert(all[v@.len() as int] == crate::value::entry_view(e));
            assert(v@ =~= before.subrange(0, v@.len() as int));
            assert(crate::value::entries_view(v@) =~= all.subrange(0, v@.len() as int));
        }
        r.push(e);
        proof {
            assert(r@ =~= rb.push(e));
            assert(crate::value::entries_view(r@) =~= crate::value::entries_view(rb).push(crate::value::entry_view(e)));
            let k = all.len() - v@.len();
            assert(flip(all)[k - 1] == all[v@.len() as int]);
            assert(crate::value::entries_view(r@) =~= flip(all).subrange(0, k));
        }
    }
    assert(flip(all).subrange(0, all.len() as int) =~= flip(all));
    r
}

/// Pops the top `c` key/value pairs, as `BuildMap(c)` does.
fn pop_pairs(stack: &mut Vec<Value>, c: usize) -> (r: Result<Vec<(Vec<u8>, Value)>, Value>)
    requires
        2 * c <= old(stack)@.len(),
    ensures
        ({
            let n = old(stack)@.len();
            let top = values_view(old(stack)@).subrange(n - 2 * c, n as int);
            match map_pairs(top) {
                Ok(p) => r is Ok && crate::value::entries_view(r->Ok_0@) == p
                    && final(stack)@ == old(stack)@.subrange(0, n - 2 * c),
                Err(b) => r is Err && r->Err_0@ == b,
            }
        }),
{
    let ghost n = stack@.len();
    let ghost top = values_view(stack@).subrange(n - 2 * c, n as int);
    let mut entries: Vec<(Vec<u8>, Value)> = Vec::new();
    let mut j: usize = 0;
    assert(top.subrange(0, 2 * c) =~= top);
    assert(stack@ =~= old(stack)@.subrange(0, n - 2 * j));
    while j < c
        invariant
            j <= c,
            2 * c <= n,
            n == old(stack)@.len(),
            top == values_view(old(stack)@).subrange(n - 2 * c, n as int),
            stack@ == old(stack)@.subrange(0, n - 2 * j),
            map_pairs(top) == prepend(crate::value::entries_view(entries@), map_pairs(top.subrange(0, 2 * (c - j)))),
        decreases c - j,
    {
        let ghost sub = top.subrange(0, 2 * (c - j));
        let ghost ev = crate::value::entries_view(entries@);
        let val = stack.pop().unwrap();
        let key = stack.pop().unwrap();
        proof {
            assert(sub[sub.len() - 1] == val@);
            assert(sub[sub.len() - 2] == key@);
            assert(sub.subrange(0, sub.len() - 2) =~= top.subrange(0, 2 * (c - j - 1)));
            assert(stack@ =~= old(stack)@.subrange(0, n - 2 * (j + 1)));
            lemma_map_pairs_step(sub, ev);
        }
        match key {
            Value::Str(k) => {
                entries.push((k, val));
                assert(crate::value::entries_view(entries@) =~= ev.push((key@->Str_0, val@)));
            },
            _ => {
                return Err(key);
            },
        }
        j = j + 1;
    }
    proof {
        assert(top.subrange(0, 0) =~= Seq::<SVal>::empty());
        assert(map_pairs(Seq::<SVal>::empty()) == Ok::<Seq<(Seq<u8>, SVal)>, SVal>(Seq::empty()));
        assert(crate::value::entries_view(entries@) + Seq::<(Seq<u8>, SVal)>::empty() =~= crate::value::entries_view(entries@));
    }
    Ok(entries)
}

/// The executed step `r`, leaving `after`, is what `spec` describes; a
/// failing step prints nothing.
pub open spec fn stepped_as(r: Stepped, after: VmState, spec: StepOutcome, out_before: Seq<u8>) -> bool {
    match spec {
        StepOutcome::Continue(s2) => r is Continue && after == s2,
        StepOutcome::Done(s2) => r is Done && after == s2,
        StepOutcome::Fail(m, l) => r is Fail && is_runtime_error(r->Fail_0, m, l) && after.out == out_before,
    }
}

/// Appends `print_text` of `vals[start..]`.
pub(crate) fn print_from(heap: &Heap, vals: &Vec<Value>, start: usize, out: &mut Vec<u8>)
    requires
        start <= vals@.len(),
    ensures
        final(out)@ == old(out)@ + print_text(heap@, values_view(vals@).skip(start as int)),
    decreases vals@.len() - start,
{
    let ghost rest = values_view(vals@).skip(start as int);
    if start == vals.len() {
        out.push(10u8);
        assert(out@ =~= old(out)@ + print_text(heap@, rest));
        return;
    }
    assert(rest[0] == vals@[start as int]@);
    heap.display(&vals[start], out);
    if start + 1 < vals.len() {
        out.push(32u8);
        assert(rest.drop_first() =~= values_view(vals@).skip(start + 1));
        print_from(heap, vals, start + 1, out);
    } else {
        out.push(10u8);
    }
    assert(out@ =~= old(out)@ + print_text(heap@, rest));
}

impl Vm {
    /// The instructions that touch only the stack and the current frame.
    #[verifier::rlimit(100)]
    fn exec_simple(&mut self, op: OpCode, line: u32, out: &mut Vec<u8>) -> (r: Stepped)
        requires
            old(self).frames@.len() > 0,
            old(self).frames@.last().function < old(self).functions@.len(),
            op is PushConst || op is PushNil || op is PushTrue || op is PushFalse || op is Pop
                || op is Neg || op is Not || op is GetLocal || op is SetLocal || op is Jump
                || op is JumpIfFalse || op is JumpIfFalsePeek || op is JumpIfTruePeek,
        ensures
            final(self).functions@ == old(self).functions@,
            stepped_as(r, final(self).state(final(out)@), op_result(old(self).funs(), old(self).state(old(out)@), op, line), old(out)@),
    {
        let ghost s0 = self.state(out@);
        let fi = self.frames.len() - 1;
        let base = self.frames[fi].base;
        let func = self.frames[fi].function;
        let n = self.stack.len();
        proof {
            assert(self.funs()[func as int] == fun_view(self.functions@[func as int]));
        }
        match op {
            OpCode::PushConst(i) => {
                if i < self.functions[func].chunk.constants.len() {
                    let v = self.functions[func].chunk.constants[i].copy();
                    self.push(v);
                    assert(self.state(out@) =~= push(s0, v@));
                    Stepped::Continue
                } else {
                    Stepped::Fail(internal_error(line))
                }
            },
            OpCode::PushNil => {
                self.push(Value::Nil);
                assert(self.state(out@) =~= push(s0, SVal::Nil));
                Stepped::Continue
            },
            OpCode::PushTrue => {
                self.push(Value::Bool(true));
                assert(self.state(out@) =~= push(s0, SVal::Bool(true)));
                Stepped::Continue
            },
            OpCode::PushFalse => {
                self.push(Value::Bool(false));
                assert(self.state(out@) =~= push(s0, SVal::Bool(false)));
                Stepped::Continue
            },
            OpCode::Pop => {
                if n == 0 {
                    return Stepped::Fail(underflow_error());
                }
                self.stack.pop();
                assert(self.state(out@) =~= drop_top(s0, 1));
                Stepped::Continue
            },
            OpCode::Neg => {
                if n == 0 {
                    return Stepped::Fail(underflow_error());
                }
                let v = self.stack.pop().unwrap();
                assert(v@ == s0.stack.last());
                match v {
                    Value::Number(x) => {
                        if x >= -MAX_SAFE && x <= MAX_SAFE {
                            self.push(Value::Number(-x));
                            assert(self.state(out@) =~= push(drop_top(s0, 1), SVal::Num(-(x as int))));
                            Stepped::Continue
                        } else {
                            Stepped::Fail(text_error("number out of range", line))
                        }
                    },
                    _ => {
                        let mut m: Vec<u8> = Vec::new();
                        push_str(&mut m, "expected a number, got ");
                        push_str(&mut m, v.kind_name());
                        assert(m@ =~= neg_msg(v@));
                        Stepped::Fail(SfError::runtime(m, line))
                    },
                }
            },
            OpCode::Not => {
                if n == 0 {
                    return Stepped::Fail(underflow_error());
                }
                let v = self.stack.pop().unwrap();
                let b = v.is_truthy();
                self.push(Value::Bool(!b));
                assert(self.state(out@) =~= push(drop_top(s0, 1), SVal::Bool(!truthy(s0.stack.last()))));
                Stepped::Continue
            },
            OpCode::GetLocal(slot) => {
                if base < n && slot < n - base {
                    let v = self.stack[base + slot].copy();
                    self.push(v);
                    assert(self.state(out@) =~= push(s0, s0.stack[base + slot]));
                    Stepped::Continue
                } else {
                    Stepped::Fail(internal_error(line))
                }
            },
            OpCode::SetLocal(slot) => {
                if n == 0 {
                    return Stepped::Fail(underflow_error());
                }
                if base < n && slot < n - base {
                    let v = self.stack[n - 1].copy();
                    self.stack.set(base + slot, v);
                    assert(self.state(out@) =~= VmState { stack: s0.stack.update(base + slot, s0.stack.last()), ..s0 });
                    Stepped::Continue
                } else {
                    Stepped::Fail(internal_error(line))
                }
            },
            OpCode::Jump(t) => {
                self.set_ip(t);
                assert(self.state(out@) =~= set_ip(s0, t));
                Stepped::Continue
            },
            OpCode::JumpIfFalse(t) => {
                if n == 0 {
                    return Stepped::Fail(underflow_error());
                }
                let v = self.stack.pop().unwrap();
                if !v.is_truthy() {
                    self.set_ip(t);
                    assert(self.state(out@) =~= set_ip(drop_top(s0, 1), t));
                } else {
                    assert(self.state(out@) =~= drop_top(s0, 1));
                }
                Stepped::Continue
            },
            OpCode::JumpIfFalsePeek(t) => {
                let truthy_top = n > 0 && self.stack[n - 1].is_truthy();
                if !truthy_top {
                    self.set_ip(t);
                    assert(self.state(out@) =~= set_ip(s0, t));
                }
                Stepped::Continue
            },
            OpCode::JumpIfTruePeek(t) => {
                let truthy_top = n > 0 && self.stack[n - 1].is_truthy();
                if truthy_top {
                    self.set_ip(t);
                    assert(self.state(out@) =~= set_ip(s0, t));
                }
                Stepped::Continue
            },
            _ => Stepped::Continue,
        }
    }

    /// Points the current frame at instruction `ip`.
    fn set_ip(&mut self, ip: usize)
        requires
            old(self).frames@.len() > 0,
        ensures
            final(self).state(Seq::empty()).frames == set_ip(old(self).state(Seq::empty()), ip).frames,
            final(self).stack@ == old(self).stack@,
            final(self).heap@ == old(self).heap@,
            final(self).functions@ == old(self).functions@,
    {
        let fi = self.frames.len() - 1;
        let f = self.frames[fi];
        self.frames.set(fi, CallFrame { ip, ..f });
        assert(self.frames@ =~= set_ip(old(self).state(Seq::empty()), ip).frames);
    }
}

impl Vm {
    /// The binary operators.
    fn exec_binary(&mut self, op: OpCode, line: u32, out: &mut Vec<u8>) -> (r: Stepped)
        requires
            old(self).frames@.len() > 0,
            old(self).frames@.last().function < old(self).functions@.len(),
            is_binary(op),
        ensures
            final(self).functions@ == old(self).functions@,
            stepped_as(r, final(self).state(final(out)@), op_result(old(self).funs(), old(self).state(old(out)@), op, line), old(out)@),
    {
        let ghost s0 = self.state(out@);
        let n = self.stack.len();
        if n < 2 {
            return Stepped::Fail(underflow_error());
        }
        let bop = match op {
            OpCode::Add => BinOp::Add,
            OpCode::Sub => BinOp::Sub,
            OpCode::Mul => BinOp::Mul,
            OpCode::Div => BinOp::Div,
            OpCode::Mod => BinOp::Mod,
            OpCode::Eq => BinOp::Eq,
            OpCode::NotEq => BinOp::NotEq,
            OpCode::Lt => BinOp::Lt,
            OpCode::LtEq => BinOp::LtEq,
            OpCode::Gt => BinOp::Gt,
            _ => BinOp::GtEq,
        };
        assert(bop == binop_of(op));
        let r = self.stack.pop().unwrap();
        let l = self.stack.pop().unwrap();
        assert(l@ == s0.stack[n - 2] && r@ == s0.stack[n - 1]);
        match eval_binary(bop, &l, &r, line) {
            Ok(v) => {
                self.push(v);
                assert(self.state(out@) =~= push(drop_top(s0, 2), v@));
                Stepped::Continue
            },
            Err(e) => Stepped::Fail(e),
        }
    }

    /// `BuildArray`.
    fn exec_build_array(&mut self, op: OpCode, line: u32, out: &mut Vec<u8>) -> (r: Stepped)
        requires
            old(self).frames@.len() > 0,
            old(self).frames@.last().function < old(self).functions@.len(),
            op is BuildArray,
        ensures
            final(self).functions@ == old(self).functions@,
            stepped_as(r, final(self).state(final(out)@), op_result(old(self).funs(), old(self).state(old(out)@), op, line), old(out)@),
    {
        let ghost s0 = self.state(out@);
        let n = self.stack.len();
        match op {
            OpCode::BuildArray(c) => {
                if c > n {
                    return Stepped::Fail(underflow_error());
                }
                let items = self.take_top(c);
                assert(values_view(items@) =~= s0.stack.subrange(n - c, n as int));
                let v = self.heap.alloc_array(items);
                self.push(v);
                assert(self.state(out@) =~= push(
                    VmState { heap: s0.heap.push(SObj::Arr(s0.stack.subrange(n - c, n as int))), ..drop_top(s0, c as int) },
                    SVal::Arr(s0.heap.len()),
                ));
                Stepped::Continue
            },
            _ => Stepped::Continue,
        }
    }

    /// `BuildMap`.
    fn exec_build_map(&mut self, op: OpCode, line: u32, out: &mut Vec<u8>) -> (r: Stepped)
        requires
            old(self).frames@.len() > 0,
            old(self).frames@.last().function < old(self).functions@.len(),
            op is BuildMap,
        ensures
            final(self).functions@ == old(self).functions@,
            stepped_as(r, final(self).state(final(out)@), op_result(old(self).funs(), old(self).state(old(out)@), op, line), old(out)@),
    {
        let ghost s0 = self.state(out@);
        let n = self.stack.len();
        match op {
            OpCode::BuildMap(c) => {
                if c > n / 2 {
                    return Stepped::Fail(underflow_error());
                }
                let ghost top = s0.stack.subrange(n - 2 * c, n as int);
                let entries = match pop_pairs(&mut self.stack, c) {
                    Ok(es) => es,
                    Err(key) => {
                        let mut m: Vec<u8> = Vec::new();
                        push_str(&mut m, "internal error: map key compiled to a ");
                        push_str(&mut m, key.kind_name());
                        assert(m@ =~= bad_key_msg(key@));
                        return Stepped::Fail(SfError::runtime(m, line));
                    },
                };
                let entries = reverse_entries(entries);
                let v = self.heap.alloc_dict(entries);
                self.push(v);
                assert(self.state(out@) =~= push(
                    VmState { heap: s0.heap.push(SObj::Dict(dict_from(flip(map_pairs(top)->Ok_0)))), ..drop_top(s0, 2 * c) },
                    SVal::Dict(s0.heap.len()),
                ));
                Stepped::Continue
            },
            _ => Stepped::Continue,
        }
    }
}

impl Vm {
    /// `IndexGet`.
    fn exec_index_get(&mut self, op: OpCode, line: u32, out: &mut Vec<u8>) -> (r: Stepped)
        requires
            old(self).frames@.len() > 0,
            old(self).frames@.last().function < old(self).functions@.len(),
            op is IndexGet,
        ensures
            final(self).functions@ == old(self).functions@,
            stepped_as(r, final(self).state(final(out)@), op_result(old(self).funs(), old(self).state(old(out)@), op, line), old(out)@),
    {
        let ghost s0 = self.state(out@);
        let n = self.stack.len();
        match op {
            OpCode::IndexGet => {
                if n < 2 {
                    return Stepped::Fail(underflow_error());
                }
                let idx = self.stack.pop().unwrap();
                let base = self.stack.pop().unwrap();
                assert(base@ == s0.stack[n - 2] && idx@ == s0.stack[n - 1]);
                match index_get(&self.heap, &base, &idx, line) {
                    Ok(v) => {
                        self.push(v);
                        assert(self.state(out@) =~= push(drop_top(s0, 2), v@));
                        Stepped::Continue
                    },
                    Err(e) => Stepped::Fail(e),
                }
            },
            _ => Stepped::Continue,
        }
    }

    /// `IndexSet`.
    fn exec_index_set(&mut self, op: OpCode, line: u32, out: &mut Vec<u8>) -> (r: Stepped)
        requires
            old(self).frames@.len() > 0,
            old(self).frames@.last().function < old(self).functions@.len(),
            op is IndexSet,
        ensures
            final(self).functions@ == old(self).functions@,
            stepped_as(r, final(self).state(final(out)@), op_result(old(self).funs(), old(self).state(old(out)@), op, line), old(out)@),
    {
        let ghost s0 = self.state(out@);
        let n = self.stack.len();
                if n < 3 {
                return Stepped::Fail(underflow_error());
            }
            let value = self.stack.pop().unwrap();
            let idx = self.stack.pop().unwrap();
            let base = self.stack.pop().unwrap();
            assert(base@ == s0.stack[n - 3] && idx@ == s0.stack[n - 2] && value@ == s0.stack[n - 1]);
            let kept = value.copy();
            match index_set(&mut self.heap, &base, &idx, value, line) {
                Ok(()) => {
                    self.push(kept);
                    assert(self.state(out@) =~= push(VmState { heap: self.heap@, ..drop_top(s0, 3) }, s0.stack[n - 1]));
                    Stepped::Continue
                },
                Err(e) => Stepped::Fail(e),
            }
    }

    /// `Call`: pushes a frame whose locals start at the arguments.
    fn exec_call(&mut self, op: OpCode, line: u32, out: &mut Vec<u8>) -> (r: Stepped)
        requires
            old(self).frames@.len() > 0,
            old(self).frames@.last().function < old(self).functions@.len(),
            op is Call,
        ensures
            final(self).functions@ == old(self).functions@,
            stepped_as(r, final(self).state(final(out)@), op_result(old(self).funs(), old(self).state(old(out)@), op, line), old(out)@),
    {
        let ghost s0 = self.state(out@);
        let n = self.stack.len();
        match op {
            OpCode::Call(fidx, argc) => {
                if fidx >= self.functions.len() {
                    return Stepped::Fail(internal_error(line));
                }
                proof {
                    assert(self.funs()[fidx as int] == fun_view(self.functions@[fidx as int]));
                }
                let arity = self.functions[fidx].arity;
                if arity != argc as usize {
                    let mut m: Vec<u8> = Vec::new();
                    push_str(&mut m, "function '");
                    push_bytes(&mut m, self.functions[fidx].name.as_slice());
                    push_str(&mut m, "' expects ");
                    push_digits(&mut m, arity as u64);
                    push_str(&mut m, " argument(s), got ");
                    push_digits(&mut m, argc as u64);
                    assert(m@ =~= arity_mismatch_msg(self.funs()[fidx as int].name, arity as nat, argc as nat));
                    return Stepped::Fail(SfError::runtime(m, line));
                }
                if argc as usize > n {
                    return Stepped::Fail(underflow_error());
                }
                self.frames.push(CallFrame { function: fidx, ip: 0, base: n - argc as usize });
                assert(self.state(out@) =~= VmState {
                    frames: s0.frames.push(CallFrame { function: fidx, ip: 0, base: (n - argc) as usize }),
                    ..s0
                });
                Stepped::Continue
            },
            _ => Stepped::Continue,
        }
    }

    /// `CallBuiltin`.
    fn exec_builtin(&mut self, op: OpCode, line: u32, out: &mut Vec<u8>) -> (r: Stepped)
        requires
            old(self).frames@.len() > 0,
            old(self).frames@.last().function < old(self).functions@.len(),
            op is CallBuiltin,
        ensures
            final(self).functions@ == old(self).functions@,
            stepped_as(r, final(self).state(final(out)@), op_result(old(self).funs(), old(self).state(old(out)@), op, line), old(out)@),
    {
        let ghost s0 = self.state(out@);
        let n = self.stack.len();
        match op {
            OpCode::CallBuiltin(id, argc) => {
                if argc as usize > n {
                    return Stepped::Fail(underflow_error());
                }
                if id >= 4 {
                    return Stepped::Fail(internal_error(line));
                }
                let args = self.take_top(argc as usize);
                assert(values_view(args@) =~= s0.stack.subrange(n - argc, n as int));
                match call_builtin_id(id, &args, line, &mut self.heap) {
                    Ok(v) => {
                        self.push(v);
                        assert(self.state(out@) =~= push(VmState { heap: self.heap@, ..drop_top(s0, argc as int) }, v@));
                        Stepped::Continue
                    },
                    Err(e) => Stepped::Fail(e),
                }
            },
            _ => Stepped::Continue,
        }
    }

    /// `Print`.
    fn exec_print(&mut self, op: OpCode, line: u32, out: &mut Vec<u8>) -> (r: Stepped)
        requires
            old(self).frames@.len() > 0,
            old(self).frames@.last().function < old(self).functions@.len(),
            op is Print,
        ensures
            final(self).functions@ == old(self).functions@,
            stepped_as(r, final(self).state(final(out)@), op_result(old(self).funs(), old(self).state(old(out)@), op, line), old(out)@),
    {
        let ghost s0 = self.state(out@);
        let n = self.stack.len();
        match op {
            OpCode::Print(argc) => {
                if argc as usize > n {
                    return Stepped::Fail(underflow_error());
                }
                let vals = self.take_top(argc as usize);
                assert(values_view(vals@) =~= s0.stack.subrange(n - argc, n as int));
                assert(values_view(vals@).skip(0) =~= values_view(vals@));
                print_from(&self.heap, &vals, 0, out);
                assert(self.state(out@) =~= VmState {
                    out: s0.out + print_text(s0.heap, s0.stack.subrange(n - argc, n as int)),
                    ..drop_top(s0, argc as int)
                });
                Stepped::Continue
            },
            _ => Stepped::Continue,
        }
    }

    /// `Return`: pops the frame, drops its locals, and hands the value to
    /// the caller; returning from the outermost frame ends the run.
    fn exec_return(&mut self, op: OpCode, line: u32, out: &mut Vec<u8>) -> (r: Stepped)
        requires
            old(self).frames@.len() > 0,
            old(self).frames@.last().function < old(self).functions@.len(),
            op is Return,
        ensures
            final(self).functions@ == old(self).functions@,
            stepped_as(r, final(self).state(final(out)@), op_result(old(self).funs(), old(self).state(old(out)@), op, line), old(out)@),
    {
        let ghost s0 = self.state(out@);
        let n = self.stack.len();
        if n == 0 {
            return Stepped::Fail(underflow_error());
        }
        let value = self.stack.pop().unwrap();
        let frame = self.frames.pop().unwrap();
        self.stack.truncate(frame.base);
        let ghost keep = if frame.base < n - 1 { frame.base as int } else { n - 1 };
        assert(values_view(self.stack@) =~= s0.stack.subrange(0, keep));
        if self.frames.len() == 0 {
            assert(self.state(out@) =~= VmState { stack: s0.stack.subrange(0, keep), frames: s0.frames.drop_last(), ..s0 });
            return Stepped::Done;
        }
        self.push(value);
        assert(self.state(out@) =~= push(VmState { stack: s0.stack.subrange(0, keep), frames: s0.frames.drop_last(), ..s0 }, s0.stack.last()));
        Stepped::Continue
    }
}

/// The machine a run starts from: `run` pushes a frame for `functions[0]`.
/// The state a fresh machine starts a program in: the script's frame, an
/// empty stack and heap, and `out` printed so far.
pub open spec fn initial_state(out: Seq<u8>) -> VmState {
    VmState { stack: Seq::empty(), frames: seq![CallFrame { function: 0, ip: 0, base: 0 }], heap: Seq::empty(), out }
}

pub open spec fn start_state(vm: Vm, out: Seq<u8>) -> VmState {
    VmState { frames: vm.frames@.push(CallFrame { function: 0, ip: 0, base: 0 }), ..vm.state(out) }
}

/// The run came to the outcome `spec` describes: on success `after` is the
/// final state; either way `out` is the output printed.
pub open spec fn ran_as(
    r: Result<(), SfError>,
    after: VmState,
    out: Seq<u8>,
    spec: (Result<VmState, (Seq<u8>, u32)>, Seq<u8>),
) -> bool {
    &&& out == spec.1
    &&& match spec.0 {
        Ok(s) => r is Ok && after == s,
        Err((m, l)) => r is Err && is_runtime_error(r->Err_0, m, l),
    }
}

/// The bottom frame starts at stack slot 0.
/// One step of the machine only appends to the output.
proof fn lemma_step_appends(fs: Seq<FunView>, s: VmState)
    ensures
        step_result(fs, s) matches StepOutcome::Continue(s2) ==> extends(s.out, s2.out),
        step_result(fs, s) matches StepOutcome::Done(s2) ==> extends(s.out, s2.out),
{
    reveal(step_result);
    lemma_extends_refl(s.out);
    let fr = s.frames.last();
    if s.frames.len() > 0 && fr.function < fs.len() && fr.ip < fs[fr.function as int].code.len() {
        let s1 = set_ip(s, (fr.ip + 1) as usize);
        if let OpCode::Print(argc) = fs[fr.function as int].code[fr.ip as int] {
            let n = s1.stack.len();
            lemma_extends_append(s.out, print_text(s1.heap, s1.stack.subrange(n - argc, n as int)));
        }
    }
}

/// A run of the machine only appends to the output: what it prints, also
/// when it fails, follows what was printed before it started.
pub proof fn lemma_run_appends(fs: Seq<FunView>, s: VmState, fuel: nat)
    ensures
        extends(s.out, run_result(fs, s, fuel).1),
    decreases fuel,
{
    lemma_extends_refl(s.out);
    if fuel > 0 {
        lemma_step_appends(fs, s);
        if let StepOutcome::Continue(s2) = step_result(fs, s) {
            lemma_run_appends(fs, s2, (fuel - 1) as nat);
            lemma_extends_trans(s.out, s2.out, run_result(fs, s2, (fuel - 1) as nat).1);
        }
    }
}

/// Every value on the stack is well formed in `h`.
pub open spec fn stack_ok(h: Seq<SObj>, st: Seq<SVal>) -> bool {
    forall|j: int| 0 <= j < st.len() ==> val_ok(h, #[trigger] st[j])
}

/// Every reference of the machine, in its heap and on its stack, names an
/// object of its kind.
pub open spec fn vm_state_ok(s: VmState) -> bool {
    heap_ok(s.heap) && stack_ok(s.heap, s.stack)
}

/// No constant of the function table is a reference.
pub open spec fn consts_plain(fs: Seq<FunView>) -> bool {
    forall|f: int, k: int| 0 <= f < fs.len() && 0 <= k < fs[f].consts.len()
        ==> !(#[trigger] fs[f].consts[k] is Arr) && !(fs[f].consts[k] is Dict)
}

proof fn lemma_stack_ok_sub(h: Seq<SObj>, st: Seq<SVal>, a: int, b: int)
    requires
        stack_ok(h, st),
        0 <= a <= b <= st.len(),
    ensures
        stack_ok(h, st.subrange(a, b)),
{
    assert forall|j: int| 0 <= j < b - a implies val_ok(h, #[trigger] st.subrange(a, b)[j]) by {
        assert(st.subrange(a, b)[j] == st[a + j]);
    }
}

proof fn lemma_stack_ok_push(h: Seq<SObj>, st: Seq<SVal>, v: SVal)
    requires
        stack_ok(h, st),
        val_ok(h, v),
    ensures
        stack_ok(h, st.push(v)),
{
    assert forall|j: int| 0 <= j < st.len() + 1 implies val_ok(h, #[trigger] st.push(v)[j]) by {
        if j < st.len() {
            assert(st.push(v)[j] == st[j]);
        }
    }
}

proof fn lemma_stack_ok_kept(h: Seq<SObj>, h2: Seq<SObj>, st: Seq<SVal>)
    requires
        stack_ok(h, st),
        kinds_kept(h, h2),
    ensures
        stack_ok(h2, st),
{
    assert forall|j: int| 0 <= j < st.len() implies val_ok(h2, #[trigger] st[j]) by {
        lemma_kinds_kept_val_ok(h, h2, st[j]);
    }
}

proof fn lemma_map_pairs_ok(h: Seq<SObj>, top: Seq<SVal>)
    requires
        stack_ok(h, top),
    ensures
        map_pairs(top) matches Ok(pairs) ==> entries_ok(h, pairs),
    decreases top.len(),
{
    if top.len() >= 2 {
        let rest = top.subrange(0, top.len() - 2);
        lemma_stack_ok_sub(h, top, 0, top.len() - 2);
        lemma_map_pairs_ok(h, rest);
        if let Ok(pairs) = map_pairs(top) {
            let val = top[top.len() - 1];
            assert(val_ok(h, val));
            let r = map_pairs(rest)->Ok_0;
            assert forall|j: int| 0 <= j < pairs.len() implies val_ok(h, #[trigger] pairs[j].1) by {
                if j > 0 {
                    assert(pairs[j] == r[j - 1]);
                }
            }
        }
    }
}

/// One step of the machine keeps every reference well formed, and every
/// object of the same kind.
#[verifier::rlimit(60)]
proof fn lemma_step_keeps_ok(fs: Seq<FunView>, s: VmState)
    requires
        vm_state_ok(s),
        consts_plain(fs),
    ensures
        step_result(fs, s) matches StepOutcome::Continue(s2) ==> vm_state_ok(s2) && kinds_kept(s.heap, s2.heap),
        step_result(fs, s) matches StepOutcome::Done(s2) ==> vm_state_ok(s2) && kinds_kept(s.heap, s2.heap),
{
    reveal(step_result);
    lemma_kinds_kept_refl(s.heap);
    let fr = s.frames.last();
    if s.frames.len() > 0 && fr.function < fs.len() && fr.ip < fs[fr.function as int].code.len() {
        let s1 = set_ip(s, (fr.ip + 1) as usize);
        let f = fs[fr.function as int];
        let op = f.code[fr.ip as int];
        let n = s.stack.len();
        let base = s.frames.last().base;
        lemma_stack_ok_sub(s.heap, s.stack, 0, n as int);
        match op {
            OpCode::PushConst(i) => {
                if i < f.consts.len() {
                    assert(!(fs[fr.function as int].consts[i as int] is Arr));
                    lemma_stack_ok_push(s.heap, s.stack, f.consts[i as int]);
                }
            },
            OpCode::PushNil => lemma_stack_ok_push(s.heap, s.stack, SVal::Nil),
            OpCode::PushTrue => lemma_stack_ok_push(s.heap, s.stack, SVal::Bool(true)),
            OpCode::PushFalse => lemma_stack_ok_push(s.heap, s.stack, SVal::Bool(false)),
            OpCode::Pop => if n > 0 {
                lemma_stack_ok_sub(s.heap, s.stack, 0, n - 1);
            },
            OpCode::Neg => if n > 0 {
                lemma_stack_ok_sub(s.heap, s.stack, 0, n - 1);
                if let SVal::Num(x) = s.stack.last() {
                    if let Ok(v) = number_result(-x) {
                        lemma_stack_ok_push(s.heap, s.stack.subrange(0, n - 1), v);
                    }
                }
            },
            OpCode::Not => if n > 0 {
                lemma_stack_ok_sub(s.heap, s.stack, 0, n - 1);
                lemma_stack_ok_push(s.heap, s.stack.subrange(0, n - 1), SVal::Bool(!truthy(s.stack.last())));
            },
            OpCode::GetLocal(slot) => if base + slot < n {
                lemma_stack_ok_push(s.heap, s.stack, s.stack[base + slot]);
            },
            OpCode::SetLocal(slot) => if n > 0 && base + slot < n {
                let st2 = s.stack.update(base + slot, s.stack.last());
                assert forall|j: int| 0 <= j < st2.len() implies val_ok(s.heap, #[trigger] st2[j]) by {
                    assert(val_ok(s.heap, s.stack[j]));
                    assert(val_ok(s.heap, s.stack[n - 1]));
                }
            },
            OpCode::JumpIfFalse(_) => if n > 0 {
                lemma_stack_ok_sub(s.heap, s.stack, 0, n - 1);
            },
            OpCode::BuildArray(c) => if c <= n {
                let items = s.stack.subrange(n - c, n as int);
                lemma_stack_ok_sub(s.heap, s.stack, n - c, n as int);
                lemma_stack_ok_sub(s.heap, s.stack, 0, n - c);
                assert(obj_ok(s.heap, SObj::Arr(items)));
                lemma_alloc_keeps_heap_ok(s.heap, SObj::Arr(items));
                let h2 = s.heap.push(SObj::Arr(items));
                lemma_stack_ok_kept(s.heap, h2, s.stack.subrange(0, n - c));
                lemma_stack_ok_push(h2, s.stack.subrange(0, n - c), SVal::Arr(s.heap.len()));
            },
            OpCode::BuildMap(c) => if 2 * c <= n {
                let top = s.stack.subrange(n - 2 * c, n as int);
                lemma_stack_ok_sub(s.heap, s.stack, n - 2 * c, n as int);
                lemma_stack_ok_sub(s.heap, s.stack, 0, n - 2 * c);
                lemma_map_pairs_ok(s.heap, top);
                if let Ok(pairs) = map_pairs(top) {
                    assert(crate::heap::entries_ok(s.heap, flip(pairs))) by {
                        assert forall|j: int| 0 <= j < flip(pairs).len() implies val_ok(s.heap, #[trigger] flip(pairs)[j].1) by {
                            assert(flip(pairs)[j] == pairs[pairs.len() - 1 - j]);
                        }
                    }
                    lemma_dict_from_ok(s.heap, flip(pairs));
                    let o = SObj::Dict(dict_from(flip(pairs)));
                    assert(obj_ok(s.heap, o));
                    lemma_alloc_keeps_heap_ok(s.heap, o);
                    let h2 = s.heap.push(o);
                    lemma_stack_ok_kept(s.heap, h2, s.stack.subrange(0, n - 2 * c));
                    lemma_stack_ok_push(h2, s.stack.subrange(0, n - 2 * c), SVal::Dict(s.heap.len()));
                }
            },
            OpCode::IndexGet => if n >= 2 {
                lemma_stack_ok_sub(s.heap, s.stack, 0, n - 2);
                assert(val_ok(s.heap, s.stack[n - 2]));
                lemma_index_get_ok(s.heap, s.stack[n - 2], s.stack[n - 1]);
                if let Ok(v) = index_get_result(s.heap, s.stack[n - 2], s.stack[n - 1]) {
                    lemma_stack_ok_push(s.heap, s.stack.subrange(0, n - 2), v);
                }
            },
            OpCode::IndexSet => if n >= 3 {
                let v = s.stack[n - 1];
                assert(val_ok(s.heap, v));
                lemma_stack_ok_sub(s.heap, s.stack, 0, n - 3);
                if index_set_result(s.heap, s.stack[n - 3], s.stack[n - 2], v) is Ok {
                    let h = index_set_result(s.heap, s.stack[n - 3], s.stack[n - 2], v)->Ok_0;
                    lemma_index_set_keeps_heap_ok(s.heap, s.stack[n - 3], s.stack[n - 2], v);
                    lemma_stack_ok_kept(s.heap, h, s.stack.subrange(0, n - 3));
                    lemma_kinds_kept_val_ok(s.heap, h, v);
                    lemma_stack_ok_push(h, s.stack.subrange(0, n - 3), v);
                }
            },
            OpCode::CallBuiltin(id, argc) => if argc <= n && id < 4 {
                let args = s.stack.subrange(n - argc, n as int);
                lemma_stack_ok_sub(s.heap, s.stack, n - argc, n as int);
                lemma_stack_ok_sub(s.heap, s.stack, 0, n - argc);
                if builtin_result(id as int, args, s.heap) is Ok {
                    lemma_builtin_keeps_heap_ok(id as int, args, s.heap);
                    let (v, h) = builtin_result(id as int, args, s.heap)->Ok_0;
                    lemma_stack_ok_kept(s.heap, h, s.stack.subrange(0, n - argc));
                    lemma_stack_ok_push(h, s.stack.subrange(0, n - argc), v);
                }
            },
            OpCode::Print(argc) => if argc <= n {
                lemma_stack_ok_sub(s.heap, s.stack, 0, n - argc);
            },
            OpCode::Return => if n > 0 {
                let fb = s.frames.last().base;
                let keep = if fb < n - 1 { fb as int } else { n - 1 };
                lemma_stack_ok_sub(s.heap, s.stack, 0, keep);
                lemma_stack_ok_push(s.heap, s.stack.subrange(0, keep), s.stack.last());
            },
            _ => if is_binary(op) && n >= 2 {
                lemma_stack_ok_sub(s.heap, s.stack, 0, n - 2);
                if let Ok(v) = binary_result(binop_of(op), s.stack[n - 2], s.stack[n - 1]) {
                    lemma_stack_ok_push(s.heap, s.stack.subrange(0, n - 2), v);
                }
            },
        }
    }
}

/// Running the machine on a table whose constants hold no references keeps
/// every reference well formed: when the script returns, its heap and stack
/// are well formed.
pub proof fn lemma_run_keeps_ok(fs: Seq<FunView>, s: VmState, fuel: nat)
    requires
        vm_state_ok(s),
        consts_plain(fs),
    ensures
        run_result(fs, s, fuel).0 matches Ok(s2) ==> vm_state_ok(s2),
    decreases fuel,
{
    if fuel > 0 {
        lemma_step_keeps_ok(fs, s);
        if let StepOutcome::Continue(s2) = step_result(fs, s) {
            lemma_run_keeps_ok(fs, s2, (fuel - 1) as nat);
        }
    }
}

pub open spec fn bottom_frame_at_zero(s: VmState) -> bool {
    s.frames.len() >= 1 && s.frames[0].base == 0
}

proof fn lemma_step_keeps_bottom(fs: Seq<FunView>, s: VmState)
    requires
        bottom_frame_at_zero(s),
    ensures
        step_result(fs, s) matches StepOutcome::Continue(s2) ==> bottom_frame_at_zero(s2),
        step_result(fs, s) matches StepOutcome::Done(s2) ==> s2.stack.len() == 0,
{
    reveal(step_result);
    let fr = s.frames.last();
    if fr.function < fs.len() && fr.ip < fs[fr.function as int].code.len() {
        let s1 = set_ip(s, (fr.ip + 1) as usize);
        assert(bottom_frame_at_zero(s1));
        assert(s1.frames.len() == s.frames.len());
    }
}

/// A run from a machine whose bottom frame starts at slot 0 that succeeds
/// leaves the operand stack empty.
pub proof fn lemma_run_leaves_stack_empty(fs: Seq<FunView>, s: VmState, fuel: nat)
    requires
        bottom_frame_at_zero(s),
    ensures
        run_result(fs, s, fuel).0 matches Ok(s2) ==> s2.stack.len() == 0,
    decreases fuel,
{
    if fuel > 0 {
        lemma_step_keeps_bottom(fs, s);
        match step_result(fs, s) {
            StepOutcome::Continue(s2) => lemma_run_leaves_stack_empty(fs, s2, (fuel - 1) as nat),
            _ => {},
        }
    }
}

impl Vm {
    /// Executes one instruction of the current frame.
    fn step(&mut self, out: &mut Vec<u8>) -> (r: Stepped)
        ensures
            final(self).functions@ == old(self).functions@,
            stepped_as(r, final(self).state(final(out)@), step_result(old(self).funs(), old(self).state(old(out)@)), old(out)@),
    {
        reveal(step_result);
        let ghost s0 = self.state(out@);
        if self.frames.len() == 0 {
            return Stepped::Fail(internal_error(0));
        }
        let fi = self.frames.len() - 1;
        let fr = self.frames[fi];
        if fr.function >= self.functions.len() {
            return Stepped::Fail(internal_error(0));
        }
        proof {
            assert(self.funs()[fr.function as int] == fun_view(self.functions@[fr.function as int]));
        }
        let code_len = self.functions[fr.function].chunk.code.len();
        if fr.ip >= code_len {
            return Stepped::Fail(text_error("internal error: fell off the end of a chunk without Return", 0));
        }
        let op = self.functions[fr.function].chunk.code[fr.ip];
        let line: u32 = if fr.ip < self.functions[fr.function].chunk.lines.len() {
            self.functions[fr.function].chunk.lines[fr.ip]
        } else {
            0
        };
        self.set_ip(fr.ip + 1);
        assert(self.state(out@) =~= set_ip(s0, (fr.ip + 1) as usize));
        match op {
            OpCode::Add | OpCode::Sub | OpCode::Mul | OpCode::Div | OpCode::Mod | OpCode::Eq
            | OpCode::NotEq | OpCode::Lt | OpCode::LtEq | OpCode::Gt | OpCode::GtEq => self.exec_binary(op, line, out),
            OpCode::BuildArray(_) => self.exec_build_array(op, line, out),
            OpCode::BuildMap(_) => self.exec_build_map(op, line, out),
            OpCode::IndexGet => self.exec_index_get(op, line, out),
            OpCode::IndexSet => self.exec_index_set(op, line, out),
            OpCode::Call(_, _) => self.exec_call(op, line, out),
            OpCode::CallBuiltin(_, _) => self.exec_builtin(op, line, out),
            OpCode::Print(_) => self.exec_print(op, line, out),
            OpCode::Return => self.exec_return(op, line, out),
            _ => self.exec_simple(op, line, out),
        }
    }

    /// Runs the program from `functions[0]` (the compiled top-level script)
    /// until it returns, appending everything it prints to `out`. On
    /// success the operand stack is back to empty.
    pub fn run(&mut self, out: &mut Vec<u8>) -> (r: Result<(), SfError>)
        ensures
            ran_as(r, final(self).state(final(out)@), final(out)@,
                run_result(old(self).funs(), start_state(*old(self), old(out)@), STEP_LIMIT as nat)),
            r is Ok && old(self).frames@.len() == 0 ==> final(self).stack@.len() == 0,
    {
        let ghost total = run_result(old(self).funs(), start_state(*old(self), old(out)@), STEP_LIMIT as nat);
        proof {
            if self.frames@.len() == 0 {
                lemma_run_leaves_stack_empty(old(self).funs(), start_state(*old(self), old(out)@), STEP_LIMIT as nat);
            }
        }
        self.frames.push(CallFrame { function: 0, ip: 0, base: 0 });
        assert(self.state(out@) =~= start_state(*old(self), old(out)@));
        let ghost funs = self.funs();
        let mut fuel: u64 = STEP_LIMIT;
        let mut result: Option<Result<(), SfError>> = None;
        while result.is_none() && fuel > 0
            invariant
                self.funs() == funs,
                funs == old(self).funs(),
                result is None ==> run_result(funs, self.state(out@), fuel as nat) == total,
                result matches Some(r) ==> ran_as(r, self.state(out@), out@, total),
                old(self).frames@.len() == 0 ==> (total.0 matches Ok(s2) ==> s2.stack.len() == 0),
            decreases fuel,
        {
            let ghost before = self.state(out@);
            assert(run_result(funs, before, fuel as nat) == match step_result(funs, before) {
                StepOutcome::Continue(s2) => run_result(funs, s2, (fuel - 1) as nat),
                StepOutcome::Done(s2) => (Ok(s2), s2.out),
                StepOutcome::Fail(m, l) => (Err((m, l)), before.out),
            });
            let stepped = self.step(out);
            fuel = fuel - 1;
            match stepped {
                Stepped::Continue => {},
                Stepped::Done => {
                    result = Some(Ok(()));
                },
                Stepped::Fail(e) => {
                    result = Some(Err(e));
                },
            }
        }
        match result {
            Some(r) => {
                assert(r is Ok && old(self).frames@.len() == 0 ==> self.stack@.len() == values_view(self.stack@).len());
                r
            },
            None => {
                assert(run_result(funs, self.state(out@), 0) == total);
                Err(text_error("step limit exceeded", 0))
            },
        }
    }
}

} // verus!
