//! Compiles the AST to bytecode: one `FunctionObj` per function declaration,
//! preceded by the top-level script at index 0. Names resolve at compile
//! time: a local is a stack slot, a call names a builtin or a declared
//! function, and anything else is a compile error.
use vstd::prelude::*;
use crate::ast::{BinOp, Expr, FunctionDecl, LogicOp, Program, Stmt, UnOp};
use crate::builtins::{builtin_id, is_builtin, spec_builtin_id};
use crate::chunk::{is_jump, Chunk, FunctionObj, OpCode};
use crate::codegen::{
    after_states, cblock, centries, cexpr, cexprs, cfuns, compile_result, cscoped, cstmt, decl_table, emit,
    emit_const, end_scope, finish as finished, first_shadow, function_slot, initial, local_slot, named_msg,
    patch, pop_locals, CErr, CState, FunTable,
};
use crate::error::SfError;
use crate::text::{bytes_eq, copy_bytes, push_bytes, push_str, str_bytes};
use crate::value::{values_view, Value};

verus! {

/// An instruction whose operands are in range for a chunk of `len`
/// instructions (jumps may target `len`), `nconst` constants, and a table
/// of `nfuns` functions.
pub open spec fn op_ok(op: OpCode, len: nat, nconst: nat, nfuns: nat) -> bool {
    match op {
        OpCode::PushConst(i) => i < nconst,
        OpCode::Jump(t) => t <= len,
        OpCode::JumpIfFalse(t) => t <= len,
        OpCode::JumpIfFalsePeek(t) => t <= len,
        OpCode::JumpIfTruePeek(t) => t <= len,
        OpCode::Call(f, _) => f < nfuns,
        OpCode::CallBuiltin(id, _) => id < 4,
        _ => true,
    }
}

/// A chunk under construction: one line per instruction, operands in range.
pub open spec fn chunk_ok(c: Chunk, nfuns: nat) -> bool {
    &&& c.code@.len() == c.lines@.len()
    &&& forall|i: int| 0 <= i < c.code@.len() ==> op_ok(#[trigger] c.code@[i], c.code@.len(), c.constants@.len(), nfuns)
}

/// A finished chunk: well formed, every jump lands on an instruction, and
/// the last instruction is `Return`, so execution never runs off its end.
pub open spec fn chunk_done(c: Chunk, nfuns: nat) -> bool {
    &&& chunk_ok(c, nfuns)
    &&& c.code@.len() > 0
    &&& c.code@.last() == OpCode::Return
    &&& forall|i: int| 0 <= i < c.code@.len() ==> op_ok(#[trigger] c.code@[i], (c.code@.len() - 1) as nat, c.constants@.len(), nfuns)
}

/// One statically known local variable: its name and the block nesting
/// depth it was declared at.
pub struct Local {
    pub name: Vec<u8>,
    pub depth: u32,
}

/// The compiler of one function body (or of the top-level script).
pub struct FnCompiler<'a> {
    pub chunk: Chunk,
    pub locals: Vec<Local>,
    pub scope_depth: u32,
    /// Every declared function: its name, its index in the function table,
    /// and its arity.
    pub func_table: &'a Vec<(Vec<u8>, usize, usize)>,
    pub nfuns: usize,
}

/// The compiler's invariant.
pub open spec fn compiler_ok(fc: FnCompiler) -> bool {
    &&& chunk_ok(fc.chunk, fc.nfuns as nat)
    &&& forall|i: int| 0 <= i < fc.func_table@.len() ==> #[trigger] fc.func_table@[i].1 < fc.nfuns
}

/// The compiler moved on: still well formed, same table, instructions and
/// constants only appended.
pub open spec fn compiler_grew(before: FnCompiler, after: FnCompiler) -> bool {
    &&& compiler_ok(after)
    &&& after.func_table == before.func_table
    &&& after.nfuns == before.nfuns
    &&& after.chunk.code@.len() >= before.chunk.code@.len()
    &&& forall|i: int| 0 <= i < before.chunk.code@.len() ==> #[trigger] after.chunk.code@[i] == before.chunk.code@[i]
}

pub open spec fn compiled<T>(r: Result<T, SfError>, before: FnCompiler, after: FnCompiler) -> bool {
    &&& compiler_grew(before, after)
    &&& r is Err ==> r->Err_0 is Compile
}

pub open spec fn locals_view(ls: Seq<Local>) -> Seq<(Seq<u8>, u32)> {
    ls.map_values(|l: Local| (l.name@, l.depth))
}

pub open spec fn table_view(t: Seq<(Vec<u8>, usize, usize)>) -> FunTable {
    t.map_values(|e: (Vec<u8>, usize, usize)| (e.0@, e.1, e.2))
}

impl<'a> FnCompiler<'a> {
    /// The model of the compiler's state.
    pub open spec fn cview(&self) -> CState {
        CState {
            code: self.chunk.code@,
            lines: self.chunk.lines@,
            consts: values_view(self.chunk.constants@),
            locals: locals_view(self.locals@),
            depth: self.scope_depth,
        }
    }

    pub open spec fn tabv(&self) -> FunTable {
        table_view(self.func_table@)
    }
}

/// The error stands for the compile error `x`.
pub open spec fn err_as(e: SfError, x: CErr) -> bool {
    &&& e is Compile
    &&& e.spec_message() == x.0
    &&& e.spec_line() == x.1
}

/// Compiling gave what the code-generation model says.
pub open spec fn compiled_as(r: Result<(), SfError>, after: FnCompiler, s: Result<CState, CErr>) -> bool {
    match s {
        Ok(st) => r is Ok && after.cview() == st,
        Err(x) => r is Err && err_as(r->Err_0, x),
    }
}

/// The chunk holds the code, lines and constants of `st`.
pub open spec fn chunk_is(c: Chunk, st: CState) -> bool {
    &&& c.code@ == st.code
    &&& c.lines@ == st.lines
    &&& values_view(c.constants@) == st.consts
}

proof fn lemma_chunk_ok_push(c: Chunk, c2: Chunk, op: OpCode, nfuns: nat)
    requires
        chunk_ok(c, nfuns),
        c2.code@ == c.code@.push(op),
        c2.lines@.len() == c.lines@.len() + 1,
        c2.constants@.len() >= c.constants@.len(),
        op_ok(op, c2.code@.len(), c2.constants@.len(), nfuns),
    ensures
        chunk_ok(c2, nfuns),
{
    assert forall|i: int| 0 <= i < c2.code@.len() implies op_ok(#[trigger] c2.code@[i], c2.code@.len(), c2.constants@.len(), nfuns) by {
        if i < c.code@.len() {
            assert(c2.code@[i] == c.code@[i]);
            assert(op_ok(c.code@[i], c.code@.len(), c.constants@.len(), nfuns));
        }
    }
}

fn compile_failure(m: Vec<u8>, line: u32) -> (e: SfError)
    ensures
        err_as(e, (m@, line)),
{
    SfError::compile(m, line)
}

fn compile_failure_named(what: &str, name: &Vec<u8>, line: u32) -> (e: SfError)
    ensures
        err_as(e, (named_msg(str_bytes(what), name@), line)),
{
    let mut m: Vec<u8> = Vec::new();
    push_str(&mut m, what);
    push_str(&mut m, " '");
    push_bytes(&mut m, name.as_slice());
    push_str(&mut m, "'");
    assert(m@ =~= named_msg(str_bytes(what), name@));
    compile_failure(m, line)
}

impl<'a> FnCompiler<'a> {
    fn new(func_table: &'a Vec<(Vec<u8>, usize, usize)>, nfuns: usize, params: &Vec<Vec<u8>>) -> (fc: FnCompiler<'a>)
        requires
            forall|i: int| 0 <= i < func_table@.len() ==> #[trigger] func_table@[i].1 < nfuns,
        ensures
            compiler_ok(fc),
            fc.func_table == func_table,
            fc.nfuns == nfuns,
            fc.chunk.code@.len() == 0,
            fc.cview() == initial(params@.map_values(|p: Vec<u8>| p@)),
    {
        let mut locals: Vec<Local> = Vec::new();
        let mut i: usize = 0;
        while i < params.len()
            invariant
                i <= params@.len(),
                locals@.len() == i,
                forall|j: int| 0 <= j < i ==> (#[trigger] locals@[j]).name@ == params@[j]@ && locals@[j].depth == 0,
            decreases params@.len() - i,
        {
            locals.push(Local { name: copy_bytes(&params[i]), depth: 0 });
            i = i + 1;
        }
        let fc = FnCompiler { chunk: Chunk::new(), locals, scope_depth: 0, func_table, nfuns };
        assert(fc.cview() =~= initial(params@.map_values(|p: Vec<u8>| p@)));
        fc
    }

    /// Emits an instruction whose operands are in range.
    fn emit(&mut self, op: OpCode, line: u32) -> (i: usize)
        requires
            compiler_ok(*old(self)),
            op_ok(op, old(self).chunk.code@.len() + 1, old(self).chunk.constants@.len(), old(self).nfuns as nat),
        ensures
            compiler_grew(*old(self), *final(self)),
            final(self).chunk.code@ == old(self).chunk.code@.push(op),
            final(self).chunk.constants@ == old(self).chunk.constants@,
            final(self).locals@ == old(self).locals@,
            final(self).scope_depth == old(self).scope_depth,
            i == old(self).chunk.code@.len(),
            final(self).cview() == emit(old(self).cview(), op, line),
    {
        let i = self.chunk.emit(op, line);
        assert(self.cview() =~= emit(old(self).cview(), op, line));
        proof {
            lemma_chunk_ok_push(old(self).chunk, self.chunk, op, self.nfuns as nat);
        }
        i
    }

    /// Emits `PushConst` of a new constant `v`.
    fn emit_constant(&mut self, v: Value, line: u32)
        requires
            compiler_ok(*old(self)),
        ensures
            compiler_grew(*old(self), *final(self)),
            final(self).locals@ == old(self).locals@,
            final(self).scope_depth == old(self).scope_depth,
            final(self).cview() == emit_const(old(self).cview(), v@, line),
    {
        let ghost c0 = self.chunk;
        let ghost vv = v@;
        let k = self.chunk.add_constant(v);
        assert(chunk_ok(self.chunk, self.nfuns as nat)) by {
            assert forall|i: int| 0 <= i < self.chunk.code@.len() implies op_ok(#[trigger] self.chunk.code@[i], self.chunk.code@.len(), self.chunk.constants@.len(), self.nfuns as nat) by {
                assert(op_ok(c0.code@[i], c0.code@.len(), c0.constants@.len(), self.nfuns as nat));
            }
        }
        assert(values_view(self.chunk.constants@) =~= values_view(c0.constants@).push(vv));
        self.emit(OpCode::PushConst(k), line);
        assert(self.cview() =~= emit_const(old(self).cview(), vv, line));
    }

    /// Points the jump at `at` to the next instruction.
    fn patch_here(&mut self, at: usize)
        requires
            compiler_ok(*old(self)),
            at < old(self).chunk.code@.len(),
            is_jump(old(self).chunk.code@[at as int]),
        ensures
            compiler_ok(*final(self)),
            final(self).func_table == old(self).func_table,
            final(self).nfuns == old(self).nfuns,
            final(self).chunk.code@.len() == old(self).chunk.code@.len(),
            forall|i: int| 0 <= i < old(self).chunk.code@.len() && i != at ==> #[trigger] final(self).chunk.code@[i] == old(self).chunk.code@[i],
            final(self).locals@ == old(self).locals@,
            final(self).scope_depth == old(self).scope_depth,
            final(self).cview() == patch(old(self).cview(), at as int),
    {
        let ghost c0 = self.chunk;
        let target = self.chunk.here();
        self.chunk.patch_jump(at, target);
        assert forall|i: int| 0 <= i < self.chunk.code@.len() implies op_ok(#[trigger] self.chunk.code@[i], self.chunk.code@.len(), self.chunk.constants@.len(), self.nfuns as nat) by {
            if i != at {
                assert(self.chunk.code@[i] == c0.code@[i]);
                assert(op_ok(c0.code@[i], c0.code@.len(), c0.constants@.len(), self.nfuns as nat));
            }
        }
        assert(self.cview() =~= patch(old(self).cview(), at as int));
    }

    /// The slot of the innermost local called `name`.
    fn resolve_local(&self, name: &Vec<u8>) -> (r: Option<usize>)
        ensures
            r matches Some(i) ==> i < self.locals@.len(),
            r == local_slot(locals_view(self.locals@), name@),
    {
        let ghost lv = locals_view(self.locals@);
        let mut i = self.locals.len();
        assert(lv.subrange(0, i as int) =~= lv);
        while i > 0
            invariant
                i <= self.locals@.len(),
                lv == locals_view(self.locals@),
                local_slot(lv, name@) == local_slot(lv.subrange(0, i as int), name@),
            decreases i,
        {
            assert(lv.subrange(0, i as int).drop_last() =~= lv.subrange(0, i - 1));
            i = i - 1;
            if bytes_eq(self.locals[i].name.as_slice(), name.as_slice()) {
                return Some(i);
            }
        }
        None
    }

    /// The index and arity of the declared function called `name` (the last
    /// declaration wins).
    fn resolve_function(&self, name: &Vec<u8>) -> (r: Option<(usize, usize)>)
        requires
            compiler_ok(*self),
        ensures
            r matches Some((f, _)) ==> f < self.nfuns,
            r == function_slot(self.tabv(), name@),
    {
        let ghost tv = self.tabv();
        let mut i = self.func_table.len();
        assert(tv.subrange(0, i as int) =~= tv);
        while i > 0
            invariant
                i <= self.func_table@.len(),
                compiler_ok(*self),
                tv == self.tabv(),
                function_slot(tv, name@) == function_slot(tv.subrange(0, i as int), name@),
            decreases i,
        {
            assert(tv.subrange(0, i as int).drop_last() =~= tv.subrange(0, i - 1));
            i = i - 1;
            if bytes_eq(self.func_table[i].0.as_slice(), name.as_slice()) {
                return Some((self.func_table[i].1, self.func_table[i].2));
            }
        }
        None
    }

    fn begin_scope(&mut self, line: u32) -> (r: Result<(), SfError>)
        requires
            compiler_ok(*old(self)),
        ensures
            compiled(r, *old(self), *final(self)),
            final(self).chunk == old(self).chunk,
            old(self).scope_depth == u32::MAX ==> r is Err && err_as(r->Err_0, (str_bytes("blocks nested too deeply"), line)),
            old(self).scope_depth < u32::MAX ==> r is Ok
                && final(self).cview() == (CState { depth: (old(self).scope_depth + 1) as u32, ..old(self).cview() }),
    {
        if self.scope_depth == u32::MAX {
            let mut m: Vec<u8> = Vec::new();
            push_str(&mut m, "blocks nested too deeply");
            assert(m@ =~= str_bytes("blocks nested too deeply"));
            return Err(compile_failure(m, line));
        }
        self.scope_depth = self.scope_depth + 1;
        assert(self.cview() =~= (CState { depth: (old(self).scope_depth + 1) as u32, ..old(self).cview() }));
        Ok(())
    }

    /// Pops every local declared since the matching `begin_scope`, emitting
    /// one `Pop` per local so that the operand stack shrinks back at run time.
    fn end_scope(&mut self, line: u32)
        requires
            compiler_ok(*old(self)),
        ensures
            compiler_grew(*old(self), *final(self)),
            final(self).cview() == end_scope(old(self).cview(), line),
    {
        if self.scope_depth > 0 {
            self.scope_depth = self.scope_depth - 1;
        }
        assert(self.cview() =~= (CState {
            depth: if old(self).scope_depth > 0 { (old(self).scope_depth - 1) as u32 } else { 0 },
            ..old(self).cview()
        }));
        while self.locals.len() > 0 && self.locals[self.locals.len() - 1].depth > self.scope_depth
            invariant
                compiler_grew(*old(self), *self),
                pop_locals(self.cview(), line) == end_scope(old(self).cview(), line),
            decreases self.locals@.len(),
        {
            let ghost before = self.cview();
            self.locals.pop();
            assert(locals_view(self.locals@) =~= before.locals.drop_last());
            self.emit(OpCode::Pop, line);
            assert(self.cview() =~= emit(CState { locals: before.locals.drop_last(), ..before }, OpCode::Pop, line));
        }
    }

    fn declare_local(&mut self, name: &Vec<u8>)
        ensures
            final(self).chunk == old(self).chunk,
            final(self).func_table == old(self).func_table,
            final(self).nfuns == old(self).nfuns,
            final(self).cview() == (CState { locals: old(self).cview().locals.push((name@, old(self).scope_depth)), ..old(self).cview() }),
    {
        self.locals.push(Local { name: copy_bytes(name), depth: self.scope_depth });
        assert(self.cview() =~= (CState { locals: old(self).cview().locals.push((name@, old(self).scope_depth)), ..old(self).cview() }));
    }
}

impl<'a> FnCompiler<'a> {
    /// Compiles the statements in order.
    fn compile_block(&mut self, stmts: &Vec<Stmt>) -> (r: Result<(), SfError>)
        requires
            compiler_ok(*old(self)),
        ensures
            compiled(r, *old(self), *final(self)),
            compiled_as(r, *final(self), cblock(old(self).tabv(), old(self).cview(), stmts@, 0)),
        decreases stmts, 0int,
    {
        reveal(cblock);
        reveal(cstmt);
        reveal(cscoped);
        let ghost tab = self.tabv();
        let ghost st0 = self.cview();
        let mut i: usize = 0;
        let mut err: Option<SfError> = None;
        while i < stmts.len() && err.is_none()
            invariant
                compiler_grew(*old(self), *self),
                tab == self.tabv(),
                st0 == old(self).cview(),
                i <= stmts@.len(),
                err is None ==> cblock(tab, st0, stmts@, 0) == cblock(tab, self.cview(), stmts@, i as int),
                err matches Some(e) ==> cblock(tab, st0, stmts@, 0) matches Err(x) && err_as(e, x),
            decreases stmts@.len() - i + if err is None { 1int } else { 0int },
        {
            reveal(cblock);
            reveal(cstmt);
            reveal(cscoped);
            proof {
                assert(decreases_to!(stmts => stmts@));
                assert(decreases_to!(stmts@ => stmts@[i as int]));
            }
            match self.compile_stmt(&stmts[i]) {
                Ok(()) => {
                    i = i + 1;
                },
                Err(e) => err = Some(e),
            }
        }
        match err {
            Some(e) => Err(e),
            None => Ok(()),
        }
    }

    /// Compiles the statements in a scope of their own.
    fn compile_scoped_block(&mut self, stmts: &Vec<Stmt>, line: u32) -> (r: Result<(), SfError>)
        requires
            compiler_ok(*old(self)),
        ensures
            compiled(r, *old(self), *final(self)),
            compiled_as(r, *final(self), cscoped(old(self).tabv(), old(self).cview(), stmts@, line)),
        decreases stmts, 1int,
    {
        reveal(cscoped);
        reveal(cblock);
        reveal(cstmt);
        self.begin_scope(line)?;
        self.compile_block(stmts)?;
        self.end_scope(line);
        Ok(())
    }

    fn compile_stmt(&mut self, stmt: &Stmt) -> (r: Result<(), SfError>)
        requires
            compiler_ok(*old(self)),
        ensures
            compiled(r, *old(self), *final(self)),
            compiled_as(r, *final(self), cstmt(old(self).tabv(), old(self).cview(), *stmt)),
        decreases stmt, 0int,
    {
        reveal(cstmt);
        reveal(cscoped);
        reveal(cblock);
        match stmt {
            Stmt::Let(name, expr, _line) => {
                self.compile_expr(expr)?;
                self.declare_local(name);
            },
            Stmt::ExprStmt(expr) => {
                self.compile_expr(expr)?;
                self.emit(OpCode::Pop, 0);
            },
            Stmt::Print(exprs, line) => {
                if exprs.len() > 255 {
                    let mut m: Vec<u8> = Vec::new();
                    push_str(&mut m, "too many values in one print statement");
                    assert(m@ =~= str_bytes("too many values in one print statement"));
                    return Err(compile_failure(m, *line));
                }
                self.compile_exprs(exprs)?;
                self.emit(OpCode::Print(exprs.len() as u8), *line);
            },
            Stmt::If(cond, then_b, else_b) => {
                self.compile_expr(cond)?;
                let else_jump = self.emit(OpCode::JumpIfFalse(0), 0);
                self.compile_scoped_block(then_b, 0)?;
                let end_jump = self.emit(OpCode::Jump(0), 0);
                self.patch_here(else_jump);
                self.compile_scoped_block(else_b, 0)?;
                self.patch_here(end_jump);
            },
            Stmt::While(cond, body) => {
                let loop_start = self.chunk.here();
                self.compile_expr(cond)?;
                let exit_jump = self.emit(OpCode::JumpIfFalse(0), 0);
                self.compile_scoped_block(body, 0)?;
                self.emit(OpCode::Jump(loop_start), 0);
                self.patch_here(exit_jump);
            },
            Stmt::Block(stmts) => {
                self.compile_scoped_block(stmts, 0)?;
            },
            Stmt::Return(expr, line) => {
                match expr {
                    Some(e) => self.compile_expr(e)?,
                    None => {
                        self.emit(OpCode::PushNil, *line);
                    },
                }
                self.emit(OpCode::Return, *line);
            },
        }
        Ok(())
    }

    /// Compiles the expressions in order, leaving their values on the stack.
    fn compile_exprs(&mut self, exprs: &Vec<Expr>) -> (r: Result<(), SfError>)
        requires
            compiler_ok(*old(self)),
        ensures
            compiled(r, *old(self), *final(self)),
            compiled_as(r, *final(self), cexprs(old(self).tabv(), old(self).cview(), exprs@, 0)),
        decreases exprs, 0int,
    {
        reveal(cexprs);
        reveal(cexpr);
        reveal(centries);
        let ghost tab = self.tabv();
        let ghost st0 = self.cview();
        let mut i: usize = 0;
        let mut err: Option<SfError> = None;
        while i < exprs.len() && err.is_none()
            invariant
                compiler_grew(*old(self), *self),
                tab == self.tabv(),
                st0 == old(self).cview(),
                i <= exprs@.len(),
                err is None ==> cexprs(tab, st0, exprs@, 0) == cexprs(tab, self.cview(), exprs@, i as int),
                err matches Some(e) ==> cexprs(tab, st0, exprs@, 0) matches Err(x) && err_as(e, x),
            decreases exprs@.len() - i + if err is None { 1int } else { 0int },
        {
            reveal(cexprs);
            reveal(cexpr);
            reveal(centries);
            proof {
                assert(decreases_to!(exprs => exprs@));
                assert(decreases_to!(exprs@ => exprs@[i as int]));
            }
            match self.compile_expr(&exprs[i]) {
                Ok(()) => {
                    i = i + 1;
                },
                Err(e) => err = Some(e),
            }
        }
        match err {
            Some(e) => Err(e),
            None => Ok(()),
        }
    }

    fn compile_expr(&mut self, expr: &Expr) -> (r: Result<(), SfError>)
        requires
            compiler_ok(*old(self)),
        ensures
            compiled(r, *old(self), *final(self)),
            compiled_as(r, *final(self), cexpr(old(self).tabv(), old(self).cview(), *expr)),
        decreases expr, 0int,
    {
        reveal(cexpr);
        reveal(cexprs);
        reveal(centries);
        match expr {
            Expr::Number(n) => {
                self.emit_constant(Value::Number(*n), 0);
            },
            Expr::Str(s) => {
                self.emit_constant(Value::Str(copy_bytes(s)), 0);
            },
            Expr::Bool(b) => {
                if *b {
                    self.emit(OpCode::PushTrue, 0);
                } else {
                    self.emit(OpCode::PushFalse, 0);
                }
            },
            Expr::Nil => {
                self.emit(OpCode::PushNil, 0);
            },
            Expr::Ident(name, line) => {
                match self.resolve_local(name) {
                    Some(slot) => {
                        self.emit(OpCode::GetLocal(slot), *line);
                    },
                    None => {
                        return Err(compile_failure_named("undefined variable", name, *line));
                    },
                }
            },
            Expr::Array(items) => {
                self.compile_exprs(items)?;
                self.emit(OpCode::BuildArray(items.len()), 0);
            },
            Expr::Dict(entries) => {
                self.compile_entries(entries)?;
                self.emit(OpCode::BuildMap(entries.len()), 0);
            },
            Expr::Index(base, idx, line) => {
                self.compile_expr(base)?;
                self.compile_expr(idx)?;
                self.emit(OpCode::IndexGet, *line);
            },
            Expr::Unary(op, operand, line) => {
                self.compile_expr(operand)?;
                match op {
                    UnOp::Neg => {
                        self.emit(OpCode::Neg, *line);
                    },
                    UnOp::Not => {
                        self.emit(OpCode::Not, *line);
                    },
                }
            },
            Expr::Binary(op, lhs, rhs, line) => {
                self.compile_expr(lhs)?;
                self.compile_expr(rhs)?;
                let code = match op {
                    BinOp::Add => OpCode::Add,
                    BinOp::Sub => OpCode::Sub,
                    BinOp::Mul => OpCode::Mul,
                    BinOp::Div => OpCode::Div,
                    BinOp::Mod => OpCode::Mod,
                    BinOp::Eq => OpCode::Eq,
                    BinOp::NotEq => OpCode::NotEq,
                    BinOp::Lt => OpCode::Lt,
                    BinOp::LtEq => OpCode::LtEq,
                    BinOp::Gt => OpCode::Gt,
                    BinOp::GtEq => OpCode::GtEq,
                };
                self.emit(code, *line);
            },
            Expr::Logical(op, lhs, rhs) => {
                self.compile_expr(lhs)?;
                let jump = match op {
                    LogicOp::And => self.emit(OpCode::JumpIfFalsePeek(0), 0),
                    LogicOp::Or => self.emit(OpCode::JumpIfTruePeek(0), 0),
                };
                self.emit(OpCode::Pop, 0);
                self.compile_expr(rhs)?;
                self.patch_here(jump);
            },
            Expr::Assign(name, value, line) => {
                self.compile_expr(value)?;
                match self.resolve_local(name) {
                    Some(slot) => {
                        self.emit(OpCode::SetLocal(slot), *line);
                    },
                    None => {
                        return Err(compile_failure_named("assignment to undefined variable", name, *line));
                    },
                }
            },
            Expr::IndexAssign(base, idx, value, line) => {
                self.compile_expr(base)?;
                self.compile_expr(idx)?;
                self.compile_expr(value)?;
                self.emit(OpCode::IndexSet, *line);
            },
            Expr::Call(name, args, line) => {
                if args.len() > 255 {
                    let mut m: Vec<u8> = Vec::new();
                    push_str(&mut m, "too many arguments in one call");
                    assert(m@ =~= str_bytes("too many arguments in one call"));
                    return Err(compile_failure(m, *line));
                }
                self.compile_exprs(args)?;
                let argc = args.len() as u8;
                match builtin_id(name.as_slice()) {
                    Some(id) => {
                        self.emit(OpCode::CallBuiltin(id, argc), *line);
                    },
                    None => {
                        match self.resolve_function(name) {
                            Some((f, _arity)) => {
                                self.emit(OpCode::Call(f, argc), *line);
                            },
                            None => {
                                return Err(compile_failure_named("undefined function", name, *line));
                            },
                        }
                    },
                }
            },
        }
        Ok(())
    }

    /// Compiles map literal entries: each key constant, then its value.
    fn compile_entries(&mut self, entries: &Vec<(Vec<u8>, Expr)>) -> (r: Result<(), SfError>)
        requires
            compiler_ok(*old(self)),
        ensures
            compiled(r, *old(self), *final(self)),
            compiled_as(r, *final(self), centries(old(self).tabv(), old(self).cview(), entries@, 0)),
        decreases entries, 0int,
    {
        reveal(centries);
        reveal(cexpr);
        reveal(cexprs);
        let ghost tab = self.tabv();
        let ghost st0 = self.cview();
        let mut i: usize = 0;
        let mut err: Option<SfError> = None;
        while i < entries.len() && err.is_none()
            invariant
                compiler_grew(*old(self), *self),
                tab == self.tabv(),
                st0 == old(self).cview(),
                i <= entries@.len(),
                err is None ==> centries(tab, st0, entries@, 0) == centries(tab, self.cview(), entries@, i as int),
                err matches Some(e) ==> centries(tab, st0, entries@, 0) matches Err(x) && err_as(e, x),
            decreases entries@.len() - i + if err is None { 1int } else { 0int },
        {
            reveal(centries);
            reveal(cexpr);
            reveal(cexprs);
            self.emit_constant(Value::Str(copy_bytes(&entries[i].0)), 0);
            proof {
                assert(decreases_to!(entries => entries@));
                assert(decreases_to!(entries@ => entries@[i as int]));
                assert(decreases_to!(entries@[i as int] => entries@[i as int].1));
            }
            match self.compile_expr(&entries[i].1) {
                Ok(()) => {
                    i = i + 1;
                },
                Err(e) => err = Some(e),
            }
        }
        match err {
            Some(e) => Err(e),
            None => Ok(()),
        }
    }
}

/// Some declared function is named like a builtin.
pub open spec fn shadows_builtin(p: Program) -> bool {
    exists|k: int| 0 <= k < p.functions@.len() && spec_builtin_id(#[trigger] p.functions@[k].name@) is Some
}

/// The function table that `compile` produced for `p`: the script first,
/// then one function per declaration, in order, each with a finished chunk.
pub open spec fn compiled_program(p: Program, fs: Seq<FunctionObj>) -> bool {
    &&& fs.len() == p.functions@.len() + 1
    &&& fs[0].arity == 0
    &&& forall|k: int| 0 <= k < p.functions@.len() ==> (#[trigger] fs[k + 1]).name@ == p.functions@[k].name@
        && fs[k + 1].arity == p.functions@[k].params@.len()
    &&& forall|k: int| 0 <= k < fs.len() ==> chunk_done(#[trigger] fs[k].chunk, fs.len() as nat)
}

/// Finishes a function body with an implicit `return nil`.
fn finish(fc: FnCompiler, name: Vec<u8>, arity: usize) -> (f: FunctionObj)
    requires
        compiler_ok(fc),
    ensures
        chunk_done(f.chunk, fc.nfuns as nat),
        f.name == name,
        f.arity == arity,
        chunk_is(f.chunk, finished(fc.cview())),
{
    let mut fc = fc;
    let ghost st = fc.cview();
    let ghost c0 = fc.chunk;
    fc.emit(OpCode::PushNil, 0);
    fc.emit(OpCode::Return, 0);
    let chunk = fc.chunk;
    assert forall|i: int| 0 <= i < chunk.code@.len() implies op_ok(#[trigger] chunk.code@[i], (chunk.code@.len() - 1) as nat, chunk.constants@.len(), fc.nfuns as nat) by {
        if i < c0.code@.len() {
            assert(chunk.code@[i] == c0.code@[i]);
            assert(op_ok(c0.code@[i], c0.code@.len(), c0.constants@.len(), fc.nfuns as nat));
        }
    }
    assert(chunk_is(chunk, finished(st)));
    FunctionObj { name, arity, chunk }
}

/// Compiles a program: the top-level script becomes function 0, and the
/// declarations follow in order, each with the code the code-generation
/// model gives. A function named like a builtin, a use of an undefined
/// variable, or a call of an undefined function is a compile error.
pub fn compile(program: &Program) -> (r: Result<Vec<FunctionObj>, SfError>)
    ensures
        r is Ok ==> compiled_program(*program, r->Ok_0@),
        r is Err ==> r->Err_0 is Compile,
        shadows_builtin(*program) ==> r is Err,
        match compile_result(*program) {
            Ok(cs) => r is Ok && r->Ok_0@.len() == cs.len() && r->Ok_0@[0].name@ == str_bytes("<script>")
                && forall|k: int| 0 <= k < cs.len() ==> chunk_is(#[trigger] r->Ok_0@[k].chunk, cs[k]),
            Err(x) => r is Err && err_as(r->Err_0, x),
        },
{
    let ghost fs = program.functions@;
    let n = program.functions.len();
    if n >= usize::MAX - 1 {
        let mut m: Vec<u8> = Vec::new();
        push_str(&mut m, "too many functions");
        assert(m@ =~= str_bytes("too many functions"));
        return Err(compile_failure(m, 0));
    }
    let nfuns = n + 1;
    let mut table: Vec<(Vec<u8>, usize, usize)> = Vec::new();
    let mut k: usize = 0;
    while k < n
        invariant
            k <= n,
            n == program.functions@.len(),
            n < usize::MAX - 1,
            fs == program.functions@,
            nfuns == n + 1,
            table@.len() == k,
            forall|i: int| 0 <= i < k ==> spec_builtin_id(#[trigger] program.functions@[i].name@) is None,
            forall|i: int| 0 <= i < table@.len() ==> #[trigger] table@[i].1 < nfuns,
            first_shadow(fs, 0) == first_shadow(fs, k as int),
            table_view(table@) =~= decl_table(fs).subrange(0, k as int),
        decreases n - k,
    {
        let f = &program.functions[k];
        if is_builtin(f.name.as_slice()) {
            proof {
                assert(first_shadow(fs, k as int) == Some(k as int));
            }
            return Err(compile_failure_named("cannot define a function with the builtin name", &f.name, f.line));
        }
        let entry = (copy_bytes(&f.name), k + 1, f.params.len());
        table.push(entry);
        proof {
            assert(table_view(table@) =~= decl_table(fs).subrange(0, k + 1));
        }
        k = k + 1;
    }
    let ghost tab = decl_table(fs);
    assert(table_view(table@) =~= tab);
    assert(first_shadow(fs, n as int) == None::<int>);
    let no_params: Vec<Vec<u8>> = Vec::new();
    assert(no_params@.map_values(|p: Vec<u8>| p@) =~= Seq::<Seq<u8>>::empty());
    let mut main = FnCompiler::new(&table, nfuns, &no_params);
    main.compile_block(&program.main)?;
    let mut script_name: Vec<u8> = Vec::new();
    push_str(&mut script_name, "<script>");
    assert(script_name@ =~= str_bytes("<script>"));
    let ghost main_st = main.cview();
    let ghost main_done = finished(main_st);
    assert(cblock(tab, initial(Seq::empty()), program.main@, 0) == Ok::<CState, CErr>(main_st));
    let mut out: Vec<FunctionObj> = Vec::new();
    out.push(finish(main, script_name, 0));
    let ghost mut done: Seq<CState> = Seq::empty();
    proof {
        assert(after_states(done, cfuns(tab, fs, 0)) == cfuns(tab, fs, 0)) by {
            if let Ok(rest) = cfuns(tab, fs, 0) {
                assert(done + rest =~= rest);
            }
        }
    }
    let mut k: usize = 0;
    while k < n
        invariant
            k <= n,
            n == program.functions@.len(),
            n < usize::MAX - 1,
            fs == program.functions@,
            nfuns == n + 1,
            tab == decl_table(fs),
            first_shadow(fs, 0) is None,
            cblock(tab, initial(Seq::empty()), program.main@, 0) == Ok::<CState, CErr>(main_st),
            main_done == finished(main_st),
            table_view(table@) == tab,
            out@.len() == k + 1,
            out@[0].arity == 0,
            out@[0].name@ == str_bytes("<script>"),
            chunk_is(out@[0].chunk, main_done),
            done.len() == k,
            forall|i: int| 0 <= i < k ==> chunk_is(#[trigger] out@[i + 1].chunk, done[i]),
            cfuns(tab, fs, 0) == after_states(done, cfuns(tab, fs, k as int)),
            forall|i: int| 0 <= i < table@.len() ==> #[trigger] table@[i].1 < nfuns,
            forall|i: int| 0 <= i < k ==> (#[trigger] out@[i + 1]).name@ == program.functions@[i].name@
                && out@[i + 1].arity == program.functions@[i].params@.len(),
            forall|i: int| 0 <= i < out@.len() ==> chunk_done(#[trigger] out@[i].chunk, nfuns as nat),
        decreases n - k,
    {
        let f = &program.functions[k];
        let mut fc = FnCompiler::new(&table, nfuns, &f.params);
        match fc.compile_block(&f.body) {
            Ok(()) => {},
            Err(e) => {
                return Err(e);
            },
        }
        let name = copy_bytes(&f.name);
        let ghost fin = finished(fc.cview());
        let obj = finish(fc, name, f.params.len());
        proof {
            if let Ok(rest) = cfuns(tab, fs, k + 1) {
                assert(done + (seq![fin] + rest) =~= done.push(fin) + rest);
            }
        }
        out.push(obj);
        proof {
            assert(out@[k as int + 1] == obj);
            done = done.push(fin);
        }
        k = k + 1;
    }
    proof {
        assert(done + Seq::<CState>::empty() =~= done);
        let all = seq![main_done] + done;
        assert forall|i: int| 0 <= i < all.len() implies chunk_is(#[trigger] out@[i].chunk, all[i]) by {
            if i > 0 {
                assert(out@[(i - 1) + 1].chunk == out@[i].chunk);
            }
        }
    }
    Ok(out)
}

} // verus!
