//! Bytecode: instructions, the chunk of one function, and compiled functions.
//!
//! Jump targets are absolute indices into the owning chunk's `code`, patched
//! once the destination is known (backpatching).
use vstd::prelude::*;
use crate::value::Value;

verus! {

/// A single bytecode instruction.
#[derive(Debug, Clone, Copy, PartialEq, Eq, Structural)]
pub enum OpCode {
    PushConst(usize),
    PushNil,
    PushTrue,
    PushFalse,
    Pop,
    Add,
    Sub,
    Mul,
    Div,
    Mod,
    Neg,
    Not,
    Eq,
    NotEq,
    Lt,
    LtEq,
    Gt,
    GtEq,
    GetLocal(usize),
    SetLocal(usize),
    Jump(usize),
    JumpIfFalse(usize),
    /// Peeks (does not pop) the top of stack; jumps if falsy. Used to
    /// compile short-circuiting `&&`.
    JumpIfFalsePeek(usize),
    /// Peeks (does not pop) the top of stack; jumps if truthy. Used to
    /// compile short-circuiting `||`.
    JumpIfTruePeek(usize),
    BuildArray(usize),
    BuildMap(usize),
    IndexGet,
    IndexSet,
    /// Call user function `functions[index]` with `argc` arguments already
    /// pushed on the stack.
    Call(usize, u8),
    /// Call a builtin (`len`, `push`, ...) by id.
    CallBuiltin(usize, u8),
    Print(u8),
    Return,
}

/// Whether `op` is one of the four jumps.
pub open spec fn is_jump(op: OpCode) -> bool {
    op is Jump || op is JumpIfFalse || op is JumpIfFalsePeek || op is JumpIfTruePeek
}

/// The jump `op` with its target replaced by `target`.
pub open spec fn retarget(op: OpCode, target: usize) -> OpCode {
    match op {
        OpCode::Jump(_) => OpCode::Jump(target),
        OpCode::JumpIfFalse(_) => OpCode::JumpIfFalse(target),
        OpCode::JumpIfFalsePeek(_) => OpCode::JumpIfFalsePeek(target),
        OpCode::JumpIfTruePeek(_) => OpCode::JumpIfTruePeek(target),
        _ => op,
    }
}

/// The instructions of one function, the source line of each, and its
/// constant pool.
#[derive(Debug)]
pub struct Chunk {
    pub code: Vec<OpCode>,
    pub lines: Vec<u32>,
    pub constants: Vec<Value>,
}

impl Chunk {
    pub fn new() -> (c: Chunk)
        ensures
            c.code@.len() == 0,
            c.lines@.len() == 0,
            c.constants@.len() == 0,
    {
        Chunk { code: Vec::new(), lines: Vec::new(), constants: Vec::new() }
    }

    /// Appends `op` (at source line `line`) and returns its index.
    pub fn emit(&mut self, op: OpCode, line: u32) -> (i: usize)
        ensures
            final(self).code@ == old(self).code@.push(op),
            final(self).lines@ == old(self).lines@.push(line),
            final(self).constants@ == old(self).constants@,
            i == old(self).code@.len(),
    {
        self.code.push(op);
        self.lines.push(line);
        self.code.len() - 1
    }

    /// Appends a constant and returns its index in the pool.
    pub fn add_constant(&mut self, v: Value) -> (i: usize)
        ensures
            final(self).constants@ == old(self).constants@.push(v),
            final(self).code@ == old(self).code@,
            final(self).lines@ == old(self).lines@,
            i == old(self).constants@.len(),
    {
        self.constants.push(v);
        self.constants.len() - 1
    }

    /// Points the jump at `at` to `target`.
    pub fn patch_jump(&mut self, at: usize, target: usize)
        requires
            at < old(self).code@.len(),
            is_jump(old(self).code@[at as int]),
        ensures
            final(self).code@ == old(self).code@.update(at as int, retarget(old(self).code@[at as int], target)),
            final(self).lines@ == old(self).lines@,
            final(self).constants@ == old(self).constants@,
    {
        let op = match self.code[at] {
            OpCode::Jump(_) => OpCode::Jump(target),
            OpCode::JumpIfFalse(_) => OpCode::JumpIfFalse(target),
            OpCode::JumpIfFalsePeek(_) => OpCode::JumpIfFalsePeek(target),
            _ => OpCode::JumpIfTruePeek(target),
        };
        self.code.set(at, op);
    }

    /// The index the next emitted instruction will get.
    pub fn here(&self) -> (n: usize)
        ensures
            n == self.code@.len(),
    {
        self.code.len()
    }
}

/// A compiled function: its name, its parameter count and its own chunk.
/// Index 0 of the VM's function table is always the compiled top-level
/// script, so `Call` never needs a special case for it.
#[derive(Debug)]
pub struct FunctionObj {
    pub name: Vec<u8>,
    pub arity: usize,
    pub chunk: Chunk,
}

} // verus!
