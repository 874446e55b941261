//! Runtime values, shared by the tree-walking interpreter and the bytecode VM.
//!
//! Arrays and maps are reference types: a value holds a handle into a `Heap`
//! of objects, so `let b = a; b[0] = 9;` changes the array that `a` names.
//! Numbers are the integers of magnitude at most 2^53, the integers that a
//! 64-bit float holds exactly, so that every result the library computes is
//! the one float arithmetic computes; a result outside that range, or a
//! division without an integer result, is a runtime error.
use vstd::prelude::*;
use crate::ast::BinOp;
use crate::error::SfError;
use crate::text::{
    bytes_eq, bytes_less, bytes_lt, copy_bytes, int_text, push_bytes, push_int, push_str,
    str_bytes,
};

verus! {

/// The largest magnitude of a number: 2^53.
pub const MAX_SAFE: i64 = 9007199254740992;

/// The mathematical view of a value.
pub enum SVal {
    Num(int),
    Bool(bool),
    Str(Seq<u8>),
    Arr(nat),
    Dict(nat),
    Nil,
}

/// The mathematical view of a heap object.
pub enum SObj {
    Arr(Seq<SVal>),
    Dict(Seq<(Seq<u8>, SVal)>),
}

/// A runtime value. `Array` and `Dict` hold handles into a `Heap`.
#[derive(Debug)]
pub enum Value {
    Number(i64),
    Bool(bool),
    Str(Vec<u8>),
    Array(usize),
    Dict(usize),
    Nil,
}

/// An object of the heap: an array, or a map from string keys to values
/// (an association list whose keys are distinct; `heap::keys_distinct`,
/// which `heap::heap_ok` requires of every map).
#[derive(Debug)]
pub enum Obj {
    Array(Vec<Value>),
    Dict(Vec<(Vec<u8>, Value)>),
}

/// All arrays and maps a program has created.
#[derive(Debug)]
pub struct Heap {
    pub objs: Vec<Obj>,
}

impl View for Value {
    type V = SVal;

    open spec fn view(&self) -> SVal {
        match self {
            Value::Number(n) => SVal::Num(*n as int),
            Value::Bool(b) => SVal::Bool(*b),
            Value::Str(s) => SVal::Str(s@),
            Value::Array(i) => SVal::Arr(*i as nat),
            Value::Dict(i) => SVal::Dict(*i as nat),
            Value::Nil => SVal::Nil,
        }
    }
}

pub open spec fn entry_view(e: (Vec<u8>, Value)) -> (Seq<u8>, SVal) {
    (e.0@, e.1@)
}

pub open spec fn values_view(v: Seq<Value>) -> Seq<SVal> {
    v.map_values(|x: Value| x@)
}

pub open spec fn entries_view(v: Seq<(Vec<u8>, Value)>) -> Seq<(Seq<u8>, SVal)> {
    v.map_values(|e: (Vec<u8>, Value)| entry_view(e))
}

impl View for Obj {
    type V = SObj;

    open spec fn view(&self) -> SObj {
        match self {
            Obj::Array(v) => SObj::Arr(values_view(v@)),
            Obj::Dict(es) => SObj::Dict(entries_view(es@)),
        }
    }
}

impl View for Heap {
    type V = Seq<SObj>;

    open spec fn view(&self) -> Seq<SObj> {
        self.objs@.map_values(|o: Obj| o@)
    }
}

// ------------------------------------------------------------------ //
// Numbers
// ------------------------------------------------------------------ //

pub open spec fn in_range(n: int) -> bool {
    -(MAX_SAFE as int) <= n <= MAX_SAFE as int
}

pub open spec fn abs(n: int) -> int {
    if n < 0 { -n } else { n }
}

/// Division rounding toward zero, as floats and Rust integers divide.
pub open spec fn trunc_div(a: int, b: int) -> int {
    let q = abs(a) / abs(b);
    if (a < 0) != (b < 0) { -q } else { q }
}

/// The remainder of `trunc_div`: it has the sign of `a`, as float `%` does.
pub open spec fn trunc_rem(a: int, b: int) -> int {
    a - b * trunc_div(a, b)
}

// ------------------------------------------------------------------ //
// Texts of values
// ------------------------------------------------------------------ //

pub open spec fn kind_name_text(v: SVal) -> Seq<u8> {
    match v {
        SVal::Num(_) => str_bytes("number"),
        SVal::Bool(_) => str_bytes("bool"),
        SVal::Str(_) => str_bytes("string"),
        SVal::Arr(_) => str_bytes("array"),
        SVal::Dict(_) => str_bytes("map"),
        SVal::Nil => str_bytes("nil"),
    }
}

/// Truthiness used by `if`, `while`, `&&`, `||` and `!`: every value is
/// truthy except `false` and `nil`.
pub open spec fn truthy(v: SVal) -> bool {
    !(v == SVal::Bool(false) || v == SVal::Nil)
}

impl Value {
    /// The name of the value's type.
    pub fn kind_name(&self) -> (s: &'static str)
        ensures
            str_bytes(s) == kind_name_text(self@),
    {
        match self {
            Value::Number(_) => "number",
            Value::Bool(_) => "bool",
            Value::Str(_) => "string",
            Value::Array(_) => "array",
            Value::Dict(_) => "map",
            Value::Nil => "nil",
        }
    }

    /// Everything is truthy except `false` and `nil`; `0` is truthy.
    pub fn is_truthy(&self) -> (b: bool)
        ensures
            b == truthy(self@),
    {
        match self {
            Value::Bool(b) => *b,
            Value::Nil => false,
            _ => true,
        }
    }

    pub fn as_number(&self) -> (r: Option<i64>)
        ensures
            r == (match self@ {
                SVal::Num(n) => Some(n as i64),
                _ => None::<i64>,
            }),
    {
        match self {
            Value::Number(n) => Some(*n),
            _ => None,
        }
    }

    /// A copy of the value (a handle is copied, not the object it names).
    pub fn copy(&self) -> (r: Value)
        ensures
            r@ == self@,
    {
        match self {
            Value::Number(n) => Value::Number(*n),
            Value::Bool(b) => Value::Bool(*b),
            Value::Str(s) => Value::Str(copy_bytes(s)),
            Value::Array(i) => Value::Array(*i),
            Value::Dict(i) => Value::Dict(*i),
            Value::Nil => Value::Nil,
        }
    }
}

/// A runtime error value with the given message and line.
pub open spec fn is_runtime_error(e: SfError, msg: Seq<u8>, line: u32) -> bool {
    &&& e is Runtime
    &&& e.spec_message() == msg
    &&& e.spec_line() == line
}

/// `res` is the outcome that `spec` describes: the same value, or a runtime
/// error with the described message at `line`.
pub open spec fn outcome_is(res: Result<Value, SfError>, spec: Result<SVal, Seq<u8>>, line: u32) -> bool {
    match spec {
        Ok(v) => res is Ok && res->Ok_0@ == v,
        Err(m) => res is Err && is_runtime_error(res->Err_0, m, line),
    }
}

fn runtime_error(parts: Vec<u8>, line: u32) -> (e: SfError)
    ensures
        is_runtime_error(e, parts@, line),
{
    SfError::runtime(parts, line)
}

// ------------------------------------------------------------------ //
// Binary operators
// ------------------------------------------------------------------ //

pub open spec fn op_text(op: BinOp) -> Seq<u8> {
    match op {
        BinOp::Add => str_bytes("+"),
        BinOp::Sub => str_bytes("-"),
        BinOp::Mul => str_bytes("*"),
        BinOp::Div => str_bytes("/"),
        BinOp::Mod => str_bytes("%"),
        BinOp::Eq => str_bytes("=="),
        BinOp::NotEq => str_bytes("!="),
        BinOp::Lt => str_bytes("<"),
        BinOp::LtEq => str_bytes("<="),
        BinOp::Gt => str_bytes(">"),
        BinOp::GtEq => str_bytes(">="),
    }
}

pub open spec fn bad_operands_msg(op: BinOp, l: SVal, r: SVal) -> Seq<u8> {
    str_bytes("unsupported operands for '") + op_text(op) + str_bytes("': ") + kind_name_text(l)
        + str_bytes(" and ") + kind_name_text(r)
}

pub open spec fn number_result(n: int) -> Result<SVal, Seq<u8>> {
    if in_range(n) {
        Ok(SVal::Num(n))
    } else {
        Err(str_bytes("number out of range"))
    }
}

/// What a binary operator computes. Equality compares numbers, booleans and
/// strings by value and arrays and maps by identity; values of different
/// types are never equal.
pub open spec fn binary_result(op: BinOp, l: SVal, r: SVal) -> Result<SVal, Seq<u8>> {
    match (op, l, r) {
        (BinOp::Eq, _, _) => Ok(SVal::Bool(l == r)),
        (BinOp::NotEq, _, _) => Ok(SVal::Bool(l != r)),
        (BinOp::Add, SVal::Num(a), SVal::Num(b)) => number_result(a + b),
        (BinOp::Add, SVal::Str(a), SVal::Str(b)) => Ok(SVal::Str(a + b)),
        (BinOp::Sub, SVal::Num(a), SVal::Num(b)) => number_result(a - b),
        (BinOp::Mul, SVal::Num(a), SVal::Num(b)) => number_result(a * b),
        (BinOp::Div, SVal::Num(a), SVal::Num(b)) => if b == 0 {
            Err(str_bytes("division by zero"))
        } else if trunc_rem(a, b) != 0 {
            Err(str_bytes("division result is not an integer"))
        } else {
            number_result(trunc_div(a, b))
        },
        (BinOp::Mod, SVal::Num(a), SVal::Num(b)) => if b == 0 {
            Err(str_bytes("modulo by zero"))
        } else {
            number_result(trunc_rem(a, b))
        },
        (BinOp::Lt, SVal::Num(a), SVal::Num(b)) => Ok(SVal::Bool(a < b)),
        (BinOp::LtEq, SVal::Num(a), SVal::Num(b)) => Ok(SVal::Bool(a <= b)),
        (BinOp::Gt, SVal::Num(a), SVal::Num(b)) => Ok(SVal::Bool(a > b)),
        (BinOp::GtEq, SVal::Num(a), SVal::Num(b)) => Ok(SVal::Bool(a >= b)),
        _ => Err(bad_operands_msg(op, l, r)),
    }
}

/// `!=` is exactly the negation of `==`, for operands of any types: both
/// always succeed, and exactly one of them is true. Values are equal only
/// when they are the same value, so operands of different types are never
/// equal, and always unequal.
pub proof fn lemma_not_equal_negates_equal(l: SVal, r: SVal)
    ensures
        binary_result(BinOp::Eq, l, r) is Ok,
        binary_result(BinOp::NotEq, l, r) is Ok,
        binary_result(BinOp::Eq, l, r)->Ok_0 is Bool,
        binary_result(BinOp::NotEq, l, r)->Ok_0 == SVal::Bool(!(binary_result(BinOp::Eq, l, r)->Ok_0->Bool_0)),
        binary_result(BinOp::Eq, l, r)->Ok_0->Bool_0 == (l == r),
{
}

/// Operands of different types (as `kind_name_text` names them) are never
/// equal: `==` gives `false` and `!=` gives `true`.
pub proof fn lemma_different_types_unequal(l: SVal, r: SVal)
    requires
        kind_name_text(l) != kind_name_text(r),
    ensures
        binary_result(BinOp::Eq, l, r) == Ok::<SVal, Seq<u8>>(SVal::Bool(false)),
        binary_result(BinOp::NotEq, l, r) == Ok::<SVal, Seq<u8>>(SVal::Bool(true)),
{
}

/// `%` on numbers gives the remainder of division rounded toward zero: it
/// differs from the dividend by a multiple of the divisor, is smaller than
/// the divisor in magnitude, and is zero or has the dividend's sign.
pub proof fn lemma_modulo_is_truncated_remainder(a: int, b: int)
    requires
        b != 0,
        in_range(a),
        in_range(b),
    ensures
        binary_result(BinOp::Mod, SVal::Num(a), SVal::Num(b)) is Ok,
        ({
            let r = binary_result(BinOp::Mod, SVal::Num(a), SVal::Num(b))->Ok_0->Num_0;
            &&& binary_result(BinOp::Mod, SVal::Num(a), SVal::Num(b))->Ok_0 is Num
            &&& exists|q: int| a == #[trigger] (q * b) + r
            &&& abs(r) < abs(b)
            &&& (r == 0 || (r < 0) == (a < 0))
        }),
{
    let q = abs(a) / abs(b);
    let r = abs(a) % abs(b);
    lemma_trunc(a, b, q, r);
    assert(0 <= r < abs(b)) by (nonlinear_arith)
        requires
            b != 0,
            r == abs(a) % abs(b),
    ;
    assert(a == trunc_div(a, b) * b + trunc_rem(a, b)) by (nonlinear_arith)
        requires
            trunc_rem(a, b) == a - b * trunc_div(a, b),
    ;
}

/// `/` on numbers succeeds exactly when the divisor is not zero and divides
/// the dividend, and then gives the quotient: the number that multiplied by
/// the divisor gives the dividend.
pub proof fn lemma_division_is_exact(a: int, b: int)
    requires
        in_range(a),
        in_range(b),
    ensures
        (binary_result(BinOp::Div, SVal::Num(a), SVal::Num(b)) is Ok) == (b != 0 && exists|q: int| a == #[trigger] (q * b)),
        binary_result(BinOp::Div, SVal::Num(a), SVal::Num(b)) is Ok ==> ({
            let v = binary_result(BinOp::Div, SVal::Num(a), SVal::Num(b))->Ok_0;
            v is Num && v->Num_0 * b == a
        }),
{
    if b != 0 {
        let q = abs(a) / abs(b);
        let r = abs(a) % abs(b);
        lemma_trunc(a, b, q, r);
        assert(0 <= r < abs(b)) by (nonlinear_arith)
            requires
                b != 0,
                r == abs(a) % abs(b),
        ;
        assert(0 <= q <= abs(a)) by (nonlinear_arith)
            requires
                b != 0,
                q == abs(a) / abs(b),
                abs(b) > 0,
                abs(a) >= 0,
        ;
        if exists|k: int| a == #[trigger] (k * b) {
            let k = choose|k: int| a == #[trigger] (k * b);
            assert(abs(a) == abs(k) * abs(b)) by (nonlinear_arith)
                requires
                    a == k * b,
            ;
            assert(r == 0) by (nonlinear_arith)
                requires
                    abs(a) == abs(k) * abs(b),
                    abs(b) > 0,
                    r == abs(a) % abs(b),
            ;
        }
        if trunc_rem(a, b) == 0 {
            assert(a == trunc_div(a, b) * b) by (nonlinear_arith)
                requires
                    trunc_rem(a, b) == a - b * trunc_div(a, b),
                    trunc_rem(a, b) == 0,
            ;
        }
    }
}

/// The order comparisons on numbers are consistent with one another and with
/// `==`: exactly one of `<`, `==`, `>` holds; `<=` is `<` or `==`; `>` and
/// `>=` are `<` and `<=` with the operands swapped.
pub proof fn lemma_comparisons_consistent(a: int, b: int)
    ensures
        ({
            let x = SVal::Num(a);
            let y = SVal::Num(b);
            let lt = binary_result(BinOp::Lt, x, y);
            let le = binary_result(BinOp::LtEq, x, y);
            let gt = binary_result(BinOp::Gt, x, y);
            let ge = binary_result(BinOp::GtEq, x, y);
            let eq = binary_result(BinOp::Eq, x, y);
            &&& lt is Ok && le is Ok && gt is Ok && ge is Ok && eq is Ok
            &&& lt->Ok_0 is Bool && eq->Ok_0 is Bool && gt->Ok_0 is Bool
            &&& (lt->Ok_0->Bool_0 == (a < b))
            &&& (if lt->Ok_0->Bool_0 { 1int } else { 0int }) + (if eq->Ok_0->Bool_0 { 1int } else { 0int }) + (if gt->Ok_0->Bool_0 { 1int } else { 0int }) == 1
            &&& le == Ok::<SVal, Seq<u8>>(SVal::Bool(lt->Ok_0->Bool_0 || eq->Ok_0->Bool_0))
            &&& gt == binary_result(BinOp::Lt, y, x)
            &&& ge == binary_result(BinOp::LtEq, y, x)
        }),
{
}

fn op_str(op: BinOp) -> (s: &'static str)
    ensures
        str_bytes(s) == op_text(op),
{
    match op {
        BinOp::Add => "+",
        BinOp::Sub => "-",
        BinOp::Mul => "*",
        BinOp::Div => "/",
        BinOp::Mod => "%",
        BinOp::Eq => "==",
        BinOp::NotEq => "!=",
        BinOp::Lt => "<",
        BinOp::LtEq => "<=",
        BinOp::Gt => ">",
        BinOp::GtEq => ">=",
    }
}

fn bad_operands(op: BinOp, l: &Value, r: &Value, line: u32) -> (e: SfError)
    ensures
        is_runtime_error(e, bad_operands_msg(op, l@, r@), line),
{
    let mut m: Vec<u8> = Vec::new();
    push_str(&mut m, "unsupported operands for '");
    push_str(&mut m, op_str(op));
    push_str(&mut m, "': ");
    push_str(&mut m, l.kind_name());
    push_str(&mut m, " and ");
    push_str(&mut m, r.kind_name());
    assert(m@ =~= bad_operands_msg(op, l@, r@));
    runtime_error(m, line)
}

fn error_text(s: &str, line: u32) -> (e: SfError)
    ensures
        is_runtime_error(e, str_bytes(s), line),
{
    let mut m: Vec<u8> = Vec::new();
    push_str(&mut m, s);
    assert(m@ =~= str_bytes(s));
    runtime_error(m, line)
}

fn number_value(n: i128, line: u32) -> (r: Result<Value, SfError>)
    ensures
        outcome_is(r, number_result(n as int), line),
{
    if -(MAX_SAFE as i128) <= n && n <= MAX_SAFE as i128 {
        Ok(Value::Number(n as i64))
    } else {
        Err(error_text("number out of range", line))
    }
}

/// Spec-level equality of two values, computed.
pub fn values_equal(l: &Value, r: &Value) -> (b: bool)
    ensures
        b == (l@ == r@),
{
    match (l, r) {
        (Value::Number(a), Value::Number(b)) => *a == *b,
        (Value::Bool(a), Value::Bool(b)) => *a == *b,
        (Value::Str(a), Value::Str(b)) => bytes_eq(a.as_slice(), b.as_slice()),
        (Value::Array(a), Value::Array(b)) => *a == *b,
        (Value::Dict(a), Value::Dict(b)) => *a == *b,
        (Value::Nil, Value::Nil) => true,
        _ => false,
    }
}

proof fn lemma_trunc(a: int, b: int, q: int, r: int)
    requires
        b != 0,
        q == abs(a) / abs(b),
        r == abs(a) % abs(b),
    ensures
        trunc_rem(a, b) == 0 <==> r == 0,
        trunc_div(a, b) == (if (a < 0) != (b < 0) { -q } else { q }),
        trunc_rem(a, b) == (if a < 0 { -r } else { r }),
{
    assert(abs(a) == abs(b) * q + r) by (nonlinear_arith)
        requires
            b != 0,
            q == abs(a) / abs(b),
            r == abs(a) % abs(b),
    ;
    if (a < 0) != (b < 0) {
        assert(b * (-q) == -(b * q)) by (nonlinear_arith);
        if a < 0 {
            assert(b * q == abs(b) * q);
        } else {
            assert(b * q == -(abs(b) * q)) by (nonlinear_arith)
                requires
                    b < 0,
            ;
        }
    } else {
        if a < 0 {
            assert(b * q == -(abs(b) * q)) by (nonlinear_arith)
                requires
                    b < 0,
            ;
        } else {
            assert(b * q == abs(b) * q);
        }
    }
}

/// Applies a binary operator.
pub fn eval_binary(op: BinOp, l: &Value, r: &Value, line: u32) -> (res: Result<Value, SfError>)
    ensures
        outcome_is(res, binary_result(op, l@, r@), line),
{
    match op {
        BinOp::Eq => return Ok(Value::Bool(values_equal(l, r))),
        BinOp::NotEq => return Ok(Value::Bool(!values_equal(l, r))),
        _ => {},
    }
    match (l, r) {
        (Value::Number(a), Value::Number(b)) => {
            let a = *a as i128;
            let b = *b as i128;
            match op {
                BinOp::Add => number_value(a + b, line),
                BinOp::Sub => number_value(a - b, line),
                BinOp::Mul => {
                    assert(-0x8000_0000_0000_0000 <= a < 0x8000_0000_0000_0000);
                    assert(-0x4000_0000_0000_0000_0000_0000_0000_0000 < a * b < 0x4000_0000_0000_0000_0000_0000_0000_0001) by (nonlinear_arith)
                        requires
                            -0x8000_0000_0000_0000 <= a < 0x8000_0000_0000_0000,
                            -0x8000_0000_0000_0000 <= b < 0x8000_0000_0000_0000,
                    ;
                    number_value(a * b, line)
                },
                BinOp::Div | BinOp::Mod => {
                    if b == 0 {
                        if op == BinOp::Div {
                            return Err(error_text("division by zero", line));
                        } else {
                            return Err(error_text("modulo by zero", line));
                        }
                    }
                    let ua: u128 = if a < 0 { (-a) as u128 } else { a as u128 };
                    let ub: u128 = if b < 0 { (-b) as u128 } else { b as u128 };
                    let q = ua / ub;
                    let m = ua % ub;
                    proof {
                        lemma_trunc(a as int, b as int, q as int, m as int);
                    }
                    if op == BinOp::Div {
                        if m != 0 {
                            return Err(error_text("division result is not an integer", line));
                        }
                        let sq: i128 = if (a < 0) != (b < 0) { -(q as i128) } else { q as i128 };
                        number_value(sq, line)
                    } else {
                        let sm: i128 = if a < 0 { -(m as i128) } else { m as i128 };
                        number_value(sm, line)
                    }
                },
                BinOp::Lt => Ok(Value::Bool(a < b)),
                BinOp::LtEq => Ok(Value::Bool(a <= b)),
                BinOp::Gt => Ok(Value::Bool(a > b)),
                BinOp::GtEq => Ok(Value::Bool(a >= b)),
                _ => Ok(Value::Nil),
            }
        },
        (Value::Str(a), Value::Str(b)) => {
            if op == BinOp::Add {
                let mut s = copy_bytes(a);
                push_bytes(&mut s, b.as_slice());
                Ok(Value::Str(s))
            } else {
                Err(bad_operands(op, l, r, line))
            }
        },
        _ => Err(bad_operands(op, l, r, line)),
    }
}

} // verus!
