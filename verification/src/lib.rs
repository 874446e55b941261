//! Stackforge: a small dynamically typed scripting language. Source text is
//! lexed, parsed into an AST, and executed either by a tree-walking
//! interpreter or by a compiler to bytecode and a stack-based VM.
pub mod agree;
pub mod ast;
pub mod builtins;
pub mod chunk;
pub mod codegen;
pub mod compiler;
pub mod error;
pub mod grammar;
pub mod heap;
pub mod interpreter;
pub mod lexer;
pub mod parser;
pub mod text;
pub mod token;
pub mod value;
pub mod vm;

pub use error::{SfError, SfResult};

use vstd::prelude::*;
use crate::ast::{program_view, Program};
use crate::agree::{
    lemma_code_prefix_trans, lemma_emit_prefix, lemma_runs_frames, lemma_simple_block_compiles, lemma_simple_block_runs,
    lemma_step_at, lemma_steps_add, lemma_steps_run_or_limit, locals_agree, name_matches, runs_code, simple_stmts,
    slot_value,
};
use crate::chunk::OpCode;
use crate::codegen::{cblock, compile_result, decl_table, emit, finish, initial, lemma_compiled_consts_plain, plain_consts, CState};
use crate::compiler::err_as;
use crate::grammar::program;
use crate::interpreter::{exec_block, IState, FUEL};
use crate::lexer::{lex_error_is, lex_result, source_fits};
use crate::parser::err_is;
use crate::text::{extends, lemma_extends_refl, str_bytes};
use crate::value::{is_runtime_error, SVal};
use crate::heap::{dict_get, heap_ok};
use crate::vm::{
    funs_view, initial_state, push, set_ip, lemma_run_keeps_ok, run_result, stack_ok, vm_state_ok, FunView, Vm, STEP_LIMIT,
};

verus! {

/// What the tree-walking interpreter makes of the program `p`, run with an
/// empty heap after `out0` was printed: `out1` is all that is printed then,
/// and `r` the outcome.
pub open spec fn interpreted(p: Program, out0: Seq<u8>, r: Result<(), SfError>, out1: Seq<u8>) -> bool {
    let start = IState { scopes: seq![Seq::<(Seq<u8>, SVal)>::empty()], heap: Seq::empty(), out: out0 };
    let (st, spec) = exec_block(p.functions@, FUEL as nat, p.main, 0, start);
    &&& out1 == st.out
    &&& match spec {
        Ok(_) => r is Ok,
        Err((m, l)) => r is Err && is_runtime_error(r->Err_0, m, l),
    }
}

/// The function table the VM runs for the program `p` whose code is `cs`:
/// the script at index 0, then the declared functions in order.
pub open spec fn program_funs(p: Program, cs: Seq<CState>) -> Seq<FunView> {
    Seq::new(cs.len(), |k: int| FunView {
        name: if k == 0 { str_bytes("<script>") } else { p.functions@[k - 1].name@ },
        arity: if k == 0 { 0 } else { p.functions@[k - 1].params@.len() },
        code: cs[k].code,
        lines: cs[k].lines,
        consts: cs[k].consts,
    })
}

/// What the VM makes of the function table `fs`, run from the script after
/// `out0` was printed: `out1` is all that is printed then, and `r` the outcome.
pub open spec fn vm_ran(fs: Seq<FunView>, out0: Seq<u8>, r: Result<(), SfError>, out1: Seq<u8>) -> bool {
    let spec = run_result(fs, initial_state(out0), STEP_LIMIT as nat);
    &&& out1 == spec.1
    &&& match spec.0 {
        Ok(_) => r is Ok,
        Err((m, l)) => r is Err && is_runtime_error(r->Err_0, m, l),
    }
}

/// What compiling the program `p` and running it on the VM comes to: the
/// compile error with nothing printed, or the run of its code.
pub open spec fn compiled_and_ran(p: Program, out0: Seq<u8>, r: Result<(), SfError>, out1: Seq<u8>) -> bool {
    match compile_result(p) {
        Err(x) => r is Err && err_as(r->Err_0, x) && out1 == out0,
        Ok(cs) => vm_ran(program_funs(p, cs), out0, r, out1),
    }
}

/// What running the source text `src` with the tree-walking interpreter
/// comes to, after `out0` was printed: its lexical or syntax error with
/// nothing printed, or what the interpreter makes of the program read.
pub open spec fn ast_run(src: Seq<u8>, out0: Seq<u8>, r: Result<(), SfError>, out1: Seq<u8>) -> bool {
    match lex_result(src) {
        Err(le) => r is Err && lex_error_is(r->Err_0, le) && out1 == out0,
        Ok(ts) => match program(ts) {
            Err(pe) => r is Err && err_is(r->Err_0, pe) && out1 == out0,
            Ok(sp) => exists|p: Program| #![trigger program_view(p)]
                program_view(p) == sp && interpreted(p, out0, r, out1),
        },
    }
}

/// What compiling and running the source text `src` on the VM comes to,
/// after `out0` was printed: its lexical or syntax error with nothing
/// printed, or what compiling and running the program read comes to.
pub open spec fn vm_run(src: Seq<u8>, out0: Seq<u8>, r: Result<(), SfError>, out1: Seq<u8>) -> bool {
    match lex_result(src) {
        Err(le) => r is Err && lex_error_is(r->Err_0, le) && out1 == out0,
        Ok(ts) => match program(ts) {
            Err(pe) => r is Err && err_is(r->Err_0, pe) && out1 == out0,
            Ok(sp) => exists|p: Program| #![trigger program_view(p)]
                program_view(p) == sp && compiled_and_ran(p, out0, r, out1),
        },
    }
}

/// Both back ends read a source text alike: on one that does not lex or
/// parse, they report the same error, of the same phase and line, and
/// print nothing.
pub proof fn lemma_back_ends_agree_on_syntax_errors(
    src: Seq<u8>,
    out0: Seq<u8>,
    ra: Result<(), SfError>,
    oa: Seq<u8>,
    rv: Result<(), SfError>,
    ov: Seq<u8>,
)
    requires
        ast_run(src, out0, ra, oa),
        vm_run(src, out0, rv, ov),
        lex_result(src) is Err || program(lex_result(src)->Ok_0) is Err,
    ensures
        ra is Err && rv is Err,
        ra->Err_0.spec_message() == rv->Err_0.spec_message(),
        ra->Err_0.spec_line() == rv->Err_0.spec_line(),
        ra->Err_0.phase_text() == rv->Err_0.phase_text(),
        oa == out0 && ov == out0,
{
}

/// The outcome `r` is a run that gave up after its step limit.
pub open spec fn ran_out(r: Result<(), SfError>) -> bool {
    r is Err && r->Err_0.spec_message() == str_bytes("step limit exceeded") && r->Err_0.spec_line() == 0
}

/// Both back ends run alike a program that compiles and whose script makes
/// no calls and builds no arrays or maps (its statements are `let`s,
/// `print`s, expression statements, blocks, `if`s and `while`s, over
/// literals and variables with unary, binary and logical operators and
/// assignments), when neither runs out of steps: they print the same text,
/// and either both succeed or both fail with a runtime error of the same
/// message and line.
#[verifier::rlimit(60)]
pub proof fn lemma_back_ends_agree_on_call_free_scripts(
    p: Program,
    out0: Seq<u8>,
    ra: Result<(), SfError>,
    oa: Seq<u8>,
    rv: Result<(), SfError>,
    ov: Seq<u8>,
)
    requires
        simple_stmts(p.main@, 0),
        compile_result(p) is Ok,
        compile_result(p)->Ok_0[0].code.len() < usize::MAX,
        compile_result(p)->Ok_0[0].consts.len() <= usize::MAX,
        interpreted(p, out0, ra, oa),
        compiled_and_ran(p, out0, rv, ov),
        !ran_out(ra),
        !ran_out(rv),
    ensures
        oa == ov,
        ra is Ok <==> rv is Ok,
        ra is Err ==> ra->Err_0.spec_message() == rv->Err_0.spec_message() && ra->Err_0.spec_line()
            == rv->Err_0.spec_line() && ra->Err_0.phase_text() == rv->Err_0.phase_text(),
{
    let cs = compile_result(p)->Ok_0;
    let fs = program_funs(p, cs);
    let tab = decl_table(p.functions@);
    let st0 = initial(Seq::empty());
    let m = cblock(tab, st0, p.main@, 0)->Ok_0;
    assert(cblock(tab, st0, p.main@, 0) is Ok && cs[0] == finish(m));
    assert(st0.locals =~= Seq::<(Seq<u8>, u32)>::empty());
    let fin = finish(m);
    let n = m.code.len() as int;
    lemma_simple_block_compiles(tab, st0, p.main@, 0);
    lemma_emit_prefix(m, OpCode::PushNil, 0);
    lemma_emit_prefix(emit(m, OpCode::PushNil, 0), OpCode::Return, 0);
    lemma_code_prefix_trans(m, emit(m, OpCode::PushNil, 0), fin);
    let s0 = initial_state(out0);
    let ist0 = IState { scopes: seq![Seq::<(Seq<u8>, SVal)>::empty()], heap: Seq::empty(), out: out0 };
    assert(fs[0].code == fin.code && fs[0].lines == fin.lines && fs[0].consts == fin.consts);
    assert(runs_code(fs, s0, m, 0));
    assert(locals_agree(st0.locals, s0.stack, ist0.scopes)) by {
        assert forall|nm: Seq<u8>| #[trigger] name_matches(st0.locals, s0.stack, ist0.scopes, nm) by {
            assert forall|d: int| 0 <= d < ist0.scopes.len() implies #[trigger] dict_get(ist0.scopes[d], nm)
                == slot_value(st0.locals, s0.stack, nm, d) by {
                assert(ist0.scopes[d] == Seq::<(Seq<u8>, SVal)>::empty());
            }
        }
    }
    let (sa, k) = lemma_simple_block_runs(fs, tab, st0, p.main, 0, s0, p.functions@, FUEL as nat, ist0);
    let (ist2, r) = exec_block(p.functions@, FUEL as nat, p.main, 0, ist0);
    match r {
        Ok(_) => {
            lemma_runs_frames(fs, s0, sa, fin, 0, n);
            lemma_step_at(fs, sa, fin, n);
            let sb = push(set_ip(sa, (n + 1) as usize), SVal::Nil);
            assert(runs_code(fs, sb, fin, n + 1));
            lemma_step_at(fs, sb, fin, n + 1);
            lemma_steps_add(fs, sa, 1, 1);
            lemma_steps_add(fs, s0, k, 2);
            lemma_steps_run_or_limit(fs, s0, k + 2, STEP_LIMIT as nat);
        },
        Err(_) => {
            lemma_steps_run_or_limit(fs, s0, k, STEP_LIMIT as nat);
        },
    }
}

/// On the code the compiler emits, the VM keeps every reference well
/// formed: a run of a compiled program that ends leaves a heap and a stack
/// whose references all name objects of their kind.
pub proof fn lemma_compiled_runs_keep_refs_ok(p: Program, out0: Seq<u8>)
    requires
        compile_result(p) is Ok,
    ensures
        run_result(program_funs(p, compile_result(p)->Ok_0), initial_state(out0), STEP_LIMIT as nat).0 matches Ok(s2)
            ==> vm_state_ok(s2),
{
    let cs = compile_result(p)->Ok_0;
    let fs = program_funs(p, cs);
    lemma_compiled_consts_plain(p);
    assert forall|f: int, k: int| 0 <= f < fs.len() && 0 <= k < fs[f].consts.len()
        implies !(#[trigger] fs[f].consts[k] is Arr) && !(fs[f].consts[k] is Dict) by {
        assert(plain_consts(cs[f]));
        assert(fs[f].consts == cs[f].consts);
    }
    let s0 = initial_state(out0);
    assert(heap_ok(s0.heap));
    assert(stack_ok(s0.heap, s0.stack));
    lemma_run_keeps_ok(fs, s0, STEP_LIMIT as nat);
}

/// Parses and runs `src` with the tree-walking interpreter, appending every
/// `print` line to `out`.
pub fn run_ast(src: &str, out: &mut Vec<u8>) -> (r: SfResult<()>)
    requires
        source_fits(str_bytes(src)),
    ensures
        ast_run(str_bytes(src), old(out)@, r, final(out)@),
        extends(old(out)@, final(out)@),
{
    proof {
        lemma_extends_refl(old(out)@);
    }
    let program = parser::parse(src)?;
    let mut interp = interpreter::Interpreter::new();
    proof {
        assert(interp.heap@ =~= Seq::empty());
        let start = IState { scopes: seq![Seq::<(Seq<u8>, SVal)>::empty()], heap: Seq::empty(), out: out@ };
        crate::interpreter::lemma_block_appends(program.functions@, FUEL as nat, program.main, 0, start);
    }
    let r = interp.run(&program, out);
    assert(program_view(program) == program_view(program));
    r
}

/// Parses, compiles to bytecode, and runs `src` on the stack-based VM,
/// appending every `print` line to `out`.
pub fn run_vm(src: &str, out: &mut Vec<u8>) -> (r: SfResult<()>)
    requires
        source_fits(str_bytes(src)),
    ensures
        vm_run(str_bytes(src), old(out)@, r, final(out)@),
        extends(old(out)@, final(out)@),
{
    proof {
        lemma_extends_refl(old(out)@);
    }
    let program = parser::parse(src)?;
    let functions = match compiler::compile(&program) {
        Ok(f) => f,
        Err(e) => {
            assert(program_view(program) == program_view(program));
            return Err(e);
        },
    };
    let ghost fs = functions@;
    proof {
        let cs = compile_result(program)->Ok_0;
        assert(funs_view(fs) =~= program_funs(program, cs)) by {
            assert forall|k: int| 0 <= k < fs.len() implies #[trigger] funs_view(fs)[k] == program_funs(program, cs)[k] by {
                assert(crate::compiler::chunk_is(fs[k].chunk, cs[k]));
                if k > 0 {
                    assert(fs[(k - 1) + 1] == fs[k]);
                }
            }
        }
    }
    let mut machine = Vm::new(functions);
    proof {
        assert(crate::vm::start_state(machine, out@) =~= initial_state(out@));
        crate::vm::lemma_run_appends(funs_view(fs), initial_state(out@), STEP_LIMIT as nat);
    }
    let r = machine.run(out);
    assert(vm_ran(funs_view(fs), old(out)@, r, out@));
    assert(program_view(program) == program_view(program));
    r
}

} // verus!
