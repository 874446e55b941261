use stackforge::chunk::OpCode;
use stackforge::compiler::compile;
use stackforge::parser::parse;
use stackforge::{run_ast, run_vm, SfError};

fn compile_failure_of(src: &str) -> (String, u32) {
    match compile(&parse(src).unwrap()) {
        Err(SfError::Compile { message, line }) => (String::from_utf8(message).unwrap(), line),
        other => panic!("expected a compile error, got {:?}", other.map(|f| f.len())),
    }
}

#[test]
fn script_is_function_zero_and_declarations_follow() {
    let fs = compile(&parse("fn f(a) { return a; } fn g() { } print 1;").unwrap()).unwrap();
    assert_eq!(fs.len(), 3);
    assert_eq!(fs[0].name, b"<script>".to_vec());
    assert_eq!(fs[0].arity, 0);
    assert_eq!(fs[1].name, b"f".to_vec());
    assert_eq!(fs[1].arity, 1);
    assert_eq!(fs[2].name, b"g".to_vec());
    for f in &fs {
        assert_eq!(*f.chunk.code.last().unwrap(), OpCode::Return);
        assert_eq!(f.chunk.code.len(), f.chunk.lines.len());
    }
}

#[test]
fn straight_line_code_is_exact() {
    let fs = compile(&parse("print 1 + 2;").unwrap()).unwrap();
    assert_eq!(
        fs[0].chunk.code,
        vec![OpCode::PushConst(0), OpCode::PushConst(1), OpCode::Add, OpCode::Print(1), OpCode::PushNil, OpCode::Return]
    );
    assert_eq!(fs[0].chunk.lines, vec![0, 0, 1, 1, 0, 0]);
}

#[test]
fn while_loops_jump_back_and_out() {
    let fs = compile(&parse("let i = 0; while (i < 2) { i = i + 1; }").unwrap()).unwrap();
    assert_eq!(
        fs[0].chunk.code,
        vec![
            OpCode::PushConst(0),
            OpCode::GetLocal(0),
            OpCode::PushConst(1),
            OpCode::Lt,
            OpCode::JumpIfFalse(11),
            OpCode::GetLocal(0),
            OpCode::PushConst(2),
            OpCode::Add,
            OpCode::SetLocal(0),
            OpCode::Pop,
            OpCode::Jump(1),
            OpCode::PushNil,
            OpCode::Return,
        ]
    );
}

#[test]
fn block_locals_are_popped_at_the_end_of_the_block() {
    let fs = compile(&parse("{ let a = 1; let b = 2; }").unwrap()).unwrap();
    assert_eq!(
        fs[0].chunk.code,
        vec![OpCode::PushConst(0), OpCode::PushConst(1), OpCode::Pop, OpCode::Pop, OpCode::PushNil, OpCode::Return]
    );
}

#[test]
fn builtin_names_cannot_be_redefined() {
    assert_eq!(
        compile_failure_of("fn len(x) { return 1; }"),
        ("cannot define a function with the builtin name 'len'".to_string(), 1)
    );
    let mut out = Vec::new();
    let e = run_vm("print 1;\nfn push(a, b) { }", &mut out).unwrap_err();
    assert_eq!(e.phase(), "compile error");
    assert!(out.is_empty());
}

#[test]
fn undefined_names_are_compile_failure_ofs() {
    assert_eq!(compile_failure_of("print y;"), ("undefined variable 'y'".to_string(), 1));
    assert_eq!(compile_failure_of("\nz = 1;"), ("assignment to undefined variable 'z'".to_string(), 2));
    assert_eq!(compile_failure_of("print f(1);"), ("undefined function 'f'".to_string(), 1));
}

#[test]
fn the_interpreter_reports_undefined_names_when_it_meets_them() {
    let mut out = Vec::new();
    let e = run_ast("print 1;\nprint y;", &mut out).unwrap_err();
    assert_eq!(e.phase(), "runtime error");
    assert_eq!(e.line(), 2);
    assert_eq!(String::from_utf8(out).unwrap(), "1\n");
}
