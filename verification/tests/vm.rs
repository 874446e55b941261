use stackforge::compiler::compile;
use stackforge::parser::parse;
use stackforge::vm::Vm;
use stackforge::SfError;

fn run_capture(src: &str) -> String {
    let program = parse(src).unwrap();
    let functions = compile(&program).unwrap();
    let mut out = Vec::new();
    let mut vm = Vm::new(functions);
    vm.run(&mut out).unwrap();
    String::from_utf8(out).unwrap()
}

#[test]
fn runs_straight_line_arithmetic() {
    assert_eq!(run_capture("print 1 + 2 * 3;"), "7\n");
}

#[test]
fn runs_recursive_fibonacci() {
    let src = r#"
        fn fib(n) {
            if (n < 2) { return n; }
            return fib(n - 1) + fib(n - 2);
        }
        print fib(10);
    "#;
    assert_eq!(run_capture(src), "55\n");
}

#[test]
fn stack_is_balanced_after_a_full_program() {
    let src = r#"
        fn add(a, b) { return a + b; }
        let total = 0;
        for (let i = 0; i < 10; i = i + 1) {
            total = add(total, i);
        }
        let arr = [1, 2, 3];
        arr[0] = 99;
        let m = {"a": 1, "b": 2};
        if (total > 0 && len(arr) == 3) {
            print total, arr[0], m["a"];
        }
    "#;
    let program = parse(src).unwrap();
    let functions = compile(&program).unwrap();
    let mut out = Vec::new();
    let mut vm = Vm::new(functions);
    vm.run(&mut out).unwrap();
    assert_eq!(vm.stack.len(), 0, "operand stack leaked values: {:?}", vm.stack);
    assert_eq!(String::from_utf8(out).unwrap(), "45 99 1\n");
}

#[test]
fn division_by_zero_is_a_runtime_error_with_line() {
    let program = parse("let x = 1;\nlet y = x / 0;").unwrap();
    let functions = compile(&program).unwrap();
    let mut out = Vec::new();
    let mut vm = Vm::new(functions);
    let err = vm.run(&mut out).unwrap_err();
    match err {
        SfError::Runtime { line, .. } => assert_eq!(line, 2),
        other => panic!("expected Runtime error, got {:?}", other),
    }
}

#[test]
fn array_out_of_bounds_is_a_runtime_error() {
    let program = parse("let a = [1, 2]; let x = a[5];").unwrap();
    let functions = compile(&program).unwrap();
    let mut out = Vec::new();
    let mut vm = Vm::new(functions);
    assert!(matches!(vm.run(&mut out).unwrap_err(), SfError::Runtime { .. }));
}

#[test]
fn vm_stack_len_accessor_reports_empty_stack_after_success() {
    let program = parse("let a = 1; { let b = 2; print a + b; }").unwrap();
    let functions = compile(&program).unwrap();
    let mut out = Vec::new();
    let mut vm = Vm::new(functions);
    vm.run(&mut out).unwrap();
    assert_eq!(vm.stack_len(), 0);
    assert_eq!(out, b"3\n".to_vec());
}

#[test]
fn vm_with_no_functions_reports_a_runtime_error() {
    let mut vm = Vm::new(Vec::new());
    let mut out = Vec::new();
    assert!(matches!(vm.run(&mut out).unwrap_err(), SfError::Runtime { line: 0, .. }));
}
