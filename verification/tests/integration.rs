use stackforge::{run_ast, run_vm};

const FIBONACCI: &str = "// Recursive fibonacci of 0..9.
fn fib(n) {
    if (n < 2) { return n; }
    return fib(n - 1) + fib(n - 2);
}
for (let i = 0; i < 10; i = i + 1) {
    print fib(i);
}
";

const FACTORIAL: &str = "fn factorial(n) {
    if (n <= 1) { return 1; }
    return n * factorial(n - 1);
}
print factorial(10);
";

const ACCUMULATOR: &str = "let sum = 0;
let i = 1;
while (i <= 100) {
    sum = sum + i;
    i = i + 1;
}
print sum;
";

const MUTUAL_RECURSION: &str = "fn is_even(n) {
    if (n == 0) { return true; }
    return is_odd(n - 1);
}
fn is_odd(n) {
    if (n == 0) { return false; }
    return is_even(n - 1);
}
print is_even(10);
print is_odd(10);
print is_even(7);
print is_odd(7);
";

const ARRAYS_AND_MAPS: &str = "let squares = [];
for (let i = 0; i < 5; i = i + 1) {
    push(squares, i * i);
}
print squares;
let m = {\"name\": \"stackforge\", \"version\": 1};
print m[\"name\"], m[\"version\"];
let total = 0;
let ks = keys(m);
let nums = [10, 20];
total = nums[0] + nums[1];
print total;
";

const DEMO: &str = "fn fib(n) {
    if (n < 2) { return n; }
    return fib(n - 1) + fib(n - 2);
}
fn factorial(n) {
    if (n <= 1) { return 1; }
    return n * factorial(n - 1);
}
fn is_even(n) {
    if (n == 0) { return true; }
    return is_odd(n - 1);
}
fn is_odd(n) {
    if (n == 0) { return false; }
    return is_even(n - 1);
}
print \"=== fibonacci(0..9) ===\";
for (let i = 0; i < 10; i = i + 1) { print fib(i); }
print \"=== factorial(10) ===\";
print factorial(10);
print \"=== accumulator: sum 1..100 ===\";
let sum = 0;
for (let i = 1; i <= 100; i = i + 1) { sum = sum + i; }
print sum;
print \"=== mutual recursion: is_even/is_odd ===\";
print is_even(10), is_odd(10), is_even(7), is_odd(7);
print \"=== arrays and maps ===\";
let squares = [];
for (let i = 0; i < 5; i = i + 1) { push(squares, i * i); }
print squares;
let m = {\"name\": \"stackforge\", \"version\": 1};
print m[\"name\"], m[\"version\"];
print \"=== done ===\";
";

const ERROR_SYNTAX: &str = "// A program with a syntax error on line 7.
let a = 1;
let b = 2;
print a + b;

// the binding below has no name
let = 5;
print a;
";

const ERROR_RUNTIME: &str = "// divide(10, 2) prints 5; divide(1, 0) is a runtime error
// raised at the division on line 6.


fn divide(a, b) {
    return a / b;
}
print divide(10, 2);
print divide(1, 0);
";

fn assert_both_backends_output(src: &str, expected: &str) {
    let mut ast_out = Vec::new();
    run_ast(src, &mut ast_out).expect("ast interpreter should succeed");
    assert_eq!(String::from_utf8(ast_out).unwrap(), expected, "ast interpreter output mismatch");

    let mut vm_out = Vec::new();
    run_vm(src, &mut vm_out).expect("bytecode vm should succeed");
    assert_eq!(String::from_utf8(vm_out).unwrap(), expected, "bytecode vm output mismatch");
}

#[test]
fn recursive_fibonacci_prints_first_ten_terms() {
    assert_both_backends_output(FIBONACCI, "0\n1\n1\n2\n3\n5\n8\n13\n21\n34\n");
}

#[test]
fn recursive_factorial_of_ten() {
    assert_both_backends_output(FACTORIAL, "3628800\n");
}

#[test]
fn accumulator_loop_sums_one_to_one_hundred() {
    assert_both_backends_output(ACCUMULATOR, "5050\n");
}

#[test]
fn mutually_recursive_functions_agree_on_parity() {
    assert_both_backends_output(MUTUAL_RECURSION, "true\nfalse\nfalse\ntrue\n");
}

#[test]
fn arrays_and_maps_program_produces_expected_values() {
    assert_both_backends_output(ARRAYS_AND_MAPS, "[0, 1, 4, 9, 16]\nstackforge 1\n30\n");
}

#[test]
fn full_demo_program_runs_end_to_end_on_both_backends() {
    let expected = "=== fibonacci(0..9) ===\n\
0\n1\n1\n2\n3\n5\n8\n13\n21\n34\n\
=== factorial(10) ===\n\
3628800\n\
=== accumulator: sum 1..100 ===\n\
5050\n\
=== mutual recursion: is_even/is_odd ===\n\
true false false true\n\
=== arrays and maps ===\n\
[0, 1, 4, 9, 16]\n\
stackforge 1\n\
=== done ===\n";
    assert_both_backends_output(DEMO, expected);
}

#[test]
fn syntax_error_is_reported_with_correct_line_and_not_a_panic() {
    let mut out = Vec::new();
    let err = run_vm(ERROR_SYNTAX, &mut out).expect_err("malformed program must not succeed");
    let msg = err.to_string();
    assert!(msg.contains("line 7"), "expected the error to point at line 7, got: {}", msg);
    assert_eq!(err.phase(), "syntax error");

    let mut out2 = Vec::new();
    let err2 = run_ast(ERROR_SYNTAX, &mut out2).expect_err("malformed program must not succeed on ast backend either");
    assert_eq!(err.to_string(), err2.to_string());
}

#[test]
fn division_by_zero_is_a_handled_runtime_error_on_both_backends() {
    let mut vm_out = Vec::new();
    let vm_err = run_vm(ERROR_RUNTIME, &mut vm_out).expect_err("division by zero must not succeed");
    assert_eq!(vm_err.phase(), "runtime error");
    assert_eq!(vm_err.line(), 6);
    assert!(vm_err.to_string().contains("division by zero"));
    assert_eq!(String::from_utf8(vm_out).unwrap(), "5\n");

    let mut ast_out = Vec::new();
    let ast_err = run_ast(ERROR_RUNTIME, &mut ast_out).expect_err("division by zero must not succeed");
    assert_eq!(ast_err.phase(), "runtime error");
    assert_eq!(ast_err.line(), 6);
    assert_eq!(String::from_utf8(ast_out).unwrap(), "5\n");
}

#[test]
fn undefined_variable_is_a_compile_time_error_for_the_vm() {
    let mut out = Vec::new();
    let err = run_vm("print totally_undefined_name;", &mut out).unwrap_err();
    assert_eq!(err.phase(), "compile error");
}

#[test]
fn array_index_out_of_bounds_is_a_handled_runtime_error() {
    let mut out = Vec::new();
    let err = run_vm("let a = [1, 2, 3];\nlet x = a[10];\n", &mut out).unwrap_err();
    assert_eq!(err.phase(), "runtime error");
    assert_eq!(err.line(), 2);
}
