use stackforge::{run_ast, run_vm};

fn run_both(src: &str) -> (Result<(), String>, Vec<u8>, Result<(), String>, Vec<u8>) {
    let mut ast_out = Vec::new();
    let ast_result = run_ast(src, &mut ast_out).map_err(|e| e.to_string());
    let mut vm_out = Vec::new();
    let vm_result = run_vm(src, &mut vm_out).map_err(|e| e.to_string());
    (ast_result, ast_out, vm_result, vm_out)
}

#[test]
fn straight_line_script_prints_alike_on_both_back_ends() {
    let src = "let x = 6;\nlet y = x * 7;\nprint x, y, -x + y;\nx = x + 1;\nprint x, x == 7, !(y < x);\nlet x = \"a\" + \"b\";\nprint x, nil;\n";
    let (ast_result, ast_out, vm_result, vm_out) = run_both(src);
    assert_eq!(ast_result, Ok(()));
    assert_eq!(vm_result, Ok(()));
    assert_eq!(ast_out, b"6 42 36\n7 true true\nab nil\n".to_vec());
    assert_eq!(vm_out, ast_out);
}

#[test]
fn straight_line_script_fails_alike_on_both_back_ends() {
    let src = "let a = 10;\nprint a;\nprint a, a / 0;\nprint 99;\n";
    let (ast_result, ast_out, vm_result, vm_out) = run_both(src);
    assert_eq!(ast_result, Err("runtime error: division by zero (line 3)".to_string()));
    assert_eq!(vm_result, ast_result);
    assert_eq!(ast_out, b"10\n".to_vec());
    assert_eq!(vm_out, ast_out);
}

#[test]
fn assignment_inside_print_is_seen_alike_by_both_back_ends() {
    let src = "let n = 1;\nprint n, n = n + 1, n * 10;\nprint n;\n";
    let (ast_result, ast_out, vm_result, vm_out) = run_both(src);
    assert_eq!(ast_result, Ok(()));
    assert_eq!(vm_result, Ok(()));
    assert_eq!(ast_out, b"1 2 20\n2\n".to_vec());
    assert_eq!(vm_out, ast_out);
}

#[test]
fn accumulator_loop_runs_alike_on_both_back_ends() {
    let src = "let sum = 0;\nlet i = 1;\nwhile (i <= 100) {\n    sum = sum + i;\n    i = i + 1;\n}\nprint sum;\n";
    let (ast_result, ast_out, vm_result, vm_out) = run_both(src);
    assert_eq!(ast_result, Ok(()));
    assert_eq!(vm_result, Ok(()));
    assert_eq!(ast_out, b"5050\n".to_vec());
    assert_eq!(vm_out, ast_out);
}

#[test]
fn blocks_branches_and_logic_run_alike_on_both_back_ends() {
    let src = "let a = 1;\n{\n    let a = 2;\n    print a;\n    a = 5;\n}\nprint a;\nlet b = 1;\n{ b = 7; }\nprint b;\nif (b > 2 && b < 9) { print \"mid\"; } else { print \"out\"; }\nif (b == 0 || !false) { let c = b * 2; print c; }\nfor (let i = 0; i < 3; i = i + 1) { print i; }\nprint false || nil, true && 0;\n";
    let (ast_result, ast_out, vm_result, vm_out) = run_both(src);
    assert_eq!(ast_result, Ok(()));
    assert_eq!(vm_result, Ok(()));
    assert_eq!(ast_out, b"2\n1\n7\nmid\n14\n0\n1\n2\nnil 0\n".to_vec());
    assert_eq!(vm_out, ast_out);
}

#[test]
fn error_inside_a_loop_is_reported_alike_by_both_back_ends() {
    let src = "let i = 3;\nwhile (i >= 0) {\n    print 6 / i;\n    i = i - 1;\n}\n";
    let (ast_result, ast_out, vm_result, vm_out) = run_both(src);
    assert_eq!(ast_result, Err("runtime error: division by zero (line 3)".to_string()));
    assert_eq!(vm_result, ast_result);
    assert_eq!(ast_out, b"2\n3\n6\n".to_vec());
    assert_eq!(vm_out, ast_out);
}

#[test]
fn map_keys_stay_distinct_after_writes() {
    let src = "let m = {\"a\": 1, \"b\": 2};\nm[\"a\"] = 3;\nm[\"c\"] = 4;\nprint len(m), len(keys(m)), m[\"a\"];\n";
    let (ast_result, ast_out, vm_result, vm_out) = run_both(src);
    assert_eq!(ast_result, Ok(()));
    assert_eq!(vm_result, Ok(()));
    assert_eq!(ast_out, b"3 3 3\n".to_vec());
    assert_eq!(vm_out, ast_out);
}

#[test]
fn repeated_map_key_keeps_the_last_value_on_both_back_ends() {
    let src = "let m = {\"a\": 1, \"b\": 2, \"a\": 3};\nprint m[\"a\"], len(m);\n";
    let (ast_result, ast_out, vm_result, vm_out) = run_both(src);
    assert_eq!(ast_result, Ok(()));
    assert_eq!(vm_result, Ok(()));
    assert_eq!(ast_out, b"3 2\n".to_vec());
    assert_eq!(vm_out, ast_out);
}
