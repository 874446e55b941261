use stackforge::{run_ast, run_vm, SfError};

fn both(src: &str) -> String {
    let mut a = Vec::new();
    run_ast(src, &mut a).expect("ast interpreter should succeed");
    let mut v = Vec::new();
    run_vm(src, &mut v).expect("bytecode vm should succeed");
    let a = String::from_utf8(a).unwrap();
    let v = String::from_utf8(v).unwrap();
    assert_eq!(a, v, "the two back ends disagree");
    a
}

fn runtime_error_both(src: &str) -> (String, u32) {
    let mut a = Vec::new();
    let ea = run_ast(src, &mut a).unwrap_err();
    let mut v = Vec::new();
    let ev = run_vm(src, &mut v).unwrap_err();
    assert_eq!(ea, ev, "the two back ends report different errors");
    match ea {
        SfError::Runtime { message, line } => (String::from_utf8(message).unwrap(), line),
        other => panic!("expected a runtime error, got {:?}", other),
    }
}

#[test]
fn precedence_and_left_associativity_give_the_expected_numbers() {
    assert_eq!(both("print 2 + 3 * 4, 10 - 3 - 2, (2 + 3) * 4;"), "14 5 20\n");
}

#[test]
fn zero_is_truthy_and_nil_is_falsy() {
    assert_eq!(both("if (0) { print \"yes\"; } if (nil) { print 1; } else { print \"no\"; }"), "yes\nno\n");
    assert_eq!(both("print !0, !nil, !false;"), "false true true\n");
}

#[test]
fn logical_operators_short_circuit_and_keep_operands() {
    assert_eq!(both("print false && 1 / 0, true || 1 / 0, nil || 7, 3 && 4;"), "false true 7 4\n");
}

#[test]
fn arrays_are_shared_by_reference() {
    assert_eq!(both("let a = [1, 2]; let b = a; b[0] = 9; print a;"), "[9, 2]\n");
}

#[test]
fn map_reads_give_back_the_last_write() {
    assert_eq!(both("let m = {}; m[\"k\"] = 1; m[\"k\"] = 2; print m[\"k\"], m[\"z\"], len(m);"), "2 nil 1\n");
}

#[test]
fn pop_undoes_push() {
    assert_eq!(both("let a = [1]; push(a, 5); print len(a); print pop(a); print a, len(a);"), "2\n5\n[1] 1\n");
    assert_eq!(both("print pop([]);"), "nil\n");
}

#[test]
fn keys_come_out_sorted() {
    assert_eq!(both("print keys({\"b\": 1, \"a\": 2, \"c\": 3});"), "[a, b, c]\n");
}

#[test]
fn maps_print_in_key_order() {
    assert_eq!(both("print {\"b\": 1, \"a\": [true, nil]};"), "{a: [true, nil], b: 1}\n");
}

#[test]
fn strings_concatenate_and_count_characters() {
    assert_eq!(both("print \"ab\" + \"cd\", len(\"h\u{e9}llo\"), \"d\u{e9}j\u{e0}\";"), "abcd 5 d\u{e9}j\u{e0}\n");
}

#[test]
fn integer_division_and_remainder_truncate_toward_zero() {
    assert_eq!(both("print 6 / 3, -7 % 3, 7 % -3, -6 / 3;"), "2 -1 1 -2\n");
}

#[test]
fn division_without_an_integer_result_is_an_error() {
    assert_eq!(runtime_error_both("print 7 / 2;"), ("division result is not an integer".to_string(), 1));
}

#[test]
fn modulo_by_zero_is_an_error() {
    assert_eq!(runtime_error_both("let x = 0;\nprint 5 % x;"), ("modulo by zero".to_string(), 2));
}

#[test]
fn numbers_beyond_two_to_the_53_are_out_of_range() {
    assert_eq!(runtime_error_both("print 9007199254740992 + 1;"), ("number out of range".to_string(), 1));
}

#[test]
fn mismatched_operands_are_an_error() {
    assert_eq!(runtime_error_both("print 1 + \"a\";"), ("unsupported operands for '+': number and string".to_string(), 1));
}

#[test]
fn builtins_check_their_arguments() {
    assert_eq!(runtime_error_both("print len(1, 2);"), ("len() expects 1 argument(s), got 2".to_string(), 1));
    assert_eq!(runtime_error_both("print len(5);"), ("len() expects an array, string, or map, got number".to_string(), 1));
    assert_eq!(runtime_error_both("push(1, 2);"), ("push() expects an array as its first argument, got number".to_string(), 1));
    assert_eq!(runtime_error_both("print keys([]);"), ("keys() expects a map, got array".to_string(), 1));
}

#[test]
fn indexing_errors() {
    assert_eq!(runtime_error_both("let a = [1];\nprint a[\"x\"];"), ("array index must be a number, got string".to_string(), 2));
    assert_eq!(runtime_error_both("print {}[1];"), ("map key must be a string, got number".to_string(), 1));
    assert_eq!(runtime_error_both("print 5[0];"), ("cannot index a value of type number".to_string(), 1));
    assert_eq!(runtime_error_both("print [1, 2][-1];"), ("array index -1 out of bounds (length 2)".to_string(), 1));
}

#[test]
fn a_self_containing_array_prints_finitely() {
    assert_eq!(both("let a = []; push(a, a); print a;"), "[[...]]\n");
}

#[test]
fn functions_return_nil_without_a_return_value() {
    assert_eq!(both("fn f() { } fn g() { return; } print f(), g();"), "nil nil\n");
}

#[test]
fn block_scopes_shadow_and_restore() {
    assert_eq!(both("let x = 1; { let x = 2; print x; } print x;"), "2\n1\n");
}

#[test]
fn wrong_argument_count_is_a_runtime_error() {
    let (m, l) = runtime_error_both("fn f(a) { return a; }\nprint f(1, 2);");
    assert_eq!(l, 2);
    assert!(m.contains("f"), "{}", m);
}

#[test]
fn output_before_an_error_is_kept_and_appended() {
    let mut out = b"before\n".to_vec();
    let err = run_vm("print 1;\nprint 1 / 0;", &mut out).unwrap_err();
    assert_eq!(String::from_utf8(out).unwrap(), "before\n1\n");
    assert_eq!(err.to_string(), "runtime error: division by zero (line 2)");
}

#[test]
fn both_back_ends_report_the_same_lexical_and_syntax_errors() {
    for src in ["let x = 1 @ 2;", "print \"open", "let = 1;", "print (1;", "fn f( { }"] {
        let mut a = b"kept\n".to_vec();
        let mut v = b"kept\n".to_vec();
        let ea = run_ast(src, &mut a).unwrap_err();
        let ev = run_vm(src, &mut v).unwrap_err();
        assert_eq!(ea, ev);
        assert!(ea.phase() == "lex error" || ea.phase() == "syntax error");
        assert_eq!(a, b"kept\n".to_vec());
        assert_eq!(v, b"kept\n".to_vec());
    }
}

#[test]
fn nested_references_stay_usable() {
    assert_eq!(both("let a = [[1], {\"k\": [2]}]; push(a[0], 3); a[1][\"k\"][0] = 4; print a, len(a[0]);"), "[[1, 3], {k: [4]}] 2\n");
}
