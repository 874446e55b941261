use stackforge::builtins::{builtin_id, builtin_name, call_builtin, call_builtin_checked, is_builtin};
use stackforge::chunk::{Chunk, OpCode};
use stackforge::heap::{index_get, index_set};
use stackforge::interpreter::Interpreter;
use stackforge::parser::parse;
use stackforge::text::{bytes_less, count_chars};
use stackforge::value::{eval_binary, values_equal, Heap, Value};
use stackforge::ast::BinOp;
use stackforge::SfError;

#[test]
fn builtin_names_and_ids() {
    assert!(is_builtin(b"len"));
    assert!(is_builtin(b"keys"));
    assert!(!is_builtin(b"print"));
    assert_eq!(builtin_id(b"len"), Some(0));
    assert_eq!(builtin_id(b"push"), Some(1));
    assert_eq!(builtin_id(b"pop"), Some(2));
    assert_eq!(builtin_id(b"keys"), Some(3));
    assert_eq!(builtin_id(b"lens"), None);
    assert_eq!(builtin_name(1), b"push".to_vec());
    assert_eq!(builtin_name(3), b"keys".to_vec());
}

#[test]
fn call_builtin_gives_none_for_other_names() {
    let mut heap = Heap::new();
    let args = vec![Value::Number(1)];
    assert!(matches!(call_builtin(b"print", &args, 1, &mut heap), Ok(None)));
    assert_eq!(heap.len(), 0);
}

#[test]
fn call_builtin_runs_builtins_by_name() {
    let mut heap = Heap::new();
    let arr = heap.alloc_array(vec![Value::Number(1), Value::Number(2)]);
    let args = vec![arr.copy()];
    assert!(matches!(call_builtin(b"len", &args, 1, &mut heap), Ok(Some(Value::Number(2)))));
    let s = vec![Value::Str(b"abc".to_vec())];
    assert!(matches!(call_builtin_checked(b"len", &s, 1, &mut heap), Ok(Value::Number(3))));
    let push_args = vec![arr.copy(), Value::Bool(true)];
    assert!(matches!(call_builtin_checked(b"push", &push_args, 1, &mut heap), Ok(Value::Nil)));
    assert!(matches!(call_builtin_checked(b"pop", &args, 1, &mut heap), Ok(Value::Bool(true))));
    let bad = vec![Value::Nil];
    match call_builtin_checked(b"pop", &bad, 7, &mut heap) {
        Err(SfError::Runtime { message, line }) => {
            assert_eq!(String::from_utf8(message).unwrap(), "pop() expects an array, got nil");
            assert_eq!(line, 7);
        },
        other => panic!("unexpected {:?}", other),
    }
}

#[test]
fn heap_read_after_write() {
    let mut heap = Heap::new();
    let a = heap.alloc_array(vec![Value::Number(1), Value::Number(2)]);
    let alias = a.copy();
    index_set(&mut heap, &a, &Value::Number(1), Value::Str(b"x".to_vec()), 1).unwrap();
    assert!(matches!(index_get(&heap, &alias, &Value::Number(1), 1), Ok(Value::Str(ref s)) if s == b"x"));
    assert!(matches!(index_get(&heap, &alias, &Value::Number(0), 1), Ok(Value::Number(1))));
    let m = heap.alloc_dict(Vec::new());
    index_set(&mut heap, &m, &Value::Str(b"k".to_vec()), Value::Number(5), 1).unwrap();
    assert!(matches!(index_get(&heap, &m, &Value::Str(b"k".to_vec()), 1), Ok(Value::Number(5))));
    assert!(matches!(index_get(&heap, &m, &Value::Str(b"other".to_vec()), 1), Ok(Value::Nil)));
    assert!(matches!(index_get(&heap, &a, &Value::Number(0), 1), Ok(Value::Number(1))));
}

#[test]
fn heap_display() {
    let mut heap = Heap::new();
    let inner = heap.alloc_array(vec![Value::Number(-3), Value::Nil]);
    let m = heap.alloc_dict(vec![(b"z".to_vec(), Value::Bool(false)), (b"a".to_vec(), inner)]);
    let mut out = Vec::new();
    heap.display(&m, &mut out);
    assert_eq!(String::from_utf8(out).unwrap(), "{a: [-3, nil], z: false}");
}

#[test]
fn equality_and_arithmetic_on_values() {
    assert!(values_equal(&Value::Number(3), &Value::Number(3)));
    assert!(!values_equal(&Value::Number(3), &Value::Str(b"3".to_vec())));
    assert!(values_equal(&Value::Array(0), &Value::Array(0)));
    assert!(!values_equal(&Value::Array(0), &Value::Array(1)));
    assert!(matches!(eval_binary(BinOp::Mul, &Value::Number(6), &Value::Number(7), 1), Ok(Value::Number(42))));
    assert!(matches!(eval_binary(BinOp::LtEq, &Value::Number(2), &Value::Number(2), 1), Ok(Value::Bool(true))));
    assert!(matches!(eval_binary(BinOp::Div, &Value::Number(1), &Value::Number(0), 3), Err(SfError::Runtime { line: 3, .. })));
    assert!(Value::Number(0).is_truthy());
    assert!(!Value::Nil.is_truthy());
    assert!(!Value::Bool(false).is_truthy());
    assert_eq!(Value::Dict(0).kind_name(), "map");
    assert_eq!(Value::Number(-4).as_number(), Some(-4));
    assert_eq!(Value::Nil.as_number(), None);
}

#[test]
fn byte_order_and_character_count() {
    assert!(bytes_less(b"a", b"b"));
    assert!(bytes_less(b"ab", b"abc"));
    assert!(!bytes_less(b"abc", b"ab"));
    assert!(!bytes_less(b"x", b"x"));
    assert_eq!(count_chars("h\u{e9}llo".as_bytes()), 5);
}

#[test]
fn chunk_emits_and_patches() {
    let mut c = Chunk::new();
    assert_eq!(c.here(), 0);
    let k = c.add_constant(Value::Number(9));
    assert_eq!(k, 0);
    assert_eq!(c.emit(OpCode::PushConst(k), 4), 0);
    let j = c.emit(OpCode::JumpIfFalse(0), 4);
    assert_eq!(j, 1);
    c.emit(OpCode::Pop, 5);
    c.patch_jump(j, c.here());
    assert_eq!(c.code, vec![OpCode::PushConst(0), OpCode::JumpIfFalse(3), OpCode::Pop]);
    assert_eq!(c.lines, vec![4, 4, 5]);
}

#[test]
fn interpreter_runs_a_parsed_program() {
    let program = parse("let a = [3, 1]; print len(a), a[0] + a[1];").unwrap();
    let mut interp = Interpreter::new();
    let mut out = Vec::new();
    interp.run(&program, &mut out).unwrap();
    assert_eq!(String::from_utf8(out).unwrap(), "2 4\n");
}

#[test]
fn errors_render_with_phase_line_and_message() {
    let e = SfError::runtime(b"boom".to_vec(), 3);
    assert_eq!(e.to_string(), "runtime error: boom (line 3)");
    assert_eq!(e.render(), b"runtime error: boom (line 3)".to_vec());
    assert_eq!(e.line(), 3);
    assert_eq!(e.phase(), "runtime error");
    assert_eq!(e.message(), &b"boom".to_vec());
    let e = SfError::compile(b"bad".to_vec(), 0);
    assert_eq!(e.to_string(), "compile error: bad");
    assert_eq!(SfError::lex(b"x".to_vec(), 1).phase(), "lex error");
    assert_eq!(SfError::parse(b"x".to_vec(), 1).phase(), "syntax error");
}

#[test]
fn error_text_keeps_non_ascii_characters() {
    let e = SfError::runtime("d\u{e9}j\u{e0}".as_bytes().to_vec(), 1);
    assert_eq!(e.to_string(), "runtime error: d\u{e9}j\u{e0} (line 1)");
}
