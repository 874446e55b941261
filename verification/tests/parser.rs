use stackforge::ast::{BinOp, Expr, LogicOp, Stmt, UnOp};
use stackforge::parser::parse;
use stackforge::SfError;

fn parse_error(src: &str) -> (String, u32) {
    match parse(src) {
        Err(SfError::Parse { message, line }) => (String::from_utf8(message).unwrap(), line),
        other => panic!("expected a syntax error, got {:?}", other),
    }
}

#[test]
fn multiplication_binds_tighter_than_addition() {
    let p = parse("print 1 + 2 * 3;").unwrap();
    match &p.main[0] {
        Stmt::Print(args, 1) => match &args[0] {
            Expr::Binary(BinOp::Add, l, r, 1) => {
                assert!(matches!(**l, Expr::Number(1)));
                assert!(matches!(**r, Expr::Binary(BinOp::Mul, _, _, 1)));
            },
            other => panic!("unexpected tree {:?}", other),
        },
        other => panic!("unexpected statement {:?}", other),
    }
}

#[test]
fn subtraction_is_left_associative() {
    let p = parse("print 10 - 3 - 2;").unwrap();
    match &p.main[0] {
        Stmt::Print(args, _) => match &args[0] {
            Expr::Binary(BinOp::Sub, l, r, _) => {
                assert!(matches!(**l, Expr::Binary(BinOp::Sub, _, _, _)));
                assert!(matches!(**r, Expr::Number(2)));
            },
            other => panic!("unexpected tree {:?}", other),
        },
        other => panic!("unexpected statement {:?}", other),
    }
}

#[test]
fn logical_operators_and_unary_operators() {
    let p = parse("print !a || b && -c;").unwrap();
    match &p.main[0] {
        Stmt::Print(args, _) => match &args[0] {
            Expr::Logical(LogicOp::Or, l, r) => {
                assert!(matches!(**l, Expr::Unary(UnOp::Not, _, _)));
                match &**r {
                    Expr::Logical(LogicOp::And, _, rr) => assert!(matches!(**rr, Expr::Unary(UnOp::Neg, _, _))),
                    other => panic!("unexpected tree {:?}", other),
                }
            },
            other => panic!("unexpected tree {:?}", other),
        },
        other => panic!("unexpected statement {:?}", other),
    }
}

#[test]
fn for_loop_desugars_into_block_with_while() {
    let p = parse("for (let i = 0; i < 3; i = i + 1) { print i; }").unwrap();
    assert_eq!(p.main.len(), 1);
    match &p.main[0] {
        Stmt::Block(outer) => {
            assert_eq!(outer.len(), 2);
            assert!(matches!(outer[0], Stmt::Let(_, Expr::Number(0), 1)));
            match &outer[1] {
                Stmt::While(Expr::Binary(BinOp::Lt, _, _, _), body) => {
                    assert_eq!(body.len(), 2);
                    assert!(matches!(body[0], Stmt::Print(_, _)));
                    assert!(matches!(body[1], Stmt::ExprStmt(Expr::Assign(_, _, _))));
                },
                other => panic!("unexpected loop {:?}", other),
            }
        },
        other => panic!("unexpected statement {:?}", other),
    }
}

#[test]
fn functions_and_statements_are_kept_apart_in_order() {
    let p = parse("let x = 1;\nfn f(a, b) { return a; }\nprint x;\nfn g() { }").unwrap();
    assert_eq!(p.functions.len(), 2);
    assert_eq!(p.functions[0].name, b"f".to_vec());
    assert_eq!(p.functions[0].params, vec![b"a".to_vec(), b"b".to_vec()]);
    assert_eq!(p.functions[0].line, 2);
    assert_eq!(p.functions[1].name, b"g".to_vec());
    assert!(p.functions[1].params.is_empty());
    assert_eq!(p.main.len(), 2);
}

#[test]
fn index_assignment_and_calls() {
    let p = parse("a[1] = f(2, 3);").unwrap();
    match &p.main[0] {
        Stmt::ExprStmt(Expr::IndexAssign(_, _, v, 1)) => {
            assert!(matches!(**v, Expr::Call(_, ref args, 1) if args.len() == 2));
        },
        other => panic!("unexpected statement {:?}", other),
    }
}

#[test]
fn else_if_chains_nest() {
    let p = parse("if (a) { } else if (b) { print 1; } else { print 2; }").unwrap();
    match &p.main[0] {
        Stmt::If(_, t, e) => {
            assert!(t.is_empty());
            assert_eq!(e.len(), 1);
            assert!(matches!(e[0], Stmt::If(_, _, _)));
        },
        other => panic!("unexpected statement {:?}", other),
    }
}

#[test]
fn missing_name_in_let_is_a_syntax_error() {
    assert_eq!(parse_error("let = 5;"), ("expected identifier but found Assign".to_string(), 1));
}

#[test]
fn missing_semicolon_reports_the_token_found() {
    assert_eq!(parse_error("print 1"), ("expected ';' after print statement but found Eof".to_string(), 1));
    assert_eq!(parse_error("let x = 1\nlet y = 2;"), ("expected ';' after let binding but found Let".to_string(), 2));
}

#[test]
fn unexpected_token_in_expression() {
    assert_eq!(parse_error("x = ;"), ("unexpected token Semicolon".to_string(), 1));
    assert_eq!(parse_error("print );"), ("unexpected token RParen".to_string(), 1));
}

#[test]
fn invalid_assignment_target() {
    assert_eq!(parse_error("1 = 2;"), ("invalid assignment target".to_string(), 1));
}

#[test]
fn map_keys_must_be_strings() {
    assert_eq!(parse_error("let m = {1: 2};"), ("expected string key in map literal, found Number(1.0)".to_string(), 1));
}

#[test]
fn tokens_in_messages_show_as_debug_does() {
    assert_eq!(parse_error("let x = 1 \"a\\nb\";"), ("expected ';' after let binding but found Str(\"a\\nb\")".to_string(), 1));
    assert_eq!(parse_error("fn 1() {}"), ("expected identifier but found Number(1.0)".to_string(), 1));
}

#[test]
fn lexical_errors_pass_through_parse() {
    assert!(matches!(parse("let x = 1 @ 2;"), Err(SfError::Lex { .. })));
}

#[test]
fn control_bytes_in_quoted_tokens_are_escaped_as_debug_shows_them() {
    assert_eq!(
        parse_error("let \"a\rb\x01\x1f\x7f\" = 1;"),
        ("expected identifier but found Str(\"a\\rb\\u{1}\\u{1f}\\u{7f}\")".to_string(), 1)
    );
}
