use stackforge::lexer::lex;
use stackforge::token::TokenKind;
use stackforge::SfError;

fn kinds(src: &str) -> Vec<TokenKind> {
    lex(src).unwrap().into_iter().map(|t| t.kind).collect()
}

#[test]
fn tokenizes_arithmetic_expression_with_correct_kinds() {
    assert_eq!(
        kinds("1 + 2 * (3 - 4) / 5;"),
        vec![
            TokenKind::Number(1),
            TokenKind::Plus,
            TokenKind::Number(2),
            TokenKind::Star,
            TokenKind::LParen,
            TokenKind::Number(3),
            TokenKind::Minus,
            TokenKind::Number(4),
            TokenKind::RParen,
            TokenKind::Slash,
            TokenKind::Number(5),
            TokenKind::Semicolon,
            TokenKind::Eof,
        ]
    );
}

#[test]
fn tokenizes_keywords_and_identifiers_distinctly() {
    assert_eq!(
        kinds("let fib = fn;"),
        vec![
            TokenKind::Let,
            TokenKind::Ident(b"fib".to_vec()),
            TokenKind::Assign,
            TokenKind::Fn,
            TokenKind::Semicolon,
            TokenKind::Eof,
        ]
    );
}

#[test]
fn tokenizes_string_with_escapes() {
    let toks = lex("\"hello\\nworld\"").unwrap();
    assert_eq!(toks[0].kind, TokenKind::Str(b"hello\nworld".to_vec()));
}

#[test]
fn tokenizes_comparison_and_logical_operators() {
    assert_eq!(
        kinds("a <= b && c != d || !e"),
        vec![
            TokenKind::Ident(b"a".to_vec()),
            TokenKind::LtEq,
            TokenKind::Ident(b"b".to_vec()),
            TokenKind::AndAnd,
            TokenKind::Ident(b"c".to_vec()),
            TokenKind::NotEq,
            TokenKind::Ident(b"d".to_vec()),
            TokenKind::OrOr,
            TokenKind::Bang,
            TokenKind::Ident(b"e".to_vec()),
            TokenKind::Eof,
        ]
    );
}

#[test]
fn line_numbers_advance_across_newlines() {
    let toks = lex("let a = 1;\nlet b = 2;\nlet c = 3;").unwrap();
    let c_tok = toks
        .iter()
        .find(|t| t.kind == TokenKind::Ident(b"c".to_vec()))
        .unwrap();
    assert_eq!(c_tok.line, 3);
}

#[test]
fn comments_are_skipped() {
    assert_eq!(
        kinds("1 // this is a comment\n+ 2"),
        vec![TokenKind::Number(1), TokenKind::Plus, TokenKind::Number(2), TokenKind::Eof]
    );
}

#[test]
fn unterminated_string_reports_lex_error_with_line() {
    let err = lex("\"unterminated").unwrap_err();
    match err {
        SfError::Lex { line, .. } => assert_eq!(line, 1),
        _ => panic!("expected Lex error"),
    }
}

#[test]
fn unexpected_character_reports_lex_error() {
    let err = lex("let x = 1 @ 2;").unwrap_err();
    assert!(matches!(err, SfError::Lex { .. }));
}

#[test]
fn token_stream_ends_with_exactly_one_eof() {
    let toks = lex("print 1;\n// trailing comment").unwrap();
    assert_eq!(toks.last().unwrap().kind, TokenKind::Eof);
    assert_eq!(toks.iter().filter(|t| t.kind == TokenKind::Eof).count(), 1);
    assert_eq!(toks.last().unwrap().line, 2);
}

#[test]
fn nul_byte_ends_the_source() {
    assert_eq!(kinds("1\u{0}+"), vec![TokenKind::Number(1), TokenKind::Eof]);
}

#[test]
fn two_character_operators_and_keywords() {
    assert_eq!(
        kinds("== = >= > if else while for return true false nil print"),
        vec![
            TokenKind::EqEq,
            TokenKind::Assign,
            TokenKind::GtEq,
            TokenKind::Gt,
            TokenKind::If,
            TokenKind::Else,
            TokenKind::While,
            TokenKind::For,
            TokenKind::Return,
            TokenKind::True,
            TokenKind::False,
            TokenKind::Nil,
            TokenKind::Print,
            TokenKind::Eof,
        ]
    );
}

#[test]
fn lone_ampersand_and_bar_are_lex_errors() {
    let e = lex("a & b").unwrap_err();
    assert_eq!(e.to_string(), "lex error: unexpected character '&' (did you mean '&&'?) (line 1)");
    let e = lex("\n a | b").unwrap_err();
    assert_eq!(e.line(), 2);
}

#[test]
fn unknown_escape_is_a_lex_error() {
    let e = lex("\"a\\qb\"").unwrap_err();
    assert_eq!(e.to_string(), "lex error: unknown escape sequence '\\q' (line 1)");
}

#[test]
fn number_literals_are_integers_of_at_most_two_to_the_53() {
    assert_eq!(kinds("2.0 9007199254740992"), vec![TokenKind::Number(2), TokenKind::Number(9007199254740992), TokenKind::Eof]);
    assert!(matches!(lex("1.5").unwrap_err(), SfError::Lex { .. }));
    assert!(matches!(lex("9007199254740993").unwrap_err(), SfError::Lex { .. }));
}

#[test]
fn non_ascii_characters_in_strings_are_kept() {
    let toks = lex("\"a\u{e9}b\"").unwrap();
    assert_eq!(toks[0].kind, TokenKind::Str("a\u{e9}b".as_bytes().to_vec()));
    let toks = lex("\"\u{e9}\"").unwrap();
    assert_eq!(toks[0].kind, TokenKind::Str("\u{e9}".as_bytes().to_vec()));
    assert_eq!(toks[0].line, 1);
    assert_eq!(toks[1].kind, TokenKind::Eof);
}
