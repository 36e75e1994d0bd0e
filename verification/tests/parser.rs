use zs_syntax::ast::{Expr, ExprKind};
use zs_syntax::lexer::{Lexer, Token, TokenKind};
use zs_syntax::parser::{Parser, ParserError};
use zs_syntax::util::Span;

fn tokens_of(source: &str) -> Vec<Token> {
    let mut lexer = Lexer::new(source);
    lexer.parse();
    match lexer.result() {
        Ok(tokens) => tokens,
        Err(_) => panic!("lexical errors in {:?}", source),
    }
}

fn parse_source(source: &str) -> Result<Vec<Expr>, Vec<ParserError>> {
    let mut parser = Parser::new(source, tokens_of(source));
    parser.parse();
    parser.result()
}

fn name_of(expr: &Expr) -> &str {
    match &expr.kind {
        ExprKind::Name(name) => name.as_str(),
        other => panic!("not a name: {:?}", other),
    }
}

fn span_of(expr: &Expr) -> (usize, usize) {
    (expr.span.lo, expr.span.hi)
}

fn token(val: &str, kind: TokenKind, lo: usize, hi: usize) -> Token {
    Token { val: val.to_string(), kind, span: Span { lo, hi } }
}

#[test]
fn variable_line_parses_to_var_def() {
    let program = parse_source("String hello = \"Hello, World!\"\n").unwrap();
    assert_eq!(program.len(), 1);
    assert_eq!(span_of(&program[0]), (0, 30));
    match &program[0].kind {
        ExprKind::VarDef(name, ty, value) => {
            assert_eq!(name_of(name), "hello");
            assert_eq!(span_of(name), (7, 12));
            assert_eq!(name_of(ty), "String");
            assert_eq!(span_of(ty), (0, 6));
            assert_eq!(span_of(value), (15, 30));
            match &value.kind {
                ExprKind::StrLit(text) => assert_eq!(text, "Hello, World!"),
                other => panic!("not a string literal: {:?}", other),
            }
        }
        other => panic!("not a variable: {:?}", other),
    }
}

#[test]
fn unexpected_leading_literal_is_one_error_and_parsing_resumes() {
    let source = "42\nglobal String x = \"y\"\n";
    let mut parser = Parser::new(source, tokens_of(source));
    parser.parse();
    let errors = parser.result().unwrap_err();
    assert_eq!(errors.len(), 1);
    assert_eq!(errors[0].msg, "Expected `identifier`, `global`, `func`, found `int literal`");
    assert_eq!((errors[0].pos.lo, errors[0].pos.hi), (0, 2));
    let decls = parser.declarations();
    assert_eq!(decls.len(), 1);
    assert_eq!(span_of(&decls[0]), (3, 24));
    match &decls[0].kind {
        ExprKind::Global(var) => {
            assert_eq!(span_of(var), (10, 24));
            match &var.kind {
                ExprKind::VarDef(name, ty, value) => {
                    assert_eq!(name_of(name), "x");
                    assert_eq!(name_of(ty), "String");
                    assert!(matches!(&value.kind, ExprKind::StrLit(text) if text == "y"));
                }
                other => panic!("not a variable: {:?}", other),
            }
        }
        other => panic!("not a global: {:?}", other),
    }
}

#[test]
fn blank_source_parses_to_empty_program() {
    let program = parse_source(" \t\r\n\n  \n").unwrap();
    assert!(program.is_empty());
}

#[test]
fn parsing_twice_gives_the_same_result() {
    let source = "Int a = 1\n= 2\nglobal Float b.c = 2.5\n";
    let mut parser = Parser::new(source, tokens_of(source));
    parser.parse();
    let first = format!("{:?}", parser.result());
    let decls = format!("{:?}", parser.declarations());
    parser.parse();
    assert_eq!(format!("{:?}", parser.result()), first);
    assert_eq!(format!("{:?}", parser.declarations()), decls);
}

#[test]
fn literals_are_decoded() {
    let program = parse_source("Int a = 42\nFloat b = 2.50\nString c = \"\"\n").unwrap();
    assert_eq!(program.len(), 3);
    let value = |decl: &Expr| match &decl.kind {
        ExprKind::VarDef(_, _, value) => value.kind.clone(),
        other => panic!("not a variable: {:?}", other),
    };
    assert!(matches!(value(&program[0]), ExprKind::IntLit(42)));
    assert!(matches!(value(&program[1]), ExprKind::FloatLit(text) if text == "2.50"));
    assert!(matches!(value(&program[2]), ExprKind::StrLit(text) if text.is_empty()));
}

#[test]
fn boolean_literal_tokens_are_decoded() {
    let source = "Bool t = True\nBool f = False\n";
    let tokens = vec![
        token("Bool", TokenKind::Ident, 0, 4),
        token("t", TokenKind::Ident, 5, 6),
        token("=", TokenKind::EqualSign, 7, 8),
        token("True", TokenKind::BoolLit, 9, 13),
        token("\n", TokenKind::Newline, 13, 14),
        token("Bool", TokenKind::Ident, 14, 18),
        token("f", TokenKind::Ident, 19, 20),
        token("=", TokenKind::EqualSign, 21, 22),
        token("False", TokenKind::BoolLit, 23, 28),
        token("\n", TokenKind::Newline, 28, 29),
    ];
    let mut parser = Parser::new(source, tokens);
    parser.parse();
    let program = parser.result().unwrap();
    assert_eq!(program.len(), 2);
    assert!(matches!(&program[0].kind, ExprKind::VarDef(_, _, v) if matches!(v.kind, ExprKind::BoolLit(true))));
    assert!(matches!(&program[1].kind, ExprKind::VarDef(_, _, v) if matches!(v.kind, ExprKind::BoolLit(false))));
}

#[test]
fn dotted_name_is_joined() {
    let program = parse_source("Int a.b.c = 1\n").unwrap();
    match &program[0].kind {
        ExprKind::VarDef(name, _, _) => {
            assert_eq!(name_of(name), "a.b.c");
            assert_eq!(span_of(name), (4, 9));
        }
        other => panic!("not a variable: {:?}", other),
    }
}

#[test]
fn integer_out_of_range_is_invalid_numeric_literal() {
    let errors = parse_source("Int a = 9223372036854775808\n").unwrap_err();
    assert_eq!(errors[0].msg, "invalid numeric literal");
    assert_eq!((errors[0].pos.lo, errors[0].pos.hi), (8, 27));
    let program = parse_source("Int a = 9223372036854775807\n").unwrap();
    assert!(matches!(&program[0].kind, ExprKind::VarDef(_, _, v) if matches!(v.kind, ExprKind::IntLit(i64::MAX))));
}

#[test]
fn missing_assignment_is_reported_and_node_is_kept() {
    let source = "Int a 1\n";
    let mut parser = Parser::new(source, tokens_of(source));
    parser.parse();
    let errors = parser.result().unwrap_err();
    assert_eq!(errors.len(), 1);
    assert_eq!(errors[0].msg, "Expected `=`, found `int literal`");
    assert_eq!((errors[0].pos.lo, errors[0].pos.hi), (6, 7));
    assert_eq!(parser.declarations().len(), 1);
}

#[test]
fn missing_value_at_end_of_input_reports_eof() {
    let errors = parse_source("Int a =").unwrap_err();
    assert_eq!(errors.len(), 1);
    assert_eq!(
        errors[0].msg,
        "Expected `int literal`, `float literal`, `bool literal`, `string literal`, found `EOF`"
    );
    assert_eq!((errors[0].pos.lo, errors[0].pos.hi), (7, 7));
}

#[test]
fn function_declaration_is_reported() {
    let errors = parse_source("func Main() {\n}\n").unwrap_err();
    assert_eq!(errors[0].msg, "function declarations are not supported");
    assert_eq!((errors[0].pos.lo, errors[0].pos.hi), (0, 9));
    assert_eq!(errors.len(), 2);
    assert_eq!(errors[1].msg, "Expected `identifier`, `global`, `func`, found `(`");
    assert_eq!((errors[1].pos.lo, errors[1].pos.hi), (9, 15));
}

#[test]
fn unexpected_run_is_covered_up_to_next_identifier() {
    let errors = parse_source("1 2 a 3\nInt b = 1\n").unwrap_err();
    assert_eq!(errors.len(), 1);
    assert_eq!((errors[0].pos.lo, errors[0].pos.hi), (0, 3));
}

#[test]
fn return_keyword_has_a_name_in_messages() {
    let errors = parse_source("return\n").unwrap_err();
    assert_eq!(errors.len(), 1);
    assert_eq!(errors[0].msg, "Expected `identifier`, `global`, `func`, found `return`");
}

#[test]
fn float_token_of_another_form_is_invalid_numeric_literal() {
    let source = "Float a = 1e5\n";
    let tokens = vec![
        token("Float", TokenKind::Ident, 0, 5),
        token("a", TokenKind::Ident, 6, 7),
        token("=", TokenKind::EqualSign, 8, 9),
        token("1e5", TokenKind::FloatLit, 10, 13),
        token("\n", TokenKind::Newline, 13, 14),
    ];
    let mut parser = Parser::new(source, tokens);
    parser.parse();
    let errors = parser.result().unwrap_err();
    assert_eq!(errors[0].msg, "invalid numeric literal");
    assert_eq!((errors[0].pos.lo, errors[0].pos.hi), (10, 13));
    assert_eq!(errors.len(), 2);
    assert_eq!(errors[1].msg, "Expected `identifier`, `global`, `func`, found `newline`");
    assert!(parser.declarations().is_empty());
    assert_eq!(parser.code(), source);
}

#[test]
fn leading_line_break_is_skipped_alone() {
    let source = "\nInt a = 1\n";
    let tokens = vec![
        token("\n", TokenKind::Newline, 0, 1),
        token("Int", TokenKind::Ident, 1, 4),
        token("a", TokenKind::Ident, 5, 6),
        token("=", TokenKind::EqualSign, 7, 8),
        token("1", TokenKind::IntLit, 9, 10),
        token("\n", TokenKind::Newline, 10, 11),
    ];
    let mut parser = Parser::new(source, tokens);
    parser.parse();
    let errors = parser.result().unwrap_err();
    assert_eq!(errors.len(), 1);
    assert_eq!((errors[0].pos.lo, errors[0].pos.hi), (0, 1));
    assert_eq!(parser.declarations().len(), 1);
}

#[test]
fn empty_token_sequence_is_empty_program() {
    let mut parser = Parser::new("", Vec::new());
    parser.parse();
    assert!(parser.result().unwrap().is_empty());
}
