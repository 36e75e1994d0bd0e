use zs_syntax::ast::ExprKind;
use zs_syntax::lexer::TokenKind;
use zs_syntax::program::analyze;

#[test]
fn analysis_of_blank_source_is_empty() {
    let analysis = analyze(" \n\t\r\n").unwrap();
    assert!(analysis.tokens.is_empty());
    assert!(analysis.program.unwrap().is_empty());
}

#[test]
fn analysis_stops_at_lexical_errors() {
    let errors = analyze("Int a = 1\n$$ = 2\n").unwrap_err();
    assert_eq!(errors.len(), 1);
    assert_eq!(errors[0].val, "$$");
    assert_eq!((errors[0].span.lo, errors[0].span.hi), (10, 12));
}

#[test]
fn analysis_gives_tokens_and_declarations() {
    let analysis = analyze("global Int a = 1\nString b.c = \"d\"\n").unwrap();
    assert_eq!(analysis.tokens.len(), 13);
    assert_eq!(analysis.tokens[0].kind, TokenKind::KwGlobal);
    let program = analysis.program.unwrap();
    assert_eq!(program.len(), 2);
    assert!(matches!(program[0].kind, ExprKind::Global(_)));
    assert!(matches!(program[1].kind, ExprKind::VarDef(_, _, _)));
    assert_eq!((program[0].span.lo, program[0].span.hi), (0, 16));
    assert_eq!((program[1].span.lo, program[1].span.hi), (17, 33));
}

#[test]
fn analysis_gives_every_syntactic_error() {
    let analysis = analyze("Int = 1\nInt b 2\n+ 3\nInt c = 4\n").unwrap();
    let errors = analysis.program.unwrap_err();
    let got: Vec<(&str, usize, usize)> =
        errors.iter().map(|e| (e.msg.as_str(), e.pos.lo, e.pos.hi)).collect();
    assert_eq!(
        got,
        vec![
            ("Expected `identifier`, found `=`", 4, 5),
            ("Expected `identifier`, `global`, `func`, found `=`", 4, 7),
            ("Expected `=`, found `int literal`", 14, 15),
            ("Expected `identifier`, `global`, `func`, found `+`", 16, 19),
        ]
    );
}

#[test]
fn hello_world_reports_the_function() {
    let source = "\nglobal String hello = \"Hello, World!\"\n\nfunc Main() {\n    Printl(hello)\n}\n";
    let analysis = analyze(source).unwrap();
    let errors = analysis.program.unwrap_err();
    assert_eq!(errors[0].msg, "function declarations are not supported");
    assert_eq!(&source[errors[0].pos.lo..errors[0].pos.hi], "func Main");
}
