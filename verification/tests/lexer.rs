use zs_syntax::lexer::{Lexer, LexerError, Token, TokenKind};

fn lex(source: &str) -> Result<Vec<Token>, Vec<LexerError>> {
    let mut lexer = Lexer::new(source);
    lexer.parse();
    lexer.result()
}

fn kinds(source: &str) -> Vec<TokenKind> {
    match lex(source) {
        Ok(tokens) => tokens.iter().map(|t| t.kind).collect(),
        Err(_) => panic!("lexical errors in {:?}", source),
    }
}

#[test]
fn contiguous_unrecognized_characters_are_one_error() {
    let errors = lex("@#$").unwrap_err();
    assert_eq!(errors.len(), 1);
    assert_eq!(errors[0].val, "@#$");
    assert_eq!(errors[0].span.lo, 0);
    assert_eq!(errors[0].span.hi, 3);
}

#[test]
fn separated_unrecognized_characters_are_separate_errors() {
    let errors = lex("@ #a$").unwrap_err();
    assert_eq!(errors.len(), 3);
    assert_eq!(errors[0].val, "@");
    assert_eq!((errors[0].span.lo, errors[0].span.hi), (0, 1));
    assert_eq!(errors[1].val, "#");
    assert_eq!((errors[1].span.lo, errors[1].span.hi), (2, 3));
    assert_eq!(errors[2].val, "$");
    assert_eq!((errors[2].span.lo, errors[2].span.hi), (4, 5));
}

#[test]
fn keywords_have_their_own_kinds() {
    assert_eq!(kinds("global"), vec![TokenKind::KwGlobal]);
    assert_eq!(kinds("func"), vec![TokenKind::KwFunc]);
    assert_eq!(kinds("while"), vec![TokenKind::KwWhile]);
    assert_eq!(kinds("if"), vec![TokenKind::KwIf]);
    assert_eq!(kinds("return"), vec![TokenKind::KwReturn]);
}

#[test]
fn keyword_prefix_of_identifier_is_identifier() {
    let tokens = lex("globalize").unwrap();
    assert_eq!(tokens.len(), 1);
    assert_eq!(tokens[0].kind, TokenKind::Ident);
    assert_eq!(tokens[0].val, "globalize");
}

#[test]
fn no_newline_after_opening_parenthesis() {
    assert_eq!(
        kinds("func Foo(\n)"),
        vec![TokenKind::KwFunc, TokenKind::Ident, TokenKind::LParen, TokenKind::RParen]
    );
}

#[test]
fn blank_line_gives_one_newline() {
    assert_eq!(kinds("a\n\nb"), vec![TokenKind::Ident, TokenKind::Newline, TokenKind::Ident]);
}

#[test]
fn variable_line_tokens() {
    let tokens = lex("String hello = \"Hello, World!\"\n").unwrap();
    let got: Vec<(TokenKind, &str, usize, usize)> =
        tokens.iter().map(|t| (t.kind, t.val.as_str(), t.span.lo, t.span.hi)).collect();
    assert_eq!(
        got,
        vec![
            (TokenKind::Ident, "String", 0, 6),
            (TokenKind::Ident, "hello", 7, 12),
            (TokenKind::EqualSign, "=", 13, 14),
            (TokenKind::StrLit, "\"Hello, World!\"", 15, 30),
            (TokenKind::Newline, "\n", 30, 31),
        ]
    );
}

#[test]
fn blank_source_has_no_tokens() {
    assert!(lex("").unwrap().is_empty());
    assert!(lex(" \t\r\n\n\r \n").unwrap().is_empty());
}

#[test]
fn tokenizing_twice_gives_the_same_result() {
    for source in ["a = 1\n@@ b", "x\n\ny", ""] {
        let mut lexer = Lexer::new(source);
        lexer.parse();
        let first = format!("{:?}", lexer.result());
        lexer.parse();
        assert_eq!(format!("{:?}", lexer.result()), first);
    }
}

#[test]
fn covered_source_gives_a_token_stream() {
    let source = "\n\nglobal Int x = 12\r\nfunc f(a, b) {\n  a += 1.5 * b / 2 - 3\n\n}\ns = \"a\nb\"\n";
    let tokens = lex(source).unwrap();
    assert!(!tokens.is_empty());
    assert_ne!(tokens[0].kind, TokenKind::Newline);
    for token in &tokens {
        assert_ne!(token.kind, TokenKind::Whitespace);
        assert_ne!(token.kind, TokenKind::Error);
        assert_eq!(&source[token.span.lo..token.span.hi], token.val);
        assert!(token.is_parseable());
    }
    for pair in tokens.windows(2) {
        if pair[1].kind == TokenKind::Newline {
            assert!(!matches!(
                pair[0].kind,
                TokenKind::Newline
                    | TokenKind::LBracket
                    | TokenKind::RBracket
                    | TokenKind::LParen
                    | TokenKind::RParen
                    | TokenKind::EqualSign
                    | TokenKind::AddEquals
                    | TokenKind::SubEquals
                    | TokenKind::MulEquals
                    | TokenKind::DivEquals
            ));
        }
        assert!(pair[0].span.hi <= pair[1].span.lo);
    }
}

#[test]
fn unpaired_quote_is_an_error() {
    let errors = lex("a = \"b").unwrap_err();
    assert_eq!(errors.len(), 1);
    assert_eq!(errors[0].val, "\"");
    assert_eq!((errors[0].span.lo, errors[0].span.hi), (4, 5));
}

#[test]
fn newline_is_dropped_after_brackets_and_assignments() {
    for opener in ["(", ")", "{", "}", "=", "+=", "-=", "*=", "/="] {
        let source = format!("a {}\nb", opener);
        let got = kinds(&source);
        assert_eq!(got.len(), 3, "{:?}", source);
        assert!(!got.contains(&TokenKind::Newline), "{:?}", source);
    }
    for keeper in ["a", "1", "1.5", "\"s\"", "+", "-", "*", "/", ".", ",", "if"] {
        let source = format!("{}\nb", keeper);
        let got = kinds(&source);
        assert_eq!(got[got.len() - 2], TokenKind::Newline, "{:?}", source);
    }
}

#[test]
fn leading_newlines_are_dropped() {
    assert_eq!(kinds("\n\r\n a"), vec![TokenKind::Ident]);
    assert_eq!(kinds("a\r\n"), vec![TokenKind::Ident, TokenKind::Newline]);
}

#[test]
fn spans_are_byte_offsets() {
    let errors = lex("é@").unwrap_err();
    assert_eq!(errors.len(), 1);
    assert_eq!(errors[0].val, "é@");
    assert_eq!((errors[0].span.lo, errors[0].span.hi), (0, 3));
    let tokens = lex("s = \"é€\" t").unwrap();
    assert_eq!(tokens[2].val, "\"é€\"");
    assert_eq!((tokens[2].span.lo, tokens[2].span.hi), (4, 11));
    assert_eq!((tokens[3].span.lo, tokens[3].span.hi), (12, 13));
}

#[test]
fn errors_hide_the_tokens() {
    let mut lexer = Lexer::new("a @ b # c");
    lexer.parse();
    let errors = lexer.result().unwrap_err();
    assert_eq!(errors.len(), 2);
    assert_eq!((errors[0].span.lo, errors[1].span.lo), (2, 6));
    assert_eq!(lexer.code(), "a @ b # c");
}

#[test]
fn numbers_and_booleans() {
    let tokens = lex("1 2.5 3. True False").unwrap();
    let got: Vec<(TokenKind, &str)> = tokens.iter().map(|t| (t.kind, t.val.as_str())).collect();
    assert_eq!(
        got,
        vec![
            (TokenKind::IntLit, "1"),
            (TokenKind::FloatLit, "2.5"),
            (TokenKind::IntLit, "3"),
            (TokenKind::Dot, "."),
            (TokenKind::Ident, "True"),
            (TokenKind::Ident, "False"),
        ]
    );
}

#[test]
fn tokens_tell_whether_the_parser_takes_them() {
    let token = |val: &str, kind| Token {
        val: val.to_string(),
        kind,
        span: zs_syntax::util::Span { lo: 0, hi: val.len() },
    };
    assert!(token("True", TokenKind::BoolLit).is_parseable());
    assert!(token("False", TokenKind::BoolLit).is_parseable());
    assert!(!token("true", TokenKind::BoolLit).is_parseable());
    assert!(token("\"\"", TokenKind::StrLit).is_parseable());
    assert!(!token("\"", TokenKind::StrLit).is_parseable());
    assert!(!token("@", TokenKind::Error).is_parseable());
    assert!(token("", TokenKind::Ident).is_parseable());
    let copy = token("x", TokenKind::Ident).clone();
    assert_eq!((copy.val.as_str(), copy.kind, copy.span.hi), ("x", TokenKind::Ident, 1));
}
