use zs_syntax::lexer::TokenKind;
use zs_syntax::number::{is_float_literal, parse_int};
use zs_syntax::parser::expected_message;
use zs_syntax::rules::{class_has, closing_quote, run_end, scan, symbol, CharClass};
use zs_syntax::text::{char_width, chars_of, spells, string_of};
use zs_syntax::util::Span;

fn scan_at(source: &str, pos: usize) -> (TokenKind, usize) {
    let chars: Vec<char> = source.chars().collect();
    scan(&chars, pos)
}

#[test]
fn scan_takes_the_longest_match() {
    assert_eq!(scan_at("globalize x", 0), (TokenKind::Ident, 9));
    assert_eq!(scan_at("12.50+", 0), (TokenKind::FloatLit, 5));
    assert_eq!(scan_at("12.", 0), (TokenKind::IntLit, 2));
    assert_eq!(scan_at("12.x", 0), (TokenKind::IntLit, 2));
    assert_eq!(scan_at("12.5.7", 0), (TokenKind::FloatLit, 4));
    assert_eq!(scan_at("+=1", 0), (TokenKind::AddEquals, 2));
    assert_eq!(scan_at("-=1", 0), (TokenKind::SubEquals, 2));
    assert_eq!(scan_at("*=1", 0), (TokenKind::MulEquals, 2));
    assert_eq!(scan_at("/=1", 0), (TokenKind::DivEquals, 2));
    assert_eq!(scan_at("+ =", 0), (TokenKind::Plus, 1));
    assert_eq!(scan_at("==", 0), (TokenKind::EqualSign, 1));
    assert_eq!(scan_at(" \t \tx", 0), (TokenKind::Whitespace, 4));
    assert_eq!(scan_at("\r\n\n", 0), (TokenKind::Newline, 2));
    assert_eq!(scan_at("\r\n\n", 1), (TokenKind::Newline, 1));
    assert_eq!(scan_at("\rx", 0), (TokenKind::Newline, 1));
}

#[test]
fn scan_gives_the_first_rule_on_a_tie() {
    assert_eq!(scan_at("True", 0), (TokenKind::Ident, 4));
    assert_eq!(scan_at("False ", 0), (TokenKind::Ident, 5));
    assert_eq!(scan_at("_a1", 0), (TokenKind::Ident, 3));
}

#[test]
fn scan_of_strings() {
    assert_eq!(scan_at("\"a\nb\" c", 0), (TokenKind::StrLit, 5));
    assert_eq!(scan_at("\"\"\"", 0), (TokenKind::StrLit, 2));
    assert_eq!(scan_at("\"abc", 0), (TokenKind::Error, 1));
    assert_eq!(scan_at("x\"", 1), (TokenKind::Error, 1));
}

#[test]
fn scan_of_punctuation_and_strays() {
    for (text, kind) in [
        ("-", TokenKind::Minus),
        ("*", TokenKind::Star),
        ("/", TokenKind::Slash),
        (".", TokenKind::Dot),
        (",", TokenKind::Comma),
        ("(", TokenKind::LParen),
        (")", TokenKind::RParen),
        ("{", TokenKind::LBracket),
        ("}", TokenKind::RBracket),
        ("@", TokenKind::Error),
        ("é", TokenKind::Error),
        ("[", TokenKind::Error),
    ] {
        assert_eq!(scan_at(text, 0), (kind, 1), "{}", text);
    }
}

#[test]
fn character_classes() {
    assert!(class_has(CharClass::Blank, ' '));
    assert!(class_has(CharClass::Blank, '\t'));
    assert!(!class_has(CharClass::Blank, '\n'));
    assert!(class_has(CharClass::Digit, '0'));
    assert!(class_has(CharClass::Digit, '9'));
    assert!(!class_has(CharClass::Digit, 'a'));
    assert!(class_has(CharClass::IdentPart, '_'));
    assert!(class_has(CharClass::IdentPart, 'Z'));
    assert!(class_has(CharClass::IdentPart, '5'));
    assert!(!class_has(CharClass::IdentPart, '-'));
    assert!(!class_has(CharClass::IdentPart, 'é'));
}

#[test]
fn runs_and_quotes() {
    let chars: Vec<char> = "ab12 \"x\"".chars().collect();
    assert_eq!(run_end(&chars, 0, CharClass::IdentPart), 4);
    assert_eq!(run_end(&chars, 2, CharClass::Digit), 4);
    assert_eq!(run_end(&chars, 4, CharClass::Digit), 4);
    assert_eq!(run_end(&chars, 8, CharClass::Blank), 8);
    assert_eq!(closing_quote(&chars, 5), Some(7));
    assert_eq!(closing_quote(&chars, 7), None);
}

#[test]
fn symbols() {
    assert_eq!(symbol('+', true), Some(TokenKind::AddEquals));
    assert_eq!(symbol('+', false), Some(TokenKind::Plus));
    assert_eq!(symbol('=', true), Some(TokenKind::EqualSign));
    assert_eq!(symbol('(', true), Some(TokenKind::LParen));
    assert_eq!(symbol('#', false), None);
}

#[test]
fn integers_are_decoded_as_decimal() {
    assert_eq!(parse_int("0"), Some(0));
    assert_eq!(parse_int("42"), Some(42));
    assert_eq!(parse_int("00012"), Some(12));
    assert_eq!(parse_int("-5"), Some(-5));
    assert_eq!(parse_int("+7"), Some(7));
    assert_eq!(parse_int("-0"), Some(0));
    assert_eq!(parse_int("9223372036854775807"), Some(i64::MAX));
    assert_eq!(parse_int("-9223372036854775808"), Some(i64::MIN));
    assert_eq!(parse_int("9223372036854775808"), None);
    assert_eq!(parse_int("-9223372036854775809"), None);
    assert_eq!(parse_int("99999999999999999999999"), None);
    assert_eq!(parse_int(""), None);
    assert_eq!(parse_int("-"), None);
    assert_eq!(parse_int("+"), None);
    assert_eq!(parse_int("12a"), None);
    assert_eq!(parse_int("1 "), None);
    assert_eq!(parse_int("+-1"), None);
    assert_eq!(parse_int("1.5"), None);
}

#[test]
fn integers_agree_with_the_standard_decoder() {
    for text in ["0", "7", "-7", "+7", "", "-", "a", "1_0", "0x10", "18446744073709551616", " 1"] {
        assert_eq!(parse_int(text), text.parse::<i64>().ok(), "{:?}", text);
    }
}

#[test]
fn float_literals_are_digits_dot_digits() {
    assert!(is_float_literal("1.5"));
    assert!(is_float_literal("0012.0340"));
    assert!(!is_float_literal("1."));
    assert!(!is_float_literal(".5"));
    assert!(!is_float_literal("1.5.2"));
    assert!(!is_float_literal("1e5"));
    assert!(!is_float_literal("15"));
    assert!(!is_float_literal(""));
    assert!(!is_float_literal("1.5 "));
    assert!(!is_float_literal("-1.5"));
}

#[test]
fn widths_are_those_of_utf8() {
    for c in ['a', '\u{7f}', '\u{80}', 'é', '\u{7ff}', '\u{800}', '€', '\u{ffff}', '\u{10000}', '😀'] {
        assert_eq!(char_width(c), c.len_utf8(), "{:?}", c);
    }
}

#[test]
fn strings_and_characters() {
    let chars = chars_of("héllo");
    assert_eq!(chars, vec!['h', 'é', 'l', 'l', 'o']);
    assert_eq!(string_of(&chars, 1, 4), "éll");
    assert_eq!(string_of(&chars, 2, 2), "");
    assert!(spells(&chars, 2, 5, "llo"));
    assert!(!spells(&chars, 2, 5, "ll"));
    assert!(!spells(&chars, 2, 5, "lla"));
}

#[test]
fn span_union_takes_start_of_first_and_end_of_second() {
    let joined = Span { lo: 3, hi: 5 } | Span { lo: 8, hi: 13 };
    assert_eq!(joined, Span { lo: 3, hi: 13 });
}

#[test]
fn kinds_have_names() {
    let names = [
        (TokenKind::Whitespace, "whitespace"),
        (TokenKind::Newline, "newline"),
        (TokenKind::KwFunc, "func"),
        (TokenKind::KwGlobal, "global"),
        (TokenKind::KwWhile, "while"),
        (TokenKind::KwIf, "if"),
        (TokenKind::KwReturn, "return"),
        (TokenKind::Ident, "identifier"),
        (TokenKind::IntLit, "int literal"),
        (TokenKind::FloatLit, "float literal"),
        (TokenKind::BoolLit, "bool literal"),
        (TokenKind::StrLit, "string literal"),
        (TokenKind::EqualSign, "="),
        (TokenKind::AddEquals, "+="),
        (TokenKind::SubEquals, "-="),
        (TokenKind::MulEquals, "*="),
        (TokenKind::DivEquals, "/="),
        (TokenKind::Plus, "+"),
        (TokenKind::Minus, "-"),
        (TokenKind::Star, "*"),
        (TokenKind::Slash, "/"),
        (TokenKind::Dot, "."),
        (TokenKind::Comma, ","),
        (TokenKind::LParen, "("),
        (TokenKind::RParen, ")"),
        (TokenKind::LBracket, "{"),
        (TokenKind::RBracket, "}"),
    ];
    for (kind, name) in names {
        assert_eq!(kind.name(), name);
        assert_eq!(kind.to_string(), name);
    }
}

#[test]
fn messages_list_what_was_expected() {
    assert_eq!(
        expected_message(&[TokenKind::Ident], Some(TokenKind::Dot)),
        "Expected `identifier`, found `.`"
    );
    assert_eq!(
        expected_message(&[TokenKind::Ident, TokenKind::KwGlobal, TokenKind::KwFunc], None),
        "Expected `identifier`, `global`, `func`, found `EOF`"
    );
    assert_eq!(expected_message(&[], Some(TokenKind::Newline)), "Expected ``, found `newline`");
}
