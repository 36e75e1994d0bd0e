//! The lexical rules and the scanner that applies them.
//!
//! Each rule is a set of texts. At a position of the source the scanner takes
//! the longest text that some rule accepts; where several rules accept that
//! text, the rule listed first decides the kind.

use vstd::prelude::*;
use crate::lexer::TokenKind;

verus! {

pub open spec fn is_blank(c: char) -> bool {
    c == ' ' || c == '\t'
}

pub open spec fn is_digit(c: char) -> bool {
    '0' <= c <= '9'
}

pub open spec fn is_ident_start(c: char) -> bool {
    ('a' <= c <= 'z') || ('A' <= c <= 'Z') || c == '_'
}

pub open spec fn is_ident_part(c: char) -> bool {
    is_ident_start(c) || is_digit(c)
}

/// The character classes that a rule may repeat.
#[derive(Debug, Clone, Copy, PartialEq, Eq)]
pub enum CharClass {
    Blank,
    Digit,
    IdentPart,
}

pub open spec fn in_class(class: CharClass, c: char) -> bool {
    match class {
        CharClass::Blank => is_blank(c),
        CharClass::Digit => is_digit(c),
        CharClass::IdentPart => is_ident_part(c),
    }
}

/// Every character of `t` belongs to `class`.
pub open spec fn all_in(class: CharClass, t: Seq<char>) -> bool {
    forall|i: int| 0 <= i < t.len() ==> in_class(class, #[trigger] t[i])
}

/// `t` is the one character `a`.
pub open spec fn is_single(t: Seq<char>, a: char) -> bool {
    t.len() == 1 && t[0] == a
}

/// `t` is the two characters `a`, `b`.
pub open spec fn is_pair(t: Seq<char>, a: char, b: char) -> bool {
    t.len() == 2 && t[0] == a && t[1] == b
}

/// `t` is digits, a dot at index `k`, and digits again.
pub open spec fn is_float_split(t: Seq<char>, k: int) -> bool {
    &&& 0 < k < t.len() - 1
    &&& t[k] == '.'
    &&& forall|i: int| 0 <= i < k ==> is_digit(#[trigger] t[i])
    &&& forall|i: int| k < i < t.len() ==> is_digit(#[trigger] t[i])
}

/// `t` starts and ends with a double quote and holds none in between.
pub open spec fn is_quoted(t: Seq<char>) -> bool {
    &&& t.len() >= 2
    &&& t[0] == '"'
    &&& t[t.len() - 1] == '"'
    &&& forall|i: int| 0 < i < t.len() - 1 ==> #[trigger] t[i] != '"'
}

/// The texts that the rule of `kind` accepts. Keyword kinds have no rule of
/// their own: a keyword is an identifier that is reclassified after the match.
pub open spec fn rule_accepts(kind: TokenKind, t: Seq<char>) -> bool {
    match kind {
        TokenKind::Whitespace => t.len() >= 1 && all_in(CharClass::Blank, t),
        TokenKind::Newline => is_pair(t, '\r', '\n') || is_single(t, '\n') || is_single(t, '\r'),
        TokenKind::Ident => t.len() >= 1 && is_ident_start(t[0]) && all_in(
            CharClass::IdentPart,
            t,
        ),
        TokenKind::IntLit => t.len() >= 1 && all_in(CharClass::Digit, t),
        TokenKind::FloatLit => exists|k: int| is_float_split(t, k),
        TokenKind::BoolLit => t =~= seq!['T', 'r', 'u', 'e'] || t =~= seq!['F', 'a', 'l', 's', 'e'],
        TokenKind::StrLit => is_quoted(t),
        TokenKind::EqualSign => is_single(t, '='),
        TokenKind::AddEquals => is_pair(t, '+', '='),
        TokenKind::SubEquals => is_pair(t, '-', '='),
        TokenKind::MulEquals => is_pair(t, '*', '='),
        TokenKind::DivEquals => is_pair(t, '/', '='),
        TokenKind::Plus => is_single(t, '+'),
        TokenKind::Minus => is_single(t, '-'),
        TokenKind::Star => is_single(t, '*'),
        TokenKind::Slash => is_single(t, '/'),
        TokenKind::Dot => is_single(t, '.'),
        TokenKind::Comma => is_single(t, ','),
        TokenKind::LParen => is_single(t, '('),
        TokenKind::RParen => is_single(t, ')'),
        TokenKind::LBracket => is_single(t, '{'),
        TokenKind::RBracket => is_single(t, '}'),
        TokenKind::Error => t.len() == 1,
        TokenKind::KwFunc | TokenKind::KwGlobal | TokenKind::KwWhile | TokenKind::KwIf
        | TokenKind::KwReturn => false,
    }
}

/// Position of the rule of `kind` in the ordered list of rules.
pub open spec fn rule_rank(kind: TokenKind) -> int {
    match kind {
        TokenKind::Whitespace => 0,
        TokenKind::Newline => 1,
        TokenKind::Ident => 2,
        TokenKind::IntLit => 3,
        TokenKind::FloatLit => 4,
        TokenKind::BoolLit => 5,
        TokenKind::StrLit => 6,
        TokenKind::EqualSign => 7,
        TokenKind::AddEquals => 8,
        TokenKind::SubEquals => 9,
        TokenKind::MulEquals => 10,
        TokenKind::DivEquals => 11,
        TokenKind::Plus => 12,
        TokenKind::Minus => 13,
        TokenKind::Star => 14,
        TokenKind::Slash => 15,
        TokenKind::Dot => 16,
        TokenKind::Comma => 17,
        TokenKind::LParen => 18,
        TokenKind::RParen => 19,
        TokenKind::LBracket => 20,
        TokenKind::RBracket => 21,
        TokenKind::Error => 22,
        TokenKind::KwFunc => 23,
        TokenKind::KwGlobal => 24,
        TokenKind::KwWhile => 25,
        TokenKind::KwIf => 26,
        TokenKind::KwReturn => 27,
    }
}

/// At `pos` no rule accepts a text longer than `len`.
pub open spec fn no_longer_match(s: Seq<char>, pos: int, len: int) -> bool {
    forall|k: TokenKind, n: int|
        len < n && pos + n <= s.len() ==> !#[trigger] rule_accepts(k, s.subrange(pos, pos + n))
}

/// No rule listed before that of `kind` accepts `t`.
pub open spec fn no_earlier_rule(kind: TokenKind, t: Seq<char>) -> bool {
    forall|k: TokenKind| rule_rank(k) < rule_rank(kind) ==> !#[trigger] rule_accepts(k, t)
}

/// The `len` characters at `pos` form the lexeme of `kind` there: the longest
/// text that any rule accepts, under the first rule that accepts it.
pub open spec fn is_lexeme(s: Seq<char>, pos: int, kind: TokenKind, len: int) -> bool {
    &&& 0 <= pos
    &&& 0 < len
    &&& pos + len <= s.len()
    &&& rule_accepts(kind, s.subrange(pos, pos + len))
    &&& no_longer_match(s, pos, len)
    &&& no_earlier_rule(kind, s.subrange(pos, pos + len))
}

/// Kind and length of the lexeme at `pos`.
pub open spec fn lexeme_at(s: Seq<char>, pos: int) -> (TokenKind, int) {
    choose|p: (TokenKind, int)| is_lexeme(s, pos, p.0, p.1)
}

/// A position has at most one lexeme.
pub proof fn lemma_lexeme_unique(
    s: Seq<char>,
    pos: int,
    k1: TokenKind,
    n1: int,
    k2: TokenKind,
    n2: int,
)
    requires
        is_lexeme(s, pos, k1, n1),
        is_lexeme(s, pos, k2, n2),
    ensures
        k1 == k2,
        n1 == n2,
{
    if n1 < n2 {
        assert(rule_accepts(k2, s.subrange(pos, pos + n2)));
        assert(false);
    }
    if n2 < n1 {
        assert(rule_accepts(k1, s.subrange(pos, pos + n1)));
        assert(false);
    }
    let t = s.subrange(pos, pos + n1);
    assert(rule_accepts(k1, t) && rule_accepts(k2, t));
    if rule_rank(k1) < rule_rank(k2) {
        assert(false);
    }
    if rule_rank(k2) < rule_rank(k1) {
        assert(false);
    }
}

/// The lexeme found at a position is the one that `lexeme_at` names.
pub proof fn lemma_lexeme_at(s: Seq<char>, pos: int, kind: TokenKind, len: int)
    requires
        is_lexeme(s, pos, kind, len),
    ensures
        lexeme_at(s, pos) == (kind, len),
{
    let p = (kind, len);
    assert(is_lexeme(s, pos, p.0, p.1));
    let q = lexeme_at(s, pos);
    lemma_lexeme_unique(s, pos, kind, len, q.0, q.1);
}

/// The characters with which a text that the rule of `kind` accepts can start.
pub open spec fn rule_starts(kind: TokenKind, c: char) -> bool {
    match kind {
        TokenKind::Whitespace => is_blank(c),
        TokenKind::Newline => c == '\n' || c == '\r',
        TokenKind::Ident => is_ident_start(c),
        TokenKind::IntLit | TokenKind::FloatLit => is_digit(c),
        TokenKind::BoolLit => c == 'T' || c == 'F',
        TokenKind::StrLit => c == '"',
        TokenKind::EqualSign => c == '=',
        TokenKind::AddEquals | TokenKind::Plus => c == '+',
        TokenKind::SubEquals | TokenKind::Minus => c == '-',
        TokenKind::MulEquals | TokenKind::Star => c == '*',
        TokenKind::DivEquals | TokenKind::Slash => c == '/',
        TokenKind::Dot => c == '.',
        TokenKind::Comma => c == ',',
        TokenKind::LParen => c == '(',
        TokenKind::RParen => c == ')',
        TokenKind::LBracket => c == '{',
        TokenKind::RBracket => c == '}',
        TokenKind::Error => true,
        TokenKind::KwFunc | TokenKind::KwGlobal | TokenKind::KwWhile | TokenKind::KwIf
        | TokenKind::KwReturn => false,
    }
}

/// A text that a rule accepts is not empty and starts as `rule_starts` says.
pub proof fn lemma_rule_start(kind: TokenKind, t: Seq<char>)
    requires
        rule_accepts(kind, t),
    ensures
        t.len() >= 1,
        rule_starts(kind, t[0]),
{
    if kind == TokenKind::FloatLit {
        let k = choose|k: int| is_float_split(t, k);
        assert(is_digit(t[0]));
    }
}

/// The rule for identifiers accepts both boolean words.
pub proof fn lemma_bool_word_is_ident(t: Seq<char>)
    requires
        rule_accepts(TokenKind::BoolLit, t),
    ensures
        rule_accepts(TokenKind::Ident, t),
{
    assert forall|i: int| 0 <= i < t.len() implies in_class(CharClass::IdentPart, #[trigger] t[i]) by {
        if t =~= seq!['T', 'r', 'u', 'e'] {
            assert(i == 0 || i == 1 || i == 2 || i == 3);
        } else {
            assert(i == 0 || i == 1 || i == 2 || i == 3 || i == 4);
        }
    }
}

/// The characters `s[from..to]` belong to `class`, and the one after them,
/// where there is one, does not.
pub open spec fn is_run(class: CharClass, s: Seq<char>, from: int, to: int) -> bool {
    &&& 0 <= from <= to <= s.len()
    &&& forall|i: int| from <= i < to ==> in_class(class, #[trigger] s[i])
    &&& to < s.len() ==> !in_class(class, s[to])
}

/// A run of blanks is the lexeme at its start.
pub proof fn lemma_blank_lexeme(s: Seq<char>, pos: int, end: int)
    requires
        pos < end,
        is_run(CharClass::Blank, s, pos, end),
    ensures
        is_lexeme(s, pos, TokenKind::Whitespace, end - pos),
{
    let len = end - pos;
    let text = s.subrange(pos, end);
    assert(all_in(CharClass::Blank, text));
    assert forall|k: TokenKind, n: int| len < n && pos + n <= s.len() implies !#[trigger] rule_accepts(
        k,
        s.subrange(pos, pos + n),
    ) by {
        let t = s.subrange(pos, pos + n);
        if rule_accepts(k, t) {
            lemma_rule_start(k, t);
            assert(t[0] == s[pos]);
            assert(t[len] == s[end]);
        }
    }
}

/// A line break is the lexeme at its start: two characters for a carriage
/// return followed by a line feed, one otherwise.
pub proof fn lemma_newline_lexeme(s: Seq<char>, pos: int)
    requires
        0 <= pos < s.len(),
        s[pos] == '\n' || s[pos] == '\r',
    ensures
        is_lexeme(
            s,
            pos,
            TokenKind::Newline,
            if s[pos] == '\r' && pos + 1 < s.len() && s[pos + 1] == '\n' {
                2int
            } else {
                1int
            },
        ),
{
    let len = if s[pos] == '\r' && pos + 1 < s.len() && s[pos + 1] == '\n' {
        2int
    } else {
        1int
    };
    let text = s.subrange(pos, pos + len);
    assert(text[0] == s[pos]);
    if len == 2 {
        assert(text[1] == s[pos + 1]);
    }
    assert forall|k: TokenKind, n: int| len < n && pos + n <= s.len() implies !#[trigger] rule_accepts(
        k,
        s.subrange(pos, pos + n),
    ) by {
        let t = s.subrange(pos, pos + n);
        if rule_accepts(k, t) {
            lemma_rule_start(k, t);
            assert(t[0] == s[pos]);
            assert(t[1] == s[pos + 1]);
        }
    }
    assert forall|k: TokenKind| rule_rank(k) < rule_rank(TokenKind::Newline) implies !#[trigger] rule_accepts(
        k,
        text,
    ) by {
        if rule_accepts(k, text) {
            lemma_rule_start(k, text);
        }
    }
}

/// An identifier start followed by a run of identifier characters is the
/// lexeme at its start.
pub proof fn lemma_ident_lexeme(s: Seq<char>, pos: int, end: int)
    requires
        0 <= pos,
        is_ident_start(s[pos]),
        is_run(CharClass::IdentPart, s, pos + 1, end),
    ensures
        is_lexeme(s, pos, TokenKind::Ident, end - pos),
{
    let len = end - pos;
    let text = s.subrange(pos, end);
    assert(text[0] == s[pos]);
    assert forall|i: int| 0 <= i < text.len() implies in_class(
        CharClass::IdentPart,
        #[trigger] text[i],
    ) by {
        assert(text[i] == s[pos + i]);
    }
    assert forall|k: TokenKind, n: int| len < n && pos + n <= s.len() implies !#[trigger] rule_accepts(
        k,
        s.subrange(pos, pos + n),
    ) by {
        let t = s.subrange(pos, pos + n);
        if rule_accepts(k, t) {
            lemma_rule_start(k, t);
            assert(t[0] == s[pos]);
            assert(t[len] == s[end]);
            if k == TokenKind::BoolLit {
                lemma_bool_word_is_ident(t);
            }
        }
    }
    assert forall|k: TokenKind| rule_rank(k) < rule_rank(TokenKind::Ident) implies !#[trigger] rule_accepts(
        k,
        text,
    ) by {
        if rule_accepts(k, text) {
            lemma_rule_start(k, text);
        }
    }
}

/// Whether a fraction follows the digits that end at `end`: a dot and at least
/// one more digit.
pub open spec fn has_fraction(s: Seq<char>, end: int) -> bool {
    end + 1 < s.len() && s[end] == '.' && is_digit(s[end + 1])
}

/// In a text that starts with the digits `s[pos..end]`, a dot can only stand
/// right after them.
pub proof fn lemma_float_dot(s: Seq<char>, pos: int, end: int, n: int, k: int)
    requires
        0 <= pos < end,
        is_run(CharClass::Digit, s, pos, end),
        end - pos < n,
        pos + n <= s.len(),
        is_float_split(s.subrange(pos, pos + n), k),
    ensures
        k == end - pos,
        has_fraction(s, end),
{
    let t = s.subrange(pos, pos + n);
    let d = end - pos;
    assert(t[d] == s[end]);
    if k > d {
        assert(is_digit(t[d]));
    }
    if k < d {
        assert(t[k] == s[pos + k]);
        assert(in_class(CharClass::Digit, s[pos + k]));
    }
    assert(t[d + 1] == s[end + 1]);
}

/// Digits that no fraction follows are the lexeme at their start.
pub proof fn lemma_int_lexeme(s: Seq<char>, pos: int, end: int)
    requires
        0 <= pos < end,
        is_run(CharClass::Digit, s, pos, end),
        !has_fraction(s, end),
    ensures
        is_lexeme(s, pos, TokenKind::IntLit, end - pos),
{
    let len = end - pos;
    let text = s.subrange(pos, end);
    assert(all_in(CharClass::Digit, text));
    assert(in_class(CharClass::Digit, s[pos]));
    assert forall|k: TokenKind, n: int| len < n && pos + n <= s.len() implies !#[trigger] rule_accepts(
        k,
        s.subrange(pos, pos + n),
    ) by {
        let t = s.subrange(pos, pos + n);
        if rule_accepts(k, t) {
            lemma_rule_start(k, t);
            assert(t[0] == s[pos]);
            assert(t[len] == s[end]);
            if k == TokenKind::FloatLit {
                let j = choose|j: int| is_float_split(t, j);
                lemma_float_dot(s, pos, end, n, j);
            }
        }
    }
    assert forall|k: TokenKind| rule_rank(k) < rule_rank(TokenKind::IntLit) implies !#[trigger] rule_accepts(
        k,
        text,
    ) by {
        if rule_accepts(k, text) {
            lemma_rule_start(k, text);
            assert(text[0] == s[pos]);
        }
    }
}

/// Digits, a dot and a run of digits are the lexeme at their start.
pub proof fn lemma_float_lexeme(s: Seq<char>, pos: int, dot: int, end: int)
    requires
        0 <= pos < dot,
        is_run(CharClass::Digit, s, pos, dot),
        has_fraction(s, dot),
        is_run(CharClass::Digit, s, dot + 1, end),
    ensures
        is_lexeme(s, pos, TokenKind::FloatLit, end - pos),
{
    let len = end - pos;
    let text = s.subrange(pos, end);
    assert(in_class(CharClass::Digit, s[pos]));
    assert(in_class(CharClass::Digit, s[dot + 1]));
    assert(dot + 1 < end);
    assert(is_float_split(text, dot - pos)) by {
        assert(text[dot - pos] == s[dot]);
        assert forall|i: int| 0 <= i < dot - pos implies is_digit(#[trigger] text[i]) by {
            assert(in_class(CharClass::Digit, s[pos + i]));
        }
        assert forall|i: int| dot - pos < i < text.len() implies is_digit(#[trigger] text[i]) by {
            assert(in_class(CharClass::Digit, s[pos + i]));
        }
    }
    assert forall|k: TokenKind, n: int| len < n && pos + n <= s.len() implies !#[trigger] rule_accepts(
        k,
        s.subrange(pos, pos + n),
    ) by {
        let t = s.subrange(pos, pos + n);
        if rule_accepts(k, t) {
            lemma_rule_start(k, t);
            assert(t[0] == s[pos]);
            assert(t[dot - pos] == s[dot]);
            assert(t[len] == s[end]);
            if k == TokenKind::FloatLit {
                let j = choose|j: int| is_float_split(t, j);
                lemma_float_dot(s, pos, dot, n, j);
                assert(is_digit(t[len]));
            }
        }
    }
    assert forall|k: TokenKind| rule_rank(k) < rule_rank(TokenKind::FloatLit) implies !#[trigger] rule_accepts(
        k,
        text,
    ) by {
        if rule_accepts(k, text) {
            lemma_rule_start(k, text);
            assert(text[0] == s[pos]);
            assert(text[dot - pos] == s[dot]);
        }
    }
}

/// The first double quote after `pos` stands at `close`.
pub open spec fn is_closing_quote(s: Seq<char>, pos: int, close: int) -> bool {
    &&& pos < close < s.len()
    &&& s[close] == '"'
    &&& forall|i: int| pos < i < close ==> #[trigger] s[i] != '"'
}

/// No double quote follows `pos`.
pub open spec fn is_unclosed(s: Seq<char>, pos: int) -> bool {
    forall|i: int| pos < i < s.len() ==> #[trigger] s[i] != '"'
}

/// A double quote and the text up to the next double quote are the lexeme at
/// the first.
pub proof fn lemma_string_lexeme(s: Seq<char>, pos: int, close: int)
    requires
        0 <= pos,
        s[pos] == '"',
        is_closing_quote(s, pos, close),
    ensures
        is_lexeme(s, pos, TokenKind::StrLit, close + 1 - pos),
{
    let len = close + 1 - pos;
    let text = s.subrange(pos, close + 1);
    assert(is_quoted(text)) by {
        assert(text[0] == s[pos]);
        assert(text[len - 1] == s[close]);
        assert forall|i: int| 0 < i < text.len() - 1 implies #[trigger] text[i] != '"' by {
            assert(text[i] == s[pos + i]);
        }
    }
    assert forall|k: TokenKind, n: int| len < n && pos + n <= s.len() implies !#[trigger] rule_accepts(
        k,
        s.subrange(pos, pos + n),
    ) by {
        let t = s.subrange(pos, pos + n);
        if rule_accepts(k, t) {
            lemma_rule_start(k, t);
            assert(t[0] == s[pos]);
            assert(t[close - pos] == s[close]);
        }
    }
    assert forall|k: TokenKind| rule_rank(k) < rule_rank(TokenKind::StrLit) implies !#[trigger] rule_accepts(
        k,
        text,
    ) by {
        if rule_accepts(k, text) {
            lemma_rule_start(k, text);
        }
    }
}

/// The kind of the operator or punctuation mark that starts with `c`, where
/// `assign` says whether an equals sign follows.
pub open spec fn symbol_kind(c: char, assign: bool) -> Option<TokenKind> {
    if c == '=' {
        Some(TokenKind::EqualSign)
    } else if c == '+' {
        Some(if assign { TokenKind::AddEquals } else { TokenKind::Plus })
    } else if c == '-' {
        Some(if assign { TokenKind::SubEquals } else { TokenKind::Minus })
    } else if c == '*' {
        Some(if assign { TokenKind::MulEquals } else { TokenKind::Star })
    } else if c == '/' {
        Some(if assign { TokenKind::DivEquals } else { TokenKind::Slash })
    } else if c == '.' {
        Some(TokenKind::Dot)
    } else if c == ',' {
        Some(TokenKind::Comma)
    } else if c == '(' {
        Some(TokenKind::LParen)
    } else if c == ')' {
        Some(TokenKind::RParen)
    } else if c == '{' {
        Some(TokenKind::LBracket)
    } else if c == '}' {
        Some(TokenKind::RBracket)
    } else {
        None
    }
}

/// Whether `kind` is one of the two-character assignment operators.
pub open spec fn is_compound(kind: TokenKind) -> bool {
    kind == TokenKind::AddEquals || kind == TokenKind::SubEquals || kind == TokenKind::MulEquals
        || kind == TokenKind::DivEquals
}

/// Whether an equals sign stands right after `pos`.
pub open spec fn equals_follows(s: Seq<char>, pos: int) -> bool {
    pos + 1 < s.len() && s[pos + 1] == '='
}

/// An operator or punctuation mark is the lexeme at its start.
pub proof fn lemma_symbol_lexeme(s: Seq<char>, pos: int, kind: TokenKind)
    requires
        0 <= pos < s.len(),
        symbol_kind(s[pos], equals_follows(s, pos)) == Some(kind),
    ensures
        is_lexeme(
            s,
            pos,
            kind,
            if is_compound(kind) {
                2int
            } else {
                1int
            },
        ),
{
    let len = if is_compound(kind) {
        2int
    } else {
        1int
    };
    let text = s.subrange(pos, pos + len);
    assert(text[0] == s[pos]);
    if len == 2 {
        assert(text[1] == s[pos + 1]);
    }
    assert forall|k: TokenKind, n: int| len < n && pos + n <= s.len() implies !#[trigger] rule_accepts(
        k,
        s.subrange(pos, pos + n),
    ) by {
        let t = s.subrange(pos, pos + n);
        if rule_accepts(k, t) {
            lemma_rule_start(k, t);
            assert(t[0] == s[pos]);
            assert(t[1] == s[pos + 1]);
        }
    }
    assert forall|k: TokenKind| rule_rank(k) < rule_rank(kind) implies !#[trigger] rule_accepts(
        k,
        text,
    ) by {
        if rule_accepts(k, text) {
            lemma_rule_start(k, text);
        }
    }
}

/// Whether some rule other than the catch-all accepts a text that starts
/// with `c`.
pub open spec fn starts_lexeme(c: char) -> bool {
    is_blank(c) || c == '\n' || c == '\r' || is_ident_start(c) || is_digit(c) || c == '"'
        || symbol_kind(c, false) is Some
}

/// A character with which no other rule starts, or a double quote that is
/// never closed, is the lexeme of the catch-all rule.
pub proof fn lemma_stray_lexeme(s: Seq<char>, pos: int)
    requires
        0 <= pos < s.len(),
        !starts_lexeme(s[pos]) || (s[pos] == '"' && is_unclosed(s, pos)),
    ensures
        is_lexeme(s, pos, TokenKind::Error, 1),
{
    let text = s.subrange(pos, pos + 1);
    assert(text[0] == s[pos]);
    assert forall|k: TokenKind, n: int| 1 < n && pos + n <= s.len() implies !#[trigger] rule_accepts(
        k,
        s.subrange(pos, pos + n),
    ) by {
        let t = s.subrange(pos, pos + n);
        if rule_accepts(k, t) {
            lemma_rule_start(k, t);
            assert(t[0] == s[pos]);
            assert(t[n - 1] == s[pos + n - 1]);
        }
    }
    assert forall|k: TokenKind| rule_rank(k) < rule_rank(TokenKind::Error) implies !#[trigger] rule_accepts(
        k,
        text,
    ) by {
        if rule_accepts(k, text) {
            lemma_rule_start(k, text);
        }
    }
}

/// Where the run of `class` characters that starts at `from` ends.
pub open spec fn run_stop(class: CharClass, s: Seq<char>, from: int) -> int
    decreases s.len() - from,
{
    if 0 <= from < s.len() && in_class(class, s[from]) {
        run_stop(class, s, from + 1)
    } else {
        from
    }
}

/// `run_stop` names the end of the run.
pub proof fn lemma_run_stop(class: CharClass, s: Seq<char>, from: int)
    requires
        0 <= from <= s.len(),
    ensures
        is_run(class, s, from, run_stop(class, s, from)),
    decreases s.len() - from,
{
    if from < s.len() && in_class(class, s[from]) {
        lemma_run_stop(class, s, from + 1);
    }
}

/// The index of the first double quote from `from` on, or the length of `s`
/// if there is none.
pub open spec fn next_quote(s: Seq<char>, from: int) -> int
    decreases s.len() - from,
{
    if 0 <= from < s.len() && s[from] != '"' {
        next_quote(s, from + 1)
    } else {
        from
    }
}

/// `next_quote` names the closing quote, if there is one.
pub proof fn lemma_next_quote(s: Seq<char>, pos: int, from: int)
    requires
        0 <= pos < from <= s.len(),
        forall|i: int| pos < i < from ==> #[trigger] s[i] != '"',
    ensures
        from <= next_quote(s, from) <= s.len(),
        next_quote(s, from) < s.len() ==> is_closing_quote(s, pos, next_quote(s, from)),
        next_quote(s, from) == s.len() ==> is_unclosed(s, pos),
    decreases s.len() - from,
{
    if from < s.len() && s[from] != '"' {
        lemma_next_quote(s, pos, from + 1);
    }
}

/// Kind and length of the lexeme at `pos`, found from the character there.
pub open spec fn lexeme_by_cases(s: Seq<char>, pos: int) -> (TokenKind, int) {
    let c = s[pos];
    if is_blank(c) {
        (TokenKind::Whitespace, run_stop(CharClass::Blank, s, pos) - pos)
    } else if c == '\n' || c == '\r' {
        (
            TokenKind::Newline,
            if c == '\r' && pos + 1 < s.len() && s[pos + 1] == '\n' {
                2int
            } else {
                1int
            },
        )
    } else if is_digit(c) {
        let dot = run_stop(CharClass::Digit, s, pos);
        if has_fraction(s, dot) {
            (TokenKind::FloatLit, run_stop(CharClass::Digit, s, dot + 1) - pos)
        } else {
            (TokenKind::IntLit, dot - pos)
        }
    } else if is_ident_start(c) {
        (TokenKind::Ident, run_stop(CharClass::IdentPart, s, pos + 1) - pos)
    } else if c == '"' {
        let close = next_quote(s, pos + 1);
        if close < s.len() {
            (TokenKind::StrLit, close + 1 - pos)
        } else {
            (TokenKind::Error, 1)
        }
    } else {
        match symbol_kind(c, equals_follows(s, pos)) {
            Some(kind) => (
                kind,
                if is_compound(kind) {
                    2int
                } else {
                    1int
                },
            ),
            None => (TokenKind::Error, 1),
        }
    }
}

/// Every position in the source has a lexeme, and `lexeme_by_cases` names it.
pub proof fn lemma_lexeme_by_cases(s: Seq<char>, pos: int)
    requires
        0 <= pos < s.len(),
    ensures
        is_lexeme(s, pos, lexeme_by_cases(s, pos).0, lexeme_by_cases(s, pos).1),
        lexeme_at(s, pos) == lexeme_by_cases(s, pos),
{
    let c = s[pos];
    if is_blank(c) {
        lemma_run_stop(CharClass::Blank, s, pos);
        lemma_blank_lexeme(s, pos, run_stop(CharClass::Blank, s, pos));
    } else if c == '\n' || c == '\r' {
        lemma_newline_lexeme(s, pos);
    } else if is_digit(c) {
        lemma_run_stop(CharClass::Digit, s, pos);
        let dot = run_stop(CharClass::Digit, s, pos);
        if has_fraction(s, dot) {
            lemma_run_stop(CharClass::Digit, s, dot + 1);
            lemma_float_lexeme(s, pos, dot, run_stop(CharClass::Digit, s, dot + 1));
        } else {
            lemma_int_lexeme(s, pos, dot);
        }
    } else if is_ident_start(c) {
        lemma_run_stop(CharClass::IdentPart, s, pos + 1);
        lemma_ident_lexeme(s, pos, run_stop(CharClass::IdentPart, s, pos + 1));
    } else if c == '"' {
        lemma_next_quote(s, pos, pos + 1);
        let close = next_quote(s, pos + 1);
        if close < s.len() {
            lemma_string_lexeme(s, pos, close);
        } else {
            lemma_stray_lexeme(s, pos);
        }
    } else {
        match symbol_kind(c, equals_follows(s, pos)) {
            Some(kind) => {
                lemma_symbol_lexeme(s, pos, kind);
            },
            None => {
                lemma_stray_lexeme(s, pos);
            },
        }
    }
    lemma_lexeme_at(s, pos, lexeme_by_cases(s, pos).0, lexeme_by_cases(s, pos).1);
}

/// Whether `c` belongs to `class`.
pub fn class_has(class: CharClass, c: char) -> (b: bool)
    ensures
        b == in_class(class, c),
{
    let digit = '0' <= c && c <= '9';
    let start = ('a' <= c && c <= 'z') || ('A' <= c && c <= 'Z') || c == '_';
    match class {
        CharClass::Blank => c == ' ' || c == '\t',
        CharClass::Digit => digit,
        CharClass::IdentPart => start || digit,
    }
}

/// Where the run of `class` characters that starts at `from` ends.
pub fn run_end(src: &Vec<char>, from: usize, class: CharClass) -> (to: usize)
    requires
        from <= src.len(),
    ensures
        is_run(class, src@, from as int, to as int),
{
    let mut to: usize = from;
    while to < src.len() && class_has(class, src[to])
        invariant
            from <= to <= src.len(),
            forall|i: int| from <= i < to ==> in_class(class, #[trigger] src@[i]),
        decreases src.len() - to,
    {
        to += 1;
    }
    to
}

/// Where the first double quote after `pos` stands, if there is one.
pub fn closing_quote(src: &Vec<char>, pos: usize) -> (r: Option<usize>)
    requires
        pos < src.len(),
    ensures
        match r {
            Some(close) => is_closing_quote(src@, pos as int, close as int),
            None => is_unclosed(src@, pos as int),
        },
{
    let mut i: usize = pos + 1;
    while i < src.len() && src[i] != '"'
        invariant
            pos < i <= src.len(),
            forall|j: int| pos < j < i ==> #[trigger] src@[j] != '"',
        decreases src.len() - i,
    {
        i += 1;
    }
    if i < src.len() {
        Some(i)
    } else {
        None
    }
}

/// The kind of the operator or punctuation mark that starts with `c`, where
/// `assign` says whether an equals sign follows.
pub fn symbol(c: char, assign: bool) -> (r: Option<TokenKind>)
    ensures
        r == symbol_kind(c, assign),
{
    if c == '=' {
        Some(TokenKind::EqualSign)
    } else if c == '+' {
        Some(if assign { TokenKind::AddEquals } else { TokenKind::Plus })
    } else if c == '-' {
        Some(if assign { TokenKind::SubEquals } else { TokenKind::Minus })
    } else if c == '*' {
        Some(if assign { TokenKind::MulEquals } else { TokenKind::Star })
    } else if c == '/' {
        Some(if assign { TokenKind::DivEquals } else { TokenKind::Slash })
    } else if c == '.' {
        Some(TokenKind::Dot)
    } else if c == ',' {
        Some(TokenKind::Comma)
    } else if c == '(' {
        Some(TokenKind::LParen)
    } else if c == ')' {
        Some(TokenKind::RParen)
    } else if c == '{' {
        Some(TokenKind::LBracket)
    } else if c == '}' {
        Some(TokenKind::RBracket)
    } else {
        None
    }
}

/// Kind and length, in characters, of the lexeme at `pos`.
pub fn scan(src: &Vec<char>, pos: usize) -> (r: (TokenKind, usize))
    requires
        pos < src.len(),
    ensures
        is_lexeme(src@, pos as int, r.0, r.1 as int),
        lexeme_at(src@, pos as int) == (r.0, r.1 as int),
{
    let c = src[pos];
    let r = if class_has(CharClass::Blank, c) {
        let end = run_end(src, pos, CharClass::Blank);
        proof {
            lemma_blank_lexeme(src@, pos as int, end as int);
        }
        (TokenKind::Whitespace, end - pos)
    } else if c == '\n' || c == '\r' {
        proof {
            lemma_newline_lexeme(src@, pos as int);
        }
        if c == '\r' && pos + 1 < src.len() && src[pos + 1] == '\n' {
            (TokenKind::Newline, 2)
        } else {
            (TokenKind::Newline, 1)
        }
    } else if class_has(CharClass::Digit, c) {
        let dot = run_end(src, pos, CharClass::Digit);
        if dot < src.len() && src[dot] == '.' && dot + 1 < src.len() && class_has(
            CharClass::Digit,
            src[dot + 1],
        ) {
            let end = run_end(src, dot + 1, CharClass::Digit);
            proof {
                lemma_float_lexeme(src@, pos as int, dot as int, end as int);
            }
            (TokenKind::FloatLit, end - pos)
        } else {
            proof {
                lemma_int_lexeme(src@, pos as int, dot as int);
            }
            (TokenKind::IntLit, dot - pos)
        }
    } else if class_has(CharClass::IdentPart, c) {
        let end = run_end(src, pos + 1, CharClass::IdentPart);
        proof {
            lemma_ident_lexeme(src@, pos as int, end as int);
        }
        (TokenKind::Ident, end - pos)
    } else if c == '"' {
        match closing_quote(src, pos) {
            Some(close) => {
                proof {
                    lemma_string_lexeme(src@, pos as int, close as int);
                }
                (TokenKind::StrLit, close + 1 - pos)
            },
            None => {
                proof {
                    lemma_stray_lexeme(src@, pos as int);
                }
                (TokenKind::Error, 1)
            },
        }
    } else {
        let assign = pos + 1 < src.len() && src[pos + 1] == '=';
        match symbol(c, assign) {
            Some(kind) => {
                proof {
                    lemma_symbol_lexeme(src@, pos as int, kind);
                }
                let compound = kind == TokenKind::AddEquals || kind == TokenKind::SubEquals
                    || kind == TokenKind::MulEquals || kind == TokenKind::DivEquals;
                (kind, if compound { 2 } else { 1 })
            },
            None => {
                proof {
                    lemma_stray_lexeme(src@, pos as int);
                }
                (TokenKind::Error, 1)
            },
        }
    };
    proof {
        lemma_lexeme_at(src@, pos as int, r.0, r.1 as int);
    }
    r
}

} // verus!
