//! What holds of every run of the tokenizer and of the parser.

use vstd::prelude::*;
use crate::grammar::{parse_program, Program};
use crate::lexer::{
    joins_lines, keyword_kind, lex_from, span_at, tokenize, Lexed, LexerErrorView, LexerView,
    TokenKind, TokenView,
};
use crate::parser::ParserView;
use crate::rules::{
    is_blank, is_float_split, is_quoted, lemma_bool_word_is_ident, lemma_lexeme_by_cases,
    lemma_next_quote, lemma_rule_start, lexeme_at, next_quote, rule_accepts, rule_rank,
    starts_lexeme, symbol_kind,
};
use crate::text::{lemma_byte_offset_increases, lemma_byte_offset_split, utf8_len};
use crate::util::Span;

verus! {

/// A tokenizer that has completed its run stays as it is when it is run
/// again.
pub proof fn lemma_lexer_run_is_idempotent(state: LexerView)
    ensures
        state.finished().finished() == state.finished(),
{
}

/// A parser that has completed its run stays as it is when it is run again.
pub proof fn lemma_parser_run_is_idempotent(state: ParserView)
    ensures
        state.finished().finished() == state.finished(),
{
}

/// What holds of every token sequence that the tokenizer emits: it holds no
/// blanks and no marker for unrecognized characters, it does not start with
/// a line break, and no line break follows a token after which line breaks
/// are dropped, such as another line break.
pub open spec fn is_token_stream(tokens: Seq<TokenView>) -> bool {
    &&& forall|i: int|
        0 <= i < tokens.len() ==> (#[trigger] tokens[i]).kind != TokenKind::Whitespace
            && tokens[i].kind != TokenKind::Error
    &&& tokens.len() > 0 ==> tokens[0].kind != TokenKind::Newline
    &&& forall|i: int| 0 < i < tokens.len() ==> #[trigger] line_break_is_kept(tokens, i)
}

/// Whether the token at `i`, if it is a line break, follows a token after
/// which line breaks are kept.
pub open spec fn line_break_is_kept(tokens: Seq<TokenView>, i: int) -> bool {
    tokens[i].kind == TokenKind::Newline ==> !joins_lines(tokens[i - 1].kind)
}

proof fn lemma_token_stream_from(s: Seq<char>, pos: int, acc: Lexed)
    requires
        0 <= pos <= s.len(),
        is_token_stream(acc.tokens),
    ensures
        is_token_stream(lex_from(s, pos, acc).tokens),
    decreases s.len() - pos,
{
    if pos < s.len() {
        lemma_lexeme_by_cases(s, pos);
        let (kind, len) = lexeme_at(s, pos);
        let taken = acc.absorb(s, pos, kind, len);
        assert(rule_accepts(kind, s.subrange(pos, pos + len)));
        assert(is_token_stream(taken.tokens)) by {
            if taken.tokens.len() > acc.tokens.len() {
                let token = taken.tokens.last();
                assert(taken.tokens == acc.tokens.push(token));
                assert forall|i: int| 0 <= i < taken.tokens.len() implies (
                #[trigger] taken.tokens[i]).kind != TokenKind::Whitespace && taken.tokens[i].kind
                    != TokenKind::Error by {
                    if i < acc.tokens.len() {
                        assert(taken.tokens[i] == acc.tokens[i]);
                    }
                }
                assert forall|i: int| 0 < i < taken.tokens.len() implies #[trigger] line_break_is_kept(
                    taken.tokens,
                    i,
                ) by {
                    if i < acc.tokens.len() {
                        assert(taken.tokens[i] == acc.tokens[i]);
                        assert(taken.tokens[i - 1] == acc.tokens[i - 1]);
                        assert(line_break_is_kept(acc.tokens, i));
                    } else {
                        assert(taken.tokens[i - 1] == acc.tokens.last());
                    }
                }
                if acc.tokens.len() > 0 {
                    assert(taken.tokens[0] == acc.tokens[0]);
                }
            }
        }
        lemma_token_stream_from(s, pos + len, taken);
    }
}

/// The tokens of every source text form a token stream; in particular, no
/// two line breaks follow each other.
pub proof fn lemma_tokens_form_stream(s: Seq<char>)
    ensures
        is_token_stream(tokenize(s).tokens),
        forall|i: int|
            0 < i < tokenize(s).tokens.len() ==> !(tokenize(s).tokens[i - 1].kind
                == TokenKind::Newline && (#[trigger] tokenize(s).tokens[i]).kind
                == TokenKind::Newline),
{
    lemma_token_stream_from(s, 0, Lexed::empty());
    let tokens = tokenize(s).tokens;
    assert forall|i: int| 0 < i < tokens.len() implies !(tokens[i - 1].kind == TokenKind::Newline && (
    #[trigger] tokens[i]).kind == TokenKind::Newline) by {
        assert(line_break_is_kept(tokens, i));
    }
}

proof fn lemma_tokens_parseable_from(s: Seq<char>, pos: int, acc: Lexed)
    requires
        0 <= pos <= s.len(),
        forall|i: int| 0 <= i < acc.tokens.len() ==> (#[trigger] acc.tokens[i]).parseable(),
    ensures
        forall|i: int|
            0 <= i < lex_from(s, pos, acc).tokens.len() ==> (#[trigger] lex_from(
                s,
                pos,
                acc,
            ).tokens[i]).parseable(),
    decreases s.len() - pos,
{
    if pos < s.len() {
        lemma_lexeme_by_cases(s, pos);
        let (kind, len) = lexeme_at(s, pos);
        let taken = acc.absorb(s, pos, kind, len);
        let text = s.subrange(pos, pos + len);
        assert(rule_accepts(kind, text));
        if kind == TokenKind::BoolLit {
            lemma_bool_word_is_ident(text);
            assert(rule_rank(TokenKind::Ident) < rule_rank(kind));
            assert(false);
        }
        assert forall|i: int| 0 <= i < taken.tokens.len() implies (
        #[trigger] taken.tokens[i]).parseable() by {
            if i < acc.tokens.len() {
                assert(taken.tokens[i] == acc.tokens[i]);
            }
        }
        assert(lex_from(s, pos, acc) == lex_from(s, pos + len, taken));
        lemma_tokens_parseable_from(s, pos + len, taken);
    }
}

/// The parser accepts the tokens of every source text.
pub proof fn lemma_tokens_are_parseable(s: Seq<char>)
    ensures
        forall|i: int|
            0 <= i < tokenize(s).tokens.len() ==> (#[trigger] tokenize(s).tokens[i]).parseable(),
{
    lemma_tokens_parseable_from(s, 0, Lexed::empty());
}

/// Whether `s` holds nothing but spaces, tabs and line breaks.
pub open spec fn is_blank_text(s: Seq<char>) -> bool {
    forall|i: int| 0 <= i < s.len() ==> is_blank(#[trigger] s[i]) || s[i] == '\n' || s[i] == '\r'
}

proof fn lemma_blank_text_from(s: Seq<char>, pos: int)
    requires
        0 <= pos <= s.len(),
        is_blank_text(s),
    ensures
        lex_from(s, pos, Lexed::empty()) == Lexed::empty(),
    decreases s.len() - pos,
{
    if pos < s.len() {
        lemma_lexeme_by_cases(s, pos);
        assert(is_blank(s[pos]) || s[pos] == '\n' || s[pos] == '\r');
        lemma_blank_text_from(s, pos + lexeme_at(s, pos).1);
    }
}

/// A source text of spaces, tabs and line breaks has no tokens and no
/// errors, and its program is empty.
pub proof fn lemma_blank_text_is_empty_program(s: Seq<char>)
    requires
        is_blank_text(s),
    ensures
        tokenize(s) == Lexed::empty(),
        parse_program(tokenize(s).tokens) == Program::empty(),
{
    lemma_blank_text_from(s, 0);
}

/// No recorded error starts at the byte at which the error before it ends:
/// unrecognized characters that follow each other are one error.
pub open spec fn errors_are_apart(errors: Seq<LexerErrorView>) -> bool {
    forall|i: int| 0 < i < errors.len() ==> #[trigger] is_apart(errors, i)
}

/// Whether the error at `i` does not start where the error before it ends.
pub open spec fn is_apart(errors: Seq<LexerErrorView>, i: int) -> bool {
    errors[i - 1].span.hi != errors[i].span.lo
}

proof fn lemma_errors_apart_from(s: Seq<char>, pos: int, acc: Lexed)
    requires
        0 <= pos <= s.len(),
        errors_are_apart(acc.errors),
    ensures
        errors_are_apart(lex_from(s, pos, acc).errors),
    decreases s.len() - pos,
{
    if pos < s.len() {
        lemma_lexeme_by_cases(s, pos);
        let (kind, len) = lexeme_at(s, pos);
        let taken = acc.absorb(s, pos, kind, len);
        assert(errors_are_apart(taken.errors)) by {
            if kind == TokenKind::Error {
                assert forall|i: int| 0 < i < taken.errors.len() implies #[trigger] is_apart(
                    taken.errors,
                    i,
                ) by {
                    if i < acc.errors.len() - 1 {
                        assert(taken.errors[i] == acc.errors[i]);
                        assert(taken.errors[i - 1] == acc.errors[i - 1]);
                        assert(is_apart(acc.errors, i));
                    } else if i == acc.errors.len() - 1 {
                        assert(taken.errors[i - 1] == acc.errors[i - 1]);
                        assert(taken.errors[i].span.lo == acc.errors[i].span.lo);
                        assert(is_apart(acc.errors, i));
                    } else {
                        assert(taken.errors[i - 1] == acc.errors.last());
                    }
                }
            }
        }
        lemma_errors_apart_from(s, pos + len, taken);
    }
}

/// In every run, unrecognized characters that follow each other are
/// recorded as one error.
pub proof fn lemma_errors_are_apart(s: Seq<char>)
    ensures
        errors_are_apart(tokenize(s).errors),
{
    lemma_errors_apart_from(s, 0, Lexed::empty());
}

/// Whether no lexical rule but the catch-all starts with any character of
/// `s`.
pub open spec fn is_stray_text(s: Seq<char>) -> bool {
    forall|i: int| 0 <= i < s.len() ==> !starts_lexeme(#[trigger] s[i])
}

/// The one error that covers the first `len` characters of `s`.
pub open spec fn one_error(s: Seq<char>, len: int) -> Lexed {
    Lexed {
        tokens: Seq::empty(),
        errors: seq![LexerErrorView { text: s.take(len), span: span_at(s, 0, len) }],
    }
}

proof fn lemma_stray_text_from(s: Seq<char>, pos: int)
    requires
        0 < pos <= s.len(),
        is_stray_text(s),
    ensures
        lex_from(s, pos, one_error(s, pos)) == one_error(s, s.len() as int),
    decreases s.len() - pos,
{
    if pos < s.len() {
        lemma_lexeme_by_cases(s, pos);
        assert(!starts_lexeme(s[pos]));
        let taken = one_error(s, pos).absorb(s, pos, TokenKind::Error, 1);
        assert(taken.errors =~= one_error(s, pos + 1).errors) by {
            assert(s.take(pos) + s.subrange(pos, pos + 1) =~= s.take(pos + 1));
        }
        lemma_stray_text_from(s, pos + 1);
    }
}

/// A source text of unrecognized characters alone gives exactly one error,
/// whose text is the whole source and whose span covers all of it.
pub proof fn lemma_stray_text_is_one_error(s: Seq<char>)
    requires
        s.len() > 0,
        is_stray_text(s),
    ensures
        tokenize(s) == (Lexed {
            tokens: Seq::empty(),
            errors: seq![
                LexerErrorView { text: s, span: Span { lo: 0, hi: utf8_len(s) as usize } },
            ],
        }),
{
    lemma_lexeme_by_cases(s, 0);
    assert(!starts_lexeme(s[0]));
    let taken = Lexed::empty().absorb(s, 0, TokenKind::Error, 1);
    assert(taken.errors =~= one_error(s, 1).errors) by {
        assert(s.subrange(0, 1) =~= s.take(1));
    }
    assert(taken == one_error(s, 1));
    lemma_stray_text_from(s, 1);
    assert(s.take(s.len() as int) =~= s);
    assert(s.take(0) =~= Seq::<char>::empty());
}

/// The number of double quotes in `s`.
pub open spec fn count_quotes(s: Seq<char>) -> nat
    decreases s.len(),
{
    if s.len() == 0 {
        0
    } else {
        count_quotes(s.drop_last()) + if s.last() == '"' {
            1nat
        } else {
            0nat
        }
    }
}

/// Whether some lexical rule other than the catch-all starts with each
/// character of `s`.
pub open spec fn is_covered_text(s: Seq<char>) -> bool {
    forall|i: int| 0 <= i < s.len() ==> starts_lexeme(#[trigger] s[i])
}

proof fn lemma_count_quotes_concat(a: Seq<char>, b: Seq<char>)
    ensures
        count_quotes(a + b) == count_quotes(a) + count_quotes(b),
    decreases b.len(),
{
    if b.len() == 0 {
        assert(a + b =~= a);
    } else {
        lemma_count_quotes_concat(a, b.drop_last());
        assert((a + b).drop_last() =~= a + b.drop_last());
        assert((a + b).last() == b.last());
    }
}

proof fn lemma_count_quotes_none(t: Seq<char>)
    requires
        forall|i: int| 0 <= i < t.len() ==> #[trigger] t[i] != '"',
    ensures
        count_quotes(t) == 0,
    decreases t.len(),
{
    if t.len() > 0 {
        assert(t.last() == t[t.len() - 1]);
        assert forall|i: int| 0 <= i < t.drop_last().len() implies #[trigger] t.drop_last()[i]
            != '"' by {
            assert(t.drop_last()[i] == t[i]);
        }
        lemma_count_quotes_none(t.drop_last());
    }
}

proof fn lemma_count_quotes_one(c: char)
    ensures
        count_quotes(seq![c]) == if c == '"' {
            1nat
        } else {
            0nat
        },
{
    assert(seq![c].drop_last() =~= Seq::<char>::empty());
    reveal_with_fuel(count_quotes, 2);
}

proof fn lemma_count_quotes_quoted(t: Seq<char>)
    requires
        is_quoted(t),
    ensures
        count_quotes(t) == 2,
{
    let inner = t.subrange(1, t.len() - 1);
    assert(t =~= seq!['"'] + inner + seq!['"']);
    lemma_count_quotes_concat(seq!['"'] + inner, seq!['"']);
    lemma_count_quotes_concat(seq!['"'], inner);
    lemma_count_quotes_one('"');
    assert forall|i: int| 0 <= i < inner.len() implies #[trigger] inner[i] != '"' by {
        assert(inner[i] == t[i + 1]);
    }
    lemma_count_quotes_none(inner);
}

proof fn lemma_rule_text_without_quote(kind: TokenKind, t: Seq<char>)
    requires
        rule_accepts(kind, t),
        kind != TokenKind::StrLit,
        kind != TokenKind::Error,
    ensures
        forall|i: int| 0 <= i < t.len() ==> #[trigger] t[i] != '"',
{
    assert forall|i: int| 0 <= i < t.len() implies #[trigger] t[i] != '"' by {
        if kind == TokenKind::FloatLit {
            let k = choose|k: int| is_float_split(t, k);
            assert(i < k || i == k || i > k);
        }
        if kind == TokenKind::BoolLit {
            lemma_bool_word_is_ident(t);
        }
    }
}

proof fn lemma_covered_text_from(s: Seq<char>, pos: int, acc: Lexed)
    requires
        0 <= pos <= s.len(),
        is_covered_text(s),
        count_quotes(s.skip(pos)) % 2 == 0,
        acc.errors.len() == 0,
    ensures
        lex_from(s, pos, acc).errors.len() == 0,
    decreases s.len() - pos,
{
    if pos < s.len() {
        lemma_lexeme_by_cases(s, pos);
        let (kind, len) = lexeme_at(s, pos);
        let text = s.subrange(pos, pos + len);
        assert(starts_lexeme(s[pos]));
        assert(rule_accepts(kind, text));
        assert(s.skip(pos) =~= text + s.skip(pos + len));
        lemma_count_quotes_concat(text, s.skip(pos + len));
        if s[pos] == '"' {
            lemma_next_quote(s, pos, pos + 1);
            if next_quote(s, pos + 1) < s.len() {
                lemma_count_quotes_quoted(text);
            } else {
                assert(s.skip(pos) =~= seq![s[pos]] + s.skip(pos + 1));
                lemma_count_quotes_concat(seq![s[pos]], s.skip(pos + 1));
                lemma_count_quotes_one(s[pos]);
                assert forall|i: int| 0 <= i < s.skip(pos + 1).len() implies #[trigger] s.skip(
                    pos + 1,
                )[i] != '"' by {
                    assert(s.skip(pos + 1)[i] == s[pos + 1 + i]);
                }
                lemma_count_quotes_none(s.skip(pos + 1));
                assert(false);
            }
        } else {
            lemma_rule_start(kind, text);
            assert(text[0] == s[pos]);
            assert(symbol_kind(s[pos], true) is Some <==> symbol_kind(s[pos], false) is Some);
            lemma_rule_text_without_quote(kind, text);
            lemma_count_quotes_none(text);
        }
        assert(kind != TokenKind::Error);
        lemma_covered_text_from(s, pos + len, acc.absorb(s, pos, kind, len));
    }
}

/// Tokenizing succeeds on every source text in which some rule other than
/// the catch-all starts with each character and the double quotes pair up.
/// Its tokens form a token stream, as those of every source text do.
pub proof fn lemma_covered_text_has_no_errors(s: Seq<char>)
    requires
        is_covered_text(s),
        count_quotes(s) % 2 == 0,
    ensures
        tokenize(s).errors.len() == 0,
        is_token_stream(tokenize(s).tokens),
{
    assert(s.skip(0) =~= s);
    lemma_covered_text_from(s, 0, Lexed::empty());
    lemma_tokens_form_stream(s);
}

/// The rule that yields tokens of `kind`: that of identifiers for the
/// keywords, its own for every other kind.
pub open spec fn rule_of(kind: TokenKind) -> TokenKind {
    match kind {
        TokenKind::KwFunc
        | TokenKind::KwGlobal
        | TokenKind::KwWhile
        | TokenKind::KwIf
        | TokenKind::KwReturn => TokenKind::Ident,
        _ => kind,
    }
}

/// Whether the text of `token` is one that the rule of its kind accepts,
/// and its kind the one that the text calls for: a word is a keyword exactly
/// if it is spelled like one, and a boolean word is an identifier.
pub open spec fn is_spelled(token: TokenView) -> bool {
    &&& rule_accepts(rule_of(token.kind), token.text)
    &&& rule_of(token.kind) == TokenKind::Ident ==> token.kind == keyword_kind(token.text)
    &&& token.kind != TokenKind::BoolLit
}

/// Whether `token` is the text of `s` that starts at the character with
/// index `pos`, with the byte range of that text as its span.
pub open spec fn is_located(s: Seq<char>, token: TokenView, pos: int) -> bool {
    &&& 0 <= pos
    &&& 0 < token.text.len()
    &&& pos + token.text.len() <= s.len()
    &&& token.text == s.subrange(pos, pos + token.text.len())
    &&& token.span == span_at(s, pos, token.text.len() as int)
}

/// Whether `token` stands somewhere in `s` and is spelled as its kind asks.
pub open spec fn is_token_of(s: Seq<char>, token: TokenView) -> bool {
    is_spelled(token) && exists|pos: int| is_located(s, token, pos)
}

proof fn lemma_tokens_of_source_from(s: Seq<char>, pos: int, acc: Lexed)
    requires
        0 <= pos <= s.len(),
        forall|i: int| 0 <= i < acc.tokens.len() ==> is_token_of(s, #[trigger] acc.tokens[i]),
    ensures
        forall|i: int|
            0 <= i < lex_from(s, pos, acc).tokens.len() ==> is_token_of(
                s,
                #[trigger] lex_from(s, pos, acc).tokens[i],
            ),
    decreases s.len() - pos,
{
    if pos < s.len() {
        lemma_lexeme_by_cases(s, pos);
        let (kind, len) = lexeme_at(s, pos);
        let taken = acc.absorb(s, pos, kind, len);
        let text = s.subrange(pos, pos + len);
        assert(rule_accepts(kind, text));
        if kind == TokenKind::BoolLit {
            lemma_bool_word_is_ident(text);
            assert(rule_rank(TokenKind::Ident) < rule_rank(kind));
            assert(false);
        }
        assert forall|i: int| 0 <= i < taken.tokens.len() implies is_token_of(
            s,
            #[trigger] taken.tokens[i],
        ) by {
            if i < acc.tokens.len() {
                assert(taken.tokens[i] == acc.tokens[i]);
            } else {
                assert(is_located(s, taken.tokens[i], pos));
            }
        }
        assert(lex_from(s, pos, acc) == lex_from(s, pos + len, taken));
        lemma_tokens_of_source_from(s, pos + len, taken);
    }
}

/// Every token is a piece of the source text that the rule of its kind
/// accepts, and its span is the byte range of that piece.
pub proof fn lemma_tokens_are_of_source(s: Seq<char>)
    ensures
        forall|i: int|
            0 <= i < tokenize(s).tokens.len() ==> is_token_of(s, #[trigger] tokenize(s).tokens[i]),
{
    lemma_tokens_of_source_from(s, 0, Lexed::empty());
}

/// Whether `error` is the text of `s` that starts at the character with
/// index `pos`, with the byte range of that text as its span.
pub open spec fn is_error_at(s: Seq<char>, error: LexerErrorView, pos: int) -> bool {
    &&& 0 <= pos
    &&& 0 < error.text.len()
    &&& pos + error.text.len() <= s.len()
    &&& error.text == s.subrange(pos, pos + error.text.len())
    &&& error.span == span_at(s, pos, error.text.len() as int)
}

/// Whether `error` stands somewhere in `s`.
pub open spec fn is_error_of(s: Seq<char>, error: LexerErrorView) -> bool {
    exists|pos: int| is_error_at(s, error, pos)
}

proof fn lemma_errors_of_source_from(s: Seq<char>, pos: int, acc: Lexed)
    requires
        0 <= pos <= s.len(),
        utf8_len(s) <= usize::MAX,
        forall|i: int| 0 <= i < acc.errors.len() ==> is_error_of(s, #[trigger] acc.errors[i]),
    ensures
        forall|i: int|
            0 <= i < lex_from(s, pos, acc).errors.len() ==> is_error_of(
                s,
                #[trigger] lex_from(s, pos, acc).errors[i],
            ),
    decreases s.len() - pos,
{
    if pos < s.len() {
        lemma_lexeme_by_cases(s, pos);
        let (kind, len) = lexeme_at(s, pos);
        let taken = acc.absorb(s, pos, kind, len);
        let text = s.subrange(pos, pos + len);
        let span = span_at(s, pos, len);
        assert forall|i: int| 0 <= i < taken.errors.len() implies is_error_of(
            s,
            #[trigger] taken.errors[i],
        ) by {
            if kind != TokenKind::Error {
                assert(taken.errors[i] == acc.errors[i]);
            } else if acc.errors.len() > 0 && acc.errors.last().span.hi == span.lo {
                if i < acc.errors.len() - 1 {
                    assert(taken.errors[i] == acc.errors[i]);
                } else {
                    let last = acc.errors.last();
                    assert(is_error_of(s, last));
                    let start = choose|start: int| is_error_at(s, last, start);
                    let end = start + last.text.len();
                    lemma_byte_offset_split(s, end, s.len() as int);
                    lemma_byte_offset_split(s, pos, s.len() as int);
                    lemma_byte_offset_split(s, pos + len, s.len() as int);
                    assert(s.take(s.len() as int) =~= s);
                    if end < pos {
                        lemma_byte_offset_increases(s, end, pos);
                    }
                    if pos < end {
                        lemma_byte_offset_increases(s, pos, end);
                    }
                    assert(last.text + text =~= s.subrange(start, pos + len));
                    assert(is_error_at(s, taken.errors[i], start));
                }
            } else {
                if i < acc.errors.len() {
                    assert(taken.errors[i] == acc.errors[i]);
                } else {
                    assert(is_error_at(s, taken.errors[i], pos));
                }
            }
        }
        assert(lex_from(s, pos, acc) == lex_from(s, pos + len, taken));
        lemma_errors_of_source_from(s, pos + len, taken);
    }
}

/// Every recorded error is a piece of the source text, and its span is the
/// byte range of that piece, for a source text whose byte offsets fit the
/// machine's word.
pub proof fn lemma_errors_are_of_source(s: Seq<char>)
    requires
        utf8_len(s) <= usize::MAX,
    ensures
        forall|i: int|
            0 <= i < tokenize(s).errors.len() ==> is_error_of(s, #[trigger] tokenize(s).errors[i]),
{
    lemma_errors_of_source_from(s, 0, Lexed::empty());
}

} // verus!
