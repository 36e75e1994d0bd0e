//! Tokens and the tokenizer.

use vstd::prelude::*;
use vstd::string::StringExecFns;
use crate::rules::{lexeme_at, scan};
use crate::text::{
    byte_offset, chars_of, char_width, spells, lemma_byte_offset_split, lemma_byte_offset_step,
    lemma_utf8_len_is_encoded_len, utf8_len,
};
use crate::util::Span;

verus! {

/// The kinds of token.
#[derive(Debug, Clone, Copy, PartialEq, Eq, Structural)]
pub enum TokenKind {
    /// An unrecognized character; never part of a token sequence.
    Error,
    Whitespace,
    Newline,
    KwFunc,
    KwGlobal,
    KwWhile,
    KwIf,
    KwReturn,
    Ident,
    IntLit,
    FloatLit,
    BoolLit,
    StrLit,
    EqualSign,
    AddEquals,
    SubEquals,
    MulEquals,
    DivEquals,
    Plus,
    Minus,
    Star,
    Slash,
    Dot,
    Comma,
    LParen,
    RParen,
    LBracket,
    RBracket,
}

impl TokenKind {
    /// The name under which diagnostics mention the kind. The marker for
    /// unrecognized characters has none.
    pub open spec fn label(self) -> Seq<char> {
        match self {
            TokenKind::Error => Seq::empty(),
            TokenKind::Whitespace => "whitespace"@,
            TokenKind::Newline => "newline"@,
            TokenKind::KwFunc => "func"@,
            TokenKind::KwGlobal => "global"@,
            TokenKind::KwWhile => "while"@,
            TokenKind::KwIf => "if"@,
            TokenKind::KwReturn => "return"@,
            TokenKind::Ident => "identifier"@,
            TokenKind::IntLit => "int literal"@,
            TokenKind::FloatLit => "float literal"@,
            TokenKind::BoolLit => "bool literal"@,
            TokenKind::StrLit => "string literal"@,
            TokenKind::EqualSign => "="@,
            TokenKind::AddEquals => "+="@,
            TokenKind::SubEquals => "-="@,
            TokenKind::MulEquals => "*="@,
            TokenKind::DivEquals => "/="@,
            TokenKind::Plus => "+"@,
            TokenKind::Minus => "-"@,
            TokenKind::Star => "*"@,
            TokenKind::Slash => "/"@,
            TokenKind::Dot => "."@,
            TokenKind::Comma => ","@,
            TokenKind::LParen => "("@,
            TokenKind::RParen => ")"@,
            TokenKind::LBracket => "{"@,
            TokenKind::RBracket => "}"@,
        }
    }

    /// The name under which diagnostics mention the kind.
    pub fn name(&self) -> (name: &'static str)
        requires
            *self != TokenKind::Error,
        ensures
            name@ == self.label(),
    {
        match self {
            TokenKind::Error => "",
            TokenKind::Whitespace => "whitespace",
            TokenKind::Newline => "newline",
            TokenKind::KwFunc => "func",
            TokenKind::KwGlobal => "global",
            TokenKind::KwWhile => "while",
            TokenKind::KwIf => "if",
            TokenKind::KwReturn => "return",
            TokenKind::Ident => "identifier",
            TokenKind::IntLit => "int literal",
            TokenKind::FloatLit => "float literal",
            TokenKind::BoolLit => "bool literal",
            TokenKind::StrLit => "string literal",
            TokenKind::EqualSign => "=",
            TokenKind::AddEquals => "+=",
            TokenKind::SubEquals => "-=",
            TokenKind::MulEquals => "*=",
            TokenKind::DivEquals => "/=",
            TokenKind::Plus => "+",
            TokenKind::Minus => "-",
            TokenKind::Star => "*",
            TokenKind::Slash => "/",
            TokenKind::Dot => ".",
            TokenKind::Comma => ",",
            TokenKind::LParen => "(",
            TokenKind::RParen => ")",
            TokenKind::LBracket => "{",
            TokenKind::RBracket => "}",
        }
    }

    /// The name of the kind as a string of its own.
    pub fn to_string(&self) -> (name: String)
        requires
            *self != TokenKind::Error,
        ensures
            name@ == self.label(),
    {
        String::from_str(self.name())
    }
}

/// A token: its text, its kind and where it stands in the source.
#[derive(Debug)]
pub struct Token {
    pub val: String,
    pub kind: TokenKind,
    pub span: Span,
}

/// What a [`Token`] holds, as plain values.
pub struct TokenView {
    pub text: Seq<char>,
    pub kind: TokenKind,
    pub span: Span,
}

impl TokenView {
    /// What the parser asks of a token: it is no marker for unrecognized
    /// characters, a boolean literal spells `True` or `False`, and a string
    /// literal holds at least its two quotes.
    pub open spec fn parseable(self) -> bool {
        &&& self.kind != TokenKind::Error
        &&& self.kind == TokenKind::BoolLit ==> self.text == "True"@ || self.text == "False"@
        &&& self.kind == TokenKind::StrLit ==> self.text.len() >= 2
    }
}

impl View for Token {
    type V = TokenView;

    open spec fn view(&self) -> TokenView {
        TokenView { text: self.val@, kind: self.kind, span: self.span }
    }
}

impl Token {
    /// Whether the parser accepts the token.
    pub fn is_parseable(&self) -> (b: bool)
        ensures
            b == self@.parseable(),
    {
        match self.kind {
            TokenKind::Error => false,
            TokenKind::BoolLit => {
                let chars = chars_of(self.val.as_str());
                assert(chars@.subrange(0, chars@.len() as int) =~= chars@);
                spells(&chars, 0, chars.len(), "True") || spells(&chars, 0, chars.len(), "False")
            },
            TokenKind::StrLit => chars_of(self.val.as_str()).len() >= 2,
            _ => true,
        }
    }
}

impl Clone for Token {
    fn clone(&self) -> (res: Token)
        ensures
            res == *self,
    {
        Token { val: self.val.clone(), kind: self.kind, span: self.span }
    }
}

/// A maximal run of characters that no lexical rule recognizes.
#[derive(Debug)]
pub struct LexerError {
    pub val: String,
    pub span: Span,
}

/// What a [`LexerError`] holds, as plain values.
pub struct LexerErrorView {
    pub text: Seq<char>,
    pub span: Span,
}

impl View for LexerError {
    type V = LexerErrorView;

    open spec fn view(&self) -> LexerErrorView {
        LexerErrorView { text: self.val@, span: self.span }
    }
}

impl Clone for LexerError {
    fn clone(&self) -> (res: LexerError)
        ensures
            res == *self,
    {
        LexerError { val: self.val.clone(), span: self.span }
    }
}

/// The views of the items of `items`, in order.
pub open spec fn views<T: View>(items: Seq<T>) -> Seq<T::V> {
    items.map_values(|item: T| item@)
}

/// The byte range of the `len` characters at `pos`.
pub open spec fn span_at(s: Seq<char>, pos: int, len: int) -> Span {
    Span { lo: byte_offset(s, pos) as usize, hi: byte_offset(s, pos + len) as usize }
}

/// The kind of an identifier with the given text: that of the keyword it
/// spells, or `Ident`.
pub open spec fn keyword_kind(text: Seq<char>) -> TokenKind {
    if text == "global"@ {
        TokenKind::KwGlobal
    } else if text == "func"@ {
        TokenKind::KwFunc
    } else if text == "if"@ {
        TokenKind::KwIf
    } else if text == "while"@ {
        TokenKind::KwWhile
    } else if text == "return"@ {
        TokenKind::KwReturn
    } else {
        TokenKind::Ident
    }
}

/// Whether a line break right after a token of this kind is dropped, so that
/// a statement may go on in the next line.
pub open spec fn joins_lines(kind: TokenKind) -> bool {
    match kind {
        TokenKind::Newline
        | TokenKind::LBracket
        | TokenKind::RBracket
        | TokenKind::LParen
        | TokenKind::RParen
        | TokenKind::EqualSign
        | TokenKind::AddEquals
        | TokenKind::SubEquals
        | TokenKind::MulEquals
        | TokenKind::DivEquals => true,
        _ => false,
    }
}

/// What the tokenizer has collected: the tokens emitted and the errors
/// recorded so far.
pub struct Lexed {
    pub tokens: Seq<TokenView>,
    pub errors: Seq<LexerErrorView>,
}

impl Lexed {
    pub open spec fn empty() -> Lexed {
        Lexed { tokens: Seq::empty(), errors: Seq::empty() }
    }

    pub open spec fn with_token(self, token: TokenView) -> Lexed {
        Lexed { tokens: self.tokens.push(token), errors: self.errors }
    }

    /// Records an unrecognized text. Where it starts at the byte at which the
    /// last recorded error ends, the two become one error.
    pub open spec fn with_error(self, text: Seq<char>, span: Span) -> Lexed {
        if self.errors.len() > 0 && self.errors.last().span.hi == span.lo {
            let last = self.errors.last();
            Lexed {
                tokens: self.tokens,
                errors: self.errors.drop_last().push(
                    LexerErrorView {
                        text: last.text + text,
                        span: Span { lo: last.span.lo, hi: span.hi },
                    },
                ),
            }
        } else {
            Lexed { tokens: self.tokens, errors: self.errors.push(LexerErrorView { text, span }) }
        }
    }

    /// Takes in the lexeme of `kind` that the `len` characters at `pos` form.
    pub open spec fn absorb(self, s: Seq<char>, pos: int, kind: TokenKind, len: int) -> Lexed {
        let text = s.subrange(pos, pos + len);
        let span = span_at(s, pos, len);
        match kind {
            TokenKind::Whitespace => self,
            TokenKind::Newline => if self.tokens.len() == 0 || joins_lines(
                self.tokens.last().kind,
            ) {
                self
            } else {
                self.with_token(TokenView { text, kind, span })
            },
            TokenKind::Ident => self.with_token(TokenView { text, kind: keyword_kind(text), span }),
            TokenKind::Error => self.with_error(text, span),
            _ => self.with_token(TokenView { text, kind, span }),
        }
    }
}

/// The outcome of tokenizing `s` from `pos` on, with `acc` collected before.
pub open spec fn lex_from(s: Seq<char>, pos: int, acc: Lexed) -> Lexed
    decreases s.len() - pos,
{
    let (kind, len) = lexeme_at(s, pos);
    if pos < 0 || len <= 0 || pos + len > s.len() {
        acc
    } else {
        lex_from(s, pos + len, acc.absorb(s, pos, kind, len))
    }
}

/// The outcome of tokenizing `s`.
pub open spec fn tokenize(s: Seq<char>) -> Lexed {
    lex_from(s, 0, Lexed::empty())
}

/// The state of a tokenizer after it has gone on from `pos` until it emitted
/// one token or reached the end: the new position, what is collected, and
/// whether a token was emitted.
pub open spec fn lex_next(s: Seq<char>, pos: int, acc: Lexed) -> (int, Lexed, bool)
    decreases s.len() - pos,
{
    let (kind, len) = lexeme_at(s, pos);
    if pos < 0 || len <= 0 || pos + len > s.len() {
        (pos, acc, false)
    } else {
        let taken = acc.absorb(s, pos, kind, len);
        if taken.tokens.len() > acc.tokens.len() {
            (pos + len, taken, true)
        } else {
            lex_next(s, pos + len, taken)
        }
    }
}

/// Going on to the next token does not change the outcome of the run.
pub proof fn lemma_lex_next(s: Seq<char>, pos: int, acc: Lexed)
    ensures
        ({
            let n = lex_next(s, pos, acc);
            &&& lex_from(s, pos, acc) == lex_from(s, n.0, n.1)
            &&& n.2 ==> pos < n.0
            &&& !n.2 ==> lex_from(s, pos, acc) == n.1
        }),
    decreases s.len() - pos,
{
    let (kind, len) = lexeme_at(s, pos);
    if pos < 0 || len <= 0 || pos + len > s.len() {
    } else {
        let taken = acc.absorb(s, pos, kind, len);
        if taken.tokens.len() > acc.tokens.len() {
        } else {
            lemma_lex_next(s, pos + len, taken);
        }
    }
}

/// The state of a [`Lexer`]: the source, the index of the next character to
/// scan, and what is collected.
pub struct LexerView {
    pub source: Seq<char>,
    pub pos: int,
    pub out: Lexed,
}

impl LexerView {
    /// The state in which a tokenizer for `source` starts.
    pub open spec fn start(source: Seq<char>) -> LexerView {
        LexerView { source, pos: 0, out: Lexed::empty() }
    }

    /// The state after the run has been completed.
    pub open spec fn finished(self) -> LexerView {
        LexerView {
            source: self.source,
            pos: self.source.len() as int,
            out: lex_from(self.source, self.pos, self.out),
        }
    }
}

/// A position in the source text: the index of a character and the byte
/// offset at which that character starts.
struct Cursor {
    pos: usize,
    offset: usize,
}

/// The source text with the position of the next character to scan.
struct Input<'a> {
    code: &'a str,
    chars: Vec<char>,
    cursor: Cursor,
}

impl<'a> Input<'a> {
    #[verifier::type_invariant]
    spec fn inv(self) -> bool {
        &&& self.chars@ == self.code@
        &&& self.cursor.pos <= self.chars.len()
        &&& self.cursor.offset == byte_offset(self.chars@, self.cursor.pos as int)
        &&& utf8_len(self.chars@) <= usize::MAX
    }
}

/// The tokenizer.
pub struct Lexer<'a> {
    input: Input<'a>,
    result: Vec<Token>,
    errors: Vec<LexerError>,
}

/// The kind of an identifier that the characters `chars[lo..hi]` spell.
fn keyword(chars: &Vec<char>, lo: usize, hi: usize) -> (kind: TokenKind)
    requires
        lo <= hi <= chars.len(),
    ensures
        kind == keyword_kind(chars@.subrange(lo as int, hi as int)),
{
    if spells(chars, lo, hi, "global") {
        TokenKind::KwGlobal
    } else if spells(chars, lo, hi, "func") {
        TokenKind::KwFunc
    } else if spells(chars, lo, hi, "if") {
        TokenKind::KwIf
    } else if spells(chars, lo, hi, "while") {
        TokenKind::KwWhile
    } else if spells(chars, lo, hi, "return") {
        TokenKind::KwReturn
    } else {
        TokenKind::Ident
    }
}

/// The characters `chars[lo..hi]` as a string, and the number of bytes they
/// occupy.
fn slice_text(chars: &Vec<char>, lo: usize, hi: usize) -> (r: (String, usize))
    requires
        lo <= hi <= chars.len(),
        utf8_len(chars@) <= usize::MAX,
    ensures
        r.0@ == chars@.subrange(lo as int, hi as int),
        byte_offset(chars@, hi as int) == byte_offset(chars@, lo as int) + r.1,
{
    let mut text = String::new();
    let mut bytes: usize = 0;
    let mut i: usize = lo;
    while i < hi
        invariant
            lo <= i <= hi <= chars.len(),
            utf8_len(chars@) <= usize::MAX,
            text@ == chars@.subrange(lo as int, i as int),
            byte_offset(chars@, i as int) == byte_offset(chars@, lo as int) + bytes,
        decreases hi - i,
    {
        proof {
            lemma_byte_offset_step(chars@, i as int);
            lemma_byte_offset_split(chars@, i as int + 1, chars@.len() as int);
            assert(chars@.take(chars@.len() as int) =~= chars@);
        }
        text.push(chars[i]);
        bytes += char_width(chars[i]);
        i += 1;
    }
    (text, bytes)
}

impl<'a> Lexer<'a> {
    /// The state of the tokenizer.
    pub closed spec fn view(&self) -> LexerView {
        LexerView {
            source: self.input.chars@,
            pos: self.input.cursor.pos as int,
            out: Lexed { tokens: views(self.result@), errors: views(self.errors@) },
        }
    }

    /// A tokenizer for the source text `s`, with nothing scanned yet.
    pub fn new(s: &'a str) -> (lexer: Lexer<'a>)
        ensures
            lexer@ == LexerView::start(s@),
            utf8_len(s@) <= usize::MAX,
    {
        let chars = chars_of(s);
        let bytes = s.as_bytes().len();
        proof {
            lemma_utf8_len_is_encoded_len(s@);
            assert(chars@.take(0) =~= Seq::<char>::empty());
        }
        let lexer = Lexer {
            input: Input { code: s, chars, cursor: Cursor { pos: 0, offset: 0 } },
            result: Vec::new(),
            errors: Vec::new(),
        };
        assert(lexer@.out.tokens =~= Seq::<TokenView>::empty());
        assert(lexer@.out.errors =~= Seq::<LexerErrorView>::empty());
        lexer
    }

    /// The source text.
    pub fn code(&self) -> (s: &'a str)
        ensures
            s@ == self@.source,
    {
        proof {
            use_type_invariant(&self.input);
        }
        self.input.code
    }

    /// Tokenizes what is left of the source. On a tokenizer that has
    /// completed its run this changes nothing.
    pub fn parse(&mut self)
        ensures
            final(self)@ == old(self)@.finished(),
    {
        proof {
            use_type_invariant(&self.input);
        }
        let ghost source = self@.source;
        let ghost goal = lex_from(self@.source, self@.pos, self@.out);
        loop
            invariant
                self@.source == source,
                0 <= self@.pos <= source.len(),
                lex_from(source, self@.pos, self@.out) == goal,
            ensures
                self@.source == source,
                self@.pos == source.len(),
                self@.out == goal,
            decreases source.len() - self@.pos,
        {
            proof {
                lemma_lex_next(source, self@.pos, self@.out);
            }
            let emitted = self.next();
            proof {
                use_type_invariant(&self.input);
            }
            if !emitted {
                break ;
            }
        }
    }

    /// The outcome of the run so far: the tokens, or the errors if there is
    /// one.
    pub fn result(&self) -> (r: Result<Vec<Token>, Vec<LexerError>>)
        ensures
            match r {
                Ok(tokens) => self@.out.errors.len() == 0 && views(tokens@) == self@.out.tokens,
                Err(errors) => errors@.len() > 0 && views(errors@) == self@.out.errors,
            },
    {
        if self.errors.is_empty() {
            let tokens = self.result.clone();
            assert(tokens@ =~= self.result@);
            Ok(tokens)
        } else {
            let errors = self.errors.clone();
            assert(errors@ =~= self.errors@);
            Err(errors)
        }
    }

    /// Goes on until one more token is emitted. Returns false when the end of
    /// the source was reached instead.
    #[verifier::loop_isolation(false)]
    fn next(&mut self) -> (emitted: bool)
        ensures
            final(self)@.source == old(self)@.source,
            (final(self)@.pos, final(self)@.out, emitted) == lex_next(
                old(self)@.source,
                old(self)@.pos,
                old(self)@.out,
            ),
            !emitted ==> final(self)@.pos == final(self)@.source.len(),
    {
        let ghost source = self@.source;
        let ghost goal = lex_next(self@.source, self@.pos, self@.out);
        loop
            invariant
                self@.source == source,
                lex_next(source, self@.pos, self@.out) == goal,
            decreases source.len() - self@.pos,
        {
            proof {
                use_type_invariant(&self.input);
            }
            let pos = self.input.cursor.pos;
            if pos >= self.input.chars.len() {
                return false;
            }
            let lo = self.input.cursor.offset;
            let (kind, len) = scan(&self.input.chars, pos);
            let (val, bytes) = slice_text(&self.input.chars, pos, pos + len);
            proof {
                lemma_byte_offset_split(source, (pos + len) as int, source.len() as int);
                assert(source.take(source.len() as int) =~= source);
            }
            let span = Span { lo, hi: lo + bytes };
            assert(span == span_at(source, pos as int, len as int));
            let ghost before = self@.out;
            let ghost tokens = self.result@;
            let ghost errors = self.errors@;
            self.input.cursor = Cursor { pos: pos + len, offset: lo + bytes };
            match kind {
                TokenKind::Whitespace => {},
                TokenKind::Newline => {
                    let keep = match self.result.last() {
                        Some(last) => !Self::joins(last.kind),
                        None => false,
                    };
                    proof {
                        if tokens.len() > 0 {
                            assert(views(tokens).last() == tokens.last()@);
                        }
                    }
                    if keep {
                        let token = Token { val, kind, span };
                        self.result.push(token);
                        proof {
                            lemma_views_push(tokens, token);
                        }
                        return true;
                    }
                },
                TokenKind::Ident => {
                    let token = Token { val, kind: keyword(&self.input.chars, pos, pos + len), span };
                    self.result.push(token);
                    proof {
                        lemma_views_push(tokens, token);
                    }
                    return true;
                },
                TokenKind::Error => {
                    let n = self.errors.len();
                    proof {
                        if n > 0 {
                            assert(views(errors).last() == errors.last()@);
                        }
                    }
                    if n > 0 && self.errors[n - 1].span.hi == span.lo {
                        let last = self.errors.pop().unwrap();
                        let mut text = last.val;
                        text.append(val.as_str());
                        let error = LexerError { val: text, span: last.span | span };
                        self.errors.push(error);
                        proof {
                            lemma_views_push(errors.drop_last(), error);
                            assert(views(errors.drop_last()) =~= views(errors).drop_last());
                        }
                    } else {
                        let error = LexerError { val, span };
                        self.errors.push(error);
                        proof {
                            lemma_views_push(errors, error);
                        }
                    }
                },
                _ => {
                    let token = Token { val, kind, span };
                    self.result.push(token);
                    proof {
                        lemma_views_push(tokens, token);
                    }
                    return true;
                },
            }
            assert(self@.out == before.absorb(source, pos as int, kind, len as int));
        }
    }

    fn joins(kind: TokenKind) -> (b: bool)
        ensures
            b == joins_lines(kind),
    {
        match kind {
            TokenKind::Newline
            | TokenKind::LBracket
            | TokenKind::RBracket
            | TokenKind::LParen
            | TokenKind::RParen
            | TokenKind::EqualSign
            | TokenKind::AddEquals
            | TokenKind::SubEquals
            | TokenKind::MulEquals
            | TokenKind::DivEquals => true,
            _ => false,
        }
    }
}

/// The views of a sequence with one more item.
pub proof fn lemma_views_push<T: View>(items: Seq<T>, item: T)
    ensures
        views(items.push(item)) == views(items).push(item@),
{
    assert(views(items.push(item)) =~= views(items).push(item@));
}

} // verus!
