//! The parser.

use vstd::prelude::*;
use vstd::string::StringExecFns;
use crate::ast::{nodes, Expr, ExprKind};
use crate::grammar;
use crate::grammar::{Parsed, ParserErrorView, Program};
use crate::lexer::{views, Token, TokenKind, TokenView};
use crate::number::{is_float_literal, parse_int};
use crate::text::{chars_of, spells, string_of};
use crate::util::Span;

verus! {

/// A syntactic error: what is wrong, and where.
#[derive(Debug)]
pub struct ParserError {
    pub msg: String,
    pub pos: Span,
}

impl View for ParserError {
    type V = ParserErrorView;

    open spec fn view(&self) -> ParserErrorView {
        ParserErrorView { msg: self.msg@, pos: self.pos }
    }
}

impl Clone for ParserError {
    fn clone(&self) -> (res: ParserError)
        ensures
            res == *self,
    {
        ParserError { msg: self.msg.clone(), pos: self.pos }
    }
}

/// Whether none of `kinds` is the marker for unrecognized characters.
pub open spec fn nameable(kinds: Seq<TokenKind>) -> bool {
    forall|i: int| 0 <= i < kinds.len() ==> #[trigger] kinds[i] != TokenKind::Error
}

/// The message for a token of kind `found`, or the end of the tokens, where
/// one of `expected` had to stand.
pub fn expected_message(expected: &[TokenKind], found: Option<TokenKind>) -> (msg: String)
    requires
        nameable(expected@),
        found != Some(TokenKind::Error),
    ensures
        msg@ == grammar::expected_message(expected@, found),
{
    let mut msg = String::from_str("Expected `");
    let mut i: usize = 0;
    while i < expected.len()
        invariant
            i <= expected.len(),
            nameable(expected@),
            msg@ == "Expected `"@ + grammar::kinds_list(expected@.take(i as int)),
        decreases expected.len() - i,
    {
        let ghost before = msg@;
        let ghost listed = grammar::kinds_list(expected@.take(i as int));
        proof {
            assert(expected@.take(i + 1).drop_last() =~= expected@.take(i as int));
            assert(expected@.take(i + 1).last() == expected@[i as int]);
        }
        if i > 0 {
            msg.append("`, `");
        }
        msg.append(expected[i].name());
        proof {
            let label = expected@[i as int].label();
            if i > 0 {
                assert(msg@ =~= "Expected `"@ + (listed + "`, `"@ + label));
            } else {
                assert(listed =~= Seq::<char>::empty());
                assert(msg@ =~= "Expected `"@ + label);
            }
        }
        i += 1;
    }
    assert(expected@.take(expected@.len() as int) =~= expected@);
    msg.append("`, found `");
    msg.append(
        match found {
            Some(kind) => kind.name(),
            None => "EOF",
        },
    );
    msg.append("`");
    msg
}

/// The tokens with the position of the next token to parse.
struct Stream {
    tokens: Vec<Token>,
    pos: usize,
}

impl Stream {
    #[verifier::type_invariant]
    spec fn inv(self) -> bool {
        &&& self.pos <= self.tokens.len()
        &&& forall|i: int| 0 <= i < self.tokens.len() ==> (#[trigger] self.tokens[i])@.parseable()
    }
}

/// The state of a [`Parser`]: the tokens, the index of the next token to
/// parse, and what is parsed so far.
pub struct ParserView {
    pub tokens: Seq<TokenView>,
    pub pos: int,
    pub program: Program,
}

impl ParserView {
    /// The state in which a parser for `tokens` starts.
    pub open spec fn start(tokens: Seq<TokenView>) -> ParserView {
        ParserView { tokens, pos: 0, program: Program::empty() }
    }

    /// The state after the run has been completed.
    pub open spec fn finished(self) -> ParserView {
        ParserView {
            tokens: self.tokens,
            pos: self.tokens.len() as int,
            program: grammar::parse_from(self.tokens, self.pos, self.program),
        }
    }
}

/// The span stack `before` with the end of its top entry moved to `hi`.
pub open spec fn widened(before: Seq<Span>, hi: usize) -> Seq<Span> {
    if before.len() == 0 {
        before
    } else {
        before.drop_last().push(Span { lo: before.last().lo, hi })
    }
}

/// How a production that is done leaves the span stack that it found: as it
/// was, but that the top entry now ends where the node that was parsed ends.
pub open spec fn settled(before: Seq<Span>, after: Seq<Span>, node: Option<Expr>) -> bool {
    &&& after.len() == before.len()
    &&& before.len() > 0 ==> {
        &&& after.drop_last() =~= before.drop_last()
        &&& after.last().lo == before.last().lo
        &&& node matches Some(expr) ==> after.last().hi == expr.span.hi
    }
}

/// What a production of the parser does to its state when the grammar says
/// that it yields `parsed`: the cursor moves, the errors are added, the node
/// is the one parsed, and the span stack is settled.
pub open spec fn produced(pre: Parser, post: Parser, node: Option<Expr>, parsed: Parsed) -> bool {
    &&& post.source() == pre.source()
    &&& post@.tokens == pre@.tokens
    &&& post@.program.decls == pre@.program.decls
    &&& post@.pos == parsed.pos
    &&& post@.program.errors =~= pre@.program.errors + parsed.errors
    &&& match node {
        Some(expr) => parsed.node == Some(expr@),
        None => parsed.node is None,
    }
    &&& settled(pre.stack(), post.stack(), node)
}

/// The parser.
pub struct Parser<'a> {
    code: &'a str,
    stream: Stream,
    result: Vec<Expr>,
    errors: Vec<ParserError>,
    span_stack: Vec<Span>,
}

impl<'a> Parser<'a> {
    /// The state of the parser.
    pub closed spec fn view(&self) -> ParserView {
        ParserView {
            tokens: views(self.stream.tokens@),
            pos: self.stream.pos as int,
            program: Program { decls: nodes(self.result@), errors: views(self.errors@) },
        }
    }

    /// The source text that the parser was made for.
    pub closed spec fn source(&self) -> Seq<char> {
        self.code@
    }

    /// The spans of the productions that are being parsed, innermost last.
    pub closed spec fn stack(&self) -> Seq<Span> {
        self.span_stack@
    }

    /// A parser for the tokens of the source text `code`, with nothing parsed
    /// yet.
    pub fn new(code: &'a str, tokens: Vec<Token>) -> (parser: Parser<'a>)
        requires
            forall|i: int| 0 <= i < tokens.len() ==> (#[trigger] tokens[i])@.parseable(),
        ensures
            parser@ == ParserView::start(views(tokens@)),
            parser.source() == code@,
            parser.stack().len() == 0,
    {
        let parser = Parser {
            code,
            stream: Stream { tokens, pos: 0 },
            result: Vec::new(),
            errors: Vec::new(),
            span_stack: Vec::new(),
        };
        assert(parser@.program.decls =~= Seq::<crate::ast::Node>::empty());
        assert(parser@.program.errors =~= Seq::<ParserErrorView>::empty());
        parser
    }

    /// The source text that the parser was made for.
    pub fn code(&self) -> (code: &'a str)
        ensures
            code@ == self.source(),
    {
        self.code
    }

    /// What holds of the state between any two steps of the parser.
    proof fn lemma_state(&self)
        requires
            self.stream.inv(),
        ensures
            0 <= self@.pos <= self@.tokens.len(),
            self@.tokens.len() == self.stream.tokens.len(),
            forall|i: int| 0 <= i < self@.tokens.len() ==> #[trigger] self@.tokens[i].parseable(),
            forall|i: int|
                0 <= i < self@.tokens.len() ==> #[trigger] self@.tokens[i] == self.stream.tokens[i]@,
    {
        assert forall|i: int| 0 <= i < self@.tokens.len() implies #[trigger] self@.tokens[i].parseable() by {
            assert(self.stream.tokens[i]@.parseable());
        }
    }

    /// The token at `index`, if there is one.
    fn get(&self, index: usize) -> (token: Option<Token>)
        ensures
            match token {
                Some(token) => index < self@.tokens.len() && token@ == self@.tokens[index as int],
                None => index >= self@.tokens.len(),
            },
    {
        if index < self.stream.tokens.len() {
            Some(self.stream.tokens[index].clone())
        } else {
            None
        }
    }

    /// The token at the cursor, if there is one.
    fn current(&self) -> (token: Option<Token>)
        ensures
            match token {
                Some(token) => self@.pos < self@.tokens.len() && token@ == self@.tokens[self@.pos],
                None => self@.pos >= self@.tokens.len(),
            },
    {
        self.get(self.stream.pos)
    }

    /// The place of the token at `index`; past the last token, the empty
    /// range at the end of the last token.
    fn place(&self, index: usize) -> (span: Span)
        ensures
            span == grammar::place(self@.tokens, index as int),
    {
        let n = self.stream.tokens.len();
        if index < n {
            self.stream.tokens[index].span
        } else if n > 0 {
            let end = self.stream.tokens[n - 1].span.hi;
            Span { lo: end, hi: end }
        } else {
            Span { lo: 0, hi: 0 }
        }
    }

    /// Moves the cursor over the token at which it stands, without a change
    /// to the span stack.
    fn pass(&mut self)
        requires
            old(self)@.pos < old(self)@.tokens.len(),
        ensures
            final(self)@ == (ParserView { pos: old(self)@.pos + 1, ..old(self)@ }),
            final(self).stack() == old(self).stack(),
            final(self).source() == old(self).source(),
    {
        proof {
            use_type_invariant(&self.stream);
        }
        self.stream.pos = self.stream.pos + 1;
    }

    /// Consumes the token at the cursor, if there is one: the production
    /// that is being parsed then ends where that token ends.
    fn next(&mut self) -> (token: Option<Token>)
        ensures
            final(self).source() == old(self).source(),
            match token {
                Some(token) => {
                    &&& old(self)@.pos < old(self)@.tokens.len()
                    &&& token@ == old(self)@.tokens[old(self)@.pos]
                    &&& final(self)@ == (ParserView { pos: old(self)@.pos + 1, ..old(self)@ })
                    &&& final(self).stack() == widened(old(self).stack(), token.span.hi)
                },
                None => {
                    &&& old(self)@.pos >= old(self)@.tokens.len()
                    &&& final(self)@ == old(self)@
                    &&& final(self).stack() == old(self).stack()
                },
            },
    {
        match self.current() {
            Some(token) => {
                self.pass();
                let n = self.span_stack.len();
                if n > 0 {
                    let lo = self.span_stack[n - 1].lo;
                    self.span_stack.set(n - 1, Span { lo, hi: token.span.hi });
                    assert(self.span_stack@ =~= widened(old(self).span_stack@, token.span.hi));
                }
                Some(token)
            },
            None => None,
        }
    }

    /// The token at the cursor, if its kind is one of `expected`.
    fn matches(&self, expected: &[TokenKind]) -> (token: Option<Token>)
        ensures
            match token {
                Some(token) => grammar::matches_any(self@.tokens, self@.pos, expected@) && token@
                    == self@.tokens[self@.pos],
                None => !grammar::matches_any(self@.tokens, self@.pos, expected@),
            },
    {
        let token = match self.current() {
            Some(token) => token,
            None => {
                return None;
            },
        };
        let mut i: usize = 0;
        while i < expected.len()
            invariant
                i <= expected.len(),
                self@.pos < self@.tokens.len(),
                token@ == self@.tokens[self@.pos],
                forall|j: int| 0 <= j < i ==> expected@[j] != token.kind,
            decreases expected.len() - i,
        {
            if token.kind == expected[i] {
                assert(expected@[i as int] == token.kind);
                return Some(token);
            }
            i += 1;
        }
        None
    }

    /// Consumes tokens up to the first whose kind is one of `expect`, and
    /// returns that token, if there is one.
    fn skip_until(&mut self, expect: &[TokenKind]) -> (token: Option<Token>)
        ensures
            final(self).source() == old(self).source(),
            final(self)@ == (ParserView {
                pos: grammar::skip_until(old(self)@.tokens, old(self)@.pos, expect@),
                ..old(self)@
            }),
            old(self)@.pos <= final(self)@.pos <= old(self)@.tokens.len(),
            final(self).stack() == if final(self)@.pos > old(self)@.pos {
                widened(old(self).stack(), old(self)@.tokens[final(self)@.pos - 1].span.hi)
            } else {
                old(self).stack()
            },
            match token {
                Some(token) => final(self)@.pos < old(self)@.tokens.len() && token@
                    == old(self)@.tokens[final(self)@.pos],
                None => final(self)@.pos == old(self)@.tokens.len(),
            },
    {
        proof {
            use_type_invariant(&self.stream);
            self.lemma_state();
        }
        while self.matches(expect).is_none() && self.current().is_some()
            invariant
                self.source() == old(self).source(),
                self@.tokens == old(self)@.tokens,
                self@.program == old(self)@.program,
                old(self)@.pos <= self@.pos <= self@.tokens.len(),
                grammar::skip_until(self@.tokens, self@.pos, expect@) == grammar::skip_until(
                    old(self)@.tokens,
                    old(self)@.pos,
                    expect@,
                ),
                self.stack() == if self@.pos > old(self)@.pos {
                    widened(old(self).stack(), old(self)@.tokens[self@.pos - 1].span.hi)
                } else {
                    old(self).stack()
                },
            decreases self@.tokens.len() - self@.pos,
        {
            let ghost before = self.stack();
            let skipped = self.next();
            assert(widened(widened(old(self).stack(), before.last().hi), skipped->0.span.hi)
                =~= widened(old(self).stack(), skipped->0.span.hi));
        }
        self.current()
    }

    /// Consumes tokens as long as their kind is one of `expect`, and returns
    /// the token after them, if there is one.
    #[allow(dead_code)]
    fn skip_while(&mut self, expect: &[TokenKind]) -> (token: Option<Token>)
        ensures
            final(self).source() == old(self).source(),
            final(self)@.tokens == old(self)@.tokens,
            final(self)@.program == old(self)@.program,
            old(self)@.pos <= final(self)@.pos <= old(self)@.tokens.len(),
            forall|i: int|
                old(self)@.pos <= i < final(self)@.pos ==> expect@.contains(
                    #[trigger] old(self)@.tokens[i].kind,
                ),
            !grammar::matches_any(final(self)@.tokens, final(self)@.pos, expect@),
            match token {
                Some(token) => final(self)@.pos < old(self)@.tokens.len() && token@
                    == old(self)@.tokens[final(self)@.pos],
                None => final(self)@.pos == old(self)@.tokens.len(),
            },
    {
        proof {
            use_type_invariant(&self.stream);
            self.lemma_state();
        }
        while self.matches(expect).is_some()
            invariant
                self.source() == old(self).source(),
                self@.tokens == old(self)@.tokens,
                self@.program == old(self)@.program,
                old(self)@.pos <= self@.pos <= self@.tokens.len(),
                forall|i: int|
                    old(self)@.pos <= i < self@.pos ==> expect@.contains(
                        #[trigger] old(self)@.tokens[i].kind,
                    ),
            decreases self@.tokens.len() - self@.pos,
        {
            self.next();
        }
        self.current()
    }

    /// Records an error with the given message at `span`.
    fn report(&mut self, msg: String, span: Span)
        ensures
            final(self).source() == old(self).source(),
            final(self).stack() == old(self).stack(),
            final(self)@.tokens == old(self)@.tokens,
            final(self)@.pos == old(self)@.pos,
            final(self)@.program.decls == old(self)@.program.decls,
            final(self)@.program.errors == old(self)@.program.errors.push(
                ParserErrorView { msg: msg@, pos: span },
            ),
    {
        let error = ParserError { msg, pos: span };
        self.errors.push(error);
        proof {
            crate::lexer::lemma_views_push(old(self).errors@, error);
        }
    }

    /// Records an error with the given message for the tokens from index
    /// `span.start` to index `span.end`, both included.
    fn error(&mut self, msg: String, span: std::ops::Range<usize>)
        ensures
            final(self).source() == old(self).source(),
            final(self).stack() == old(self).stack(),
            final(self)@.tokens == old(self)@.tokens,
            final(self)@.pos == old(self)@.pos,
            final(self)@.program.decls == old(self)@.program.decls,
            final(self)@.program.errors == old(self)@.program.errors.push(
                ParserErrorView {
                    msg: msg@,
                    pos: Span {
                        lo: grammar::place(old(self)@.tokens, span.start as int).lo,
                        hi: grammar::place(old(self)@.tokens, span.end as int).hi,
                    },
                },
            ),
    {
        let low = self.place(span.start);
        let high = self.place(span.end);
        self.report(msg, low | high);
    }

    /// The token at the cursor, if its kind is one of `expected`; an error is
    /// recorded if it is not.
    fn require(&mut self, expected: &[TokenKind]) -> (token: Option<Token>)
        requires
            nameable(expected@),
        ensures
            final(self).source() == old(self).source(),
            final(self).stack() == old(self).stack(),
            final(self)@.tokens == old(self)@.tokens,
            final(self)@.pos == old(self)@.pos,
            final(self)@.program.decls == old(self)@.program.decls,
            match token {
                Some(token) => {
                    &&& grammar::matches_any(old(self)@.tokens, old(self)@.pos, expected@)
                    &&& token@ == old(self)@.tokens[old(self)@.pos]
                    &&& final(self)@.program.errors == old(self)@.program.errors
                },
                None => {
                    &&& !grammar::matches_any(old(self)@.tokens, old(self)@.pos, expected@)
                    &&& final(self)@.program.errors == old(self)@.program.errors.push(
                        grammar::mismatch(old(self)@.tokens, old(self)@.pos, expected@),
                    )
                },
            },
    {
        proof {
            use_type_invariant(&self.stream);
            self.lemma_state();
        }
        match self.matches(expected) {
            Some(token) => Some(token),
            None => {
                let found = match self.current() {
                    Some(token) => Some(token.kind),
                    None => None,
                };
                let msg = expected_message(expected, found);
                let at = self.stream.pos;
                self.error(msg, at..at);
                None
            },
        }
    }

    /// Consumes the token at the cursor, if its kind is one of `expected`;
    /// an error is recorded if it is not.
    fn require_and_next(&mut self, expected: &[TokenKind]) -> (token: Option<Token>)
        requires
            nameable(expected@),
        ensures
            final(self).source() == old(self).source(),
            final(self)@.tokens == old(self)@.tokens,
            final(self)@.program.decls == old(self)@.program.decls,
            final(self)@.pos == grammar::expect(old(self)@.tokens, old(self)@.pos, expected@).0,
            final(self)@.program.errors == old(self)@.program.errors + grammar::expect(
                old(self)@.tokens,
                old(self)@.pos,
                expected@,
            ).1,
            match token {
                Some(token) => {
                    &&& grammar::matches_any(old(self)@.tokens, old(self)@.pos, expected@)
                    &&& token@ == old(self)@.tokens[old(self)@.pos]
                    &&& final(self).stack() == widened(old(self).stack(), token.span.hi)
                },
                None => {
                    &&& !grammar::matches_any(old(self)@.tokens, old(self)@.pos, expected@)
                    &&& final(self).stack() == old(self).stack()
                },
            },
    {
        match self.require(expected) {
            Some(token) => {
                self.next();
                assert(self@.program.errors =~= old(self)@.program.errors + Seq::empty());
                Some(token)
            },
            None => {
                assert(self@.program.errors =~= old(self)@.program.errors + seq![
                    grammar::mismatch(old(self)@.tokens, old(self)@.pos, expected@),
                ]);
                None
            },
        }
    }

    /// Opens a production at the cursor.
    fn begin(&mut self)
        ensures
            final(self).source() == old(self).source(),
            final(self)@ == old(self)@,
            final(self).stack() == old(self).stack().push(
                grammar::place(old(self)@.tokens, old(self)@.pos),
            ),
    {
        let span = self.place(self.stream.pos);
        self.span_stack.push(span);
    }

    /// Closes the innermost open production and returns its span. The
    /// production around it then ends where this one ends.
    fn end(&mut self) -> (span: Span)
        requires
            old(self).stack().len() > 0,
        ensures
            final(self).source() == old(self).source(),
            final(self)@ == old(self)@,
            span == old(self).stack().last(),
            final(self).stack() == widened(old(self).stack().drop_last(), span.hi),
    {
        let span = self.span_stack.pop().unwrap();
        let n = self.span_stack.len();
        if n > 0 {
            let lo = self.span_stack[n - 1].lo;
            self.span_stack.set(n - 1, Span { lo, hi: span.hi });
        }
        assert(self.span_stack@ =~= widened(old(self).span_stack@.drop_last(), span.hi));
        span
    }

    /// `Ident`, as a name.
    fn parse_ident(&mut self) -> (node: Option<Expr>)
        ensures
            produced(
                *old(self),
                *final(self),
                node,
                grammar::parse_ident(old(self)@.tokens, old(self)@.pos),
            ),
    {
        self.begin();
        let kinds = [TokenKind::Ident];
        assert(kinds@ =~= grammar::ident_kinds());
        match self.require_and_next(&kinds) {
            Some(ident) => {
                let span = self.end();
                assert(self@.program.errors =~= old(self)@.program.errors + Seq::empty());
                Some(Expr { kind: ExprKind::Name(ident.val), span })
            },
            None => {
                self.end();
                None
            },
        }
    }

    /// `Name := Ident ('.' Ident)*`
    #[verifier::loop_isolation(false)]
    fn parse_name(&mut self) -> (node: Option<Expr>)
        ensures
            produced(
                *old(self),
                *final(self),
                node,
                grammar::parse_name(old(self)@.tokens, old(self)@.pos),
            ),
    {
        proof {
            use_type_invariant(&self.stream);
            self.lemma_state();
        }
        let ghost toks = self@.tokens;
        let ghost goal = grammar::parse_name(toks, self@.pos);
        self.begin();
        let ident = [TokenKind::Ident];
        let dot = [TokenKind::Dot];
        assert(ident@ =~= grammar::ident_kinds());
        assert(dot@ =~= grammar::dot_kinds());
        let first = match self.require_and_next(&ident) {
            Some(first) => first,
            None => {
                self.end();
                return None;
            },
        };
        let mut text = first.val;
        let ghost mut span = first.span;
        while self.matches(&dot).is_some()
            invariant
                self.source() == old(self).source(),
                self@.tokens == toks,
                self@.program.decls == old(self)@.program.decls,
                self@.program.errors == old(self)@.program.errors,
                0 <= self@.pos <= toks.len(),
                self.stack() == old(self).stack().push(span),
                span.lo == first.span.lo,
                grammar::parse_name_rest(toks, self@.pos, text@, span) == goal,
            decreases toks.len() - self@.pos,
        {
            self.next();
            match self.require_and_next(&ident) {
                Some(part) => {
                    text.append(".");
                    text.append(part.val.as_str());
                    proof {
                        span = Span { lo: span.lo, hi: part.span.hi };
                        assert(self.stack() =~= old(self).stack().push(span));
                        assert(self@.program.errors =~= old(self)@.program.errors);
                    }
                },
                None => {
                    self.end();
                    return None;
                },
            }
        }
        let span = self.end();
        assert(self@.program.errors =~= old(self)@.program.errors + Seq::empty());
        Some(Expr { kind: ExprKind::Name(text), span })
    }

    /// `Atom := IntLit | FloatLit | BoolLit | StrLit`
    fn parse_atom(&mut self) -> (node: Option<Expr>)
        ensures
            produced(
                *old(self),
                *final(self),
                node,
                grammar::parse_atom(old(self)@.tokens, old(self)@.pos),
            ),
    {
        proof {
            use_type_invariant(&self.stream);
            self.lemma_state();
        }
        self.begin();
        let kinds = [TokenKind::IntLit, TokenKind::FloatLit, TokenKind::BoolLit, TokenKind::StrLit];
        assert(kinds@ =~= grammar::atom_kinds());
        let atom = match self.require_and_next(&kinds) {
            Some(atom) => atom,
            None => {
                self.end();
                return None;
            },
        };
        let span = self.end();
        let ghost errors = old(self)@.program.errors;
        assert(self@.program.errors =~= errors);
        assert(atom.kind == kinds@[0] || atom.kind == kinds@[1] || atom.kind == kinds@[2]
            || atom.kind == kinds@[3]);
        let decoded = match atom.kind {
            TokenKind::IntLit => match parse_int(atom.val.as_str()) {
                Some(value) => Some(ExprKind::IntLit(value)),
                None => None,
            },
            TokenKind::FloatLit => if is_float_literal(atom.val.as_str()) {
                Some(ExprKind::FloatLit(atom.val))
            } else {
                None
            },
            TokenKind::BoolLit => {
                let chars = chars_of(atom.val.as_str());
                assert(chars@.subrange(0, chars@.len() as int) =~= chars@);
                Some(ExprKind::BoolLit(spells(&chars, 0, chars.len(), "True")))
            },
            _ => {
                let chars = chars_of(atom.val.as_str());
                Some(ExprKind::StrLit(string_of(&chars, 1, chars.len() - 1)))
            },
        };
        match decoded {
            Some(kind) => {
                assert(self@.program.errors =~= errors + Seq::empty());
                Some(Expr { kind, span })
            },
            None => {
                self.report(String::from_str("invalid numeric literal"), span);
                assert(self@.program.errors =~= errors + seq![grammar::bad_number(span)]);
                None
            },
        }
    }

    /// An expression. The only expressions are atoms.
    fn parse_expr(&mut self) -> (node: Option<Expr>)
        ensures
            produced(
                *old(self),
                *final(self),
                node,
                grammar::parse_expr(old(self)@.tokens, old(self)@.pos),
            ),
    {
        self.parse_atom()
    }

    /// `VarDecl := Ident Name '=' Atom Newline`
    fn parse_var(&mut self) -> (node: Option<Expr>)
        ensures
            produced(
                *old(self),
                *final(self),
                node,
                grammar::parse_var(old(self)@.tokens, old(self)@.pos),
            ),
    {
        proof {
            use_type_invariant(&self.stream);
            self.lemma_state();
        }
        let ghost toks = self@.tokens;
        let ghost errors = self@.program.errors;
        self.begin();
        let ty = match self.parse_ident() {
            Some(ty) => ty,
            None => {
                self.end();
                return None;
            },
        };
        assert(self@.program.errors =~= errors);
        let ghost after_type = self@.pos;
        let name = match self.parse_name() {
            Some(name) => name,
            None => {
                self.end();
                return None;
            },
        };
        proof {
            if grammar::matches_any(toks, after_type, grammar::ident_kinds()) {
                grammar::lemma_name_rest(
                    toks,
                    after_type + 1,
                    toks[after_type].text,
                    toks[after_type].span,
                );
            }
            assert(self@.program.errors =~= errors);
        }
        let assign = [TokenKind::EqualSign];
        assert(assign@ =~= grammar::assign_kinds());
        let ghost after_name = self@.pos;
        self.require_and_next(&assign);
        let ghost missing = grammar::expect(toks, after_name, grammar::assign_kinds()).1;
        let value = match self.parse_expr() {
            Some(value) => value,
            None => {
                self.end();
                assert(self@.program.errors =~= errors + (missing + grammar::parse_expr(
                    toks,
                    grammar::expect(toks, after_name, grammar::assign_kinds()).0,
                ).errors));
                return None;
            },
        };
        let span = self.end();
        let newline = [TokenKind::Newline];
        assert(newline@ =~= grammar::newline_kinds());
        let ghost after_value = self@.pos;
        if self.require(&newline).is_some() {
            self.pass();
        }
        proof {
            let unended = grammar::expect(toks, after_value, grammar::newline_kinds()).1;
            assert(self@.program.errors =~= errors + (missing + unended));
        }
        Some(
            Expr {
                kind: ExprKind::VarDef(Box::new(name), Box::new(ty), Box::new(value)),
                span,
            },
        )
    }

    /// `FuncDecl := 'func' Name ...`
    fn parse_func(&mut self) -> (node: Option<Expr>)
        ensures
            produced(
                *old(self),
                *final(self),
                node,
                grammar::parse_func(old(self)@.tokens, old(self)@.pos),
            ),
    {
        let ghost errors = self@.program.errors;
        self.begin();
        let func = [TokenKind::KwFunc];
        assert(func@ =~= grammar::func_kinds());
        if self.require_and_next(&func).is_none() {
            self.end();
            return None;
        }
        assert(self@.program.errors =~= errors);
        let ghost toks = self@.tokens;
        let ghost after_func = self@.pos;
        if self.parse_name().is_none() {
            self.end();
            return None;
        }
        proof {
            use_type_invariant(&self.stream);
            self.lemma_state();
            if grammar::matches_any(toks, after_func, grammar::ident_kinds()) {
                grammar::lemma_name_rest(
                    toks,
                    after_func + 1,
                    toks[after_func].text,
                    toks[after_func].span,
                );
            }
        }
        let span = self.end();
        self.report(String::from_str("function declarations are not supported"), span);
        assert(self@.program.errors =~= errors + seq![grammar::no_functions(span)]);
        None
    }

    /// Recovery from a token that can start no declaration.
    fn recover(&mut self)
        requires
            old(self)@.pos < old(self)@.tokens.len(),
        ensures
            produced(
                *old(self),
                *final(self),
                None,
                grammar::recover(old(self)@.tokens, old(self)@.pos),
            ),
    {
        proof {
            use_type_invariant(&self.stream);
            self.lemma_state();
        }
        let ghost toks = self@.tokens;
        let ghost pos = self@.pos;
        let ghost errors = self@.program.errors;
        let starts = [TokenKind::Ident, TokenKind::KwGlobal, TokenKind::KwFunc];
        let stops = [TokenKind::Ident, TokenKind::Newline];
        let newline = [TokenKind::Newline];
        assert(starts@ =~= grammar::decl_kinds());
        assert(stops@ =~= grammar::stop_kinds());
        assert(newline@ =~= grammar::newline_kinds());
        self.begin();
        let kind = match self.next() {
            Some(token) => token.kind,
            None => {
                return ;
            },
        };
        if kind != TokenKind::Newline {
            self.skip_until(&stops);
        }
        let span = self.end();
        self.report(expected_message(&starts, Some(kind)), span);
        if kind != TokenKind::Newline {
            proof {
                let end = self@.pos;
                grammar::lemma_skip_until(toks, pos + 1, grammar::stop_kinds());
                assert forall|i: int| pos <= i < end implies !grammar::newline_kinds().contains(
                    #[trigger] toks[i].kind,
                ) by {
                    if i > pos {
                        assert(!grammar::stop_kinds().contains(toks[i].kind));
                        assert(grammar::stop_kinds()[1] == TokenKind::Newline);
                    }
                }
                grammar::lemma_skip_until_resumed(toks, pos, end, grammar::newline_kinds());
            }
            if self.skip_until(&newline).is_some() {
                self.pass();
            }
        }
        assert(self@.program.errors =~= errors + grammar::recover(toks, pos).errors);
    }

    /// `Declaration := GlobalDecl | VarDecl | FuncDecl`
    fn parse_define(&mut self) -> (node: Option<Expr>)
        requires
            old(self)@.pos < old(self)@.tokens.len(),
        ensures
            produced(
                *old(self),
                *final(self),
                node,
                grammar::parse_define(old(self)@.tokens, old(self)@.pos),
            ),
    {
        let kind = match self.current() {
            Some(token) => token.kind,
            None => {
                return None;
            },
        };
        match kind {
            TokenKind::Ident => self.parse_var(),
            TokenKind::KwGlobal => {
                self.begin();
                self.next();
                match self.parse_var() {
                    Some(var) => {
                        let span = self.end();
                        Some(Expr { kind: ExprKind::Global(Box::new(var)), span })
                    },
                    None => {
                        self.end();
                        None
                    },
                }
            },
            TokenKind::KwFunc => self.parse_func(),
            _ => {
                self.recover();
                None
            },
        }
    }

    /// Parses what is left of the tokens. On a parser that has completed its
    /// run this changes nothing.
    pub fn parse(&mut self)
        ensures
            final(self)@ == old(self)@.finished(),
            final(self).source() == old(self).source(),
    {
        proof {
            use_type_invariant(&self.stream);
            self.lemma_state();
        }
        let ghost toks = self@.tokens;
        let ghost goal = grammar::parse_from(toks, self@.pos, self@.program);
        while self.stream.pos < self.stream.tokens.len()
            invariant
                self.source() == old(self).source(),
                self@.tokens == toks,
                0 <= self@.pos <= toks.len(),
                toks.len() == self.stream.tokens.len(),
                grammar::parse_from(toks, self@.pos, self@.program) == goal,
            decreases toks.len() - self@.pos,
        {
            let ghost before = self@;
            proof {
                grammar::lemma_define_advances(toks, self@.pos);
            }
            let ghost decls = self.result@;
            match self.parse_define() {
                Some(def) => {
                    self.result.push(def);
                    assert(nodes(self.result@) =~= nodes(decls).push(def@));
                },
                None => {},
            }
            proof {
                use_type_invariant(&self.stream);
                self.lemma_state();
                assert(self@.program == before.program.with(
                    grammar::parse_define(toks, before.pos),
                ));
            }
        }
    }

    /// The declarations parsed so far, whether or not errors were found.
    pub fn declarations(&self) -> (decls: Vec<Expr>)
        ensures
            nodes(decls@) == self@.program.decls,
    {
        let decls = self.result.clone();
        assert(nodes(decls@) =~= nodes(self.result@));
        decls
    }

    /// The outcome of the run so far: the declarations, or the errors if
    /// there is one.
    pub fn result(&self) -> (r: Result<Vec<Expr>, Vec<ParserError>>)
        ensures
            match r {
                Ok(decls) => self@.program.errors.len() == 0 && nodes(decls@)
                    == self@.program.decls,
                Err(errors) => errors@.len() > 0 && views(errors@) == self@.program.errors,
            },
    {
        if self.errors.is_empty() {
            let decls = self.result.clone();
            assert(nodes(decls@) =~= nodes(self.result@));
            Ok(decls)
        } else {
            let errors = self.errors.clone();
            assert(errors@ =~= self.errors@);
            Err(errors)
        }
    }
}

} // verus!
