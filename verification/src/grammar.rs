//! The grammar, as functions from a token sequence to what parsing yields.
//!
//! ```text
//! Program     := Declaration*
//! Declaration := GlobalDecl | VarDecl | FuncDecl
//! GlobalDecl  := 'global' VarDecl
//! VarDecl     := Ident Name '=' Atom Newline
//! FuncDecl    := 'func' Name ...
//! Atom        := IntLit | FloatLit | BoolLit | StrLit
//! Name        := Ident ('.' Ident)*
//! ```
//!
//! What follows the name of a function has no grammar yet: a function
//! declaration is reported as an error.

use vstd::prelude::*;
use crate::ast::{Node, NodeKind};
use crate::lexer::{TokenKind, TokenView};
use crate::number::int_value;
use crate::rules::rule_accepts;
use crate::util::Span;

verus! {

/// What a [`crate::parser::ParserError`] holds, as plain values.
pub struct ParserErrorView {
    pub msg: Seq<char>,
    pub pos: Span,
}

/// What parsing one production yields: the node, if there is one, the
/// position of the first token that was not consumed, and the errors found.
pub struct Parsed {
    pub node: Option<Node>,
    pub pos: int,
    pub errors: Seq<ParserErrorView>,
}

/// The kind of the token at `pos`, if there is one.
pub open spec fn kind_at(toks: Seq<TokenView>, pos: int) -> Option<TokenKind> {
    if 0 <= pos < toks.len() {
        Some(toks[pos].kind)
    } else {
        None
    }
}

/// Whether there is a token at `pos` and `expected` holds its kind.
pub open spec fn matches_any(toks: Seq<TokenView>, pos: int, expected: Seq<TokenKind>) -> bool {
    0 <= pos < toks.len() && expected.contains(toks[pos].kind)
}

/// The place of the token at `pos`; past the last token, the empty range at
/// the end of the last token.
pub open spec fn place(toks: Seq<TokenView>, pos: int) -> Span {
    if 0 <= pos < toks.len() {
        toks[pos].span
    } else if toks.len() > 0 {
        Span { lo: toks.last().span.hi, hi: toks.last().span.hi }
    } else {
        Span { lo: 0, hi: 0 }
    }
}

/// The names of `expected`, separated by "`, `".
pub open spec fn kinds_list(expected: Seq<TokenKind>) -> Seq<char>
    decreases expected.len(),
{
    if expected.len() == 0 {
        Seq::empty()
    } else if expected.len() == 1 {
        expected[0].label()
    } else {
        kinds_list(expected.drop_last()) + "`, `"@ + expected.last().label()
    }
}

/// The message for a token of kind `found`, or the end of the tokens, where
/// one of `expected` had to stand.
pub open spec fn expected_message(expected: Seq<TokenKind>, found: Option<TokenKind>) -> Seq<char> {
    "Expected `"@ + kinds_list(expected) + "`, found `"@ + (match found {
        Some(kind) => kind.label(),
        None => "EOF"@,
    }) + "`"@
}

/// The error for the token at `pos` where one of `expected` had to stand.
pub open spec fn mismatch(toks: Seq<TokenView>, pos: int, expected: Seq<TokenKind>) -> ParserErrorView {
    ParserErrorView { msg: expected_message(expected, kind_at(toks, pos)), pos: place(toks, pos) }
}

/// The error for a numeric literal that cannot be decoded.
pub open spec fn bad_number(span: Span) -> ParserErrorView {
    ParserErrorView { msg: "invalid numeric literal"@, pos: span }
}

/// The error for a function declaration.
pub open spec fn no_functions(span: Span) -> ParserErrorView {
    ParserErrorView { msg: "function declarations are not supported"@, pos: span }
}

pub open spec fn ident_kinds() -> Seq<TokenKind> {
    seq![TokenKind::Ident]
}

pub open spec fn dot_kinds() -> Seq<TokenKind> {
    seq![TokenKind::Dot]
}

pub open spec fn assign_kinds() -> Seq<TokenKind> {
    seq![TokenKind::EqualSign]
}

pub open spec fn newline_kinds() -> Seq<TokenKind> {
    seq![TokenKind::Newline]
}

pub open spec fn func_kinds() -> Seq<TokenKind> {
    seq![TokenKind::KwFunc]
}

pub open spec fn atom_kinds() -> Seq<TokenKind> {
    seq![TokenKind::IntLit, TokenKind::FloatLit, TokenKind::BoolLit, TokenKind::StrLit]
}

pub open spec fn decl_kinds() -> Seq<TokenKind> {
    seq![TokenKind::Ident, TokenKind::KwGlobal, TokenKind::KwFunc]
}

/// The kinds at which skipping an unexpected run of tokens stops.
pub open spec fn stop_kinds() -> Seq<TokenKind> {
    seq![TokenKind::Ident, TokenKind::Newline]
}

impl Parsed {
    pub open spec fn done(node: Node, pos: int) -> Parsed {
        Parsed { node: Some(node), pos, errors: Seq::empty() }
    }

    pub open spec fn failed(pos: int, errors: Seq<ParserErrorView>) -> Parsed {
        Parsed { node: None, pos, errors }
    }
}

/// Requires one of `expected` at `pos`: the position after the token where it
/// is there; the same position and an error where it is not.
pub open spec fn expect(toks: Seq<TokenView>, pos: int, expected: Seq<TokenKind>) -> (
    int,
    Seq<ParserErrorView>,
) {
    if matches_any(toks, pos, expected) {
        (pos + 1, Seq::empty())
    } else {
        (pos, seq![mismatch(toks, pos, expected)])
    }
}

/// `Ident`, as a name.
pub open spec fn parse_ident(toks: Seq<TokenView>, pos: int) -> Parsed {
    if matches_any(toks, pos, ident_kinds()) {
        Parsed::done(Node { kind: NodeKind::Name(toks[pos].text), span: toks[pos].span }, pos + 1)
    } else {
        Parsed::failed(pos, seq![mismatch(toks, pos, ident_kinds())])
    }
}

/// `('.' Ident)*` after a name that reads `text` and covers `span`.
pub open spec fn parse_name_rest(toks: Seq<TokenView>, pos: int, text: Seq<char>, span: Span) -> Parsed
    decreases toks.len() - pos,
{
    if matches_any(toks, pos, dot_kinds()) {
        if matches_any(toks, pos + 1, ident_kinds()) {
            parse_name_rest(
                toks,
                pos + 2,
                text + "."@ + toks[pos + 1].text,
                Span { lo: span.lo, hi: toks[pos + 1].span.hi },
            )
        } else {
            Parsed::failed(pos + 1, seq![mismatch(toks, pos + 1, ident_kinds())])
        }
    } else {
        Parsed::done(Node { kind: NodeKind::Name(text), span }, pos)
    }
}

/// `Name := Ident ('.' Ident)*`
pub open spec fn parse_name(toks: Seq<TokenView>, pos: int) -> Parsed {
    if matches_any(toks, pos, ident_kinds()) {
        parse_name_rest(toks, pos + 1, toks[pos].text, toks[pos].span)
    } else {
        Parsed::failed(pos, seq![mismatch(toks, pos, ident_kinds())])
    }
}

/// What a literal token denotes, or `None` for a number that cannot be
/// decoded.
pub open spec fn literal(token: TokenView) -> Option<NodeKind> {
    match token.kind {
        TokenKind::IntLit => match int_value(token.text) {
            Some(value) => Some(NodeKind::IntLit(value)),
            None => None,
        },
        TokenKind::FloatLit => if rule_accepts(TokenKind::FloatLit, token.text) {
            Some(NodeKind::FloatLit(token.text))
        } else {
            None
        },
        TokenKind::BoolLit => Some(NodeKind::BoolLit(token.text == "True"@)),
        _ => Some(NodeKind::StrLit(token.text.subrange(1, token.text.len() - 1))),
    }
}

/// `Atom := IntLit | FloatLit | BoolLit | StrLit`
pub open spec fn parse_atom(toks: Seq<TokenView>, pos: int) -> Parsed {
    if matches_any(toks, pos, atom_kinds()) {
        match literal(toks[pos]) {
            Some(kind) => Parsed::done(Node { kind, span: toks[pos].span }, pos + 1),
            None => Parsed::failed(pos + 1, seq![bad_number(toks[pos].span)]),
        }
    } else {
        Parsed::failed(pos, seq![mismatch(toks, pos, atom_kinds())])
    }
}

/// An expression. The only expressions are atoms.
pub open spec fn parse_expr(toks: Seq<TokenView>, pos: int) -> Parsed {
    parse_atom(toks, pos)
}

/// `VarDecl := Ident Name '=' Atom Newline`. The node covers the tokens from
/// the type to the value. A missing `=` or line break is reported and
/// parsing goes on; without type, name or value there is no node.
pub open spec fn parse_var(toks: Seq<TokenView>, pos: int) -> Parsed {
    let ty = parse_ident(toks, pos);
    if ty.node is None {
        ty
    } else {
        let name = parse_name(toks, ty.pos);
        if name.node is None {
            name
        } else {
            let assign = expect(toks, name.pos, assign_kinds());
            let value = parse_expr(toks, assign.0);
            if value.node is None {
                Parsed::failed(value.pos, assign.1 + value.errors)
            } else {
                let end = expect(toks, value.pos, newline_kinds());
                Parsed {
                    node: Some(
                        Node {
                            kind: NodeKind::VarDef(
                                Box::new(name.node->0),
                                Box::new(ty.node->0),
                                Box::new(value.node->0),
                            ),
                            span: Span { lo: ty.node->0.span.lo, hi: value.node->0.span.hi },
                        },
                    ),
                    pos: end.0,
                    errors: assign.1 + end.1,
                }
            }
        }
    }
}

/// `GlobalDecl := 'global' VarDecl`, with `global` at `pos`.
pub open spec fn parse_global(toks: Seq<TokenView>, pos: int) -> Parsed {
    let var = parse_var(toks, pos + 1);
    match var.node {
        Some(inner) => Parsed {
            node: Some(
                Node {
                    kind: NodeKind::Global(Box::new(inner)),
                    span: Span { lo: toks[pos].span.lo, hi: inner.span.hi },
                },
            ),
            pos: var.pos,
            errors: var.errors,
        },
        None => var,
    }
}

/// `FuncDecl := 'func' Name ...`. The error covers the keyword and the name.
pub open spec fn parse_func(toks: Seq<TokenView>, pos: int) -> Parsed {
    if matches_any(toks, pos, func_kinds()) {
        let name = parse_name(toks, pos + 1);
        match name.node {
            Some(node) => Parsed::failed(
                name.pos,
                seq![no_functions(Span { lo: toks[pos].span.lo, hi: node.span.hi })],
            ),
            None => name,
        }
    } else {
        Parsed::failed(pos, seq![mismatch(toks, pos, func_kinds())])
    }
}

/// The first position from `pos` on with a token of one of `kinds`, or the
/// number of tokens if there is none.
pub open spec fn skip_until(toks: Seq<TokenView>, pos: int, kinds: Seq<TokenKind>) -> int
    decreases toks.len() - pos,
{
    if pos < 0 || pos >= toks.len() {
        pos
    } else if kinds.contains(toks[pos].kind) {
        pos
    } else {
        skip_until(toks, pos + 1, kinds)
    }
}

/// Where the run of unexpected tokens that starts at `pos` ends: before the
/// next identifier or line break.
pub open spec fn unexpected_end(toks: Seq<TokenView>, pos: int) -> int {
    if toks[pos].kind == TokenKind::Newline {
        pos + 1
    } else {
        skip_until(toks, pos + 1, stop_kinds())
    }
}

/// Where parsing goes on after an unexpected token at `pos`: after the next
/// line break.
pub open spec fn resume_at(toks: Seq<TokenView>, pos: int) -> int {
    let line_end = skip_until(toks, pos, newline_kinds());
    if line_end < toks.len() {
        line_end + 1
    } else {
        line_end
    }
}

/// Recovery from a token at `pos` that can start no declaration: one error,
/// which covers the unexpected tokens up to the next identifier or line
/// break, and parsing goes on after the next line break.
pub open spec fn recover(toks: Seq<TokenView>, pos: int) -> Parsed {
    let end = unexpected_end(toks, pos);
    Parsed::failed(
        resume_at(toks, pos),
        seq![
            ParserErrorView {
                msg: expected_message(decl_kinds(), Some(toks[pos].kind)),
                pos: Span { lo: toks[pos].span.lo, hi: toks[end - 1].span.hi },
            },
        ],
    )
}

/// `Declaration := GlobalDecl | VarDecl | FuncDecl`, for `pos` at a token.
pub open spec fn parse_define(toks: Seq<TokenView>, pos: int) -> Parsed {
    match toks[pos].kind {
        TokenKind::Ident => parse_var(toks, pos),
        TokenKind::KwGlobal => parse_global(toks, pos),
        TokenKind::KwFunc => parse_func(toks, pos),
        _ => recover(toks, pos),
    }
}

/// The declarations parsed and the errors found.
pub struct Program {
    pub decls: Seq<Node>,
    pub errors: Seq<ParserErrorView>,
}

impl Program {
    pub open spec fn empty() -> Program {
        Program { decls: Seq::empty(), errors: Seq::empty() }
    }

    /// The program with what parsing one more declaration has yielded.
    pub open spec fn with(self, parsed: Parsed) -> Program {
        Program {
            decls: match parsed.node {
                Some(node) => self.decls.push(node),
                None => self.decls,
            },
            errors: self.errors + parsed.errors,
        }
    }
}

/// `Program := Declaration*`, from `pos` on, with `acc` parsed before.
pub open spec fn parse_from(toks: Seq<TokenView>, pos: int, acc: Program) -> Program
    decreases toks.len() - pos,
{
    if pos < 0 || pos >= toks.len() {
        acc
    } else {
        let parsed = parse_define(toks, pos);
        if parsed.pos <= pos || parsed.pos > toks.len() {
            acc
        } else {
            parse_from(toks, parsed.pos, acc.with(parsed))
        }
    }
}

/// What parsing `toks` yields.
pub open spec fn parse_program(toks: Seq<TokenView>) -> Program {
    parse_from(toks, 0, Program::empty())
}

/// Where `skip_until` stops: at the first token from `pos` on whose kind is
/// one of `kinds`.
pub proof fn lemma_skip_until(toks: Seq<TokenView>, pos: int, kinds: Seq<TokenKind>)
    requires
        0 <= pos <= toks.len(),
    ensures
        pos <= skip_until(toks, pos, kinds) <= toks.len(),
        forall|i: int|
            pos <= i < skip_until(toks, pos, kinds) ==> !kinds.contains(#[trigger] toks[i].kind),
        skip_until(toks, pos, kinds) < toks.len() ==> kinds.contains(
            toks[skip_until(toks, pos, kinds)].kind,
        ),
    decreases toks.len() - pos,
{
    if pos < toks.len() && !kinds.contains(toks[pos].kind) {
        lemma_skip_until(toks, pos + 1, kinds);
    }
}

/// Skipping goes on to the same token from anywhere before it.
pub proof fn lemma_skip_until_resumed(
    toks: Seq<TokenView>,
    pos: int,
    mid: int,
    kinds: Seq<TokenKind>,
)
    requires
        0 <= pos <= mid <= toks.len(),
        forall|i: int| pos <= i < mid ==> !kinds.contains(#[trigger] toks[i].kind),
    ensures
        skip_until(toks, pos, kinds) == skip_until(toks, mid, kinds),
    decreases mid - pos,
{
    if pos < mid {
        assert(!kinds.contains(toks[pos].kind));
        lemma_skip_until_resumed(toks, pos + 1, mid, kinds);
    }
}

/// A name consumes tokens only, and one that was parsed left no error.
pub proof fn lemma_name_rest(toks: Seq<TokenView>, pos: int, text: Seq<char>, span: Span)
    requires
        0 <= pos <= toks.len(),
    ensures
        pos <= parse_name_rest(toks, pos, text, span).pos <= toks.len(),
        parse_name_rest(toks, pos, text, span).node is Some ==> parse_name_rest(
            toks,
            pos,
            text,
            span,
        ).errors.len() == 0,
    decreases toks.len() - pos,
{
    if matches_any(toks, pos, dot_kinds()) && matches_any(toks, pos + 1, ident_kinds()) {
        lemma_name_rest(
            toks,
            pos + 2,
            text + "."@ + toks[pos + 1].text,
            Span { lo: span.lo, hi: toks[pos + 1].span.hi },
        );
    }
}

/// A variable declaration consumes tokens only, and at least one where it
/// starts at an identifier.
pub proof fn lemma_var_advances(toks: Seq<TokenView>, pos: int)
    requires
        0 <= pos <= toks.len(),
    ensures
        pos <= parse_var(toks, pos).pos <= toks.len(),
        matches_any(toks, pos, ident_kinds()) ==> pos < parse_var(toks, pos).pos,
{
    let ty = parse_ident(toks, pos);
    if ty.node is Some && matches_any(toks, pos + 1, ident_kinds()) {
        lemma_name_rest(toks, pos + 2, toks[pos + 1].text, toks[pos + 1].span);
    }
}

/// Every declaration consumes at least one token.
pub proof fn lemma_define_advances(toks: Seq<TokenView>, pos: int)
    requires
        0 <= pos < toks.len(),
    ensures
        pos < parse_define(toks, pos).pos <= toks.len(),
{
    match toks[pos].kind {
        TokenKind::Ident => {
            assert(ident_kinds()[0] == TokenKind::Ident);
            lemma_var_advances(toks, pos);
        },
        TokenKind::KwGlobal => {
            lemma_var_advances(toks, pos + 1);
        },
        TokenKind::KwFunc => {
            assert(func_kinds()[0] == TokenKind::KwFunc);
            if matches_any(toks, pos + 1, ident_kinds()) {
                lemma_name_rest(toks, pos + 2, toks[pos + 1].text, toks[pos + 1].span);
            }
        },
        _ => {
            lemma_skip_until(toks, pos, newline_kinds());
        },
    }
}

} // verus!
