//! The syntax tree.

use vstd::prelude::*;
use crate::util::Span;

verus! {

/// A node of the syntax tree with the range of source text that it covers.
#[derive(Debug)]
pub struct Expr {
    pub kind: ExprKind,
    pub span: Span,
}

/// The kinds of node. Every node owns its children.
#[derive(Debug)]
pub enum ExprKind {
    /// A declaration marked `global`.
    Global(Box<Expr>),
    /// A sequence of statements in braces.
    Block(Vec<Expr>),
    /// A function: its name, its parameters and its body.
    FuncDef(Box<Expr>, Vec<Expr>, Box<Expr>),
    /// A variable: its name, its type and its value.
    VarDef(Box<Expr>, Box<Expr>, Box<Expr>),
    /// A name, which may be a dotted path such as `a.b.c`.
    Name(String),
    IntLit(i64),
    /// A floating-point literal, kept as it is written: digits, a dot, digits.
    FloatLit(String),
    BoolLit(bool),
    /// A string literal without its quotes.
    StrLit(String),
    /// A call: the callee and the arguments.
    Call(Box<Expr>, Vec<Expr>),
}

/// What an [`Expr`] holds, as plain values.
pub struct Node {
    pub kind: NodeKind,
    pub span: Span,
}

/// What an [`ExprKind`] holds, as plain values.
pub enum NodeKind {
    Global(Box<Node>),
    Block(Seq<Node>),
    FuncDef(Box<Node>, Seq<Node>, Box<Node>),
    VarDef(Box<Node>, Box<Node>, Box<Node>),
    Name(Seq<char>),
    IntLit(int),
    FloatLit(Seq<char>),
    BoolLit(bool),
    StrLit(Seq<char>),
    Call(Box<Node>, Seq<Node>),
}

impl Expr {
    pub open spec fn node(self) -> Node
        decreases self,
    {
        Node { kind: self.kind.node_kind(), span: self.span }
    }
}

/// The nodes of the expressions of `items`, in order.
pub open spec fn nodes(items: Seq<Expr>) -> Seq<Node> {
    Seq::new(items.len(), |i: int| items[i].node())
}

impl ExprKind {
    pub open spec fn node_kind(self) -> NodeKind
        decreases self,
    {
        match self {
            ExprKind::Global(inner) => NodeKind::Global(Box::new(inner.node())),
            ExprKind::Block(items) => NodeKind::Block(
                Seq::new(
                    items@.len(),
                    |i: int|
                        if 0 <= i < items@.len() {
                            items@[i].node()
                        } else {
                            arbitrary()
                        },
                ),
            ),
            ExprKind::FuncDef(name, params, body) => NodeKind::FuncDef(
                Box::new(name.node()),
                Seq::new(
                    params@.len(),
                    |i: int|
                        if 0 <= i < params@.len() {
                            params@[i].node()
                        } else {
                            arbitrary()
                        },
                ),
                Box::new(body.node()),
            ),
            ExprKind::VarDef(name, ty, value) => NodeKind::VarDef(
                Box::new(name.node()),
                Box::new(ty.node()),
                Box::new(value.node()),
            ),
            ExprKind::Name(text) => NodeKind::Name(text@),
            ExprKind::IntLit(value) => NodeKind::IntLit(value as int),
            ExprKind::FloatLit(text) => NodeKind::FloatLit(text@),
            ExprKind::BoolLit(value) => NodeKind::BoolLit(value),
            ExprKind::StrLit(text) => NodeKind::StrLit(text@),
            ExprKind::Call(callee, args) => NodeKind::Call(
                Box::new(callee.node()),
                Seq::new(
                    args@.len(),
                    |i: int|
                        if 0 <= i < args@.len() {
                            args@[i].node()
                        } else {
                            arbitrary()
                        },
                ),
            ),
        }
    }
}

impl View for Expr {
    type V = Node;

    open spec fn view(&self) -> Node {
        self.node()
    }
}

impl View for ExprKind {
    type V = NodeKind;

    open spec fn view(&self) -> NodeKind {
        self.node_kind()
    }
}

/// A copy of each expression of `items`.
fn clone_all(items: &Vec<Expr>) -> (copy: Vec<Expr>)
    ensures
        copy@.len() == items@.len(),
        forall|i: int| 0 <= i < items@.len() ==> copy@[i]@ == items@[i]@,
    decreases items,
{
    let mut copy: Vec<Expr> = Vec::new();
    let mut i: usize = 0;
    while i < items.len()
        invariant
            i <= items.len(),
            copy@.len() == i,
            forall|j: int| 0 <= j < i ==> copy@[j]@ == items@[j]@,
        decreases items.len() - i,
    {
        copy.push(items[i].clone());
        i += 1;
    }
    copy
}

impl Clone for Expr {
    fn clone(&self) -> (res: Expr)
        ensures
            res@ == self@,
        decreases self,
    {
        Expr { kind: self.kind.clone(), span: self.span }
    }
}

impl Clone for ExprKind {
    fn clone(&self) -> (res: ExprKind)
        ensures
            res@ == self@,
        decreases self,
    {
        match self {
            ExprKind::Global(inner) => {
                let inner = (&**inner).clone();
                ExprKind::Global(Box::new(inner))
            },
            ExprKind::Block(items) => {
                let res = ExprKind::Block(clone_all(items));
                assert(res@->Block_0 =~= self@->Block_0);
                res
            },
            ExprKind::FuncDef(name, params, body) => {
                let name = (&**name).clone();
                let params = clone_all(params);
                let body = (&**body).clone();
                let res = ExprKind::FuncDef(Box::new(name), params, Box::new(body));
                assert(res@->FuncDef_1 =~= self@->FuncDef_1);
                res
            },
            ExprKind::VarDef(name, ty, value) => {
                let name = (&**name).clone();
                let ty = (&**ty).clone();
                let value = (&**value).clone();
                ExprKind::VarDef(Box::new(name), Box::new(ty), Box::new(value))
            },
            ExprKind::Name(text) => ExprKind::Name(text.clone()),
            ExprKind::IntLit(value) => ExprKind::IntLit(*value),
            ExprKind::FloatLit(text) => ExprKind::FloatLit(text.clone()),
            ExprKind::BoolLit(value) => ExprKind::BoolLit(*value),
            ExprKind::StrLit(text) => ExprKind::StrLit(text.clone()),
            ExprKind::Call(callee, args) => {
                let callee = (&**callee).clone();
                let res = ExprKind::Call(Box::new(callee), clone_all(args));
                assert(res@->Call_1 =~= self@->Call_1);
                res
            },
        }
    }
}

} // verus!
