use vstd::prelude::*;

verus! {

/// The three loop forms of the language: each of them can be the target of
/// `break` and `continue`.
#[derive(PartialEq, Eq, Structural, Clone, Copy, Debug)]
pub enum LoopKind {
    For,
    While,
    Loop,
}

/// A syntax tree of expressions and statements, reduced to what decides where
/// control flow goes.
///
/// Every kind of node that needs no special treatment is a `Node`: `kind`
/// holds its own text (`"if"`, `"call"`, or the tokens of a leaf such as a path,
/// a literal or a macro call) and `parts` its sub-expressions, in source order.
#[derive(Debug, PartialEq, Eq)]
pub enum Expr {
    Node { kind: String, parts: Vec<Expr> },
    /// A local item (function, type, ...), kept as its source text.
    Item { text: String },
    /// A closure or an `async` block, kept as its source text.
    Closure { text: String },
    /// A `for`, `while` or `loop`; `parts` holds everything under it: the
    /// iterated expression or the condition, then the statements of the body.
    Loop { form: LoopKind, label: Option<String>, parts: Vec<Expr> },
    Continue { label: Option<String> },
    Break { label: Option<String>, value: Option<Box<Expr>> },
    Return { value: Option<Box<Expr>> },
    /// The `?` operator applied to `inner`.
    Try { inner: Box<Expr> },
    /// A `try { ... }` block.
    TryBlock { parts: Vec<Expr> },
    Await { inner: Box<Expr> },
    Yield { value: Option<Box<Expr>> },
}

/// The mathematical value of an `Expr`: the same tree, with sequences of
/// characters for strings and sequences for vectors.
pub enum Tree {
    Node { kind: Seq<char>, parts: Seq<Tree> },
    Item { text: Seq<char> },
    Closure { text: Seq<char> },
    Loop { form: LoopKind, label: Option<Seq<char>>, parts: Seq<Tree> },
    Continue { label: Option<Seq<char>> },
    Break { label: Option<Seq<char>>, value: Option<Box<Tree>> },
    Return { value: Option<Box<Tree>> },
    Try { inner: Box<Tree> },
    TryBlock { parts: Seq<Tree> },
    Await { inner: Box<Tree> },
    Yield { value: Option<Box<Tree>> },
}

pub open spec fn label_view(l: Option<String>) -> Option<Seq<char>> {
    match l {
        Some(s) => Some(s@),
        None => None,
    }
}

impl Expr {
    pub open spec fn view(self) -> Tree
        decreases self,
    {
        match self {
            Expr::Node { kind, parts } => Tree::Node { kind: kind@, parts: view_all(parts@) },
            Expr::Item { text } => Tree::Item { text: text@ },
            Expr::Closure { text } => Tree::Closure { text: text@ },
            Expr::Loop { form, label, parts } => Tree::Loop {
                form,
                label: label_view(label),
                parts: view_all(parts@),
            },
            Expr::Continue { label } => Tree::Continue { label: label_view(label) },
            Expr::Break { label, value } => Tree::Break {
                label: label_view(label),
                value: match value {
                    Some(v) => Some(Box::new((*v).view())),
                    None => None,
                },
            },
            Expr::Return { value } => Tree::Return {
                value: match value {
                    Some(v) => Some(Box::new((*v).view())),
                    None => None,
                },
            },
            Expr::Try { inner } => Tree::Try { inner: Box::new((*inner).view()) },
            Expr::TryBlock { parts } => Tree::TryBlock { parts: view_all(parts@) },
            Expr::Await { inner } => Tree::Await { inner: Box::new((*inner).view()) },
            Expr::Yield { value } => Tree::Yield {
                value: match value {
                    Some(v) => Some(Box::new((*v).view())),
                    None => None,
                },
            },
        }
    }
}

/// The views of a sequence of expressions, one for one.
pub open spec fn view_all(s: Seq<Expr>) -> Seq<Tree>
    decreases s,
{
    if s.len() == 0 {
        Seq::empty()
    } else {
        view_all(s.subrange(0, s.len() - 1)).push(s[s.len() - 1].view())
    }
}

} // verus!
