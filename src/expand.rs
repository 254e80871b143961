use vstd::prelude::*;
use crate::syntax::{Expr, LoopKind, Tree, label_view, view_all};
use crate::transform::{Scope, TransformBody, Unsupported, fold_all, lemma_view_all};

verus! {

/// A `for` loop as written: `label: for pat in expr { body }`, with the
/// attributes in front of it. A label is its name without the apostrophe.
#[derive(Debug, PartialEq, Eq)]
pub struct ForLoop {
    pub attrs: Vec<String>,
    pub label: Option<String>,
    pub pat: String,
    pub expr: Expr,
    pub body: Vec<Expr>,
}

/// The call that replaces a loop: `source` turned into a parallel iterator of
/// the crate `engine`, and `for_each` run on it with the closure `|pat| body`.
#[derive(Debug, PartialEq, Eq)]
pub struct ForEach {
    pub engine: String,
    pub source: Expr,
    pub pat: String,
    pub body: Expr,
}

/// The block `{ { stmts } false }` that runs `stmts` once and yields `false`.
pub open spec fn run_once(stmts: Seq<Tree>) -> Tree {
    Tree::Node {
        kind: "block"@,
        parts: seq![
            Tree::Node { kind: "block"@, parts: stmts },
            Tree::Node { kind: "false"@, parts: Seq::empty() },
        ],
    }
}

/// `label: while { { stmts } false } {}`: a loop that runs `stmts` exactly
/// once, so that a `return` out of `stmts` only ends the current element.
pub open spec fn single_pass(label: Option<Seq<char>>, stmts: Seq<Tree>) -> Tree {
    Tree::Loop {
        form: LoopKind::While,
        label,
        parts: seq![run_once(stmts), Tree::Node { kind: "block"@, parts: Seq::empty() }],
    }
}

/// The rewritten body of a loop labelled `label`, or the first construct in it
/// that cannot be kept.
pub open spec fn rewrite_body(label: Option<Seq<char>>, body: Seq<Tree>) -> Result<Seq<Tree>, Unsupported> {
    fold_all(Scope::top(label), body)
}

/// What `parallel` returns for `l` and the name `engine` of the
/// parallel-iteration crate.
pub open spec fn expansion(l: ForLoop, engine: Seq<char>) -> Result<(Seq<char>, Expr, Seq<char>, Tree), Unsupported> {
    if l.attrs@.len() > 0 {
        Err(Unsupported::Attributes)
    } else {
        match rewrite_body(label_view(l.label), view_all(l.body@)) {
            Err(u) => Err(u),
            Ok(b) => Ok((engine, l.expr, l.pat@, single_pass(label_view(l.label), b))),
        }
    }
}

pub open spec fn for_each_view(r: Result<ForEach, Unsupported>) -> Result<(Seq<char>, Expr, Seq<char>, Tree), Unsupported> {
    match r {
        Ok(f) => Ok((f.engine@, f.source, f.pat@, f.body@)),
        Err(u) => Err(u),
    }
}

fn node(kind: &str, parts: Vec<Expr>) -> (r: Expr)
    ensures
        r@ == (Tree::Node { kind: kind@, parts: view_all(parts@) }),
{
    Expr::Node { kind: kind.to_string(), parts }
}

/// Wraps `stmts` in a loop that runs them exactly once.
pub fn wrap_single_pass(label: Option<String>, stmts: Vec<Expr>) -> (r: Expr)
    ensures
        r@ == single_pass(label_view(label), view_all(stmts@)),
{
    let inner = node("block", stmts);
    let no = node("false", Vec::new());
    let mut once = Vec::new();
    once.push(inner);
    once.push(no);
    let cond = node("block", once);
    let empty = node("block", Vec::new());
    let mut parts = Vec::new();
    parts.push(cond);
    parts.push(empty);
    proof {
        lemma_view_all(once@);
        lemma_view_all(parts@);
        assert(view_all(Seq::<Expr>::empty()) =~= Seq::<Tree>::empty());
        assert(view_all(once@) =~= seq![inner@, no@]);
        assert(view_all(parts@) =~= seq![cond@, empty@]);
    }
    Expr::Loop { form: LoopKind::While, label, parts }
}

/// Turns the loop `l` into a call of `for_each` on a parallel iterator of the
/// crate named `engine`. Each `continue` that targets `l` becomes a `return`
/// out of the single-pass loop that wraps the body; `l` is refused when it
/// carries attributes or when its body holds control flow that cannot be kept
/// (see `fold`).
pub fn parallel(l: ForLoop, engine: String) -> (r: Result<ForEach, Unsupported>)
    ensures
        for_each_view(r) == expansion(l, engine@),
{
    if l.attrs.len() > 0 {
        return Err(Unsupported::Attributes);
    }
    let ForLoop { attrs: _, label, pat, expr, body } = l;
    let mut transform = match &label {
        Some(name) => TransformBody::new(Some(name)),
        None => TransformBody::new(None),
    };
    match transform.fold_parts(&body) {
        Err(u) => Err(u),
        Ok(stmts) => {
            let wrapped = wrap_single_pass(label, stmts);
            Ok(ForEach { engine, source: expr, pat, body: wrapped })
        },
    }
}

} // verus!
