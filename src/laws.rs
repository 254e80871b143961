use vstd::prelude::*;
use crate::syntax::{LoopKind, Tree, label_view, view_all};
use crate::transform::{Scope, Unsupported, fold, fold_all};
use crate::expand::{ForLoop, expansion, rewrite_body, single_pass};

verus! {

// ----- Rejection -----

/// Whether `t` holds, outside closures and items, a `break` that targets the
/// loop made parallel when `t` stands in scope `sc`.
pub open spec fn breaks_out(sc: Scope, t: Tree) -> bool
    decreases t,
{
    match t {
        Tree::Node { parts, .. } => breaks_out_all(sc, parts),
        Tree::Item { .. } => false,
        Tree::Closure { .. } => false,
        Tree::Loop { label, parts, .. } => breaks_out_all(sc.enter_loop(label), parts),
        Tree::Continue { .. } => false,
        Tree::Break { label, value } => sc.controls(label) || match value {
            Some(v) => breaks_out(sc, *v),
            None => false,
        },
        Tree::Return { value } => match value {
            Some(v) => breaks_out(sc, *v),
            None => false,
        },
        Tree::Try { inner } => breaks_out(sc, *inner),
        Tree::TryBlock { parts } => breaks_out_all(sc.enter_try(), parts),
        Tree::Await { inner } => breaks_out(sc, *inner),
        Tree::Yield { value } => match value {
            Some(v) => breaks_out(sc, *v),
            None => false,
        },
    }
}

pub open spec fn breaks_out_all(sc: Scope, s: Seq<Tree>) -> bool
    decreases s,
{
    s.len() > 0 && (breaks_out_all(sc, s.subrange(0, s.len() - 1)) || breaks_out(sc, s[s.len() - 1]))
}

/// A `break` that targets the loop made parallel is always refused.
pub proof fn lemma_break_rejected(sc: Scope, t: Tree)
    requires
        breaks_out(sc, t),
    ensures
        fold(sc, t) is Err,
    decreases t,
{
    match t {
        Tree::Node { parts, .. } => lemma_break_rejected_all(sc, parts),
        Tree::Loop { label, parts, .. } => lemma_break_rejected_all(sc.enter_loop(label), parts),
        Tree::Break { label, value } => {
            if !sc.controls(label) {
                lemma_break_rejected(sc, *value->Some_0);
            }
        },
        Tree::Try { inner } => {
            if sc.in_try {
                lemma_break_rejected(sc, *inner);
            }
        },
        Tree::TryBlock { parts } => lemma_break_rejected_all(sc.enter_try(), parts),
        _ => {},
    }
}

pub proof fn lemma_break_rejected_all(sc: Scope, s: Seq<Tree>)
    requires
        breaks_out_all(sc, s),
    ensures
        fold_all(sc, s) is Err,
    decreases s,
{
    if breaks_out_all(sc, s.subrange(0, s.len() - 1)) {
        lemma_break_rejected_all(sc, s.subrange(0, s.len() - 1));
    } else {
        lemma_break_rejected(sc, s[s.len() - 1]);
    }
}

/// Whether `t` holds a `return` outside closures and items.
pub open spec fn holds_return(t: Tree) -> bool
    decreases t,
{
    match t {
        Tree::Node { parts, .. } => holds_return_all(parts),
        Tree::Item { .. } => false,
        Tree::Closure { .. } => false,
        Tree::Loop { parts, .. } => holds_return_all(parts),
        Tree::Continue { .. } => false,
        Tree::Break { value, .. } => match value {
            Some(v) => holds_return(*v),
            None => false,
        },
        Tree::Return { .. } => true,
        Tree::Try { inner } => holds_return(*inner),
        Tree::TryBlock { parts } => holds_return_all(parts),
        Tree::Await { inner } => holds_return(*inner),
        Tree::Yield { value } => match value {
            Some(v) => holds_return(*v),
            None => false,
        },
    }
}

pub open spec fn holds_return_all(s: Seq<Tree>) -> bool
    decreases s,
{
    s.len() > 0 && (holds_return_all(s.subrange(0, s.len() - 1)) || holds_return(s[s.len() - 1]))
}

/// A `return` outside closures and items is refused, in every scope.
pub proof fn lemma_return_rejected(sc: Scope, t: Tree)
    requires
        holds_return(t),
    ensures
        fold(sc, t) is Err,
    decreases t,
{
    match t {
        Tree::Node { parts, .. } => lemma_return_rejected_all(sc, parts),
        Tree::Loop { label, parts, .. } => lemma_return_rejected_all(sc.enter_loop(label), parts),
        Tree::Break { label, value } => {
            if !sc.controls(label) {
                lemma_return_rejected(sc, *value->Some_0);
            }
        },
        Tree::Try { inner } => {
            if sc.in_try {
                lemma_return_rejected(sc, *inner);
            }
        },
        Tree::TryBlock { parts } => lemma_return_rejected_all(sc.enter_try(), parts),
        _ => {},
    }
}

pub proof fn lemma_return_rejected_all(sc: Scope, s: Seq<Tree>)
    requires
        holds_return_all(s),
    ensures
        fold_all(sc, s) is Err,
    decreases s,
{
    if holds_return_all(s.subrange(0, s.len() - 1)) {
        lemma_return_rejected_all(sc, s.subrange(0, s.len() - 1));
    } else {
        lemma_return_rejected(sc, s[s.len() - 1]);
    }
}

/// A loop whose body holds a `break` out of it is never expanded.
pub proof fn lemma_parallel_rejects_break(l: ForLoop, engine: Seq<char>)
    requires
        breaks_out_all(Scope::top(label_view(l.label)), view_all(l.body@)),
    ensures
        expansion(l, engine) is Err,
{
    lemma_break_rejected_all(Scope::top(label_view(l.label)), view_all(l.body@));
}

/// A loop whose body holds a `return` outside closures and items is never
/// expanded.
pub proof fn lemma_parallel_rejects_return(l: ForLoop, engine: Seq<char>)
    requires
        holds_return_all(view_all(l.body@)),
    ensures
        expansion(l, engine) is Err,
{
    lemma_return_rejected_all(Scope::top(label_view(l.label)), view_all(l.body@));
}

// ----- Shadowing -----

/// Inside a nested loop that has taken the controlled label over, nothing is
/// rewritten and no `break` is refused.
proof fn lemma_untouched(sc: Scope, t: Tree)
    requires
        sc.label is None,
        sc.in_loop,
    ensures
        fold(sc, t) is Ok ==> fold(sc, t) == Ok::<Tree, Unsupported>(t),
        fold(sc, t) != Err::<Tree, Unsupported>(Unsupported::Break),
    decreases t,
{
    match t {
        Tree::Node { parts, .. } => lemma_untouched_all(sc, parts),
        Tree::Loop { label, parts, .. } => lemma_untouched_all(sc.enter_loop(label), parts),
        Tree::Break { value, .. } => {
            if value is Some {
                lemma_untouched(sc, *value->Some_0);
            }
        },
        Tree::Try { inner } => lemma_untouched(sc, *inner),
        Tree::TryBlock { parts } => lemma_untouched_all(sc.enter_try(), parts),
        _ => {},
    }
}

proof fn lemma_untouched_all(sc: Scope, s: Seq<Tree>)
    requires
        sc.label is None,
        sc.in_loop,
    ensures
        fold_all(sc, s) is Ok ==> fold_all(sc, s) == Ok::<Seq<Tree>, Unsupported>(s),
        fold_all(sc, s) != Err::<Seq<Tree>, Unsupported>(Unsupported::Break),
    decreases s,
{
    if s.len() > 0 {
        lemma_untouched_all(sc, s.subrange(0, s.len() - 1));
        lemma_untouched(sc, s[s.len() - 1]);
        assert(s.subrange(0, s.len() - 1).push(s[s.len() - 1]) =~= s);
    } else {
        assert(s =~= Seq::<Tree>::empty());
    }
}

/// A nested loop that reuses the label of the loop made parallel comes out
/// unchanged, `continue` and `break` in it included, and no `break` in it is
/// refused.
pub proof fn lemma_shadowing_loop(sc: Scope, form: LoopKind, l: Seq<char>, parts: Seq<Tree>)
    requires
        sc.label == Some(l),
    ensures
        ({
            let t = Tree::Loop { form, label: Some(l), parts };
            &&& fold(sc, t) is Ok ==> fold(sc, t) == Ok::<Tree, Unsupported>(t)
            &&& fold(sc, t) != Err::<Tree, Unsupported>(Unsupported::Break)
        }),
{
    lemma_untouched_all(sc.enter_loop(Some(l)), parts);
}

// ----- Labelled continue -----

/// `t` under `n` nested unlabelled loops of form `form`.
pub open spec fn nest(n: nat, form: LoopKind, t: Tree) -> Tree
    decreases n,
{
    if n == 0 {
        t
    } else {
        Tree::Loop { form, label: None, parts: seq![nest((n - 1) as nat, form, t)] }
    }
}

proof fn lemma_fold_all_one(sc: Scope, t: Tree)
    ensures
        fold_all(sc, seq![t]) == match fold(sc, t) {
            Ok(p) => Ok::<Seq<Tree>, Unsupported>(seq![p]),
            Err(u) => Err(u),
        },
{
    assert(seq![t].subrange(0, 0) =~= Seq::<Tree>::empty());
    assert(fold_all(sc, Seq::<Tree>::empty()) == Ok::<Seq<Tree>, Unsupported>(Seq::empty()));
    if let Ok(p) = fold(sc, t) {
        assert(Seq::<Tree>::empty().push(p) =~= seq![p]);
    }
}

/// `continue 'l`, where `'l` labels the loop made parallel, becomes a bare
/// `return` however many unlabelled loops stand between them.
pub proof fn lemma_labelled_continue(sc: Scope, l: Seq<char>, n: nat, form: LoopKind)
    requires
        sc.label == Some(l),
    ensures
        fold(sc, nest(n, form, Tree::Continue { label: Some(l) }))
            == Ok::<Tree, Unsupported>(nest(n, form, Tree::Return { value: None })),
    decreases n,
{
    if n > 0 {
        let inner = sc.enter_loop(None);
        lemma_labelled_continue(inner, l, (n - 1) as nat, form);
        lemma_fold_all_one(inner, nest((n - 1) as nat, form, Tree::Continue { label: Some(l) }));
    }
}

// ----- Bodies with plain continue -----

/// Whether `t` holds, outside closures and items, no `break`, `return`, `?`,
/// `.await`, `yield` or labelled `continue`.
pub open spec fn plain(t: Tree) -> bool
    decreases t,
{
    match t {
        Tree::Node { parts, .. } => plain_all(parts),
        Tree::Item { .. } => true,
        Tree::Closure { .. } => true,
        Tree::Loop { parts, .. } => plain_all(parts),
        Tree::Continue { label } => label is None,
        Tree::TryBlock { parts } => plain_all(parts),
        _ => false,
    }
}

pub open spec fn plain_all(s: Seq<Tree>) -> bool
    decreases s,
{
    s.len() == 0 || (plain_all(s.subrange(0, s.len() - 1)) && plain(s[s.len() - 1]))
}

/// `t` with each `continue` outside nested loops, closures and items replaced
/// by a bare `return`.
pub open spec fn skip(t: Tree) -> Tree
    decreases t,
{
    match t {
        Tree::Node { kind, parts } => Tree::Node { kind, parts: skip_all(parts) },
        Tree::TryBlock { parts } => Tree::TryBlock { parts: skip_all(parts) },
        Tree::Continue { label } => if label is None {
            Tree::Return { value: None }
        } else {
            t
        },
        _ => t,
    }
}

pub open spec fn skip_all(s: Seq<Tree>) -> Seq<Tree>
    decreases s,
{
    if s.len() == 0 {
        Seq::empty()
    } else {
        skip_all(s.subrange(0, s.len() - 1)).push(skip(s[s.len() - 1]))
    }
}

proof fn lemma_plain_in_loop(sc: Scope, t: Tree)
    requires
        plain(t),
        sc.in_loop,
    ensures
        fold(sc, t) == Ok::<Tree, Unsupported>(t),
    decreases t,
{
    match t {
        Tree::Node { parts, .. } => lemma_plain_in_loop_all(sc, parts),
        Tree::Loop { label, parts, .. } => lemma_plain_in_loop_all(sc.enter_loop(label), parts),
        Tree::TryBlock { parts } => lemma_plain_in_loop_all(sc.enter_try(), parts),
        _ => {},
    }
}

proof fn lemma_plain_in_loop_all(sc: Scope, s: Seq<Tree>)
    requires
        plain_all(s),
        sc.in_loop,
    ensures
        fold_all(sc, s) == Ok::<Seq<Tree>, Unsupported>(s),
    decreases s,
{
    if s.len() > 0 {
        lemma_plain_in_loop_all(sc, s.subrange(0, s.len() - 1));
        lemma_plain_in_loop(sc, s[s.len() - 1]);
        assert(s.subrange(0, s.len() - 1).push(s[s.len() - 1]) =~= s);
    } else {
        assert(s =~= Seq::<Tree>::empty());
    }
}

/// Outside nested loops, a plain tree is rewritten by replacing each
/// unlabelled `continue` with a bare `return`, and nothing else.
pub proof fn lemma_plain(sc: Scope, t: Tree)
    requires
        plain(t),
        !sc.in_loop,
    ensures
        fold(sc, t) == Ok::<Tree, Unsupported>(skip(t)),
    decreases t,
{
    match t {
        Tree::Node { parts, .. } => lemma_plain_all(sc, parts),
        Tree::Loop { label, parts, .. } => lemma_plain_in_loop_all(sc.enter_loop(label), parts),
        Tree::TryBlock { parts } => lemma_plain_all(sc.enter_try(), parts),
        _ => {},
    }
}

pub proof fn lemma_plain_all(sc: Scope, s: Seq<Tree>)
    requires
        plain_all(s),
        !sc.in_loop,
    ensures
        fold_all(sc, s) == Ok::<Seq<Tree>, Unsupported>(skip_all(s)),
    decreases s,
{
    if s.len() > 0 {
        lemma_plain_all(sc, s.subrange(0, s.len() - 1));
        lemma_plain(sc, s[s.len() - 1]);
    }
}

/// A loop whose body is plain is expanded into the call of `for_each` with
/// the closure body: the loop body, each unlabelled `continue` outside nested
/// loops replaced by a bare `return`, inside the single-pass loop.
pub proof fn lemma_parallel_plain(l: ForLoop, engine: Seq<char>)
    requires
        l.attrs@.len() == 0,
        plain_all(view_all(l.body@)),
    ensures
        expansion(l, engine) == Ok::<(Seq<char>, crate::syntax::Expr, Seq<char>, Tree), Unsupported>(
            (engine, l.expr, l.pat@, single_pass(label_view(l.label), skip_all(view_all(l.body@)))),
        ),
{
    lemma_plain_all(Scope::top(label_view(l.label)), view_all(l.body@));
}

// ----- Local items -----

/// The texts of the items that `t` holds outside closures, in source order.
pub open spec fn items(t: Tree) -> Seq<Seq<char>>
    decreases t,
{
    match t {
        Tree::Node { parts, .. } => items_all(parts),
        Tree::Item { text } => seq![text],
        Tree::Loop { parts, .. } => items_all(parts),
        Tree::Break { value, .. } => match value {
            Some(v) => items(*v),
            None => Seq::empty(),
        },
        Tree::Return { value } => match value {
            Some(v) => items(*v),
            None => Seq::empty(),
        },
        Tree::Try { inner } => items(*inner),
        Tree::TryBlock { parts } => items_all(parts),
        Tree::Await { inner } => items(*inner),
        Tree::Yield { value } => match value {
            Some(v) => items(*v),
            None => Seq::empty(),
        },
        _ => Seq::empty(),
    }
}

pub open spec fn items_all(s: Seq<Tree>) -> Seq<Seq<char>>
    decreases s,
{
    if s.len() == 0 {
        Seq::empty()
    } else {
        items_all(s.subrange(0, s.len() - 1)) + items(s[s.len() - 1])
    }
}

/// A rewrite keeps every local item as it was, in its place among the others.
pub proof fn lemma_items_kept(sc: Scope, t: Tree)
    requires
        fold(sc, t) is Ok,
    ensures
        items(fold(sc, t)->Ok_0) == items(t),
    decreases t,
{
    match t {
        Tree::Node { parts, .. } => lemma_items_kept_all(sc, parts),
        Tree::Loop { label, parts, .. } => lemma_items_kept_all(sc.enter_loop(label), parts),
        Tree::Break { value, .. } => {
            if value is Some {
                lemma_items_kept(sc, *value->Some_0);
            }
        },
        Tree::Try { inner } => lemma_items_kept(sc, *inner),
        Tree::TryBlock { parts } => lemma_items_kept_all(sc.enter_try(), parts),
        _ => {},
    }
}

pub proof fn lemma_items_kept_all(sc: Scope, s: Seq<Tree>)
    requires
        fold_all(sc, s) is Ok,
    ensures
        items_all(fold_all(sc, s)->Ok_0) == items_all(s),
    decreases s,
{
    if s.len() > 0 {
        let front = s.subrange(0, s.len() - 1);
        lemma_items_kept_all(sc, front);
        lemma_items_kept(sc, s[s.len() - 1]);
        let ps = fold_all(sc, s)->Ok_0;
        assert(ps.subrange(0, ps.len() - 1) =~= fold_all(sc, front)->Ok_0);
    }
}

proof fn lemma_items_two(a: Tree, b: Tree)
    ensures
        items_all(seq![a, b]) == items(a) + items(b),
{
    let none = Seq::<Tree>::empty();
    assert(seq![a, b].subrange(0, 1) =~= seq![a]);
    assert(seq![a].subrange(0, 0) =~= none);
    assert(items_all(none) == Seq::<Seq<char>>::empty());
    assert(items_all(seq![a]) == items_all(none) + items(seq![a][0]));
    assert(items_all(seq![a]) =~= items(a));
}

/// The closure body that a loop is expanded into holds the local items of the
/// loop body, unchanged and in order.
pub proof fn lemma_parallel_keeps_items(l: ForLoop, engine: Seq<char>)
    requires
        expansion(l, engine) is Ok,
    ensures
        items(expansion(l, engine)->Ok_0.3) == items_all(view_all(l.body@)),
{
    let b = rewrite_body(label_view(l.label), view_all(l.body@))->Ok_0;
    lemma_items_kept_all(Scope::top(label_view(l.label)), view_all(l.body@));
    let none = Seq::<Tree>::empty();
    let blk = Tree::Node { kind: "block"@, parts: b };
    let no = Tree::Node { kind: "false"@, parts: none };
    let empty = Tree::Node { kind: "block"@, parts: none };
    assert(items_all(none) == Seq::<Seq<char>>::empty());
    lemma_items_two(blk, no);
    lemma_items_two(crate::expand::run_once(b), empty);
    assert(items_all(seq![blk, no]) =~= items_all(b));
    assert(items_all(seq![crate::expand::run_once(b), empty]) =~= items_all(b));
}

} // verus!
