use vstd::prelude::*;
use crate::syntax::{Expr, LoopKind, Tree, label_view, view_all};

verus! {

/// Why a loop body cannot be run element by element in parallel.
#[derive(PartialEq, Eq, Structural, Clone, Copy, Debug)]
pub enum Unsupported {
    /// The loop itself carries attributes.
    Attributes,
    /// A `break` leaves the loop that is made parallel.
    Break,
    /// A `return` leaves the enclosing function.
    Return,
    /// A `?` outside any `try` block leaves the enclosing function.
    Try,
    /// An `.await` suspends the enclosing function.
    Await,
    /// A `yield` suspends the enclosing coroutine.
    Yield,
}

impl Unsupported {
    /// The diagnostic that reports this refusal.
    pub fn message(&self) -> (r: &'static str)
        ensures
            *self == Unsupported::Attributes ==> r@ == "loop attributes are not supported"@,
            *self == Unsupported::Break ==> r@ == "`break` is not supported yet"@,
            *self == Unsupported::Return ==> r@ == "`return` is not supported yet"@,
            *self == Unsupported::Try ==> r@ == "`?` is not supported yet"@,
            *self == Unsupported::Await ==> r@ == "`.await` is not supported"@,
            *self == Unsupported::Yield ==> r@ == "`yield` is not supported"@,
    {
        match self {
            Unsupported::Attributes => "loop attributes are not supported",
            Unsupported::Break => "`break` is not supported yet",
            Unsupported::Return => "`return` is not supported yet",
            Unsupported::Try => "`?` is not supported yet",
            Unsupported::Await => "`.await` is not supported",
            Unsupported::Yield => "`yield` is not supported",
        }
    }
}

/// What the transformer knows at a point of the body: the label of the loop
/// that is made parallel, unless a nested loop has taken it over; whether the
/// point lies inside a nested loop; whether it lies inside a `try` block.
pub struct Scope {
    pub label: Option<Seq<char>>,
    pub in_loop: bool,
    pub in_try: bool,
}

impl Scope {
    /// The scope at the top of the body of a loop labelled `label`.
    pub open spec fn top(label: Option<Seq<char>>) -> Scope {
        Scope { label, in_loop: false, in_try: false }
    }

    /// Whether a `break` or `continue` with this label targets the loop that
    /// is made parallel.
    pub open spec fn controls(self, label: Option<Seq<char>>) -> bool {
        match label {
            Some(l) => self.label == Some(l),
            None => !self.in_loop,
        }
    }

    /// The scope inside a nested loop labelled `label`: a loop that reuses the
    /// controlled label shadows it.
    pub open spec fn enter_loop(self, label: Option<Seq<char>>) -> Scope {
        Scope {
            label: if label is Some && self.label == label {
                None
            } else {
                self.label
            },
            in_loop: true,
            in_try: self.in_try,
        }
    }

    pub open spec fn enter_try(self) -> Scope {
        Scope { label: self.label, in_loop: self.in_loop, in_try: true }
    }
}

/// The rewrite of `t` in scope `sc`: each `continue` that targets the loop made
/// parallel becomes a bare `return`, and the first construct (in source order)
/// that cannot be kept is reported.
pub open spec fn fold(sc: Scope, t: Tree) -> Result<Tree, Unsupported>
    decreases t,
{
    match t {
        Tree::Node { kind, parts } => match fold_all(sc, parts) {
            Ok(ps) => Ok(Tree::Node { kind, parts: ps }),
            Err(u) => Err(u),
        },
        Tree::Item { .. } => Ok(t),
        Tree::Closure { .. } => Ok(t),
        Tree::Loop { form, label, parts } => match fold_all(sc.enter_loop(label), parts) {
            Ok(ps) => Ok(Tree::Loop { form, label, parts: ps }),
            Err(u) => Err(u),
        },
        Tree::Continue { label } => if sc.controls(label) {
            Ok(Tree::Return { value: None })
        } else {
            Ok(t)
        },
        Tree::Break { label, value } => if sc.controls(label) {
            Err(Unsupported::Break)
        } else {
            match value {
                None => Ok(t),
                Some(v) => match fold(sc, *v) {
                    Ok(w) => Ok(Tree::Break { label, value: Some(Box::new(w)) }),
                    Err(u) => Err(u),
                },
            }
        },
        Tree::Return { .. } => Err(Unsupported::Return),
        Tree::Try { inner } => if !sc.in_try {
            Err(Unsupported::Try)
        } else {
            match fold(sc, *inner) {
                Ok(w) => Ok(Tree::Try { inner: Box::new(w) }),
                Err(u) => Err(u),
            }
        },
        Tree::TryBlock { parts } => match fold_all(sc.enter_try(), parts) {
            Ok(ps) => Ok(Tree::TryBlock { parts: ps }),
            Err(u) => Err(u),
        },
        Tree::Await { .. } => Err(Unsupported::Await),
        Tree::Yield { .. } => Err(Unsupported::Yield),
    }
}

/// The rewrite of each tree of `s`, from first to last, in one scope; the first
/// failure wins.
pub open spec fn fold_all(sc: Scope, s: Seq<Tree>) -> Result<Seq<Tree>, Unsupported>
    decreases s,
{
    if s.len() == 0 {
        Ok(Seq::empty())
    } else {
        match fold_all(sc, s.subrange(0, s.len() - 1)) {
            Err(u) => Err(u),
            Ok(ps) => match fold(sc, s[s.len() - 1]) {
                Err(u) => Err(u),
                Ok(p) => Ok(ps.push(p)),
            },
        }
    }
}

/// The transformer's working state: the controlled label, and the nesting
/// depths of loops and of `try` blocks around the current point.
pub struct TransformBody {
    pub for_ident: Option<String>,
    pub loop_level: usize,
    pub try_level: usize,
}

impl TransformBody {
    pub open spec fn view(self) -> Scope {
        Scope {
            label: label_view(self.for_ident),
            in_loop: self.loop_level > 0,
            in_try: self.try_level > 0,
        }
    }

    pub fn new(for_label: Option<&String>) -> (r: TransformBody)
        ensures
            r.for_ident == match for_label {
                Some(l) => Some(*l),
                None => None::<String>,
            },
            r.loop_level == 0,
            r.try_level == 0,
            r@ == Scope::top(match for_label {
                Some(l) => Some(l@),
                None => None::<Seq<char>>,
            }),
    {
        let for_ident = match for_label {
            Some(l) => Some(l.clone()),
            None => None,
        };
        TransformBody { for_ident, loop_level: 0, try_level: 0 }
    }

    pub fn is_controlled(&self, label: &Option<String>) -> (r: bool)
        ensures
            r == self@.controls(label_view(*label)),
    {
        match label {
            Some(l) => match &self.for_ident {
                Some(f) => *f == *l,
                None => false,
            },
            None => self.loop_level == 0,
        }
    }

    /// Rewrites one expression, or reports the first construct that cannot
    /// be kept. The state is as it was after the call.
    pub fn fold_expr(&mut self, e: &Expr) -> (r: Result<Expr, Unsupported>)
        ensures
            *final(self) == *old(self),
            result_view(r) == fold(old(self)@, e@),
        decreases e,
    {
        match e {
            Expr::Node { kind, parts } => match self.fold_parts(parts) {
                Ok(ps) => Ok(Expr::Node { kind: kind.clone(), parts: ps }),
                Err(u) => Err(u),
            },
            Expr::Item { text } => Ok(Expr::Item { text: text.clone() }),
            Expr::Closure { text } => Ok(Expr::Closure { text: text.clone() }),
            Expr::Loop { form, label, parts } => {
                let ghost sc = self@;
                let shadowed = self.take_shadowed(label);
                let saved = self.loop_level;
                self.loop_level = saved.saturating_add(1);
                assert(self@ == sc.enter_loop(label_view(*label)));
                let ret = self.fold_parts(parts);
                self.loop_level = saved;
                if shadowed.is_some() {
                    self.for_ident = shadowed;
                }
                match ret {
                    Ok(ps) => Ok(Expr::Loop { form: *form, label: label.clone(), parts: ps }),
                    Err(u) => Err(u),
                }
            },
            Expr::Continue { label } => {
                if self.is_controlled(label) {
                    Ok(Expr::Return { value: None })
                } else {
                    Ok(Expr::Continue { label: label.clone() })
                }
            },
            Expr::Break { label, value } => {
                if self.is_controlled(label) {
                    Err(Unsupported::Break)
                } else {
                    match value {
                        None => Ok(Expr::Break { label: label.clone(), value: None }),
                        Some(v) => match self.fold_expr(&**v) {
                            Ok(w) => Ok(Expr::Break { label: label.clone(), value: Some(Box::new(w)) }),
                            Err(u) => Err(u),
                        },
                    }
                }
            },
            Expr::Return { .. } => Err(Unsupported::Return),
            Expr::Try { inner } => {
                if self.try_level == 0 {
                    Err(Unsupported::Try)
                } else {
                    match self.fold_expr(&**inner) {
                        Ok(w) => Ok(Expr::Try { inner: Box::new(w) }),
                        Err(u) => Err(u),
                    }
                }
            },
            Expr::TryBlock { parts } => {
                let saved = self.try_level;
                self.try_level = saved.saturating_add(1);
                let ret = self.fold_parts(parts);
                self.try_level = saved;
                match ret {
                    Ok(ps) => Ok(Expr::TryBlock { parts: ps }),
                    Err(u) => Err(u),
                }
            },
            Expr::Await { .. } => Err(Unsupported::Await),
            Expr::Yield { .. } => Err(Unsupported::Yield),
        }
    }

    /// Rewrites each expression of `parts` in turn, in the current state.
    pub fn fold_parts(&mut self, parts: &Vec<Expr>) -> (r: Result<Vec<Expr>, Unsupported>)
        ensures
            *final(self) == *old(self),
            results_view(r) == fold_all(old(self)@, view_all(parts@)),
        decreases parts,
    {
        let ghost sc = self@;
        proof {
            lemma_view_all(parts@);
            assert(view_all(parts@).subrange(0, 0) =~= Seq::<Tree>::empty());
            assert(view_all(Seq::<Expr>::empty()) =~= Seq::<Tree>::empty());
        }
        let mut out: Vec<Expr> = Vec::new();
        let mut i: usize = 0;
        while i < parts.len()
            invariant
                *self == *old(self),
                sc == self@,
                0 <= i <= parts@.len(),
                view_all(parts@).len() == parts@.len(),
                forall|j: int| 0 <= j < parts@.len() ==> #[trigger] view_all(parts@)[j] == parts@[j]@,
                fold_all(sc, view_all(parts@).subrange(0, i as int)) == Ok::<Seq<Tree>, Unsupported>(view_all(out@)),
            decreases parts@.len() - i,
        {
            let r = self.fold_expr(&parts[i]);
            proof {
                lemma_fold_all_prefix(sc, view_all(parts@), i as int);
            }
            match r {
                Ok(x) => {
                    proof {
                        lemma_view_all_push(out@, x);
                    }
                    out.push(x);
                    i = i + 1;
                },
                Err(u) => {
                    proof {
                        lemma_fold_all_prefix_err(sc, view_all(parts@), i as int + 1);
                    }
                    return Err(u);
                },
            }
        }
        proof {
            assert(view_all(parts@).subrange(0, i as int) =~= view_all(parts@));
        }
        Ok(out)
    }

    /// Clears the controlled label when `label` reuses it, and hands back what
    /// was cleared.
    pub fn take_shadowed(&mut self, label: &Option<String>) -> (r: Option<String>)
        ensures
            final(self).loop_level == old(self).loop_level,
            final(self).try_level == old(self).try_level,
            label_view(*label) is Some && old(self)@.label == label_view(*label) ==> {
                &&& r == old(self).for_ident
                &&& final(self).for_ident is None
            },
            !(label_view(*label) is Some && old(self)@.label == label_view(*label)) ==> {
                &&& r is None
                &&& final(self).for_ident == old(self).for_ident
            },
    {
        match label {
            Some(l) => {
                let same = match &self.for_ident {
                    Some(f) => *f == *l,
                    None => false,
                };
                if same {
                    return self.for_ident.take();
                }
                None
            },
            None => None,
        }
    }
}

/// The view of a rewrite of one expression.
pub open spec fn result_view(r: Result<Expr, Unsupported>) -> Result<Tree, Unsupported> {
    match r {
        Ok(e) => Ok(e@),
        Err(u) => Err(u),
    }
}

/// The view of a rewrite of a sequence of expressions.
pub open spec fn results_view(r: Result<Vec<Expr>, Unsupported>) -> Result<Seq<Tree>, Unsupported> {
    match r {
        Ok(v) => Ok(view_all(v@)),
        Err(u) => Err(u),
    }
}

pub proof fn lemma_view_all(s: Seq<Expr>)
    ensures
        view_all(s).len() == s.len(),
        forall|i: int| 0 <= i < s.len() ==> #[trigger] view_all(s)[i] == s[i]@,
    decreases s.len(),
{
    if s.len() > 0 {
        lemma_view_all(s.subrange(0, s.len() - 1));
    }
}

proof fn lemma_view_all_push(s: Seq<Expr>, e: Expr)
    ensures
        view_all(s.push(e)) == view_all(s).push(e@),
{
    assert(s.push(e).subrange(0, s.len() as int) =~= s);
}

proof fn lemma_fold_all_prefix(sc: Scope, s: Seq<Tree>, i: int)
    requires
        0 <= i < s.len(),
    ensures
        fold_all(sc, s.subrange(0, i + 1)) == match fold_all(sc, s.subrange(0, i)) {
            Err(u) => Err(u),
            Ok(ps) => match fold(sc, s[i]) {
                Err(u) => Err(u),
                Ok(p) => Ok(ps.push(p)),
            },
        },
{
    let t = s.subrange(0, i + 1);
    assert(t.subrange(0, t.len() - 1) =~= s.subrange(0, i));
    assert(t[t.len() - 1] == s[i]);
}

/// A failure on a prefix is the failure on the whole sequence.
proof fn lemma_fold_all_prefix_err(sc: Scope, s: Seq<Tree>, i: int)
    requires
        0 <= i <= s.len(),
        fold_all(sc, s.subrange(0, i)) is Err,
    ensures
        fold_all(sc, s) == fold_all(sc, s.subrange(0, i)),
    decreases s.len() - i,
{
    if i < s.len() {
        lemma_fold_all_prefix(sc, s, i);
        lemma_fold_all_prefix_err(sc, s, i + 1);
    } else {
        assert(s.subrange(0, i) =~= s);
    }
}

} // verus!
