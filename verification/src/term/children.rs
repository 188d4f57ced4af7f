//! The uniform view of a term as a node above its children, in code: the
//! children by reference, and the moves that take them out of a term and put
//! others in their place.

use crate::term::{opt_name_view, views, Name, NodeView, Pattern, PatternView, Term, TermView};
use vstd::prelude::*;

verus! {

/// The bodies of the arms of a `match`, in order.
pub open spec fn arm_bodies(arms: Seq<(Pattern, Term)>) -> Seq<TermView> {
    Seq::new(arms.len(), |i: int| arms[i].1@)
}

/// The patterns of the arms of a `match`, in order.
pub open spec fn arm_patterns(arms: Seq<(Pattern, Term)>) -> Seq<PatternView> {
    Seq::new(arms.len(), |i: int| arms[i].0@)
}

/// Moves the body of every arm to the end of `kids`, in order, and leaves
/// an erasure in its place.
fn take_arm_bodies(arms: &mut Vec<(Pattern, Term)>, kids: &mut Vec<Term>)
    ensures
        arm_patterns(final(arms)@) == arm_patterns(old(arms)@),
        arm_bodies(final(arms)@) == Seq::new(old(arms)@.len(), |i: int| TermView::era()),
        views(final(kids)@) == views(old(kids)@) + arm_bodies(old(arms)@),
{
    let count = arms.len();
    let mut i: usize = 0;
    while i < count
        invariant
            i <= count,
            arms.len() == count,
            old(arms).len() == count,
            arm_patterns(arms@) == arm_patterns(old(arms)@),
            forall|j: int| i <= j < count ==> arms@[j] == old(arms)@[j],
            forall|j: int| 0 <= j < i ==> (#[trigger] arms@[j]).1@ == TermView::era(),
            views(kids@) == views(old(kids)@) + arm_bodies(old(arms)@).take(i as int),
        decreases count - i,
    {
        let ghost before_arms = arms@;
        let ghost before_kids = kids@;
        let mut body = Term::Era;
        let arm = &mut arms[i];
        std::mem::swap(&mut arm.1, &mut body);
        kids.push(body);
        assert(arm_patterns(arms@) =~= arm_patterns(before_arms));
        assert(views(kids@) =~= views(before_kids).push(body@));
        assert(arm_bodies(old(arms)@).take(i + 1) =~= arm_bodies(old(arms)@).take(i as int).push(
            body@,
        ));
        i += 1;
    }
    assert(arm_bodies(old(arms)@).take(count as int) =~= arm_bodies(old(arms)@));
    assert(arm_bodies(arms@) =~= Seq::new(old(arms)@.len(), |i: int| TermView::era()));
}

/// Gives every arm the body that stands for it at the end of `kids`, and
/// removes those bodies from `kids`.
fn put_arm_bodies(arms: &mut Vec<(Pattern, Term)>, kids: &mut Vec<Term>)
    requires
        old(kids).len() >= old(arms).len(),
    ensures
        arm_patterns(final(arms)@) == arm_patterns(old(arms)@),
        final(kids)@ == old(kids)@.take(old(kids).len() - old(arms).len()),
        arm_bodies(final(arms)@) == views(old(kids)@).skip(old(kids).len() - old(arms).len()),
{
    let count = arms.len();
    let ghost base = kids.len() - count;
    let mut i: usize = count;
    while i > 0
        invariant
            i <= count,
            arms.len() == count,
            old(arms).len() == count,
            0 <= base,
            base + count == old(kids).len(),
            kids@ == old(kids)@.take(base + i),
            arm_patterns(arms@) == arm_patterns(old(arms)@),
            forall|j: int| i <= j < count ==> (#[trigger] arms@[j]).1@ == old(kids)@[base + j]@,
        decreases i,
    {
        let ghost before_arms = arms@;
        i -= 1;
        let body = kids.pop().unwrap();
        arms[i].1 = body;
        assert(arm_patterns(arms@) =~= arm_patterns(before_arms));
        assert(kids@ =~= old(kids)@.take(base + i));
    }
    assert(arm_bodies(arms@) =~= views(old(kids)@).skip(base));
}

impl Term {
    /// The children of the term, in order.
    pub fn children(&self) -> (kids: Vec<&Term>)
        ensures
            views(kids@) == self@.children,
    {
        let mut kids: Vec<&Term> = Vec::new();
        match self {
            Term::Lam { bod, .. } => {
                assert(self@.children =~= seq![(**bod)@]);
                kids.push(&**bod);
            },
            Term::Chn { bod, .. } => {
                assert(self@.children =~= seq![(**bod)@]);
                kids.push(&**bod);
            },
            Term::Let { val, nxt, .. } => {
                assert(self@.children =~= seq![(**val)@, (**nxt)@]);
                kids.push(&**val);
                kids.push(&**nxt);
            },
            Term::Use { val, nxt, .. } => {
                assert(self@.children =~= seq![(**val)@, (**nxt)@]);
                kids.push(&**val);
                kids.push(&**nxt);
            },
            Term::App { fun, arg, .. } => {
                assert(self@.children =~= seq![(**fun)@, (**arg)@]);
                kids.push(&**fun);
                kids.push(&**arg);
            },
            Term::Tup { fst, snd } => {
                assert(self@.children =~= seq![(**fst)@, (**snd)@]);
                kids.push(&**fst);
                kids.push(&**snd);
            },
            Term::Dup { val, nxt, .. } => {
                assert(self@.children =~= seq![(**val)@, (**nxt)@]);
                kids.push(&**val);
                kids.push(&**nxt);
            },
            Term::Sup { fst, snd, .. } => {
                assert(self@.children =~= seq![(**fst)@, (**snd)@]);
                kids.push(&**fst);
                kids.push(&**snd);
            },
            Term::Opx { fst, snd, .. } => {
                assert(self@.children =~= seq![(**fst)@, (**snd)@]);
                kids.push(&**fst);
                kids.push(&**snd);
            },
            Term::List { els } => {
                assert(self@.children =~= Seq::new(els.len() as nat, |j: int| els[j]@));
                let mut i: usize = 0;
                while i < els.len()
                    invariant
                        i <= els.len(),
                        kids.len() == i,
                        forall|j: int| 0 <= j < i ==> (#[trigger] kids[j])@ == els[j]@,
                    decreases els.len() - i,
                {
                    kids.push(&els[i]);
                    i += 1;
                }
            },
            Term::Match { scrutinee, arms } => {
                assert(self@.children =~= seq![(**scrutinee)@] + arm_bodies(arms@));
                kids.push(&**scrutinee);
                let mut i: usize = 0;
                while i < arms.len()
                    invariant
                        i <= arms.len(),
                        kids.len() == i + 1,
                        kids[0]@ == (**scrutinee)@,
                        forall|j: int| 0 <= j < i ==> (#[trigger] kids[j + 1])@ == arms[j].1@,
                    decreases arms.len() - i,
                {
                    kids.push(&arms[i].1);
                    i += 1;
                }
                assert forall|j: int| 0 <= j < kids.len() implies (#[trigger] kids[j])@
                    == self@.children[j] by {
                    if j > 0 {
                        assert(kids[(j - 1) + 1]@ == arms[j - 1].1@);
                    }
                }
            },
            Term::Var { .. } => {
                assert(self@.children =~= seq![]);
            },
            Term::Lnk { .. } => {
                assert(self@.children =~= seq![]);
            },
            Term::Num { .. } => {
                assert(self@.children =~= seq![]);
            },
            Term::Str { .. } => {
                assert(self@.children =~= seq![]);
            },
            Term::Ref { .. } => {
                assert(self@.children =~= seq![]);
            },
            Term::Era => {
                assert(self@.children =~= seq![]);
            },
        }
        assert(views(kids@) =~= self@.children);
        kids
    }

    /// The names the term binds over its child at `index`, in the order it
    /// declares them.
    pub fn child_binders(&self, index: usize) -> (names: Vec<&Name>)
        ensures
            views(names@) == self@.node.binders(index as int),
    {
        let mut names: Vec<&Name> = Vec::new();
        match self {
            Term::Lam { nam, .. } => {
                if index == 0 {
                    if let Some(nam) = nam {
                        names.push(nam);
                    }
                }
            },
            Term::Let { pat, .. } => {
                if index == 1 {
                    pat.collect_binds(&mut names);
                }
            },
            Term::Use { nam, .. } => {
                if index == 1 {
                    if let Some(nam) = nam {
                        names.push(nam);
                    }
                }
            },
            Term::Dup { fst, snd, .. } => {
                if index == 1 {
                    if let Some(fst) = fst {
                        names.push(fst);
                    }
                    if let Some(snd) = snd {
                        names.push(snd);
                    }
                }
            },
            Term::Match { arms, .. } => {
                assert(self@.node == NodeView::Match { pats: arm_patterns(arms@) });
                if 1 <= index && index <= arms.len() {
                    names = arms[index - 1].0.arm_binds();
                }
            },
            _ => {},
        }
        assert(views(names@) =~= self@.node.binders(index as int));
        names
    }
}

impl Term {
    /// Moves the children out of the term, in order, and leaves an erasure
    /// in the place of each. The node itself stays as it is.
    #[verifier::rlimit(60)]
    pub fn take_children(&mut self) -> (kids: Vec<Term>)
        ensures
            views(kids@) == old(self)@.children,
            final(self)@ == old(self)@.emptied(),
    {
        let mut kids: Vec<Term> = Vec::new();
        match self {
            Term::Lam { bod, .. } => {
                assert(old(self)@.children =~= seq![(**bod)@]);
                let mut kid = Term::Era;
                std::mem::swap(&mut **bod, &mut kid);
                kids.push(kid);
                assert((**bod)@ == TermView::era());
                assert(self@.children =~= seq![(**bod)@]);
                assert(self@.children =~= old(self)@.emptied().children);
            },
            Term::Chn { bod, .. } => {
                assert(old(self)@.children =~= seq![(**bod)@]);
                let mut kid = Term::Era;
                std::mem::swap(&mut **bod, &mut kid);
                kids.push(kid);
                assert((**bod)@ == TermView::era());
                assert(self@.children =~= seq![(**bod)@]);
                assert(self@.children =~= old(self)@.emptied().children);
            },
            Term::Let { val, nxt, .. } => {
                assert(old(self)@.children =~= seq![(**val)@, (**nxt)@]);
                let mut fst_kid = Term::Era;
                let mut snd_kid = Term::Era;
                std::mem::swap(&mut **val, &mut fst_kid);
                std::mem::swap(&mut **nxt, &mut snd_kid);
                kids.push(fst_kid);
                kids.push(snd_kid);
                assert((**val)@ == TermView::era());
                assert((**nxt)@ == TermView::era());
                assert(self@.children =~= seq![(**val)@, (**nxt)@]);
                assert(self@.children =~= old(self)@.emptied().children);
            },
            Term::Use { val, nxt, .. } => {
                assert(old(self)@.children =~= seq![(**val)@, (**nxt)@]);
                let mut fst_kid = Term::Era;
                let mut snd_kid = Term::Era;
                std::mem::swap(&mut **val, &mut fst_kid);
                std::mem::swap(&mut **nxt, &mut snd_kid);
                kids.push(fst_kid);
                kids.push(snd_kid);
                assert((**val)@ == TermView::era());
                assert((**nxt)@ == TermView::era());
                assert(self@.children =~= seq![(**val)@, (**nxt)@]);
                assert(self@.children =~= old(self)@.emptied().children);
            },
            Term::App { fun, arg, .. } => {
                assert(old(self)@.children =~= seq![(**fun)@, (**arg)@]);
                let mut fst_kid = Term::Era;
                let mut snd_kid = Term::Era;
                std::mem::swap(&mut **fun, &mut fst_kid);
                std::mem::swap(&mut **arg, &mut snd_kid);
                kids.push(fst_kid);
                kids.push(snd_kid);
                assert((**fun)@ == TermView::era());
                assert((**arg)@ == TermView::era());
                assert(self@.children =~= seq![(**fun)@, (**arg)@]);
                assert(self@.children =~= old(self)@.emptied().children);
            },
            Term::Tup { fst, snd } => {
                assert(old(self)@.children =~= seq![(**fst)@, (**snd)@]);
                let mut fst_kid = Term::Era;
                let mut snd_kid = Term::Era;
                std::mem::swap(&mut **fst, &mut fst_kid);
                std::mem::swap(&mut **snd, &mut snd_kid);
                kids.push(fst_kid);
                kids.push(snd_kid);
                assert((**fst)@ == TermView::era());
                assert((**snd)@ == TermView::era());
                assert(self@.children =~= seq![(**fst)@, (**snd)@]);
                assert(self@.children =~= old(self)@.emptied().children);
            },
            Term::Dup { val, nxt, .. } => {
                assert(old(self)@.children =~= seq![(**val)@, (**nxt)@]);
                let mut fst_kid = Term::Era;
                let mut snd_kid = Term::Era;
                std::mem::swap(&mut **val, &mut fst_kid);
                std::mem::swap(&mut **nxt, &mut snd_kid);
                kids.push(fst_kid);
                kids.push(snd_kid);
                assert((**val)@ == TermView::era());
                assert((**nxt)@ == TermView::era());
                assert(self@.children =~= seq![(**val)@, (**nxt)@]);
                assert(self@.children =~= old(self)@.emptied().children);
            },
            Term::Sup { fst, snd, .. } => {
                assert(old(self)@.children =~= seq![(**fst)@, (**snd)@]);
                let mut fst_kid = Term::Era;
                let mut snd_kid = Term::Era;
                std::mem::swap(&mut **fst, &mut fst_kid);
                std::mem::swap(&mut **snd, &mut snd_kid);
                kids.push(fst_kid);
                kids.push(snd_kid);
                assert((**fst)@ == TermView::era());
                assert((**snd)@ == TermView::era());
                assert(self@.children =~= seq![(**fst)@, (**snd)@]);
                assert(self@.children =~= old(self)@.emptied().children);
            },
            Term::Opx { fst, snd, .. } => {
                assert(old(self)@.children =~= seq![(**fst)@, (**snd)@]);
                let mut fst_kid = Term::Era;
                let mut snd_kid = Term::Era;
                std::mem::swap(&mut **fst, &mut fst_kid);
                std::mem::swap(&mut **snd, &mut snd_kid);
                kids.push(fst_kid);
                kids.push(snd_kid);
                assert((**fst)@ == TermView::era());
                assert((**snd)@ == TermView::era());
                assert(self@.children =~= seq![(**fst)@, (**snd)@]);
                assert(self@.children =~= old(self)@.emptied().children);
            },
            Term::List { els } => {
                assert(old(self)@.children =~= views(els@));
                std::mem::swap(els, &mut kids);
                assert(self@.children =~= old(self)@.emptied().children);
            },
            Term::Match { scrutinee, arms } => {
                assert(old(self)@.children =~= seq![(**scrutinee)@] + arm_bodies(arms@));
                assert(old(self)@.node == NodeView::Match { pats: arm_patterns(arms@) });
                let mut kid = Term::Era;
                std::mem::swap(&mut **scrutinee, &mut kid);
                kids.push(kid);
                assert(views(kids@) =~= seq![kid@]);
                take_arm_bodies(arms, &mut kids);
                assert(self@.node == NodeView::Match { pats: arm_patterns(arms@) });
                assert(self@.children =~= seq![(**scrutinee)@] + arm_bodies(arms@));
                assert(self@.children =~= old(self)@.emptied().children);
            },
            Term::Var { .. } => {
                assert(old(self)@.children =~= seq![]);
                assert(self@.children =~= old(self)@.emptied().children);
            },
            Term::Lnk { .. } => {
                assert(old(self)@.children =~= seq![]);
                assert(self@.children =~= old(self)@.emptied().children);
            },
            Term::Num { .. } => {
                assert(old(self)@.children =~= seq![]);
                assert(self@.children =~= old(self)@.emptied().children);
            },
            Term::Str { .. } => {
                assert(old(self)@.children =~= seq![]);
                assert(self@.children =~= old(self)@.emptied().children);
            },
            Term::Ref { .. } => {
                assert(old(self)@.children =~= seq![]);
                assert(self@.children =~= old(self)@.emptied().children);
            },
            Term::Era => {
                assert(old(self)@.children =~= seq![]);
                assert(self@.children =~= old(self)@.emptied().children);
            },
        }
        assert(views(kids@) =~= old(self)@.children);
        kids
    }
}

/// A copy of an optional name.
fn copy_opt_name(nam: &Option<Name>) -> (copy: Option<Name>)
    ensures
        opt_name_view(copy) == opt_name_view(*nam),
{
    match nam {
        Some(n) => Some(n.clone()),
        None => None,
    }
}

/// The arms of a `match` with a copy of each pattern and an erasure for
/// each body.
fn copy_arm_patterns(arms: &Vec<(Pattern, Term)>) -> (copy: Vec<(Pattern, Term)>)
    ensures
        arm_patterns(copy@) == arm_patterns(arms@),
        arm_bodies(copy@) == Seq::new(arms@.len(), |i: int| TermView::era()),
{
    let mut copy: Vec<(Pattern, Term)> = Vec::new();
    let mut i: usize = 0;
    while i < arms.len()
        invariant
            i <= arms.len(),
            copy.len() == i,
            forall|j: int| 0 <= j < i ==> (#[trigger] copy[j]).0@ == arms[j].0@,
            forall|j: int| 0 <= j < i ==> (#[trigger] copy[j]).1@ == TermView::era(),
        decreases arms.len() - i,
    {
        copy.push((arms[i].0.clone(), Term::Era));
        i += 1;
    }
    assert(arm_patterns(copy@) =~= arm_patterns(arms@));
    assert(arm_bodies(copy@) =~= Seq::new(arms@.len(), |i: int| TermView::era()));
    copy
}

impl Term {
    /// Puts `kids` in the place of the children of the term, in order.
    pub fn put_children(&mut self, kids: Vec<Term>)
        requires
            old(self)@.node.admits(kids.len() as nat),
        ensures
            final(self)@ == old(self)@.with_children(views(kids@)),
    {
        let mut kids = kids;
        let ghost given = views(kids@);
        match self {
            Term::Lam { bod, .. } => {
                let kid = kids.pop().unwrap();
                **bod = kid;
                assert(self@.children =~= given);
            },
            Term::Chn { bod, .. } => {
                let kid = kids.pop().unwrap();
                **bod = kid;
                assert(self@.children =~= given);
            },
            Term::Let { val, nxt, .. } => {
                let snd_kid = kids.pop().unwrap();
                let fst_kid = kids.pop().unwrap();
                **val = fst_kid;
                **nxt = snd_kid;
                assert(self@.children =~= given);
            },
            Term::Use { val, nxt, .. } => {
                let snd_kid = kids.pop().unwrap();
                let fst_kid = kids.pop().unwrap();
                **val = fst_kid;
                **nxt = snd_kid;
                assert(self@.children =~= given);
            },
            Term::App { fun, arg, .. } => {
                let snd_kid = kids.pop().unwrap();
                let fst_kid = kids.pop().unwrap();
                **fun = fst_kid;
                **arg = snd_kid;
                assert(self@.children =~= given);
            },
            Term::Tup { fst, snd } => {
                let snd_kid = kids.pop().unwrap();
                let fst_kid = kids.pop().unwrap();
                **fst = fst_kid;
                **snd = snd_kid;
                assert(self@.children =~= given);
            },
            Term::Dup { val, nxt, .. } => {
                let snd_kid = kids.pop().unwrap();
                let fst_kid = kids.pop().unwrap();
                **val = fst_kid;
                **nxt = snd_kid;
                assert(self@.children =~= given);
            },
            Term::Sup { fst, snd, .. } => {
                let snd_kid = kids.pop().unwrap();
                let fst_kid = kids.pop().unwrap();
                **fst = fst_kid;
                **snd = snd_kid;
                assert(self@.children =~= given);
            },
            Term::Opx { fst, snd, .. } => {
                let snd_kid = kids.pop().unwrap();
                let fst_kid = kids.pop().unwrap();
                **fst = fst_kid;
                **snd = snd_kid;
                assert(self@.children =~= given);
            },
            Term::List { els } => {
                *els = kids;
                assert(self@.children =~= given);
            },
            Term::Match { scrutinee, arms } => {
                assert(old(self)@.node == NodeView::Match { pats: arm_patterns(arms@) });
                put_arm_bodies(arms, &mut kids);
                let kid = kids.pop().unwrap();
                **scrutinee = kid;
                assert(self@.node == NodeView::Match { pats: arm_patterns(arms@) });
                assert(self@.children =~= seq![(**scrutinee)@] + arm_bodies(arms@));
                assert(self@.children =~= given);
            },
            Term::Var { .. } => {
                assert(self@.children =~= given);
            },
            Term::Lnk { .. } => {
                assert(self@.children =~= given);
            },
            Term::Num { .. } => {
                assert(self@.children =~= given);
            },
            Term::Str { .. } => {
                assert(self@.children =~= given);
            },
            Term::Ref { .. } => {
                assert(self@.children =~= given);
            },
            Term::Era => {
                assert(self@.children =~= given);
            },
        }
    }

    /// A copy of the node of the term, above erasures in place of its
    /// children (above none, for a list).
    #[verifier::rlimit(60)]
    pub fn shell(&self) -> (shell: Term)
        ensures
            shell@ == self@.emptied(),
    {
        match self {
            Term::Lam { tag, nam, bod } => {
                assert(self@.children =~= seq![(**bod)@]);
                let shell = Term::Lam {
                    tag: *tag,
                    nam: copy_opt_name(nam),
                    bod: Box::new(Term::Era),
                };
                assert(shell@.children =~= self@.emptied().children) by {
                    assert(Term::Era@ == TermView::era());
                    assert(shell@.node == self@.node);
                }
                shell
            },
            Term::Var { nam } => {
                let shell = Term::Var { nam: nam.clone() };
                assert(shell@.children =~= self@.emptied().children) by {
                    assert(Term::Era@ == TermView::era());
                    assert(shell@.node == self@.node);
                }
                shell
            },
            Term::Chn { tag, nam, bod } => {
                assert(self@.children =~= seq![(**bod)@]);
                let shell = Term::Chn { tag: *tag, nam: nam.clone(), bod: Box::new(Term::Era) };
                assert(shell@.children =~= self@.emptied().children) by {
                    assert(Term::Era@ == TermView::era());
                    assert(shell@.node == self@.node);
                }
                shell
            },
            Term::Lnk { nam } => {
                let shell = Term::Lnk { nam: nam.clone() };
                assert(shell@.children =~= self@.emptied().children) by {
                    assert(Term::Era@ == TermView::era());
                    assert(shell@.node == self@.node);
                }
                shell
            },
            Term::Let { pat, val, nxt } => {
                assert(self@.children =~= seq![(**val)@, (**nxt)@]);
                let shell = Term::Let {
                    pat: pat.clone(),
                    val: Box::new(Term::Era),
                    nxt: Box::new(Term::Era),
                };
                assert(shell@.children =~= self@.emptied().children) by {
                    assert(Term::Era@ == TermView::era());
                    assert(shell@.node == self@.node);
                }
                shell
            },
            Term::Use { nam, val, nxt } => {
                assert(self@.children =~= seq![(**val)@, (**nxt)@]);
                let shell = Term::Use {
                    nam: copy_opt_name(nam),
                    val: Box::new(Term::Era),
                    nxt: Box::new(Term::Era),
                };
                assert(shell@.children =~= self@.emptied().children) by {
                    assert(Term::Era@ == TermView::era());
                    assert(shell@.node == self@.node);
                }
                shell
            },
            Term::App { tag, fun, arg } => {
                assert(self@.children =~= seq![(**fun)@, (**arg)@]);
                let shell = Term::App {
                    tag: *tag,
                    fun: Box::new(Term::Era),
                    arg: Box::new(Term::Era),
                };
                assert(shell@.children =~= self@.emptied().children) by {
                    assert(Term::Era@ == TermView::era());
                    assert(shell@.node == self@.node);
                }
                shell
            },
            Term::Tup { fst, snd } => {
                assert(self@.children =~= seq![(**fst)@, (**snd)@]);
                let shell = Term::Tup { fst: Box::new(Term::Era), snd: Box::new(Term::Era) };
                assert(shell@.children =~= self@.emptied().children) by {
                    assert(Term::Era@ == TermView::era());
                    assert(shell@.node == self@.node);
                }
                shell
            },
            Term::Dup { tag, fst, snd, val, nxt } => {
                assert(self@.children =~= seq![(**val)@, (**nxt)@]);
                let shell = Term::Dup {
                    tag: *tag,
                    fst: copy_opt_name(fst),
                    snd: copy_opt_name(snd),
                    val: Box::new(Term::Era),
                    nxt: Box::new(Term::Era),
                };
                assert(shell@.children =~= self@.emptied().children) by {
                    assert(Term::Era@ == TermView::era());
                    assert(shell@.node == self@.node);
                }
                shell
            },
            Term::Sup { tag, fst, snd } => {
                assert(self@.children =~= seq![(**fst)@, (**snd)@]);
                let shell = Term::Sup {
                    tag: *tag,
                    fst: Box::new(Term::Era),
                    snd: Box::new(Term::Era),
                };
                assert(shell@.children =~= self@.emptied().children) by {
                    assert(Term::Era@ == TermView::era());
                    assert(shell@.node == self@.node);
                }
                shell
            },
            Term::Num { val } => {
                let shell = Term::Num { val: *val };
                assert(shell@.children =~= self@.emptied().children) by {
                    assert(Term::Era@ == TermView::era());
                    assert(shell@.node == self@.node);
                }
                shell
            },
            Term::Str { val } => {
                let shell = Term::Str { val: val.clone() };
                assert(shell@.children =~= self@.emptied().children) by {
                    assert(Term::Era@ == TermView::era());
                    assert(shell@.node == self@.node);
                }
                shell
            },
            Term::List { .. } => {
                assert(self@.node is List);
                let shell = Term::List { els: Vec::new() };
                assert(shell@.children =~= self@.emptied().children) by {
                    assert(Term::Era@ == TermView::era());
                    assert(shell@.node == self@.node);
                }
                shell
            },
            Term::Opx { op, fst, snd } => {
                assert(self@.children =~= seq![(**fst)@, (**snd)@]);
                let shell = Term::Opx {
                    op: *op,
                    fst: Box::new(Term::Era),
                    snd: Box::new(Term::Era),
                };
                assert(shell@.children =~= self@.emptied().children) by {
                    assert(Term::Era@ == TermView::era());
                    assert(shell@.node == self@.node);
                }
                shell
            },
            Term::Match { scrutinee, arms } => {
                assert(self@.children =~= seq![(**scrutinee)@] + arm_bodies(arms@));
                assert(self@.node == NodeView::Match { pats: arm_patterns(arms@) });
                let shell = Term::Match {
                    scrutinee: Box::new(Term::Era),
                    arms: copy_arm_patterns(arms),
                };
                assert(shell@.node == NodeView::Match { pats: arm_patterns(shell->arms@) });
                assert(shell@.children =~= seq![TermView::era()] + arm_bodies(shell->arms@));
                assert(shell@.children =~= self@.emptied().children) by {
                    assert(Term::Era@ == TermView::era());
                    assert(shell@.node == self@.node);
                }
                shell
            },
            Term::Ref { def_id } => {
                let shell = Term::Ref { def_id: *def_id };
                assert(shell@.children =~= self@.emptied().children) by {
                    assert(Term::Era@ == TermView::era());
                    assert(shell@.node == self@.node);
                }
                shell
            },
            Term::Era => {
                let shell = Term::Era;
                assert(shell@.children =~= self@.emptied().children) by {
                    assert(Term::Era@ == TermView::era());
                    assert(shell@.node == self@.node);
                }
                shell
            },
        }
    }
}

} // verus!
