//! Rewriting of a term from its leaves up, without native recursion: the
//! nodes that wait for their children stand on a stack on the heap, so the
//! depth of a term is bounded by memory alone.

use crate::term::{
    lemma_nodes_in_push, lemma_view_well_formed, nodes_in, views, Name, NameView, NodeView, Term,
    TermView,
};
use vstd::pervasive::unreached;
use vstd::prelude::*;

verus! {

impl TermView {
    /// The tree with `to` in the place of every free occurrence of the
    /// variable `from`: every occurrence that lies under no binder of `from`
    /// inside the tree. Nothing is renamed, so a binder of the tree may
    /// capture a variable of `to`.
    pub open spec fn subst(self, from: NameView, to: TermView) -> TermView
        decreases self,
    {
        if self.node == (NodeView::Var { nam: from }) {
            to
        } else {
            TermView {
                node: self.node,
                children: Seq::new(
                    self.children.len(),
                    |i: int|
                        if 0 <= i < self.children.len() && !self.node.binders(i).contains(from) {
                            self.children[i].subst(from, to)
                        } else {
                            self.children[i]
                        },
                ),
            }
        }
    }
}

/// What `subst` makes of a tree whose node is not the variable: the same
/// node, above the children in which the variable is replaced wherever the
/// node does not bind it.
pub proof fn lemma_subst_children(term: TermView, from: NameView, to: TermView)
    requires
        term.node != (NodeView::Var { nam: from }),
    ensures
        term.subst(from, to).node == term.node,
        term.subst(from, to).children.len() == term.children.len(),
        forall|i: int|
            0 <= i < term.children.len() ==> #[trigger] term.subst(from, to).children[i] == if term.node.binders(
                i,
            ).contains(from) {
                term.children[i]
            } else {
                term.children[i].subst(from, to)
            },
{
}

/// Replacing a variable that does not occur free changes nothing.
pub proof fn lemma_subst_without_free(term: TermView, from: NameView, to: TermView)
    requires
        !term.has_free(from),
    ensures
        term.subst(from, to) == term,
    decreases term,
{
    lemma_subst_children(term, from, to);
    assert forall|i: int| 0 <= i < term.children.len() implies term.subst(from, to).children[i]
        == term.children[i] by {
        if !term.node.binders(i).contains(from) {
            assert(!term.children[i].has_free(from));
            lemma_subst_without_free(term.children[i], from, to);
        }
    }
    assert(term.subst(from, to).children =~= term.children);
}

/// Replacing a variable by a tree in which it does not occur free leaves
/// no free occurrence of it: every one of them was replaced.
pub proof fn lemma_subst_replaces_every_free(term: TermView, from: NameView, to: TermView)
    requires
        !to.has_free(from),
    ensures
        !term.subst(from, to).has_free(from),
    decreases term,
{
    if term.node != (NodeView::Var { nam: from }) {
        lemma_subst_children(term, from, to);
        let after = term.subst(from, to);
        assert forall|i: int|
            0 <= i < after.children.len() && !after.node.binders(i).contains(from) implies !(
        #[trigger] after.children[i]).has_free(from) by {
            lemma_subst_replaces_every_free(term.children[i], from, to);
        }
    }
}

/// What a run of the traversal does to the tree it is given.
enum Pass<'a> {
    /// Builds a copy.
    Copy,
    /// Puts a copy of `to` in the place of the free occurrences of `from`.
    Subst { from: &'a Name, to: &'a Term },
    /// Inlines the named aliases.
    ApplyUse,
}

enum PassView {
    Copy,
    Subst { from: NameView, to: TermView },
    ApplyUse,
}

impl<'a> View for Pass<'a> {
    type V = PassView;

    closed spec fn view(&self) -> PassView {
        match self {
            Pass::Copy => PassView::Copy,
            Pass::Subst { from, to } => PassView::Subst { from: from@, to: to@ },
            Pass::ApplyUse => PassView::ApplyUse,
        }
    }
}

impl PassView {
    /// What the pass makes of a whole tree.
    spec fn result(self, term: TermView) -> TermView {
        match self {
            PassView::Copy => term,
            PassView::Subst { from, to } => term.subst(from, to),
            PassView::ApplyUse => term.apply_use(),
        }
    }

    /// Whether the pass rewrites the child at `index` of a node, or leaves
    /// it as it is.
    spec fn descends(self, node: NodeView, index: int) -> bool {
        match self {
            PassView::Subst { from, .. } => node != (NodeView::Var { nam: from })
                && !node.binders(index).contains(from),
            _ => true,
        }
    }

    /// What the pass makes of a child of a node.
    spec fn child_result(self, node: NodeView, index: int, child: TermView) -> TermView {
        if self.descends(node, index) {
            self.result(child)
        } else {
            child
        }
    }

    /// What the pass makes of the children of a node, of which `children`
    /// are those from `base` on.
    spec fn children_results(self, node: NodeView, base: int, children: Seq<TermView>) -> Seq<
        TermView,
    > {
        Seq::new(children.len(), |j: int| self.child_result(node, base + j, children[j]))
    }

    /// What the pass makes of a node whose children are done.
    spec fn finish(self, term: TermView) -> TermView {
        match self {
            PassView::Copy => term,
            PassView::Subst { from, to } => if term.node == (NodeView::Var { nam: from }) {
                to
            } else {
                term
            },
            PassView::ApplyUse => match term.node {
                NodeView::Use { nam: Some(nam) } if term.children.len() == 2 => term.children[1].subst(
                    nam,
                    term.children[0],
                ),
                _ => term,
            },
        }
    }

    /// A pass only runs passes of a lower rank inside itself.
    spec fn rank(self) -> nat {
        match self {
            PassView::Copy => 0,
            PassView::Subst { .. } => 1,
            PassView::ApplyUse => 2,
        }
    }
}

/// The result of a pass on a tree is what the pass makes of the node above
/// the results on the children.
proof fn lemma_result_unfolds(pass: PassView, term: TermView)
    ensures
        pass.result(term) == pass.finish(
            TermView {
                node: term.node,
                children: pass.children_results(term.node, 0, term.children),
            },
        ),
{
    let children = pass.children_results(term.node, 0, term.children);
    let above = TermView { node: term.node, children };
    match pass {
        PassView::Copy => {
            assert(children =~= term.children);
            assert(above == term);
        },
        PassView::Subst { from, to } => {
            if term.node != (NodeView::Var { nam: from }) {
                lemma_subst_children(term, from, to);
                assert(children =~= term.subst(from, to).children);
                assert(above == term.subst(from, to));
            }
        },
        PassView::ApplyUse => {
            assert(children =~= term.inlined_children());
        },
    }
}

/// A tree that a run takes apart: one it owns, or one it only reads.
enum Src<'a> {
    Owned(Term),
    Borrowed(&'a Term),
}

impl<'a> View for Src<'a> {
    type V = TermView;

    closed spec fn view(&self) -> TermView {
        match self {
            Src::Owned(term) => term@,
            Src::Borrowed(term) => term@,
        }
    }
}

/// A node that waits for its children: the results for the first of them,
/// and the children that are still to do, the next one last.
struct Frame<'a> {
    shell: Term,
    done: Vec<Term>,
    pending: Vec<Src<'a>>,
}

struct FrameView {
    node: NodeView,
    done: Seq<TermView>,
    /// The children still to do, in the order of the children.
    pending: Seq<TermView>,
}

impl<'a> View for Frame<'a> {
    type V = FrameView;

    closed spec fn view(&self) -> FrameView {
        FrameView {
            node: self.shell@.node,
            done: views(self.done@),
            pending: views(self.pending@).reverse(),
        }
    }
}

impl FrameView {
    /// The tree that the frame becomes once its pending children are done.
    spec fn close(self, pass: PassView) -> TermView {
        pass.finish(
            TermView {
                node: self.node,
                children: self.done + pass.children_results(
                    self.node,
                    self.done.len() as int,
                    self.pending,
                ),
            },
        )
    }

    /// The frame with one more child done.
    spec fn with_done(self, result: TermView) -> FrameView {
        FrameView { node: self.node, done: self.done.push(result), pending: self.pending }
    }
}

/// A tree that was just taken apart closes to the result of the pass on it.
proof fn lemma_open_closes(pass: PassView, term: TermView, frame: FrameView)
    requires
        frame == (FrameView { node: term.node, done: seq![], pending: term.children }),
    ensures
        frame.close(pass) == pass.result(term),
{
    lemma_result_unfolds(pass, term);
    assert(frame.done + pass.children_results(frame.node, frame.done.len() as int, frame.pending)
        =~= pass.children_results(term.node, 0, term.children));
}

/// Taking the next child off a frame, and giving the frame what the pass
/// makes of that child, leaves the tree that the frame closes to as it was.
proof fn lemma_next_child(pass: PassView, top: FrameView, after: FrameView, child: TermView)
    requires
        after.node == top.node,
        after.done == top.done,
        top.pending == seq![child] + after.pending,
    ensures
        after.with_done(pass.child_result(top.node, top.done.len() as int, child)).close(pass)
            == top.close(pass),
{
    let given = after.with_done(pass.child_result(top.node, top.done.len() as int, child));
    assert(given.done + pass.children_results(given.node, given.done.len() as int, given.pending)
        =~= top.done + pass.children_results(top.node, top.done.len() as int, top.pending));
}

/// A frame without pending children closes to what the pass makes of its
/// node above the children that are done.
proof fn lemma_close_done(pass: PassView, top: FrameView)
    requires
        top.pending.len() == 0,
    ensures
        top.close(pass) == pass.finish(TermView { node: top.node, children: top.done }),
{
    assert(top.done + pass.children_results(top.node, top.done.len() as int, top.pending)
        =~= top.done);
}

/// The tree that the whole run gives once `result` stands for the child that
/// the innermost of `frames` waits for.
spec fn plug(pass: PassView, frames: Seq<FrameView>, result: TermView) -> TermView
    decreases frames.len(),
{
    if frames.len() == 0 {
        result
    } else {
        plug(pass, frames.drop_last(), frames.last().with_done(result).close(pass))
    }
}

/// The number of nodes that the frames still hold for later.
spec fn frames_weight(frames: Seq<Frame>) -> nat
    decreases frames.len(),
{
    if frames.len() == 0 {
        0
    } else {
        frames_weight(frames.drop_last()) + nodes_in(views(frames.last().pending@))
    }
}

proof fn lemma_frames_weight_push(frames: Seq<Frame>, frame: Frame)
    ensures
        frames_weight(frames.push(frame)) == frames_weight(frames) + nodes_in(
            views(frame.pending@),
        ),
{
    assert(frames.push(frame).drop_last() =~= frames);
}

impl<'a> Frame<'a> {
    /// Whether the node admits the children that the frame holds, with one
    /// more when a child is on its way, and whether the frame only reads
    /// trees under a pass that copies.
    spec fn fits(self, pass: PassView, in_flight: bool) -> bool {
        &&& self@.node.admits(
            self.done@.len() + self.pending@.len() + if in_flight {
                1nat
            } else {
                0nat
            },
        )
        &&& forall|j: int|
            0 <= j < self.pending@.len() ==> ((#[trigger] self.pending@[j]) is Borrowed ==> pass is Copy)
    }
}

/// Whether every frame fits: all but the innermost wait for a child, and
/// the innermost does when `in_flight` holds.
spec fn frames_fit(frames: Seq<Frame>, pass: PassView, in_flight: bool) -> bool {
    forall|i: int|
        0 <= i < frames.len() ==> (#[trigger] frames[i]).fits(
            pass,
            i < frames.len() - 1 || in_flight,
        )
}

/// The sources of the given trees, the first tree last.
fn owned_sources<'a>(kids: Vec<Term>) -> (pending: Vec<Src<'a>>)
    ensures
        views(pending@).reverse() == views(kids@),
        nodes_in(views(pending@)) == nodes_in(views(kids@)),
        forall|j: int| 0 <= j < pending@.len() ==> (#[trigger] pending@[j]) is Owned,
{
    let ghost given = views(kids@);
    let mut rest = kids;
    let mut pending: Vec<Src<'a>> = Vec::new();
    assert(views(rest@) + views(pending@).reverse() =~= given);
    assert(views(pending@) =~= Seq::<TermView>::empty());
    loop
        invariant
            given == views(kids@),
            views(rest@) + views(pending@).reverse() == given,
            nodes_in(views(rest@)) + nodes_in(views(pending@)) == nodes_in(given),
            forall|j: int| 0 <= j < pending@.len() ==> (#[trigger] pending@[j]) is Owned,
        decreases rest@.len(),
    {
        let ghost rest_before = rest@;
        let ghost pending_before = pending@;
        match rest.pop() {
            None => {
                assert(views(rest@) =~= Seq::<TermView>::empty());
                assert(views(pending@).reverse() =~= given);
                return pending;
            },
            Some(kid) => {
                proof {
                    assert(views(rest_before) =~= views(rest@).push(kid@));
                    lemma_nodes_in_push(views(rest@), kid@);
                    lemma_nodes_in_push(views(pending_before), kid@);
                }
                pending.push(Src::Owned(kid));
                assert(views(pending@) =~= views(pending_before).push(kid@));
                assert(views(rest@) + views(pending@).reverse() =~= views(rest_before) + views(
                    pending_before,
                ).reverse());
            },
        }
    }
}

/// The sources of the given trees, the first tree last.
fn borrowed_sources<'a>(kids: Vec<&'a Term>) -> (pending: Vec<Src<'a>>)
    ensures
        views(pending@).reverse() == views(kids@),
        nodes_in(views(pending@)) == nodes_in(views(kids@)),
{
    let ghost given = views(kids@);
    let mut rest = kids;
    let mut pending: Vec<Src<'a>> = Vec::new();
    assert(views(rest@) + views(pending@).reverse() =~= given);
    assert(views(pending@) =~= Seq::<TermView>::empty());
    loop
        invariant
            given == views(kids@),
            views(rest@) + views(pending@).reverse() == given,
            nodes_in(views(rest@)) + nodes_in(views(pending@)) == nodes_in(given),
        decreases rest@.len(),
    {
        let ghost rest_before = rest@;
        let ghost pending_before = pending@;
        match rest.pop() {
            None => {
                assert(views(rest@) =~= Seq::<TermView>::empty());
                assert(views(pending@).reverse() =~= given);
                return pending;
            },
            Some(kid) => {
                proof {
                    assert(views(rest_before) =~= views(rest@).push(kid@));
                    lemma_nodes_in_push(views(rest@), kid@);
                    lemma_nodes_in_push(views(pending_before), kid@);
                }
                pending.push(Src::Borrowed(kid));
                assert(views(pending@) =~= views(pending_before).push(kid@));
                assert(views(rest@) + views(pending@).reverse() =~= views(rest_before) + views(
                    pending_before,
                ).reverse());
            },
        }
    }
}

/// Takes a tree apart: its node, and its children as trees still to do.
fn open<'a>(source: Src<'a>, pass: Ghost<PassView>) -> (frame: Frame<'a>)
    requires
        source is Borrowed ==> pass@ is Copy,
    ensures
        frame@ == (FrameView { node: source@.node, done: seq![], pending: source@.children }),
        nodes_in(views(frame.pending@)) == nodes_in(source@.children),
        frame.fits(pass@, false),
{
    match source {
        Src::Owned(term) => {
            let mut shell = term;
            proof {
                lemma_view_well_formed(shell);
            }
            let kids = shell.take_children();
            let pending = owned_sources(kids);
            let frame = Frame { shell, done: Vec::new(), pending };
            assert(frame@.done =~= seq![]);
            frame
        },
        Src::Borrowed(term) => {
            proof {
                lemma_view_well_formed(*term);
            }
            let shell = term.shell();
            let kids = term.children();
            let pending = borrowed_sources(kids);
            let frame = Frame { shell, done: Vec::new(), pending };
            assert(frame@.done =~= seq![]);
            frame
        },
    }
}

/// Whether `nam` stands among `names`.
fn contains_name(names: &Vec<&Name>, nam: &Name) -> (found: bool)
    ensures
        found == views(names@).contains(nam@),
{
    let mut i: usize = 0;
    while i < names.len()
        invariant
            i <= names.len(),
            forall|j: int| 0 <= j < i ==> views(names@)[j] != nam@,
        decreases names.len() - i,
    {
        if names[i].same(nam) {
            assert(views(names@)[i as int] == nam@);
            return true;
        }
        i += 1;
    }
    false
}

/// Whether `term` is the variable `nam`.
fn is_var(term: &Term, nam: &Name) -> (is: bool)
    ensures
        is == (term@.node == NodeView::Var { nam: nam@ }),
{
    match term {
        Term::Var { nam: found } => found.same(nam),
        _ => {
            assert(!(term@.node is Var));
            false
        },
    }
}

/// Whether the pass rewrites the child at `index` of the node of `shell`.
fn descends(pass: &Pass<'_>, shell: &Term, index: usize) -> (go: bool)
    ensures
        go == pass@.descends(shell@.node, index as int),
{
    match pass {
        Pass::Subst { from, .. } => {
            if is_var(shell, from) {
                false
            } else {
                let binders = shell.child_binders(index);
                !contains_name(&binders, from)
            }
        },
        _ => true,
    }
}

/// Gives up a tree node by node, so that its depth costs no native stack
/// when its memory is freed.
fn dispose(term: Term) {
    let mut work: Vec<Term> = Vec::new();
    work.push(term);
    loop
        decreases nodes_in(views(work@)),
    {
        let ghost before = work@;
        match work.pop() {
            None => {
                return ;
            },
            Some(node) => {
                let mut node = node;
                proof {
                    assert(views(before) =~= views(work@).push(node@));
                    lemma_nodes_in_push(views(work@), node@);
                }
                let ghost rest = work@;
                let mut kids = node.take_children();
                let ghost taken = kids@;
                loop
                    invariant
                        nodes_in(views(work@)) + nodes_in(views(kids@)) == nodes_in(views(rest))
                            + nodes_in(views(taken)),
                    decreases kids@.len(),
                {
                    let ghost kids_before = kids@;
                    let ghost work_before = work@;
                    match kids.pop() {
                        None => {
                            break ;
                        },
                        Some(kid) => {
                            proof {
                                assert(views(kids_before) =~= views(kids@).push(kid@));
                                lemma_nodes_in_push(views(kids@), kid@);
                                lemma_nodes_in_push(views(work_before), kid@);
                            }
                            work.push(kid);
                            assert(views(work@) =~= views(work_before).push(kid@));
                        },
                    }
                }
            },
        }
    }
}

/// What the pass makes of a node whose children are done.
fn finish(pass: &Pass<'_>, term: Term) -> (res: Term)
    ensures
        res@ == pass@.finish(term@),
    decreases pass@.rank(), 0nat,
{
    match pass {
        Pass::Copy => term,
        Pass::Subst { from, to } => {
            if is_var(&term, from) {
                run(&Pass::Copy, Src::Borrowed(to))
            } else {
                term
            }
        },
        Pass::ApplyUse => match term {
            Term::Use { nam: Some(nam), val, nxt } => {
                assert(term@.node == NodeView::Use { nam: Some(nam@) });
                assert(term@.children =~= seq![(*val)@, (*nxt)@]);
                let res = run(&Pass::Subst { from: &nam, to: &*val }, Src::Owned(*nxt));
                dispose(*val);
                res
            },
            other => {
                assert(!(other@.node matches NodeView::Use { nam: Some(_) }));
                other
            },
        },
    }
}

/// Whether the frames and the tree on its way, if there is one, stand for
/// a run of the pass that ends with `expected`.
spec fn state_fits(
    frames: Seq<Frame>,
    cur: Option<Src>,
    pass: PassView,
    expected: TermView,
) -> bool {
    &&& frames_fit(frames, pass, cur is Some)
    &&& match cur {
        Some(src) => {
            &&& src is Borrowed ==> pass is Copy
            &&& expected == plug(pass, views(frames), pass.result(src@))
        },
        None => {
            &&& frames.len() > 0
            &&& expected == plug(
                pass,
                views(frames).drop_last(),
                views(frames).last().close(pass),
            )
        },
    }
}

/// The number of nodes that the run has not taken apart yet.
spec fn state_weight(frames: Seq<Frame>, cur: Option<Src>) -> nat {
    frames_weight(frames) + match cur {
        Some(src) => src@.size(),
        None => 0,
    }
}

/// Pushing a frame on frames that wait for a child gives frames that fit.
proof fn lemma_frames_fit_push(
    below: Seq<Frame>,
    frame: Frame,
    pass: PassView,
    in_flight: bool,
)
    requires
        frames_fit(below, pass, true),
        frame.fits(pass, in_flight),
    ensures
        frames_fit(below.push(frame), pass, in_flight),
        views(below.push(frame)).drop_last() == views(below),
        views(below.push(frame)).last() == frame@,
        views(below.push(frame)) == views(below).push(frame@),
{
    let frames = below.push(frame);
    assert forall|i: int| 0 <= i < frames.len() implies (#[trigger] frames[i]).fits(
        pass,
        i < frames.len() - 1 || in_flight,
    ) by {
        if i < below.len() {
            assert(frames[i] == below[i]);
        }
    }
    assert(views(frames).drop_last() =~= views(below));
    assert(views(frames) =~= views(below).push(frame@));
}

/// Below the innermost of frames that fit, every frame waits for a child.
proof fn lemma_frames_fit_pop(below: Seq<Frame>, frame: Frame, pass: PassView, in_flight: bool)
    requires
        frames_fit(below.push(frame), pass, in_flight),
    ensures
        frames_fit(below, pass, true),
        frame.fits(pass, in_flight),
{
    let frames = below.push(frame);
    assert(frames[below.len() as int] == frame);
    assert forall|i: int| 0 <= i < below.len() implies (#[trigger] below[i]).fits(pass, true) by {
        assert(frames[i] == below[i]);
    }
}

/// Takes the tree on its way apart, and lets its node wait on the stack.
fn descend<'a>(
    stack: &mut Vec<Frame<'a>>,
    src: Src<'a>,
    Ghost(pass): Ghost<PassView>,
    Ghost(expected): Ghost<TermView>,
)
    requires
        state_fits(old(stack)@, Some(src), pass, expected),
    ensures
        state_fits(final(stack)@, None, pass, expected),
        state_weight(final(stack)@, None) < state_weight(old(stack)@, Some(src)),
{
    let frame = open(src, Ghost(pass));
    proof {
        lemma_open_closes(pass, src@, frame@);
        lemma_frames_weight_push(stack@, frame);
        lemma_frames_fit_push(stack@, frame, pass, false);
    }
    stack.push(frame);
}

/// What the run does next.
enum Next<'a> {
    /// Take this tree apart.
    Child(Src<'a>),
    /// Look at the innermost frame again.
    Again,
    /// Nothing: this is the result.
    Done(Term),
}

/// Goes on with the next child of the innermost frame, which is `frame`
/// with `child` still pending: takes the child up where the pass rewrites
/// it, and else hands it to the frame as it is.
fn next_child<'a>(
    stack: &mut Vec<Frame<'a>>,
    frame: Frame<'a>,
    child: Src<'a>,
    pass: &Pass<'_>,
    Ghost(top): Ghost<Frame<'a>>,
    Ghost(expected): Ghost<TermView>,
) -> (next: Next<'a>)
    requires
        state_fits(old(stack)@.push(top), None, pass@, expected),
        frame.shell == top.shell,
        frame.done == top.done,
        top.pending@ == frame.pending@.push(child),
    ensures
        match next {
            Next::Child(src) => {
                &&& state_fits(final(stack)@, Some(src), pass@, expected)
                &&& state_weight(final(stack)@, Some(src)) == state_weight(
                    old(stack)@.push(top),
                    None,
                )
            },
            Next::Again => {
                &&& state_fits(final(stack)@, None, pass@, expected)
                &&& state_weight(final(stack)@, None) < state_weight(old(stack)@.push(top), None)
            },
            Next::Done(_) => false,
        },
{
    let mut frame = frame;
    let ghost below = stack@;
    let index = frame.done.len();
    proof {
        lemma_frames_fit_pop(below, top, pass@, false);
        lemma_frames_fit_push(below, top, pass@, false);
        lemma_frames_weight_push(below, top);
        assert(views(top.pending@) =~= views(frame.pending@).push(child@));
        lemma_nodes_in_push(views(frame.pending@), child@);
        assert(top@.pending =~= seq![child@] + frame@.pending);
        lemma_next_child(pass@, top@, frame@, child@);
        assert(top.pending@[top.pending@.len() - 1] == child);
        assert forall|j: int| 0 <= j < frame.pending@.len() implies !((
        #[trigger] frame.pending@[j]) is Borrowed) || pass@ is Copy by {
            assert(frame.pending@[j] == top.pending@[j]);
        }
    }
    if descends(pass, &frame.shell, index) {
        proof {
            lemma_frames_weight_push(below, frame);
            lemma_frames_fit_push(below, frame, pass@, true);
        }
        stack.push(frame);
        Next::Child(child)
    } else {
        let kept = match child {
            Src::Owned(term) => term,
            Src::Borrowed(_) => unreached(),
        };
        let ghost waiting = frame;
        frame.done.push(kept);
        proof {
            assert(views(frame.done@) =~= views(waiting.done@).push(kept@));
            assert(frame@ == waiting@.with_done(kept@));
            lemma_frames_weight_push(below, frame);
            lemma_frames_fit_push(below, frame, pass@, false);
        }
        stack.push(frame);
        Next::Again
    }
}

/// Closes the innermost frame, which is `frame` and has no child pending:
/// puts the children that are done under its node, lets the pass finish the
/// node, and hands the result to the frame below, if there is one.
fn close_frame<'a>(
    stack: &mut Vec<Frame<'a>>,
    frame: Frame<'a>,
    pass: &Pass<'_>,
    Ghost(expected): Ghost<TermView>,
) -> (next: Next<'a>)
    requires
        state_fits(old(stack)@.push(frame), None, pass@, expected),
        frame.pending@.len() == 0,
    ensures
        match next {
            Next::Child(_) => false,
            Next::Again => {
                &&& state_fits(final(stack)@, None, pass@, expected)
                &&& state_weight(final(stack)@, None) == state_weight(
                    old(stack)@.push(frame),
                    None,
                )
                &&& final(stack)@.len() == old(stack)@.len()
            },
            Next::Done(res) => res@ == expected,
        },
    decreases pass@.rank(), 1nat,
{
    let ghost below = stack@;
    let ghost top = frame;
    proof {
        lemma_frames_fit_pop(below, top, pass@, false);
        lemma_frames_fit_push(below, top, pass@, false);
        lemma_frames_weight_push(below, top);
        assert(top@.pending =~= seq![]);
        lemma_close_done(pass@, top@);
        assert(views(top.pending@) =~= seq![]);
    }
    let Frame { shell, done, pending } = frame;
    let mut term = shell;
    term.put_children(done);
    let result = finish(pass, term);
    match stack.pop() {
        None => {
            assert(views(below) =~= seq![]);
            Next::Done(result)
        },
        Some(parent) => {
            let mut parent = parent;
            let ghost under = stack@;
            let ghost waiting = parent;
            parent.done.push(result);
            proof {
                assert(below =~= under.push(waiting));
                lemma_frames_fit_pop(under, waiting, pass@, true);
                lemma_frames_fit_push(under, waiting, pass@, true);
                assert(views(parent.done@) =~= views(waiting.done@).push(result@));
                assert(parent@ == waiting@.with_done(result@));
                lemma_frames_weight_push(under, waiting);
                lemma_frames_weight_push(under, parent);
                lemma_frames_fit_push(under, parent, pass@, false);
            }
            stack.push(parent);
            Next::Again
        },
    }
}

/// Runs the pass on a tree, from the leaves up. The nodes that wait for
/// their children stand on a stack of frames; nothing recurses on the depth
/// of the tree.
fn run<'a>(pass: &Pass<'_>, source: Src<'a>) -> (res: Term)
    requires
        source is Borrowed ==> pass@ is Copy,
    ensures
        res@ == pass@.result(source@),
    decreases pass@.rank(), 2nat,
{
    let ghost expected = pass@.result(source@);
    let mut stack: Vec<Frame<'a>> = Vec::new();
    let mut cur: Option<Src<'a>> = Some(source);
    assert(views(stack@) =~= seq![]);
    loop
        invariant
            expected == pass@.result(source@),
            state_fits(stack@, cur, pass@, expected),
        decreases
                state_weight(stack@, cur),
                (if cur is Some {
                    0nat
                } else {
                    1nat
                }),
                stack@.len(),
    {
        let step = cur;
        cur = None;
        match step {
            Some(src) => {
                descend(&mut stack, src, Ghost(pass@), Ghost(expected));
            },
            None => {
                let ghost frames = stack@;
                let frame = stack.pop().unwrap();
                assert(frames =~= stack@.push(frame));
                let mut frame = frame;
                let ghost top = frame;
                let next = if frame.pending.len() == 0 {
                    close_frame(&mut stack, frame, pass, Ghost(expected))
                } else {
                    let child = frame.pending.pop().unwrap();
                    assert(top.pending@ =~= frame.pending@.push(child));
                    next_child(&mut stack, frame, child, pass, Ghost(top), Ghost(expected))
                };
                match next {
                    Next::Child(src) => {
                        cur = Some(src);
                    },
                    Next::Again => {},
                    Next::Done(res) => {
                        return res;
                    },
                }
            },
        }
    }
}

impl Clone for Term {
    /// A copy of the whole tree.
    fn clone(&self) -> (copy: Term)
        ensures
            copy@ == self@,
    {
        run(&Pass::Copy, Src::Borrowed(self))
    }
}

impl Term {
    /// Puts a copy of `to` in the place of every free occurrence of the
    /// variable `from`. Nothing is renamed: a binder of the term may capture
    /// a variable of `to`.
    pub fn subst(&mut self, from: &Name, to: &Term)
        ensures
            final(self)@ == old(self)@.subst(from@, to@),
    {
        let mut term = Term::Era;
        std::mem::swap(self, &mut term);
        *self = run(&Pass::Subst { from, to }, Src::Owned(term));
    }
}

/// The term without its named aliases.
pub(crate) fn inline_aliases(term: Term) -> (res: Term)
    ensures
        res@ == term@.apply_use(),
{
    run(&Pass::ApplyUse, Src::Owned(term))
}

} // verus!
