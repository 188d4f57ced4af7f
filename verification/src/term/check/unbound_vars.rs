//! The scope and linearity check: every lexical variable lies under a binder
//! of its name, and every unscoped variable is declared once and used once.

use crate::term::{
    lemma_nodes_in_push, nodes_in, views, Book, BookView, Name, NameView, NodeView, Term, TermView,
};
use vstd::prelude::*;
use vstd::string::StringExecFns;

verus! {

/// One occurrence of an unscoped variable: its declaration, or its use.
pub struct GlobalEvent {
    pub name: NameView,
    pub declares: bool,
}

/// Why a rule body fails the check, as a mathematical value.
pub enum ScopeErrorView {
    UnboundVar(NameView),
    MissingUse(NameView),
    UnboundUnscoped(NameView),
    UsedMoreThanOnce(NameView),
}

impl NodeView {
    /// The occurrence of an unscoped variable that the node itself is.
    pub open spec fn global_events(self) -> Seq<GlobalEvent> {
        match self {
            NodeView::Chn { nam, .. } => seq![GlobalEvent { name: nam, declares: true }],
            NodeView::Lnk { nam } => seq![GlobalEvent { name: nam, declares: false }],
            _ => seq![],
        }
    }
}

impl TermView {
    /// Whether the tree has only the shapes that remain once lists are
    /// desugared and patterns compiled away: no list node, and no `let` that
    /// binds anything but one variable or a pair of variables.
    pub open spec fn checkable(self) -> bool
        decreases self,
    {
        &&& !(self.node is List)
        &&& (self.node matches NodeView::Let { pat } ==> pat.is_plain())
        &&& forall|i: int| 0 <= i < self.children.len() ==> (#[trigger] self.children[i]).checkable()
    }

    /// The first variable, in the order the tree is read, that no active
    /// binder declares. `scope` holds the names of the binders that are
    /// active around the tree, once for each.
    pub open spec fn unbound_var(self, scope: Seq<NameView>) -> Option<NameView>
        decreases self, self.children.len() + 1,
    {
        match self.node {
            NodeView::Var { nam } if !scope.contains(nam) => Some(nam),
            _ => self.unbound_var_from(scope, 0),
        }
    }

    /// The first unbound variable among the children from `index` on.
    pub open spec fn unbound_var_from(self, scope: Seq<NameView>, index: nat) -> Option<NameView>
        decreases self, self.children.len() - index,
    {
        if index >= self.children.len() {
            None
        } else {
            match self.children[index as int].unbound_var(scope + self.node.binders(index as int)) {
                Some(nam) => Some(nam),
                None => self.unbound_var_from(scope, index + 1),
            }
        }
    }

    /// The declarations and uses of unscoped variables in the tree, in the
    /// order the tree is read.
    pub open spec fn global_events(self) -> Seq<GlobalEvent>
        decreases self, self.children.len() + 1,
    {
        self.node.global_events() + self.global_events_from(0)
    }

    /// The declarations and uses in the children from `index` on.
    pub open spec fn global_events_from(self, index: nat) -> Seq<GlobalEvent>
        decreases self, self.children.len() - index,
    {
        if index >= self.children.len() {
            seq![]
        } else {
            self.children[index as int].global_events() + self.global_events_from(index + 1)
        }
    }

    /// What the check finds in a rule body: the first unbound variable, else
    /// the first unscoped variable that is not declared once and used once.
    pub open spec fn scope_verdict(self) -> Result<(), ScopeErrorView> {
        match self.unbound_var(seq![]) {
            Some(nam) => Err(ScopeErrorView::UnboundVar(nam)),
            None => match first_global_fault(self.global_events(), 0) {
                Some(fault) => Err(fault),
                None => Ok(()),
            },
        }
    }
}

/// How often `event` occurs in `events`.
pub open spec fn occurrences(events: Seq<GlobalEvent>, event: GlobalEvent) -> nat
    decreases events.len(),
{
    if events.len() == 0 {
        0
    } else {
        occurrences(events.drop_last(), event) + if events.last() == event {
            1nat
        } else {
            0nat
        }
    }
}

/// What is wrong with the unscoped variable `name`, given every occurrence
/// of it: nothing when it is declared once and used once.
pub open spec fn global_fault(events: Seq<GlobalEvent>, name: NameView) -> Option<ScopeErrorView> {
    let declared = occurrences(events, GlobalEvent { name, declares: true });
    let used = occurrences(events, GlobalEvent { name, declares: false });
    if used == 1 && declared == 1 {
        None
    } else if used == 0 {
        Some(ScopeErrorView::MissingUse(name))
    } else if declared == 0 {
        Some(ScopeErrorView::UnboundUnscoped(name))
    } else {
        Some(ScopeErrorView::UsedMoreThanOnce(name))
    }
}

/// The fault of the first occurrence, from `index` on, whose variable has
/// one.
pub open spec fn first_global_fault(events: Seq<GlobalEvent>, index: nat) -> Option<ScopeErrorView>
    decreases events.len() - index,
{
    if index >= events.len() {
        None
    } else {
        match global_fault(events, events[index as int].name) {
            Some(fault) => Some(fault),
            None => first_global_fault(events, index + 1),
        }
    }
}

/// The lexical check accepts a tree exactly when every variable that
/// occurs free in it is declared by a binder of the scope; and the variable
/// it names, when it fails, occurs free and is declared by none.
pub proof fn lemma_unbound_var_is_free(term: TermView, scope: Seq<NameView>)
    ensures
        term.unbound_var(scope) is None <==> forall|nam: NameView|
            term.has_free(nam) ==> scope.contains(nam),
        term.unbound_var(scope) matches Some(nam) ==> term.has_free(nam) && !scope.contains(nam),
    decreases term, term.children.len() + 1,
{
    lemma_unbound_var_from_is_free(term, scope, 0);
    match term.node {
        NodeView::Var { nam } => {
            assert(term.has_free(nam));
        },
        _ => {},
    }
    if term.unbound_var(scope) is None {
        assert forall|nam: NameView| term.has_free(nam) implies scope.contains(nam) by {
            if term.node != (NodeView::Var { nam }) {
                let i = choose|i: int|
                    0 <= i < term.children.len() && !term.node.binders(i).contains(nam) && (
                    #[trigger] term.children[i]).has_free(nam);
                assert(free_in_child(term, i, nam));
            }
        }
    } else {
        let found = term.unbound_var(scope)->0;
        assert(term.has_free(found) && !scope.contains(found)) by {
            if !(term.node == (NodeView::Var { nam: found }) && !scope.contains(found)) {
                let i = choose|i: int|
                    0 <= i < term.children.len() && free_in_child(term, i, found)
                        && !scope.contains(found);
                assert(term.children[i].has_free(found));
            }
        }
    }
}

/// Whether `nam` occurs free in the child at `index`, under no binder of
/// the node.
pub open spec fn free_in_child(term: TermView, index: int, nam: NameView) -> bool {
    !term.node.binders(index).contains(nam) && term.children[index].has_free(nam)
}

/// The lexical check accepts the children from `index` on exactly when
/// every variable that occurs free in one of them, under no binder of the
/// node, is declared by a binder of the scope.
pub proof fn lemma_unbound_var_from_is_free(term: TermView, scope: Seq<NameView>, index: nat)
    ensures
        term.unbound_var_from(scope, index) is None <==> forall|i: int, nam: NameView|
            index <= i < term.children.len() && #[trigger] free_in_child(term, i, nam)
                ==> scope.contains(nam),
        term.unbound_var_from(scope, index) matches Some(nam) ==> !scope.contains(nam)
            && exists|i: int| 0 <= i < term.children.len() && #[trigger] free_in_child(term, i, nam),
    decreases term, term.children.len() - index,
{
    if index < term.children.len() {
        let child = term.children[index as int];
        let binders = term.node.binders(index as int);
        lemma_unbound_var_is_free(child, scope + binders);
        lemma_unbound_var_from_is_free(term, scope, index + 1);
        assert forall|nam: NameView| (scope + binders).contains(nam) <==> scope.contains(nam)
            || binders.contains(nam) by {
            lemma_contains_concat(scope, binders, nam);
        }
        match child.unbound_var(scope + binders) {
            Some(found) => {
                assert(free_in_child(term, index as int, found));
            },
            None => {
                if term.unbound_var_from(scope, index) is None {
                    assert forall|i: int, nam: NameView|
                        index <= i < term.children.len() && #[trigger] free_in_child(
                            term,
                            i,
                            nam,
                        ) implies scope.contains(nam) by {
                        if i == index {
                            assert((scope + binders).contains(nam));
                        }
                    }
                }
            },
        }
    }
}

/// A name stands in two lists put together exactly when it stands in one
/// of them.
pub proof fn lemma_contains_concat(fst: Seq<NameView>, snd: Seq<NameView>, nam: NameView)
    ensures
        (fst + snd).contains(nam) <==> fst.contains(nam) || snd.contains(nam),
{
    if fst.contains(nam) {
        let i = choose|i: int| 0 <= i < fst.len() && fst[i] == nam;
        assert((fst + snd)[i] == nam);
    }
    if snd.contains(nam) {
        let i = choose|i: int| 0 <= i < snd.len() && snd[i] == nam;
        assert((fst + snd)[fst.len() + i] == nam);
    }
    if (fst + snd).contains(nam) {
        let i = choose|i: int| 0 <= i < (fst + snd).len() && (fst + snd)[i] == nam;
        if i < fst.len() {
            assert(fst[i] == nam);
        } else {
            assert(snd[i - fst.len()] == nam);
        }
    }
}

/// No unscoped variable is at fault exactly when each one that occurs is
/// declared once and used once.
pub proof fn lemma_no_global_fault(events: Seq<GlobalEvent>, index: nat)
    ensures
        first_global_fault(events, index) is None <==> forall|i: int|
            index <= i < events.len() ==> occurrences(
                events,
                GlobalEvent { name: (#[trigger] events[i]).name, declares: true },
            ) == 1 && occurrences(events, GlobalEvent { name: events[i].name, declares: false })
                == 1,
    decreases events.len() - index,
{
    if index < events.len() {
        lemma_no_global_fault(events, index + 1);
    }
}

/// A rule body passes the check exactly when no variable occurs free in
/// it, and every unscoped variable that occurs in it is declared once and
/// used once, wherever in the body the declaration and the use stand.
pub proof fn lemma_scope_verdict_ok(term: TermView)
    ensures
        term.scope_verdict() is Ok <==> {
            &&& forall|nam: NameView| !term.has_free(nam)
            &&& forall|i: int|
                0 <= i < term.global_events().len() ==> occurrences(
                    term.global_events(),
                    GlobalEvent { name: (#[trigger] term.global_events()[i]).name, declares: true },
                ) == 1 && occurrences(
                    term.global_events(),
                    GlobalEvent { name: term.global_events()[i].name, declares: false },
                ) == 1
        },
{
    lemma_unbound_var_is_free(term, seq![]);
    lemma_no_global_fault(term.global_events(), 0);
    assert forall|nam: NameView| !Seq::<NameView>::empty().contains(nam) by {}
}

/// Why a rule body fails the check.
#[derive(Debug, PartialEq, Eq)]
pub enum ScopeError {
    /// A lexical variable with no binder around it.
    UnboundVar(Name),
    /// An unscoped variable that is declared and never used.
    MissingUse(Name),
    /// An unscoped variable that is used and never declared.
    UnboundUnscoped(Name),
    /// An unscoped variable that is declared or used more than once.
    UsedMoreThanOnce(Name),
}

impl View for ScopeError {
    type V = ScopeErrorView;

    open spec fn view(&self) -> ScopeErrorView {
        match self {
            ScopeError::UnboundVar(nam) => ScopeErrorView::UnboundVar(nam@),
            ScopeError::MissingUse(nam) => ScopeErrorView::MissingUse(nam@),
            ScopeError::UnboundUnscoped(nam) => ScopeErrorView::UnboundUnscoped(nam@),
            ScopeError::UsedMoreThanOnce(nam) => ScopeErrorView::UsedMoreThanOnce(nam@),
        }
    }
}

/// The binders that are active at a point of a tree, innermost last. A name
/// stands in it once for each active binder that declares it, so a name that
/// an inner binder shadows stays bound when the inner binder ends.
pub struct Scope<'a> {
    names: Vec<&'a Name>,
}

impl<'a> View for Scope<'a> {
    type V = Seq<NameView>;

    closed spec fn view(&self) -> Seq<NameView> {
        views(self.names@)
    }
}

/// The last place at which `nam` stands in `scope`, or -1.
pub open spec fn last_index_of(scope: Seq<NameView>, nam: NameView) -> int
    decreases scope.len(),
{
    if scope.len() == 0 {
        -1
    } else if scope.last() == nam {
        scope.len() - 1
    } else {
        last_index_of(scope.drop_last(), nam)
    }
}

pub proof fn lemma_last_index_of(scope: Seq<NameView>, nam: NameView)
    ensures
        scope.contains(nam) <==> last_index_of(scope, nam) >= 0,
        -1 <= last_index_of(scope, nam) < scope.len(),
        last_index_of(scope, nam) >= 0 ==> scope[last_index_of(scope, nam)] == nam,
        forall|i: int| last_index_of(scope, nam) < i < scope.len() ==> scope[i] != nam,
    decreases scope.len(),
{
    if scope.len() > 0 {
        lemma_last_index_of(scope.drop_last(), nam);
        if scope.last() != nam {
            if scope.contains(nam) {
                let i = choose|i: int| 0 <= i < scope.len() && scope[i] == nam;
                assert(scope.drop_last()[i] == nam);
            }
            if scope.drop_last().contains(nam) {
                let i = choose|i: int| 0 <= i < scope.len() - 1 && scope.drop_last()[i] == nam;
                assert(scope[i] == nam);
            }
            assert forall|i: int| last_index_of(scope, nam) < i < scope.len() implies scope[i]
                != nam by {
                if i < scope.len() - 1 {
                    assert(scope.drop_last()[i] != nam);
                }
            }
        }
    }
}

impl<'a> Scope<'a> {
    /// The scope in which no binder is active.
    pub fn new() -> (scope: Scope<'a>)
        ensures
            scope@ == Seq::<NameView>::empty(),
    {
        let scope = Scope { names: Vec::new() };
        assert(scope@ =~= Seq::<NameView>::empty());
        scope
    }

    /// Whether some active binder declares `nam`.
    pub fn contains_key(&self, nam: &Name) -> (found: bool)
        ensures
            found == self@.contains(nam@),
    {
        let mut i: usize = 0;
        while i < self.names.len()
            invariant
                i <= self.names.len(),
                forall|j: int| 0 <= j < i ==> self@[j] != nam@,
            decreases self.names.len() - i,
        {
            if self.names[i].same(nam) {
                assert(self@[i as int] == nam@);
                return true;
            }
            i += 1;
        }
        false
    }

    /// The number of active binders.
    pub fn len(&self) -> (count: usize)
        ensures
            count == self@.len(),
    {
        self.names.len()
    }

    /// Ends the `count` innermost binders.
    fn leave(&mut self, count: usize)
        requires
            count <= old(self)@.len(),
        ensures
            final(self)@ == old(self)@.take(old(self)@.len() - count),
    {
        let keep = self.names.len() - count;
        self.names.truncate(keep);
        assert(self@ =~= old(self)@.take(old(self)@.len() - count));
    }

    /// Makes each of `names` an active binder, in order.
    fn enter(&mut self, names: &Vec<&'a Name>)
        ensures
            final(self)@ == old(self)@ + views(names@),
    {
        let mut i: usize = 0;
        while i < names.len()
            invariant
                i <= names.len(),
                self@ == old(self)@ + views(names@).take(i as int),
            decreases names.len() - i,
        {
            let ghost before = self.names@;
            self.names.push(names[i]);
            assert(self.names@ == before.push(names@[i as int]));
            assert(views(self.names@) =~= views(before).push(names@[i as int]@));
            assert(views(names@).take(i + 1) =~= views(names@).take(i as int).push(
                names@[i as int]@,
            ));
            assert(self@ =~= old(self)@ + views(names@).take(i + 1));
            i += 1;
        }
        assert(views(names@).take(names.len() as int) =~= views(names@));
    }
}

/// Makes `nam` an active binder, unless the binder discards its value.
pub fn push_scope<'a>(nam: Option<&'a Name>, scope: &mut Scope<'a>)
    ensures
        final(scope)@ == match nam {
            Some(n) => old(scope)@.push(n@),
            None => old(scope)@,
        },
{
    if let Some(n) = nam {
        scope.names.push(n);
        assert(scope@ =~= old(scope)@.push(n@));
    }
}

/// Ends the innermost active binder of `nam`, unless the binder discards
/// its value.
pub fn pop_scope<'a>(nam: Option<&Name>, scope: &mut Scope<'a>)
    requires
        nam matches Some(n) ==> old(scope)@.contains(n@),
    ensures
        final(scope)@ == match nam {
            Some(n) => old(scope)@.remove(last_index_of(old(scope)@, n@)),
            None => old(scope)@,
        },
{
    if let Some(n) = nam {
        proof {
            lemma_last_index_of(scope@, n@);
        }
        let mut i: usize = scope.names.len();
        while i > 0
            invariant
                i <= scope.names.len(),
                nam == Some(n),
                scope@ == old(scope)@,
                last_index_of(scope@, n@) < i,
                0 <= last_index_of(scope@, n@),
                forall|j: int| last_index_of(scope@, n@) < j < scope@.len() ==> scope@[j] != n@,
                scope@[last_index_of(scope@, n@)] == n@,
            decreases i,
        {
            i -= 1;
            if scope.names[i].same(n) {
                assert(scope@[i as int] == n@);
                assert(i as int == last_index_of(old(scope)@, n@));
                let ghost before = scope.names@;
                scope.names.remove(i);
                assert(scope.names@ == before.remove(i as int));
                assert(views(scope.names@) =~= views(before).remove(i as int));
                return ;
            }
        }
    }
}

/// The unscoped variables met so far, each occurrence in the order it was
/// met.
pub struct Globals<'a> {
    events: Vec<(&'a Name, bool)>,
}

/// The occurrences that a list of names and kinds stands for.
pub open spec fn event_views(events: Seq<(&Name, bool)>) -> Seq<GlobalEvent> {
    Seq::new(events.len(), |i: int| GlobalEvent { name: events[i].0@, declares: events[i].1 })
}

impl<'a> View for Globals<'a> {
    type V = Seq<GlobalEvent>;

    closed spec fn view(&self) -> Seq<GlobalEvent> {
        event_views(self.events@)
    }
}

impl<'a> Globals<'a> {
    /// No occurrence yet.
    pub fn new() -> (globals: Globals<'a>)
        ensures
            globals@ == Seq::<GlobalEvent>::empty(),
    {
        let globals = Globals { events: Vec::new() };
        assert(globals@ =~= Seq::<GlobalEvent>::empty());
        globals
    }

    /// Records one more occurrence of `nam`.
    fn record(&mut self, nam: &'a Name, declares: bool)
        ensures
            final(self)@ == old(self)@.push(GlobalEvent { name: nam@, declares }),
    {
        self.events.push((nam, declares));
        assert(self@ =~= old(self)@.push(GlobalEvent { name: nam@, declares }));
    }
}

/// A step that the traversal still has to take.
enum Work<'a> {
    /// Check a tree under the binders that its parent declares over it.
    Visit { term: &'a Term, binders: Vec<&'a Name> },
    /// End the innermost binders, as many as `count`.
    Leave { count: usize },
}

enum WorkView {
    Visit { term: TermView, binders: Seq<NameView> },
    Leave { count: nat },
}

impl<'a> View for Work<'a> {
    type V = WorkView;

    closed spec fn view(&self) -> WorkView {
        match self {
            Work::Visit { term, binders } => WorkView::Visit {
                term: term@,
                binders: views(binders@),
            },
            Work::Leave { count } => WorkView::Leave { count: *count as nat },
        }
    }
}

/// The first unbound variable that the steps in `work` will meet, taken
/// from the last to the first, in a scope that holds `scope` now.
spec fn pending_unbound(work: Seq<WorkView>, scope: Seq<NameView>) -> Option<NameView>
    decreases work.len(),
{
    if work.len() == 0 {
        None
    } else {
        match work.last() {
            WorkView::Visit { term, binders } => match term.unbound_var(scope + binders) {
                Some(nam) => Some(nam),
                None => pending_unbound(work.drop_last(), scope),
            },
            WorkView::Leave { count } => pending_unbound(
                work.drop_last(),
                scope.take(scope.len() - count),
            ),
        }
    }
}

/// The occurrences of unscoped variables that the steps in `work` will
/// record.
spec fn pending_events(work: Seq<WorkView>) -> Seq<GlobalEvent>
    decreases work.len(),
{
    if work.len() == 0 {
        seq![]
    } else {
        match work.last() {
            WorkView::Visit { term, .. } => term.global_events() + pending_events(work.drop_last()),
            WorkView::Leave { .. } => pending_events(work.drop_last()),
        }
    }
}

/// The scope that the steps in `work` leave behind, and whether each of
/// them finds as many binders as it ends.
spec fn pending_scope(work: Seq<WorkView>, scope: Seq<NameView>) -> Option<Seq<NameView>>
    decreases work.len(),
{
    if work.len() == 0 {
        Some(scope)
    } else {
        match work.last() {
            WorkView::Visit { .. } => pending_scope(work.drop_last(), scope),
            WorkView::Leave { count } => if count <= scope.len() {
                pending_scope(work.drop_last(), scope.take(scope.len() - count))
            } else {
                None
            },
        }
    }
}

/// A bound on the number of steps that `work` still stands for.
spec fn pending_weight(work: Seq<WorkView>) -> nat
    decreases work.len(),
{
    if work.len() == 0 {
        0
    } else {
        pending_weight(work.drop_last()) + match work.last() {
            WorkView::Visit { term, .. } => 2 * term.size(),
            WorkView::Leave { .. } => 1,
        }
    }
}

proof fn lemma_pending_push(work: Seq<WorkView>, item: WorkView, scope: Seq<NameView>)
    ensures
        pending_unbound(work.push(item), scope) == match item {
            WorkView::Visit { term, binders } => match term.unbound_var(scope + binders) {
                Some(nam) => Some(nam),
                None => pending_unbound(work, scope),
            },
            WorkView::Leave { count } => pending_unbound(work, scope.take(scope.len() - count)),
        },
        pending_events(work.push(item)) == match item {
            WorkView::Visit { term, .. } => term.global_events() + pending_events(work),
            WorkView::Leave { .. } => pending_events(work),
        },
        pending_scope(work.push(item), scope) == match item {
            WorkView::Visit { .. } => pending_scope(work, scope),
            WorkView::Leave { count } => if count <= scope.len() {
                pending_scope(work, scope.take(scope.len() - count))
            } else {
                None
            },
        },
        pending_weight(work.push(item)) == pending_weight(work) + match item {
            WorkView::Visit { term, .. } => 2 * term.size(),
            WorkView::Leave { .. } => 1,
        },
{
    assert(work.push(item).drop_last() =~= work);
    assert(work.push(item).last() == item);
}

fn push_work<'a>(work: &mut Vec<Work<'a>>, item: Work<'a>)
    ensures
        views(final(work)@) == views(old(work)@).push(item@),
{
    work.push(item);
    assert(views(work@) =~= views(old(work)@).push(item@));
}

fn pop_work<'a>(work: &mut Vec<Work<'a>>) -> (item: Option<Work<'a>>)
    ensures
        match item {
            Some(step) => views(old(work)@) == views(final(work)@).push(step@),
            None => views(old(work)@).len() == 0 && final(work)@ == old(work)@,
        },
{
    let item = work.pop();
    match &item {
        Some(step) => {
            assert(views(old(work)@) =~= views(work@).push(step@));
        },
        None => {},
    }
    item
}

/// Checks the lexical variables of `term` against the binders that `scope`
/// holds, and records in `globals` each occurrence of an unscoped variable.
///
/// A node binds the names of `child_binders` over a child while that child
/// is read, and no longer: a lambda its parameter, a `let`, an alias and a
/// duplication their names in what follows the value, an arm the
/// predecessor that its pattern names. The declaration of an unscoped
/// variable binds nothing.
///
/// Fails at the first variable that no active binder declares, and names
/// it. On success the scope is as it was found. The steps still to take
/// stand on a work list on the heap, so the depth of the term costs no
/// native stack.
pub fn check_uses<'a>(term: &'a Term, scope: &mut Scope<'a>, globals: &mut Globals<'a>) -> (res:
    Result<(), ScopeError>)
    requires
        term@.checkable(),
    ensures
        match term@.unbound_var(old(scope)@) {
            Some(nam) => res matches Err(e) && e@ == ScopeErrorView::UnboundVar(nam),
            None => res is Ok && final(scope)@ == old(scope)@ && final(globals)@ == old(globals)@
                + term@.global_events(),
        },
{
    let mut work: Vec<Work<'a>> = Vec::new();
    let root = Work::Visit { term, binders: Vec::new() };
    proof {
        lemma_pending_push(seq![], root@, scope@);
        assert(root@->binders =~= Seq::<NameView>::empty());
        assert(scope@ + root@->binders =~= scope@);
        assert(old(globals)@ + (term@.global_events() + seq![]) =~= old(globals)@
            + term@.global_events());
    }
    push_work(&mut work, root);
    assert(views(work@) =~= seq![root@]);
    loop
        invariant
            pending_unbound(views(work@), scope@) == term@.unbound_var(old(scope)@),
            globals@ + pending_events(views(work@)) == old(globals)@ + term@.global_events(),
            pending_scope(views(work@), scope@) == Some(old(scope)@),
        decreases pending_weight(views(work@)),
    {
        let ghost scope_before = scope@;
        let ghost globals_before = globals@;
        let step = pop_work(&mut work);
        let ghost rest = views(work@);
        match step {
            None => {
                assert(globals@ + seq![] =~= globals@);
                return Ok(());
            },
            Some(Work::Leave { count }) => {
                proof {
                    lemma_pending_push(rest, WorkView::Leave { count: count as nat }, scope@);
                }
                scope.leave(count);
            },
            Some(Work::Visit { term: node, binders }) => {
                let ghost item = WorkView::Visit { term: node@, binders: views(binders@) };
                proof {
                    lemma_pending_push(rest, item, scope@);
                }
                scope.enter(&binders);
                let ghost inner = scope@;
                match node {
                    Term::Var { nam } => {
                        if !scope.contains_key(nam) {
                            return Err(ScopeError::UnboundVar(nam.clone()));
                        }
                    },
                    Term::Chn { nam, .. } => {
                        globals.record(nam, true);
                    },
                    Term::Lnk { nam } => {
                        globals.record(nam, false);
                    },
                    _ => {},
                }
                assert(globals@ == globals_before + node@.node.global_events());
                assert(node@.unbound_var(inner) == node@.unbound_var_from(inner, 0));
                let leave = Work::Leave { count: binders.len() };
                proof {
                    lemma_pending_push(rest, leave@, inner);
                    assert(inner.take(inner.len() - binders.len()) =~= scope_before);
                }
                push_work(&mut work, leave);
                let ghost base = views(work@);
                let kids = node.children();
                assert(node@.children.take(kids.len() as int) =~= node@.children);
                let mut i: usize = kids.len();
                while i > 0
                    invariant
                        i <= kids.len(),
                        views(kids@) == node@.children,
                        scope@ == inner,
                        pending_unbound(views(work@), inner) == match node@.unbound_var_from(
                            inner,
                            i as nat,
                        ) {
                            Some(nam) => Some(nam),
                            None => pending_unbound(base, inner),
                        },
                        pending_events(views(work@)) == node@.global_events_from(i as nat)
                            + pending_events(base),
                        pending_scope(views(work@), inner) == pending_scope(base, inner),
                        pending_weight(views(work@)) + 2 * nodes_in(
                            node@.children.take(i as int),
                        ) == pending_weight(base) + 2 * nodes_in(node@.children),
                    decreases i,
                {
                    i -= 1;
                    let kid: &'a Term = kids[i];
                    let kid_binders = node.child_binders(i);
                    let visit = Work::Visit { term: kid, binders: kid_binders };
                    proof {
                        lemma_pending_push(views(work@), visit@, inner);
                        assert(kid@ == node@.children[i as int]);
                        assert(node@.children.take(i + 1).drop_last() =~= node@.children.take(
                            i as int,
                        ));
                        assert(node@.global_events_from(i as nat) + pending_events(base)
                            =~= kid@.global_events() + (node@.global_events_from((i + 1) as nat)
                            + pending_events(base)));
                    }
                    push_work(&mut work, visit);
                }
                proof {
                    assert(globals@ + pending_events(views(work@)) =~= globals_before + (
                    node@.global_events() + pending_events(rest)));
                }
            },
        }
    }
}

impl<'a> Globals<'a> {
    /// How often `nam` was met as a declaration, when `declares` holds, or
    /// as a use.
    pub fn count(&self, nam: &Name, declares: bool) -> (count: usize)
        ensures
            count == occurrences(self@, GlobalEvent { name: nam@, declares }),
    {
        let ghost event = GlobalEvent { name: nam@, declares };
        let mut count: usize = 0;
        let mut i: usize = 0;
        while i < self.events.len()
            invariant
                i <= self.events.len(),
                count <= i,
                event == (GlobalEvent { name: nam@, declares }),
                count == occurrences(self@.take(i as int), event),
            decreases self.events.len() - i,
        {
            assert(self@.take(i + 1).drop_last() =~= self@.take(i as int));
            assert(self@.take(i + 1).last() == self@[i as int]);
            if self.events[i].1 == declares && self.events[i].0.same(nam) {
                count += 1;
            }
            i += 1;
        }
        assert(self@.take(i as int) =~= self@);
        count
    }

    /// The fault of the first occurrence whose variable is not declared
    /// once and used once.
    fn first_fault(&self) -> (res: Result<(), ScopeError>)
        ensures
            match first_global_fault(self@, 0) {
                Some(fault) => res matches Err(e) && e@ == fault,
                None => res is Ok,
            },
    {
        let mut i: usize = 0;
        while i < self.events.len()
            invariant
                i <= self.events.len(),
                first_global_fault(self@, 0) == first_global_fault(self@, i as nat),
            decreases self.events.len() - i,
        {
            let nam = self.events[i].0;
            assert(self@[i as int].name == nam@);
            let declared = self.count(nam, true);
            let used = self.count(nam, false);
            if used == 1 && declared == 1 {
            } else if used == 0 {
                return Err(ScopeError::MissingUse(nam.clone()));
            } else if declared == 0 {
                return Err(ScopeError::UnboundUnscoped(nam.clone()));
            } else {
                return Err(ScopeError::UsedMoreThanOnce(nam.clone()));
            }
            i += 1;
        }
        Ok(())
    }
}

impl Term {
    /// Checks that every variable of the term is bound, and that every
    /// unscoped variable is declared once and used once, in whatever order
    /// and at whatever depth the declaration and the use stand. An unbound
    /// variable is reported before any fault of an unscoped one; of those,
    /// the first in reading order whose variable is at fault.
    ///
    /// Expects references to be resolved, lists desugared and patterns
    /// compiled away.
    pub fn check_unbound_vars(&self) -> (res: Result<(), ScopeError>)
        requires
            self@.checkable(),
        ensures
            match self@.scope_verdict() {
                Ok(_) => res is Ok,
                Err(fault) => res matches Err(e) && e@ == fault,
            },
    {
        let mut scope = Scope::new();
        let mut globals = Globals::new();
        match check_uses(self, &mut scope, &mut globals) {
            Err(e) => {
                return Err(e);
            },
            Ok(_) => {},
        }
        assert(globals@ =~= self@.global_events());
        globals.first_fault()
    }

    /// Whether the term has only the shapes that the check accepts.
    pub fn is_checkable(&self) -> (checkable: bool)
        ensures
            checkable == self@.checkable(),
    {
        let mut work: Vec<&Term> = Vec::new();
        work.push(self);
        assert(work[0] == self);
        loop
            invariant
                self@.checkable() <==> forall|i: int|
                    0 <= i < work.len() ==> (#[trigger] work[i])@.checkable(),
            decreases nodes_in(views(work@)),
        {
            let ghost before = work@;
            match work.pop() {
                None => {
                    return true;
                },
                Some(node) => {
                    assert(before =~= work@.push(node));
                    assert(node == before[before.len() - 1]);
                    proof {
                        lemma_nodes_in_push(views(work@), node@);
                        assert(views(before) =~= views(work@).push(node@));
                    }
                    let plain = match node {
                        Term::List { .. } => {
                            assert(node@.node is List);
                            false
                        },
                        Term::Let { pat, .. } => {
                            assert(node@.node == NodeView::Let { pat: pat@ });
                            pat.is_plain()
                        },
                        _ => {
                            assert(!(node@.node is List) && !(node@.node is Let));
                            true
                        },
                    };
                    assert(plain == (!(node@.node is List) && (node@.node matches NodeView::Let {
                        pat,
                    } ==> pat.is_plain())));
                    if !plain {
                        assert(!node@.checkable());
                        return false;
                    }
                    let kids = node.children();
                    let ghost rest = work@;
                    let mut i: usize = 0;
                    while i < kids.len()
                        invariant
                            i <= kids.len(),
                            views(kids@) == node@.children,
                            work@ == rest + kids@.take(i as int),
                            nodes_in(views(work@)) == nodes_in(views(rest)) + nodes_in(
                                node@.children.take(i as int),
                            ),
                        decreases kids.len() - i,
                    {
                        proof {
                            lemma_nodes_in_push(views(work@), kids[i as int]@);
                            assert(kids[i as int]@ == node@.children[i as int]);
                            assert(node@.children.take(i + 1).drop_last() =~= node@.children.take(
                                i as int,
                            ));
                        }
                        let ghost prior = work@;
                        work.push(kids[i]);
                        assert(views(work@) =~= views(prior).push(kids[i as int]@));
                        assert(work@ =~= rest + kids@.take(i + 1));
                        i += 1;
                    }
                    assert(kids@.take(kids.len() as int) =~= kids@);
                    assert(node@.children.take(kids.len() as int) =~= node@.children);
                    assert(node@.checkable() <==> forall|j: int|
                        0 <= j < kids.len() ==> (#[trigger] kids[j])@.checkable()) by {
                        assert(kids.len() == node@.children.len());
                        if node@.checkable() {
                            assert forall|j: int| 0 <= j < kids.len() implies (
                            #[trigger] kids[j])@.checkable() by {
                                assert(views(kids@)[j] == kids[j]@);
                                assert(node@.children[j].checkable());
                            }
                        }
                        if forall|j: int| 0 <= j < kids.len() ==> (#[trigger] kids[j])@.checkable() {
                            assert forall|j: int| 0 <= j < node@.children.len() implies (
                            #[trigger] node@.children[j]).checkable() by {
                                assert(views(kids@)[j] == kids[j]@);
                            }
                        }
                    }
                    assert((forall|j: int| 0 <= j < before.len() ==> (#[trigger] before[j])@.checkable())
                        <==> (forall|j: int| 0 <= j < work.len() ==> (#[trigger] work[j])@.checkable()))
                        by {
                        if forall|j: int| 0 <= j < before.len() ==> (#[trigger] before[j])@.checkable() {
                            assert forall|j: int| 0 <= j < work.len() implies (#[trigger] work[j])@.checkable() by {
                                if j < rest.len() {
                                    assert(before[j] == work[j]);
                                } else {
                                    assert(work[j] == kids[j - rest.len()]);
                                    assert(node@.checkable());
                                }
                            }
                        }
                        if forall|j: int| 0 <= j < work.len() ==> (#[trigger] work[j])@.checkable() {
                            assert forall|j: int| 0 <= j < before.len() implies (#[trigger] before[j])@.checkable() by {
                                if j < rest.len() {
                                    assert(before[j] == work[j]);
                                } else {
                                    assert forall|k: int| 0 <= k < kids.len() implies (#[trigger] kids[k])@.checkable() by {
                                        assert(work[rest.len() + k] == kids[k]);
                                    }
                                }
                            }
                        }
                    }
                },
            }
        }
    }
}

impl ScopeErrorView {
    /// The text that reports the fault.
    pub open spec fn message(self) -> Seq<char> {
        match self {
            ScopeErrorView::UnboundVar(nam) => "Unbound variable '"@ + nam + "'"@,
            ScopeErrorView::MissingUse(nam) => "Missing unscoped variable use for '\u{3bb}$"@ + nam
                + "'"@,
            ScopeErrorView::UnboundUnscoped(nam) => "Unbound unscoped variable '$"@ + nam + "'"@,
            ScopeErrorView::UsedMoreThanOnce(nam) => "Unscoped variable '$"@ + nam
                + "' used more than once"@,
        }
    }
}

impl ScopeError {
    /// The text that reports the fault.
    pub fn message(&self) -> (text: String)
        ensures
            text@ == self@.message(),
    {
        match self {
            ScopeError::UnboundVar(nam) => {
                let mut text = String::from_str("Unbound variable '");
                text.append(nam.as_str());
                text.append("'");
                text
            },
            ScopeError::MissingUse(nam) => {
                let mut text = String::from_str("Missing unscoped variable use for '\u{3bb}$");
                text.append(nam.as_str());
                text.append("'");
                text
            },
            ScopeError::UnboundUnscoped(nam) => {
                let mut text = String::from_str("Unbound unscoped variable '$");
                text.append(nam.as_str());
                text.append("'");
                text
            },
            ScopeError::UsedMoreThanOnce(nam) => {
                let mut text = String::from_str("Unscoped variable '$");
                text.append(nam.as_str());
                text.append("' used more than once");
                text
            },
        }
    }
}

/// The fault of a rule body, with the display name of its definition.
#[derive(Debug, PartialEq, Eq)]
pub struct DefinitionError {
    pub definition: Name,
    pub error: ScopeError,
}

pub struct DefinitionErrorView {
    pub definition: NameView,
    pub error: ScopeErrorView,
}

impl DefinitionErrorView {
    /// The text that reports the fault.
    pub open spec fn message(self) -> Seq<char> {
        "In definition '"@ + self.definition + "': "@ + self.error.message()
    }
}

impl View for DefinitionError {
    type V = DefinitionErrorView;

    open spec fn view(&self) -> DefinitionErrorView {
        DefinitionErrorView { definition: self.definition@, error: self.error@ }
    }
}

impl DefinitionError {
    /// The text that reports the fault.
    pub fn message(&self) -> (text: String)
        ensures
            text@ == self@.message(),
    {
        let mut text = String::from_str("In definition '");
        text.append(self.definition.as_str());
        text.append("': ");
        let detail = self.error.message();
        text.append(detail.as_str());
        text
    }
}

impl BookView {
    /// Whether every definition has one rule, without patterns, whose body
    /// has only the shapes that the check accepts.
    pub open spec fn checkable(self) -> bool {
        forall|i: int|
            0 <= i < self.defs.len() ==> (#[trigger] self.defs[i]).has_single_rule()
                && self.defs[i].rules[0].body.checkable()
    }

    /// The fault of the first definition, from `index` on, whose body has
    /// one.
    pub open spec fn first_scope_fault(self, index: nat) -> Option<DefinitionErrorView>
        decreases self.defs.len() - index,
    {
        if index >= self.defs.len() {
            None
        } else {
            match self.defs[index as int].rules[0].body.scope_verdict() {
                Err(error) => Some(
                    DefinitionErrorView { definition: self.name_at(index as int), error },
                ),
                Ok(_) => self.first_scope_fault(index + 1),
            }
        }
    }
}

impl Book {
    /// Checks that there are no unbound variables in any definition, and
    /// that every unscoped variable of a body is declared once and used
    /// once. Stops at the first definition that fails, by rising
    /// identifier, and names it.
    pub fn check_unbound_vars(&self) -> (res: Result<(), DefinitionError>)
        requires
            self@.well_formed(),
            self@.checkable(),
        ensures
            match self@.first_scope_fault(0) {
                Some(fault) => res matches Err(e) && e@ == fault,
                None => res is Ok,
            },
    {
        let mut i: usize = 0;
        while i < self.len()
            invariant
                i <= self@.defs.len(),
                self@.well_formed(),
                self@.checkable(),
                self@.first_scope_fault(0) == self@.first_scope_fault(i as nat),
            decreases self@.defs.len() - i,
        {
            let def = self.def(i);
            assert(self@.defs[i as int].has_single_rule());
            match def.rules[0].body.check_unbound_vars() {
                Err(error) => {
                    let definition = self.name(def.def_id).unwrap().clone();
                    return Err(DefinitionError { definition, error });
                },
                Ok(_) => {},
            }
            i += 1;
        }
        Ok(())
    }

    /// Whether every definition has one rule, without patterns, whose body
    /// has only the shapes that the check accepts.
    pub fn is_checkable(&self) -> (checkable: bool)
        ensures
            checkable == self@.checkable(),
    {
        let mut i: usize = 0;
        while i < self.len()
            invariant
                i <= self@.defs.len(),
                forall|j: int|
                    0 <= j < i ==> (#[trigger] self@.defs[j]).has_single_rule()
                        && self@.defs[j].rules[0].body.checkable(),
            decreases self@.defs.len() - i,
        {
            let def = self.def(i);
            if !def.has_single_rule() {
                return false;
            }
            if !def.rules[0].body.is_checkable() {
                return false;
            }
            i += 1;
        }
        true
    }
}

} // verus!
