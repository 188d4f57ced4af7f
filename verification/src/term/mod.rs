//! The term tree, the definition book, and the uniform view of a term as a
//! labelled node above an ordered sequence of children.

use vstd::prelude::*;

pub mod book;
pub mod check;
pub mod children;
pub mod load_book;
pub mod rewrite;
pub mod transform;

pub use book::{Book, BookView, Definition, DefinitionView, Rule, RuleView};

verus! {

/// The mathematical value of a name: its characters.
pub type NameView = Seq<char>;

/// An identifier, used both for lexical variables and for the labels of
/// unscoped variables. Two names are the same when their characters are.
#[derive(Debug, PartialEq, Eq)]
pub struct Name(pub String);

impl View for Name {
    type V = NameView;

    open spec fn view(&self) -> NameView {
        self.0@
    }
}

impl Name {
    pub fn new(value: &str) -> (name: Name)
        ensures
            name@ == value@,
    {
        Name(value.to_owned())
    }

    pub fn as_str(&self) -> (text: &str)
        ensures
            text@ == self@,
    {
        self.0.as_str()
    }

    /// Whether two names have the same characters.
    pub fn same(&self, other: &Name) -> (same: bool)
        ensures
            same == (self@ == other@),
    {
        self.0 == other.0
    }
}

impl Clone for Name {
    fn clone(&self) -> (copy: Name)
        ensures
            copy@ == self@,
    {
        Name(self.0.clone())
    }
}

/// The view of an optional name.
pub open spec fn opt_name_view(nam: Option<Name>) -> Option<NameView> {
    match nam {
        Some(n) => Some(n@),
        None => None,
    }
}

/// The label that ties a duplication to the superpositions it splits.
#[derive(Clone, Copy, Debug, PartialEq, Eq, Structural)]
pub enum Tag {
    Auto,
    Static,
    Numbered(u32),
}

/// A binary numeric operator.
#[derive(Clone, Copy, Debug, PartialEq, Eq, Structural)]
pub enum Op {
    Add,
    Sub,
    Mul,
    Div,
    Mod,
    Eq,
    Ne,
    Lt,
    Gt,
    Lte,
    Gte,
    And,
    Or,
    Xor,
    Lsh,
    Rsh,
}

/// The stable identifier of a definition.
#[derive(Clone, Copy, Debug, PartialEq, Eq, Structural)]
pub struct DefId(pub u64);

/// A numeric pattern: zero, or a successor that may name its predecessor.
/// `Succ(None)` has not been given a binder yet; `Succ(Some(None))` discards
/// the predecessor.
#[derive(Debug, PartialEq, Eq)]
pub enum MatchNum {
    Zero,
    Succ(Option<Option<Name>>),
}

pub enum MatchNumView {
    Zero,
    Succ(Option<Option<NameView>>),
}

impl View for MatchNum {
    type V = MatchNumView;

    open spec fn view(&self) -> MatchNumView {
        match self {
            MatchNum::Zero => MatchNumView::Zero,
            MatchNum::Succ(None) => MatchNumView::Succ(None),
            MatchNum::Succ(Some(nam)) => MatchNumView::Succ(Some(opt_name_view(*nam))),
        }
    }
}

/// What a `let` or the arm of a `match` takes a value apart by.
#[derive(Debug, PartialEq, Eq)]
pub enum Pattern {
    Var(Option<Name>),
    Num(MatchNum),
    Tup(Box<Pattern>, Box<Pattern>),
}

pub enum PatternView {
    Var(Option<NameView>),
    Num(MatchNumView),
    Tup(Box<PatternView>, Box<PatternView>),
}

/// The pattern as a mathematical value.
pub open spec fn pattern_view(pat: Pattern) -> PatternView
    decreases pat,
{
    match pat {
        Pattern::Var(nam) => PatternView::Var(opt_name_view(nam)),
        Pattern::Num(num) => PatternView::Num(num@),
        Pattern::Tup(fst, snd) => PatternView::Tup(
            Box::new(pattern_view(*fst)),
            Box::new(pattern_view(*snd)),
        ),
    }
}

impl View for Pattern {
    type V = PatternView;

    open spec fn view(&self) -> PatternView {
        pattern_view(*self)
    }
}

/// The names an optional binder declares: one, or none when it discards.
pub open spec fn opt_names(nam: Option<NameView>) -> Seq<NameView> {
    match nam {
        Some(n) => seq![n],
        None => seq![],
    }
}

/// The views of a sequence of values, in order.
pub open spec fn views<T: View>(items: Seq<T>) -> Seq<T::V> {
    items.map_values(|item: T| item@)
}

impl MatchNumView {
    /// The predecessor name that a successor pattern binds, if it names one.
    pub open spec fn binds(self) -> Seq<NameView> {
        match self {
            MatchNumView::Succ(Some(nam)) => opt_names(nam),
            _ => seq![],
        }
    }
}

impl PatternView {
    /// The names the pattern binds, in the order it declares them.
    pub open spec fn binds(self) -> Seq<NameView>
        decreases self,
    {
        match self {
            PatternView::Var(nam) => opt_names(nam),
            PatternView::Num(num) => num.binds(),
            PatternView::Tup(fst, snd) => fst.binds() + snd.binds(),
        }
    }

    /// The names the pattern binds when it heads the arm of a `match`: only
    /// the predecessor of a successor pattern.
    pub open spec fn arm_binds(self) -> Seq<NameView> {
        match self {
            PatternView::Num(num) => num.binds(),
            _ => seq![],
        }
    }

    /// The two shapes a `let` may still have once patterns are compiled
    /// away: one variable, or a pair of variables.
    pub open spec fn is_plain(self) -> bool {
        match self {
            PatternView::Var(_) => true,
            PatternView::Tup(fst, snd) => *fst is Var && *snd is Var,
            PatternView::Num(_) => false,
        }
    }
}

impl Clone for MatchNum {
    fn clone(&self) -> (copy: MatchNum)
        ensures
            copy@ == self@,
    {
        match self {
            MatchNum::Zero => MatchNum::Zero,
            MatchNum::Succ(None) => MatchNum::Succ(None),
            MatchNum::Succ(Some(None)) => MatchNum::Succ(Some(None)),
            MatchNum::Succ(Some(Some(nam))) => MatchNum::Succ(Some(Some(nam.clone()))),
        }
    }
}

impl Clone for Pattern {
    fn clone(&self) -> (copy: Pattern)
        ensures
            copy@ == self@,
        decreases self,
    {
        match self {
            Pattern::Var(None) => Pattern::Var(None),
            Pattern::Var(Some(nam)) => Pattern::Var(Some(nam.clone())),
            Pattern::Num(num) => Pattern::Num(num.clone()),
            Pattern::Tup(fst, snd) => {
                let fst_copy = (**fst).clone();
                let snd_copy = (**snd).clone();
                Pattern::Tup(Box::new(fst_copy), Box::new(snd_copy))
            },
        }
    }
}

impl MatchNum {
    /// Appends the name the pattern binds, if any.
    pub fn collect_binds<'a>(&'a self, names: &mut Vec<&'a Name>)
        ensures
            views(final(names)@) == views(old(names)@) + self@.binds(),
    {
        match self {
            MatchNum::Succ(Some(Some(nam))) => {
                names.push(nam);
                assert(views(names@) =~= views(old(names)@) + self@.binds());
            },
            _ => {
                assert(views(names@) =~= views(old(names)@) + self@.binds());
            },
        }
    }
}

impl Pattern {
    /// Appends the names the pattern binds, in the order it declares them.
    pub fn collect_binds<'a>(&'a self, names: &mut Vec<&'a Name>)
        ensures
            views(final(names)@) == views(old(names)@) + self@.binds(),
        decreases self,
    {
        match self {
            Pattern::Var(Some(nam)) => {
                names.push(nam);
                assert(views(names@) =~= views(old(names)@) + self@.binds());
            },
            Pattern::Var(None) => {
                assert(views(names@) =~= views(old(names)@) + self@.binds());
            },
            Pattern::Num(num) => {
                num.collect_binds(names);
            },
            Pattern::Tup(fst, snd) => {
                fst.collect_binds(names);
                snd.collect_binds(names);
                assert(views(names@) =~= views(old(names)@) + self@.binds());
            },
        }
    }

    /// The names the pattern binds, in the order it declares them.
    pub fn binds(&self) -> (names: Vec<&Name>)
        ensures
            views(names@) == self@.binds(),
    {
        let mut names: Vec<&Name> = Vec::new();
        self.collect_binds(&mut names);
        assert(views(names@) =~= self@.binds());
        names
    }

    /// The names the pattern binds at the head of a `match` arm.
    pub fn arm_binds(&self) -> (names: Vec<&Name>)
        ensures
            views(names@) == self@.arm_binds(),
    {
        let mut names: Vec<&Name> = Vec::new();
        match self {
            Pattern::Num(num) => {
                num.collect_binds(&mut names);
            },
            _ => {},
        }
        assert(views(names@) =~= self@.arm_binds());
        names
    }

    /// Whether the pattern is one a `let` may still have once patterns are
    /// compiled away.
    pub fn is_plain(&self) -> (plain: bool)
        ensures
            plain == self@.is_plain(),
    {
        match self {
            Pattern::Var(_) => true,
            Pattern::Tup(fst, snd) => {
                let fst_var = match &**fst {
                    Pattern::Var(_) => true,
                    _ => false,
                };
                let snd_var = match &**snd {
                    Pattern::Var(_) => true,
                    _ => false,
                };
                assert(fst_var == ((**fst)@ is Var));
                assert(snd_var == ((**snd)@ is Var));
                fst_var && snd_var
            },
            Pattern::Num(_) => false,
        }
    }
}

/// A term of the language. Every pass reads a term through `children` and
/// `child_binders`, and rewrites it through `take_children` and
/// `put_children`, so that the shape of each variant is spelled out in one
/// place.
#[derive(Debug, PartialEq, Eq)]
#[allow(inconsistent_fields)]
pub enum Term {
    /// A function: it binds `nam` in its body, or discards its argument.
    Lam { tag: Tag, nam: Option<Name>, bod: Box<Term> },
    /// A use of a lexical variable.
    Var { nam: Name },
    /// The declaration of the unscoped variable `nam`, above a body.
    Chn { tag: Tag, nam: Name, bod: Box<Term> },
    /// The use of an unscoped variable.
    Lnk { nam: Name },
    /// `let pat = val; nxt`: binds the names of `pat` in `nxt`.
    Let { pat: Pattern, val: Box<Term>, nxt: Box<Term> },
    /// `use nam = val; nxt`: an alias for `val` in `nxt`.
    Use { nam: Option<Name>, val: Box<Term>, nxt: Box<Term> },
    /// An application.
    App { tag: Tag, fun: Box<Term>, arg: Box<Term> },
    /// A pair.
    Tup { fst: Box<Term>, snd: Box<Term> },
    /// A duplication: it splits `val` and binds the halves in `nxt`.
    Dup { tag: Tag, fst: Option<Name>, snd: Option<Name>, val: Box<Term>, nxt: Box<Term> },
    /// A superposition of two values.
    Sup { tag: Tag, fst: Box<Term>, snd: Box<Term> },
    /// A number.
    Num { val: u64 },
    /// A string.
    Str { val: String },
    /// A list, before it is desugared.
    List { els: Vec<Term> },
    /// A binary numeric operation.
    Opx { op: Op, fst: Box<Term>, snd: Box<Term> },
    /// A match on `scrutinee`: an arm whose pattern is a successor that
    /// names its predecessor binds that name in its body.
    Match { scrutinee: Box<Term>, arms: Vec<(Pattern, Term)> },
    /// A reference to a definition.
    Ref { def_id: DefId },
    /// The erasure.
    Era,
}

/// What a node is, apart from its children.
#[allow(inconsistent_fields)]
pub enum NodeView {
    Lam { tag: Tag, nam: Option<NameView> },
    Var { nam: NameView },
    Chn { tag: Tag, nam: NameView },
    Lnk { nam: NameView },
    Let { pat: PatternView },
    Use { nam: Option<NameView> },
    App { tag: Tag },
    Tup,
    Dup { tag: Tag, fst: Option<NameView>, snd: Option<NameView> },
    Sup { tag: Tag },
    Num { val: u64 },
    Str { val: Seq<char> },
    List,
    Opx { op: Op },
    Match { pats: Seq<PatternView> },
    Ref { def_id: DefId },
    Era,
}

/// A term as a mathematical tree: a node above its children, in order.
pub struct TermView {
    pub node: NodeView,
    pub children: Seq<TermView>,
}

/// The term as a mathematical tree.
pub open spec fn term_view(term: Term) -> TermView
    decreases term,
{
    match term {
        Term::Lam { tag, nam, bod } => TermView {
            node: NodeView::Lam { tag, nam: opt_name_view(nam) },
            children: seq![term_view(*bod)],
        },
        Term::Var { nam } => TermView { node: NodeView::Var { nam: nam@ }, children: seq![] },
        Term::Chn { tag, nam, bod } => TermView {
            node: NodeView::Chn { tag, nam: nam@ },
            children: seq![term_view(*bod)],
        },
        Term::Lnk { nam } => TermView { node: NodeView::Lnk { nam: nam@ }, children: seq![] },
        Term::Let { pat, val, nxt } => TermView {
            node: NodeView::Let { pat: pat@ },
            children: seq![term_view(*val), term_view(*nxt)],
        },
        Term::Use { nam, val, nxt } => TermView {
            node: NodeView::Use { nam: opt_name_view(nam) },
            children: seq![term_view(*val), term_view(*nxt)],
        },
        Term::App { tag, fun, arg } => TermView {
            node: NodeView::App { tag },
            children: seq![term_view(*fun), term_view(*arg)],
        },
        Term::Tup { fst, snd } => TermView {
            node: NodeView::Tup,
            children: seq![term_view(*fst), term_view(*snd)],
        },
        Term::Dup { tag, fst, snd, val, nxt } => TermView {
            node: NodeView::Dup {
                tag,
                fst: opt_name_view(fst),
                snd: opt_name_view(snd),
            },
            children: seq![term_view(*val), term_view(*nxt)],
        },
        Term::Sup { tag, fst, snd } => TermView {
            node: NodeView::Sup { tag },
            children: seq![term_view(*fst), term_view(*snd)],
        },
        Term::Num { val } => TermView { node: NodeView::Num { val }, children: seq![] },
        Term::Str { val } => TermView { node: NodeView::Str { val: val@ }, children: seq![] },
        Term::List { els } => TermView {
            node: NodeView::List,
            children: Seq::new(
                els.len() as nat,
                |i: int|
                    if 0 <= i < els.len() {
                        term_view(els[i])
                    } else {
                        TermView { node: NodeView::Era, children: seq![] }
                    },
            ),
        },
        Term::Opx { op, fst, snd } => TermView {
            node: NodeView::Opx { op },
            children: seq![term_view(*fst), term_view(*snd)],
        },
        Term::Match { scrutinee, arms } => TermView {
            node: NodeView::Match { pats: Seq::new(arms.len() as nat, |i: int| arms[i].0@) },
            children: seq![term_view(*scrutinee)] + Seq::new(
                arms.len() as nat,
                |i: int|
                    if 0 <= i < arms.len() {
                        term_view(arms[i].1)
                    } else {
                        TermView { node: NodeView::Era, children: seq![] }
                    },
            ),
        },
        Term::Ref { def_id } => TermView {
            node: NodeView::Ref { def_id },
            children: seq![],
        },
        Term::Era => TermView { node: NodeView::Era, children: seq![] },
    }
}

impl View for Term {
    type V = TermView;

    open spec fn view(&self) -> TermView {
        term_view(*self)
    }
}

impl NodeView {
    /// The names the node binds over its child at `index`, in the order it
    /// declares them.
    pub open spec fn binders(self, index: int) -> Seq<NameView> {
        match self {
            NodeView::Lam { nam, .. } => if index == 0 {
                opt_names(nam)
            } else {
                seq![]
            },
            NodeView::Let { pat } => if index == 1 {
                pat.binds()
            } else {
                seq![]
            },
            NodeView::Use { nam } => if index == 1 {
                opt_names(nam)
            } else {
                seq![]
            },
            NodeView::Dup { fst, snd, .. } => if index == 1 {
                opt_names(fst) + opt_names(snd)
            } else {
                seq![]
            },
            NodeView::Match { pats } => if 1 <= index <= pats.len() {
                pats[index - 1].arm_binds()
            } else {
                seq![]
            },
            _ => seq![],
        }
    }

    /// Whether a node of this kind can stand above `count` children.
    pub open spec fn admits(self, count: nat) -> bool {
        match self {
            NodeView::Var { .. }
            | NodeView::Lnk { .. }
            | NodeView::Num { .. }
            | NodeView::Str { .. }
            | NodeView::Ref { .. }
            | NodeView::Era => count == 0,
            NodeView::Lam { .. } | NodeView::Chn { .. } => count == 1,
            NodeView::List => true,
            NodeView::Match { pats } => count == pats.len() + 1,
            _ => count == 2,
        }
    }
}

impl TermView {
    /// A node without children.
    pub open spec fn leaf(node: NodeView) -> TermView {
        TermView { node, children: seq![] }
    }

    /// The erasure value.
    pub open spec fn era() -> TermView {
        TermView::leaf(NodeView::Era)
    }

    /// The same node above other children.
    pub open spec fn with_children(self, children: Seq<TermView>) -> TermView {
        TermView { node: self.node, children }
    }

    /// The same node with its children gone: above no child where the node
    /// is a list, and else above an erasure in the place of each child.
    pub open spec fn emptied(self) -> TermView {
        TermView {
            node: self.node,
            children: if self.node is List {
                seq![]
            } else {
                Seq::new(self.children.len(), |i: int| TermView::era())
            },
        }
    }

    /// Whether every node of the tree has as many children as its kind
    /// admits. The view of every `Term` is such a tree.
    pub open spec fn well_formed(self) -> bool
        decreases self,
    {
        &&& self.node.admits(self.children.len())
        &&& forall|i: int| 0 <= i < self.children.len() ==> (#[trigger] self.children[i]).well_formed()
    }
}

impl TermView {
    /// Whether the variable `nam` occurs free in the tree: at a place that
    /// lies under no binder of `nam` inside the tree.
    pub open spec fn has_free(self, nam: NameView) -> bool
        decreases self,
    {
        ||| self.node == (NodeView::Var { nam })
        ||| exists|i: int|
            0 <= i < self.children.len() && !self.node.binders(i).contains(nam) && (
            #[trigger] self.children[i]).has_free(nam)
    }

    /// The number of nodes of the tree.
    pub open spec fn size(self) -> nat
        decreases self,
    {
        1 + nodes_in(self.children)
    }
}

/// The number of nodes of the trees in `terms`.
pub open spec fn nodes_in(terms: Seq<TermView>) -> nat
    decreases terms,
{
    if terms.len() == 0 {
        0
    } else {
        nodes_in(terms.drop_last()) + terms.last().size()
    }
}

pub proof fn lemma_nodes_in_push(terms: Seq<TermView>, term: TermView)
    ensures
        nodes_in(terms.push(term)) == nodes_in(terms) + term.size(),
{
    assert(terms.push(term).drop_last() =~= terms);
}

impl Default for Term {
    fn default() -> (term: Term)
        ensures
            term@ == TermView::era(),
    {
        Term::Era
    }
}

/// The view of every term is a well-formed tree.
pub proof fn lemma_view_well_formed(term: Term)
    ensures
        term@.well_formed(),
    decreases term,
{
    match term {
        Term::Lam { bod, .. } => {
            lemma_view_well_formed(*bod);
        },
        Term::Chn { bod, .. } => {
            lemma_view_well_formed(*bod);
        },
        Term::Let { val, nxt, .. } => {
            lemma_view_well_formed(*val);
            lemma_view_well_formed(*nxt);
        },
        Term::Use { val, nxt, .. } => {
            lemma_view_well_formed(*val);
            lemma_view_well_formed(*nxt);
        },
        Term::App { fun, arg, .. } => {
            lemma_view_well_formed(*fun);
            lemma_view_well_formed(*arg);
        },
        Term::Tup { fst, snd } => {
            lemma_view_well_formed(*fst);
            lemma_view_well_formed(*snd);
        },
        Term::Dup { val, nxt, .. } => {
            lemma_view_well_formed(*val);
            lemma_view_well_formed(*nxt);
        },
        Term::Sup { fst, snd, .. } => {
            lemma_view_well_formed(*fst);
            lemma_view_well_formed(*snd);
        },
        Term::Opx { fst, snd, .. } => {
            lemma_view_well_formed(*fst);
            lemma_view_well_formed(*snd);
        },
        Term::List { els } => {
            assert forall|i: int| 0 <= i < term@.children.len() implies (
            #[trigger] term@.children[i]).well_formed() by {
                lemma_view_well_formed(els[i]);
            }
        },
        Term::Match { scrutinee, arms } => {
            lemma_view_well_formed(*scrutinee);
            assert forall|i: int| 0 <= i < term@.children.len() implies (
            #[trigger] term@.children[i]).well_formed() by {
                if i > 0 {
                    lemma_view_well_formed(arms[i - 1].1);
                }
            }
        },
        _ => {},
    }
}

} // verus!
