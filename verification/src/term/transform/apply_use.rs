//! Inlining of aliases: `use name = value; rest` becomes `rest` with a copy
//! of `value` in the place of every free occurrence of `name`.

use crate::term::rewrite::{inline_aliases, lemma_subst_children, lemma_subst_replaces_every_free};
use crate::term::{Book, BookView, DefinitionView, NameView, NodeView, RuleView, Term, TermView};
use vstd::prelude::*;

verus! {

impl TermView {
    /// The tree without its named aliases. The children are inlined first;
    /// then, where the node is an alias with a name, the inlined value takes
    /// the place of the name in the inlined rest, and the rest takes the
    /// place of the node. An alias without a name stays.
    pub open spec fn apply_use(self) -> TermView
        decreases self, 1nat,
    {
        let children = self.inlined_children();
        match self.node {
            NodeView::Use { nam: Some(nam) } if children.len() == 2 => children[1].subst(
                nam,
                children[0],
            ),
            _ => TermView { node: self.node, children },
        }
    }

    /// The children of the tree, each without its named aliases.
    pub open spec fn inlined_children(self) -> Seq<TermView>
        decreases self, 0nat,
    {
        Seq::new(
            self.children.len(),
            |i: int|
                if 0 <= i < self.children.len() {
                    self.children[i].apply_use()
                } else {
                    self.children[i]
                },
        )
    }

    /// Whether no node of the tree is an alias that names what it binds.
    pub open spec fn alias_free(self) -> bool
        decreases self,
    {
        &&& !(self.node matches NodeView::Use { nam: Some(_) })
        &&& forall|i: int| 0 <= i < self.children.len() ==> (#[trigger] self.children[i]).alias_free()
    }

    /// The alias that binds `nam` to `value` in `rest`.
    pub open spec fn alias(nam: NameView, value: TermView, rest: TermView) -> TermView {
        TermView { node: NodeView::Use { nam: Some(nam) }, children: seq![value, rest] }
    }
}

impl RuleView {
    /// The rule with its body inlined.
    pub open spec fn apply_use(self) -> RuleView {
        RuleView { pats: self.pats, body: self.body.apply_use() }
    }
}

impl DefinitionView {
    /// The definition with the body of every rule inlined.
    pub open spec fn apply_use(self) -> DefinitionView {
        DefinitionView {
            def_id: self.def_id,
            rules: Seq::new(self.rules.len(), |j: int| self.rules[j].apply_use()),
        }
    }
}

impl BookView {
    /// The book with the body of every rule of every definition inlined.
    pub open spec fn apply_use(self) -> BookView {
        BookView {
            defs: Seq::new(self.defs.len(), |i: int| self.defs[i].apply_use()),
            names: self.names,
        }
    }
}

/// A tree in which no alias names what it binds is left as it is: inlining
/// changes nothing where there is nothing to inline. This holds in
/// particular of a tree without any alias.
pub proof fn lemma_apply_use_keeps_alias_free(term: TermView)
    requires
        term.alias_free(),
    ensures
        term.apply_use() == term,
    decreases term,
{
    assert forall|i: int| 0 <= i < term.children.len() implies term.inlined_children()[i]
        == term.children[i] by {
        lemma_apply_use_keeps_alias_free(term.children[i]);
    }
    assert(term.inlined_children() =~= term.children);
}

/// Replacing a variable of an alias-free tree by an alias-free tree gives
/// an alias-free tree.
pub proof fn lemma_subst_keeps_alias_free(term: TermView, from: NameView, to: TermView)
    requires
        term.alias_free(),
        to.alias_free(),
    ensures
        term.subst(from, to).alias_free(),
    decreases term,
{
    if term.node != (NodeView::Var { nam: from }) {
        lemma_subst_children(term, from, to);
        let after = term.subst(from, to);
        assert forall|i: int| 0 <= i < after.children.len() implies (
        #[trigger] after.children[i]).alias_free() by {
            assert(term.children[i].alias_free());
            if !term.node.binders(i).contains(from) {
                lemma_subst_keeps_alias_free(term.children[i], from, to);
            }
        }
    }
}

/// After inlining, no alias that names what it binds remains anywhere in
/// the tree.
pub proof fn lemma_apply_use_is_alias_free(term: TermView)
    requires
        term.well_formed(),
    ensures
        term.apply_use().alias_free(),
    decreases term,
{
    let children = term.inlined_children();
    assert forall|i: int| 0 <= i < children.len() implies (#[trigger] children[i]).alias_free() by {
        assert(term.children[i].well_formed());
        lemma_apply_use_is_alias_free(term.children[i]);
    }
    match term.node {
        NodeView::Use { nam: Some(nam) } => {
            assert(children.len() == 2);
            lemma_subst_keeps_alias_free(children[1], nam, children[0]);
        },
        _ => {},
    }
}

/// An alias whose value and rest hold no named alias is inlined to the
/// rest with the value in the place of every free occurrence of the name;
/// the alias node itself is gone, and no other takes its place. Where the
/// value does not mention the name, the name does not occur free any more.
pub proof fn lemma_apply_use_of_alias(nam: NameView, value: TermView, rest: TermView)
    requires
        value.alias_free(),
        rest.alias_free(),
    ensures
        TermView::alias(nam, value, rest).apply_use() == rest.subst(nam, value),
        rest.subst(nam, value).alias_free(),
        !value.has_free(nam) ==> !rest.subst(nam, value).has_free(nam),
{
    let term = TermView::alias(nam, value, rest);
    lemma_apply_use_keeps_alias_free(value);
    lemma_apply_use_keeps_alias_free(rest);
    assert(term.inlined_children() =~= seq![value, rest]);
    lemma_subst_keeps_alias_free(rest, nam, value);
    if !value.has_free(nam) {
        lemma_subst_replaces_every_free(rest, nam, value);
    }
}

/// Inlining twice gives what inlining once gives.
pub proof fn lemma_apply_use_idempotent(term: TermView)
    requires
        term.well_formed(),
    ensures
        term.apply_use().apply_use() == term.apply_use(),
{
    lemma_apply_use_is_alias_free(term);
    lemma_apply_use_keeps_alias_free(term.apply_use());
}

impl Term {
    /// Inlines the named aliases of the term: every `use name = value; rest`
    /// becomes `rest` with a copy of `value` in the place of every free
    /// occurrence of `name`, from the innermost alias outwards.
    pub fn apply_use(&mut self)
        ensures
            final(self)@ == old(self)@.apply_use(),
    {
        let mut term = Term::Era;
        std::mem::swap(self, &mut term);
        *self = inline_aliases(term);
    }
}

impl Book {
    /// Inlines the named aliases in the body of every rule of every
    /// definition.
    pub fn apply_use(&mut self)
        ensures
            final(self)@ == old(self)@.apply_use(),
    {
        let mut i: usize = 0;
        while i < self.defs.len()
            invariant
                i <= self.defs.len(),
                self.defs.len() == old(self).defs.len(),
                self@.names == old(self)@.names,
                forall|k: int| 0 <= k < i ==> (#[trigger] self.defs[k])@ == old(self).defs[k]@.apply_use(),
                forall|k: int| i <= k < self.defs.len() ==> (#[trigger] self.defs[k]) == old(self).defs[k],
            decreases self.defs.len() - i,
        {
            let ghost def_before = self.defs[i as int];
            let mut j: usize = 0;
            while j < self.defs[i].rules.len()
                invariant
                    i < self.defs.len(),
                    self.defs.len() == old(self).defs.len(),
                    self@.names == old(self)@.names,
                    def_before == old(self).defs[i as int],
                    j <= self.defs[i as int].rules.len(),
                    self.defs[i as int].def_id == def_before.def_id,
                    self.defs[i as int].rules.len() == def_before.rules.len(),
                    forall|k: int| 0 <= k < i ==> (#[trigger] self.defs[k])@ == old(self).defs[k]@.apply_use(),
                    forall|k: int| i < k < self.defs.len() ==> (#[trigger] self.defs[k]) == old(self).defs[k],
                    forall|m: int|
                        0 <= m < j ==> (#[trigger] self.defs[i as int].rules[m])@
                            == def_before.rules[m]@.apply_use(),
                    forall|m: int|
                        j <= m < def_before.rules.len() ==> (#[trigger] self.defs[i as int].rules[m])
                            == def_before.rules[m],
                decreases self.defs[i as int].rules.len() - j,
            {
                let mut body = Term::Era;
                std::mem::swap(&mut self.defs[i].rules[j].body, &mut body);
                self.defs[i].rules[j].body = inline_aliases(body);
                j += 1;
            }
            assert(self.defs[i as int]@ == def_before@.apply_use()) by {
                assert(self.defs[i as int]@.rules =~= def_before@.apply_use().rules);
            }
            i += 1;
        }
        assert(self@.defs =~= old(self)@.apply_use().defs);
    }
}

} // verus!
