//! The book: the definitions of a program, and the display name of each.

use crate::term::{views, DefId, Name, NameView, Pattern, PatternView, Term, TermView};
use vstd::prelude::*;

verus! {

/// One rule of a definition: the patterns of its arguments, and its body.
#[derive(Debug, PartialEq, Eq)]
pub struct Rule {
    pub pats: Vec<Pattern>,
    pub body: Term,
}

pub struct RuleView {
    pub pats: Seq<PatternView>,
    pub body: TermView,
}

impl View for Rule {
    type V = RuleView;

    open spec fn view(&self) -> RuleView {
        RuleView { pats: views(self.pats@), body: self.body@ }
    }
}

/// A definition: its identifier and its rules. Once pattern matching is
/// compiled away it has one rule, and that rule has no patterns.
#[derive(Debug, PartialEq, Eq)]
pub struct Definition {
    pub def_id: DefId,
    pub rules: Vec<Rule>,
}

pub struct DefinitionView {
    pub def_id: DefId,
    pub rules: Seq<RuleView>,
}

impl View for Definition {
    type V = DefinitionView;

    open spec fn view(&self) -> DefinitionView {
        DefinitionView { def_id: self.def_id, rules: views(self.rules@) }
    }
}

impl DefinitionView {
    /// Whether the definition has one rule, without patterns.
    pub open spec fn has_single_rule(self) -> bool {
        self.rules.len() == 1 && self.rules[0].pats.len() == 0
    }
}

impl Definition {
    /// Whether pattern matching is compiled away: the definition has one
    /// rule, without patterns.
    pub fn has_single_rule(&self) -> (single: bool)
        ensures
            single == self@.has_single_rule(),
    {
        self.rules.len() == 1 && self.rules[0].pats.len() == 0
    }
}

/// The definitions of a program, in the order of their identifiers, and the
/// display name of every identifier that was given out.
#[derive(Debug, PartialEq, Eq)]
pub struct Book {
    /// The definitions, by rising identifier.
    pub defs: Vec<Definition>,
    /// The display names: that of identifier `i` stands at `i`.
    pub names: Vec<Name>,
}

pub struct BookView {
    /// The definitions, by rising identifier.
    pub defs: Seq<DefinitionView>,
    /// The display names: that of identifier `i` stands at `i`.
    pub names: Seq<NameView>,
}

impl BookView {
    /// Whether the identifiers rise from one definition to the next, and
    /// each of them has a display name.
    pub open spec fn well_formed(self) -> bool {
        &&& forall|i: int, j: int|
            0 <= i < j < self.defs.len() ==> (#[trigger] self.defs[i]).def_id.0 < (
            #[trigger] self.defs[j]).def_id.0
        &&& forall|i: int|
            0 <= i < self.defs.len() ==> (#[trigger] self.defs[i]).def_id.0 < self.names.len()
    }

    /// The display name of the definition at `index`.
    pub open spec fn name_at(self, index: int) -> NameView {
        self.names[self.defs[index].def_id.0 as int]
    }
}

impl View for Book {
    type V = BookView;

    open spec fn view(&self) -> BookView {
        BookView { defs: views(self.defs@), names: views(self.names@) }
    }
}

impl Book {
    /// The book without definitions.
    pub fn new() -> (book: Book)
        ensures
            book@.defs.len() == 0,
            book@.names.len() == 0,
            book@.well_formed(),
    {
        let book = Book { defs: Vec::new(), names: Vec::new() };
        assert(book@.defs =~= Seq::empty());
        assert(book@.names =~= Seq::empty());
        book
    }

    /// Whether the identifiers rise from one definition to the next, and
    /// each of them has a display name.
    pub fn is_well_formed(&self) -> (well_formed: bool)
        ensures
            well_formed == self@.well_formed(),
    {
        let mut i: usize = 0;
        while i < self.defs.len()
            invariant
                i <= self.defs.len(),
                forall|k: int| 0 <= k < i ==> (#[trigger] self@.defs[k]).def_id.0 < self@.names.len(),
                forall|j: int, k: int|
                    0 <= j < k < i ==> (#[trigger] self@.defs[j]).def_id.0 < (
                    #[trigger] self@.defs[k]).def_id.0,
            decreases self.defs.len() - i,
        {
            assert(self@.defs[i as int].def_id == self.defs[i as int].def_id);
            if self.defs[i].def_id.0 >= self.names.len() as u64 {
                return false;
            }
            if i > 0 {
                assert(self@.defs[i - 1].def_id == self.defs[i - 1].def_id);
                if self.defs[i - 1].def_id.0 >= self.defs[i].def_id.0 {
                    return false;
                }
            }
            i += 1;
        }
        true
    }

    /// The number of definitions.
    pub fn len(&self) -> (count: usize)
        ensures
            count == self@.defs.len(),
    {
        self.defs.len()
    }

    /// The definition at `index`, counted by rising identifier.
    pub fn def(&self, index: usize) -> (def: &Definition)
        requires
            index < self@.defs.len(),
        ensures
            def@ == self@.defs[index as int],
    {
        &self.defs[index]
    }

    /// The display name of the identifier `def_id`, if it was given out.
    pub fn name(&self, def_id: DefId) -> (name: Option<&Name>)
        ensures
            match name {
                Some(n) => def_id.0 < self@.names.len() && n@ == self@.names[def_id.0 as int],
                None => def_id.0 >= self@.names.len(),
            },
    {
        if def_id.0 < self.names.len() as u64 {
            Some(&self.names[def_id.0 as usize])
        } else {
            None
        }
    }

    /// Adds a definition under a new identifier, the next one free, and
    /// gives the identifier back.
    pub fn insert_def(&mut self, name: Name, rules: Vec<Rule>) -> (def_id: DefId)
        requires
            old(self)@.well_formed(),
        ensures
            final(self)@.well_formed(),
            def_id.0 == old(self)@.names.len(),
            final(self)@.names == old(self)@.names.push(name@),
            final(self)@.defs == old(self)@.defs.push(
                DefinitionView { def_id, rules: views(rules@) },
            ),
    {
        let def_id = DefId(self.names.len() as u64);
        self.names.push(name);
        self.defs.push(Definition { def_id, rules });
        assert(self@.names =~= old(self)@.names.push(name@));
        assert(self@.defs =~= old(self)@.defs.push(
            DefinitionView { def_id, rules: views(rules@) },
        ));
        def_id
    }
}

} // verus!
