use hvm_lang::term::{Book, MatchNum, Name, Pattern, Rule, Tag, Term};

fn nm(text: &str) -> Name {
    Name::new(text)
}

fn v(text: &str) -> Term {
    Term::Var { nam: nm(text) }
}

fn lambda(binder: Option<&str>, body: Term) -> Term {
    Term::Lam { tag: Tag::Static, nam: binder.map(nm), bod: Box::new(body) }
}

fn apply(fun: Term, arg: Term) -> Term {
    Term::App { tag: Tag::Static, fun: Box::new(fun), arg: Box::new(arg) }
}

fn alias(binder: Option<&str>, value: Term, rest: Term) -> Term {
    Term::Use { nam: binder.map(nm), val: Box::new(value), nxt: Box::new(rest) }
}

fn sample_without_alias() -> Term {
    Term::Let {
        pat: Pattern::Var(Some(nm("a"))),
        val: Box::new(Term::List { els: vec![v("x"), Term::Num { val: 7 }] }),
        nxt: Box::new(Term::Match {
            scrutinee: Box::new(v("a")),
            arms: vec![
                (Pattern::Num(MatchNum::Zero), Term::Str { val: String::from("zero") }),
                (
                    Pattern::Num(MatchNum::Succ(Some(Some(nm("p"))))),
                    Term::Dup {
                        tag: Tag::Numbered(1),
                        fst: Some(nm("l")),
                        snd: Some(nm("r")),
                        val: Box::new(v("p")),
                        nxt: Box::new(Term::Sup {
                            tag: Tag::Numbered(1),
                            fst: Box::new(v("l")),
                            snd: Box::new(v("r")),
                        }),
                    },
                ),
            ],
        }),
    }
}

#[test]
fn term_without_alias_is_left_as_it_is() {
    let mut term = sample_without_alias();
    term.apply_use();
    assert_eq!(term, sample_without_alias());
}

#[test]
fn alias_is_replaced_by_its_rest_with_copies_of_the_value() {
    // use id = λx x; (id id id)
    let mut term = alias(
        Some("id"),
        lambda(Some("x"), v("x")),
        apply(apply(v("id"), v("id")), v("id")),
    );
    term.apply_use();
    let id = || lambda(Some("x"), v("x"));
    assert_eq!(term, apply(apply(id(), id()), id()));
}

#[test]
fn inlining_twice_is_inlining_once() {
    let mut once = alias(
        Some("a"),
        Term::Num { val: 1 },
        alias(Some("b"), v("a"), Term::Tup { fst: Box::new(v("a")), snd: Box::new(v("b")) }),
    );
    once.apply_use();
    let mut twice = once.clone();
    twice.apply_use();
    assert_eq!(once, twice);
    assert_eq!(
        once,
        Term::Tup { fst: Box::new(Term::Num { val: 1 }), snd: Box::new(Term::Num { val: 1 }) }
    );
}

#[test]
fn bound_occurrences_are_not_replaced() {
    // use x = 1; (x λx x): only the first `x` is free.
    let mut term =
        alias(Some("x"), Term::Num { val: 1 }, apply(v("x"), lambda(Some("x"), v("x"))));
    term.apply_use();
    assert_eq!(term, apply(Term::Num { val: 1 }, lambda(Some("x"), v("x"))));
}

#[test]
fn aliases_nested_in_the_value_are_inlined_first() {
    // use a = (use b = 2; b); a
    let mut term = alias(Some("a"), alias(Some("b"), Term::Num { val: 2 }, v("b")), v("a"));
    term.apply_use();
    assert_eq!(term, Term::Num { val: 2 });
}

#[test]
fn inner_alias_shadows_the_outer_one() {
    // use a = 1; use a = 2; a
    let mut term =
        alias(Some("a"), Term::Num { val: 1 }, alias(Some("a"), Term::Num { val: 2 }, v("a")));
    term.apply_use();
    assert_eq!(term, Term::Num { val: 2 });
}

#[test]
fn alias_without_a_name_stays() {
    let mut term = alias(None, Term::Num { val: 1 }, alias(Some("a"), Term::Era, v("a")));
    term.apply_use();
    assert_eq!(term, alias(None, Term::Num { val: 1 }, Term::Era));
}

#[test]
fn aliases_below_other_nodes_are_inlined() {
    let mut term = Term::List {
        els: vec![
            alias(Some("a"), Term::Num { val: 1 }, v("a")),
            Term::Match {
                scrutinee: Box::new(alias(Some("b"), Term::Num { val: 2 }, v("b"))),
                arms: vec![(
                    Pattern::Num(MatchNum::Zero),
                    alias(Some("c"), Term::Num { val: 3 }, v("c")),
                )],
            },
        ],
    };
    term.apply_use();
    assert_eq!(
        term,
        Term::List {
            els: vec![
                Term::Num { val: 1 },
                Term::Match {
                    scrutinee: Box::new(Term::Num { val: 2 }),
                    arms: vec![(Pattern::Num(MatchNum::Zero), Term::Num { val: 3 })],
                },
            ],
        }
    );
}

#[test]
fn subst_replaces_free_occurrences_only() {
    let x = nm("x");
    let to = apply(v("f"), v("y"));
    let mut term = Term::Tup {
        fst: Box::new(v("x")),
        snd: Box::new(Term::Let {
            pat: Pattern::Tup(
                Box::new(Pattern::Var(Some(nm("x")))),
                Box::new(Pattern::Var(None)),
            ),
            val: Box::new(v("x")),
            nxt: Box::new(v("x")),
        }),
    };
    term.subst(&x, &to);
    assert_eq!(
        term,
        Term::Tup {
            fst: Box::new(apply(v("f"), v("y"))),
            snd: Box::new(Term::Let {
                pat: Pattern::Tup(
                    Box::new(Pattern::Var(Some(nm("x")))),
                    Box::new(Pattern::Var(None)),
                ),
                val: Box::new(apply(v("f"), v("y"))),
                nxt: Box::new(v("x")),
            }),
        }
    );
}

#[test]
fn subst_respects_dup_and_successor_binders() {
    let p = nm("p");
    let to = Term::Num { val: 9 };
    let mut term = Term::Match {
        scrutinee: Box::new(v("p")),
        arms: vec![
            (Pattern::Num(MatchNum::Zero), v("p")),
            (Pattern::Num(MatchNum::Succ(Some(Some(nm("p"))))), v("p")),
            (
                Pattern::Num(MatchNum::Succ(Some(None))),
                Term::Dup {
                    tag: Tag::Auto,
                    fst: None,
                    snd: Some(nm("p")),
                    val: Box::new(v("p")),
                    nxt: Box::new(v("p")),
                },
            ),
        ],
    };
    term.subst(&p, &to);
    assert_eq!(
        term,
        Term::Match {
            scrutinee: Box::new(Term::Num { val: 9 }),
            arms: vec![
                (Pattern::Num(MatchNum::Zero), Term::Num { val: 9 }),
                (Pattern::Num(MatchNum::Succ(Some(Some(nm("p"))))), v("p")),
                (
                    Pattern::Num(MatchNum::Succ(Some(None))),
                    Term::Dup {
                        tag: Tag::Auto,
                        fst: None,
                        snd: Some(nm("p")),
                        val: Box::new(Term::Num { val: 9 }),
                        nxt: Box::new(v("p")),
                    },
                ),
            ],
        }
    );
}

#[test]
fn subst_leaves_unscoped_variables_alone() {
    let a = nm("a");
    let mut term = Term::Chn {
        tag: Tag::Static,
        nam: nm("a"),
        bod: Box::new(Term::Tup { fst: Box::new(Term::Lnk { nam: nm("a") }), snd: Box::new(v("a")) }),
    };
    term.subst(&a, &Term::Era);
    assert_eq!(
        term,
        Term::Chn {
            tag: Tag::Static,
            nam: nm("a"),
            bod: Box::new(Term::Tup {
                fst: Box::new(Term::Lnk { nam: nm("a") }),
                snd: Box::new(Term::Era),
            }),
        }
    );
}

#[test]
fn clone_gives_an_equal_term() {
    let term = sample_without_alias();
    assert_eq!(term.clone(), term);
    let term = alias(Some("a"), lambda(None, Term::Ref { def_id: hvm_lang::term::DefId(4) }), v("a"));
    assert_eq!(term.clone(), term);
}

#[test]
fn book_pass_inlines_every_rule_of_every_definition() {
    let mut book = Book::new();
    let first = book.insert_def(
        nm("one"),
        vec![
            Rule { pats: vec![], body: alias(Some("a"), Term::Num { val: 1 }, v("a")) },
            Rule {
                pats: vec![Pattern::Var(Some(nm("x")))],
                body: alias(Some("b"), v("x"), apply(v("b"), v("b"))),
            },
        ],
    );
    let second = book.insert_def(nm("two"), vec![Rule { pats: vec![], body: v("free") }]);
    book.apply_use();
    assert_eq!(book.len(), 2);
    assert_eq!(book.def(0).def_id, first);
    assert_eq!(book.def(1).def_id, second);
    assert_eq!(book.def(0).rules[0], Rule { pats: vec![], body: Term::Num { val: 1 } });
    assert_eq!(
        book.def(0).rules[1],
        Rule { pats: vec![Pattern::Var(Some(nm("x")))], body: apply(v("x"), v("x")) }
    );
    assert_eq!(book.def(1).rules[0], Rule { pats: vec![], body: v("free") });
    assert_eq!(book.name(first), Some(&nm("one")));
    assert_eq!(book.name(second), Some(&nm("two")));
}

#[test]
fn inlining_tolerates_a_very_deep_value() {
    let mut value = Term::Num { val: 5 };
    for _ in 0..200_000 {
        value = lambda(None, value);
    }
    let mut term = alias(Some("a"), value, Term::Era);
    term.apply_use();
    assert_eq!(term, Term::Era);
}

#[test]
fn passes_tolerate_a_very_deep_term() {
    let mut body = v("a");
    for _ in 0..200_000 {
        body = lambda(Some("x"), body);
    }
    let mut term = alias(Some("a"), Term::Num { val: 5 }, body);
    term.apply_use();
    let mut depth = 0;
    let mut at = &term;
    while let Term::Lam { bod, .. } = at {
        depth += 1;
        at = &**bod;
    }
    assert_eq!(depth, 200_000);
    assert_eq!(*at, Term::Num { val: 5 });
    let copy = term.clone();
    std::mem::forget(copy);
    std::mem::forget(term);
}
