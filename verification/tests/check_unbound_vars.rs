use hvm_lang::term::check::unbound_vars::{
    check_uses, pop_scope, push_scope, DefinitionError, Globals, Scope, ScopeError,
};
use hvm_lang::term::{Book, MatchNum, Name, Op, Pattern, Rule, Tag, Term};

fn name(text: &str) -> Name {
    Name::new(text)
}

fn var(text: &str) -> Term {
    Term::Var { nam: name(text) }
}

fn lam(binder: Option<&str>, body: Term) -> Term {
    Term::Lam { tag: Tag::Static, nam: binder.map(name), bod: Box::new(body) }
}

fn chn(label: &str, body: Term) -> Term {
    Term::Chn { tag: Tag::Static, nam: name(label), bod: Box::new(body) }
}

fn lnk(label: &str) -> Term {
    Term::Lnk { nam: name(label) }
}

fn app(fun: Term, arg: Term) -> Term {
    Term::App { tag: Tag::Static, fun: Box::new(fun), arg: Box::new(arg) }
}

fn tup(fst: Term, snd: Term) -> Term {
    Term::Tup { fst: Box::new(fst), snd: Box::new(snd) }
}

fn book_of(defs: Vec<(&str, Term)>) -> Book {
    let mut book = Book::new();
    for (def_name, body) in defs {
        book.insert_def(name(def_name), vec![Rule { pats: vec![], body }]);
    }
    book
}

#[test]
fn identity_lambda_is_bound() {
    let term = lam(Some("x"), var("x"));
    assert!(term.is_checkable());
    assert_eq!(term.check_unbound_vars(), Ok(()));
}

#[test]
fn bare_variable_is_unbound() {
    let term = var("x");
    let err = term.check_unbound_vars().unwrap_err();
    assert_eq!(err, ScopeError::UnboundVar(name("x")));
    assert_eq!(err.message(), "Unbound variable 'x'");
}

#[test]
fn discarding_lambda_binds_nothing() {
    let term = lam(None, var("x"));
    assert_eq!(term.check_unbound_vars(), Err(ScopeError::UnboundVar(name("x"))));
}

#[test]
fn shadowed_binder_still_binds() {
    let term = lam(Some("x"), lam(Some("x"), var("x")));
    assert_eq!(term.check_unbound_vars(), Ok(()));
}

#[test]
fn outer_binder_survives_the_end_of_an_inner_one() {
    // λx ((λx x) x): the second `x` is read after the inner binder ended.
    let term = lam(Some("x"), app(lam(Some("x"), var("x")), var("x")));
    assert_eq!(term.check_unbound_vars(), Ok(()));
}

#[test]
fn binder_ends_with_its_body() {
    // ((λx x) x): the second `x` lies outside the lambda.
    let term = app(lam(Some("x"), var("x")), var("x"));
    assert_eq!(term.check_unbound_vars(), Err(ScopeError::UnboundVar(name("x"))));
}

#[test]
fn first_unbound_variable_is_reported() {
    let term = tup(app(var("a"), var("b")), var("c"));
    assert_eq!(term.check_unbound_vars(), Err(ScopeError::UnboundVar(name("a"))));
    let term = tup(lam(Some("a"), app(var("a"), var("b"))), var("c"));
    assert_eq!(term.check_unbound_vars(), Err(ScopeError::UnboundVar(name("b"))));
}

#[test]
fn global_declared_once_and_used_once_is_accepted() {
    let term = tup(chn("a", Term::Era), lnk("a"));
    assert_eq!(term.check_unbound_vars(), Ok(()));
}

#[test]
fn global_may_be_used_before_it_is_declared() {
    let term = tup(lnk("a"), chn("a", Term::Era));
    assert_eq!(term.check_unbound_vars(), Ok(()));
}

#[test]
fn global_used_twice_is_rejected() {
    let term = tup(chn("a", lnk("a")), lnk("a"));
    let err = term.check_unbound_vars().unwrap_err();
    assert_eq!(err, ScopeError::UsedMoreThanOnce(name("a")));
    assert_eq!(err.message(), "Unscoped variable '$a' used more than once");
}

#[test]
fn global_declared_twice_is_rejected() {
    let term = tup(chn("a", lnk("a")), chn("a", Term::Era));
    assert_eq!(term.check_unbound_vars(), Err(ScopeError::UsedMoreThanOnce(name("a"))));
}

#[test]
fn global_used_without_declaration_is_rejected() {
    let term = lam(Some("x"), tup(var("x"), lnk("a")));
    let err = term.check_unbound_vars().unwrap_err();
    assert_eq!(err, ScopeError::UnboundUnscoped(name("a")));
    assert_eq!(err.message(), "Unbound unscoped variable '$a'");
}

#[test]
fn global_declared_without_use_is_rejected() {
    let term = chn("a", Term::Era);
    let err = term.check_unbound_vars().unwrap_err();
    assert_eq!(err, ScopeError::MissingUse(name("a")));
    assert_eq!(err.message(), "Missing unscoped variable use for 'λ$a'");
}

#[test]
fn first_faulty_global_in_reading_order_is_reported() {
    // `$b` is met first and is fine; `$c` is met before `$a` and lacks a use.
    let term = tup(chn("b", lnk("b")), tup(chn("c", Term::Era), lnk("a")));
    assert_eq!(term.check_unbound_vars(), Err(ScopeError::MissingUse(name("c"))));
}

#[test]
fn unbound_variable_comes_before_any_global_fault() {
    let term = tup(lnk("a"), var("x"));
    assert_eq!(term.check_unbound_vars(), Err(ScopeError::UnboundVar(name("x"))));
}

#[test]
fn global_is_no_lexical_binder() {
    let term = chn("x", tup(var("x"), lnk("x")));
    assert_eq!(term.check_unbound_vars(), Err(ScopeError::UnboundVar(name("x"))));
}

#[test]
fn let_binds_in_the_rest_only() {
    let bound = Term::Let {
        pat: Pattern::Var(Some(name("x"))),
        val: Box::new(Term::Num { val: 1 }),
        nxt: Box::new(var("x")),
    };
    assert_eq!(bound.check_unbound_vars(), Ok(()));
    let in_value = Term::Let {
        pat: Pattern::Var(Some(name("x"))),
        val: Box::new(var("x")),
        nxt: Box::new(Term::Era),
    };
    assert_eq!(in_value.check_unbound_vars(), Err(ScopeError::UnboundVar(name("x"))));
}

#[test]
fn pair_let_and_dup_bind_both_names() {
    let pair = Term::Let {
        pat: Pattern::Tup(
            Box::new(Pattern::Var(Some(name("a")))),
            Box::new(Pattern::Var(Some(name("b")))),
        ),
        val: Box::new(Term::Era),
        nxt: Box::new(tup(var("a"), var("b"))),
    };
    assert_eq!(pair.check_unbound_vars(), Ok(()));
    let dup = Term::Dup {
        tag: Tag::Auto,
        fst: Some(name("a")),
        snd: None,
        val: Box::new(Term::Era),
        nxt: Box::new(tup(var("a"), var("b"))),
    };
    assert_eq!(dup.check_unbound_vars(), Err(ScopeError::UnboundVar(name("b"))));
}

#[test]
fn successor_arm_binds_its_predecessor_in_that_arm_only() {
    let arms = vec![
        (Pattern::Num(MatchNum::Zero), Term::Num { val: 0 }),
        (Pattern::Num(MatchNum::Succ(Some(Some(name("p"))))), var("p")),
    ];
    let term = lam(Some("n"), Term::Match { scrutinee: Box::new(var("n")), arms });
    assert_eq!(term.check_unbound_vars(), Ok(()));
    let arms = vec![
        (Pattern::Num(MatchNum::Zero), var("p")),
        (Pattern::Num(MatchNum::Succ(Some(Some(name("p"))))), var("p")),
    ];
    let term = lam(Some("n"), Term::Match { scrutinee: Box::new(var("n")), arms });
    assert_eq!(term.check_unbound_vars(), Err(ScopeError::UnboundVar(name("p"))));
}

#[test]
fn variable_pattern_of_an_arm_binds_nothing() {
    let arms = vec![(Pattern::Var(Some(name("v"))), var("v"))];
    let term = Term::Match { scrutinee: Box::new(Term::Era), arms };
    assert_eq!(term.check_unbound_vars(), Err(ScopeError::UnboundVar(name("v"))));
}

#[test]
fn alias_binds_its_name_in_the_rest() {
    let term = Term::Use {
        nam: Some(name("id")),
        val: Box::new(lam(Some("x"), var("x"))),
        nxt: Box::new(app(var("id"), var("id"))),
    };
    assert_eq!(term.check_unbound_vars(), Ok(()));
}

#[test]
fn leaves_and_operators_pass() {
    let term = Term::Opx {
        op: Op::Add,
        fst: Box::new(Term::Num { val: 1 }),
        snd: Box::new(Term::Sup {
            tag: Tag::Numbered(3),
            fst: Box::new(Term::Str { val: String::from("s") }),
            snd: Box::new(Term::Era),
        }),
    };
    assert_eq!(term.check_unbound_vars(), Ok(()));
}

#[test]
fn lists_and_other_let_patterns_are_not_checkable() {
    assert!(!Term::List { els: vec![] }.is_checkable());
    assert!(!lam(Some("x"), Term::List { els: vec![var("x")] }).is_checkable());
    let nested = Term::Let {
        pat: Pattern::Tup(
            Box::new(Pattern::Tup(
                Box::new(Pattern::Var(None)),
                Box::new(Pattern::Var(None)),
            )),
            Box::new(Pattern::Var(None)),
        ),
        val: Box::new(Term::Era),
        nxt: Box::new(Term::Era),
    };
    assert!(!nested.is_checkable());
    let numeric = Term::Let {
        pat: Pattern::Num(MatchNum::Zero),
        val: Box::new(Term::Era),
        nxt: Box::new(Term::Era),
    };
    assert!(!tup(Term::Era, numeric).is_checkable());
    assert!(tup(Term::Era, lam(None, Term::Era)).is_checkable());
}

#[test]
fn check_uses_restores_the_scope_and_records_globals() {
    let outer = name("x");
    let term = tup(var("x"), chn("g", lam(Some("y"), tup(var("y"), lnk("g")))));
    let mut scope = Scope::new();
    let mut globals = Globals::new();
    push_scope(Some(&outer), &mut scope);
    assert_eq!(scope.len(), 1);
    assert_eq!(check_uses(&term, &mut scope, &mut globals), Ok(()));
    assert_eq!(scope.len(), 1);
    assert!(scope.contains_key(&outer));
    assert_eq!(globals.count(&name("g"), true), 1);
    assert_eq!(globals.count(&name("g"), false), 1);
    assert_eq!(globals.count(&name("x"), true), 0);
    pop_scope(Some(&outer), &mut scope);
    assert_eq!(scope.len(), 0);
    assert!(!scope.contains_key(&outer));
}

#[test]
fn scope_counts_the_binders_of_a_name() {
    let x = name("x");
    let y = name("y");
    let mut scope = Scope::new();
    push_scope(Some(&x), &mut scope);
    push_scope(Some(&y), &mut scope);
    push_scope(Some(&x), &mut scope);
    push_scope(None, &mut scope);
    assert_eq!(scope.len(), 3);
    pop_scope(Some(&x), &mut scope);
    assert!(scope.contains_key(&x));
    assert!(scope.contains_key(&y));
    pop_scope(None, &mut scope);
    pop_scope(Some(&x), &mut scope);
    assert!(!scope.contains_key(&x));
    assert!(scope.contains_key(&y));
    assert_eq!(scope.len(), 1);
}

#[test]
fn book_check_accepts_a_sound_book() {
    let book = book_of(vec![
        ("id", lam(Some("x"), var("x"))),
        ("wire", tup(chn("a", Term::Era), lnk("a"))),
    ]);
    assert!(book.is_checkable());
    assert_eq!(book.check_unbound_vars(), Ok(()));
}

#[test]
fn book_check_names_the_first_failing_definition() {
    let book = book_of(vec![
        ("good", lam(Some("x"), var("x"))),
        ("bad", var("y")),
        ("worse", lnk("z")),
    ]);
    let err = book.check_unbound_vars().unwrap_err();
    assert_eq!(
        err,
        DefinitionError { definition: name("bad"), error: ScopeError::UnboundVar(name("y")) }
    );
    assert_eq!(err.message(), "In definition 'bad': Unbound variable 'y'");
}

#[test]
fn book_with_pattern_matching_rules_is_not_checkable() {
    let mut book = Book::new();
    book.insert_def(
        name("f"),
        vec![Rule { pats: vec![Pattern::Var(Some(name("x")))], body: var("x") }],
    );
    assert!(!book.is_checkable());
    let mut book = Book::new();
    book.insert_def(name("f"), vec![]);
    assert!(!book.is_checkable());
}

#[test]
fn check_tolerates_a_very_deep_term() {
    let mut term = var("x");
    for _ in 0..200_000 {
        term = lam(Some("x"), term);
    }
    assert!(term.is_checkable());
    assert_eq!(term.check_unbound_vars(), Ok(()));
    std::mem::forget(term);
}
