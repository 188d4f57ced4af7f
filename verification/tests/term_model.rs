use hvm_lang::term::{Book, DefId, MatchNum, Name, Op, Pattern, Rule, Tag, Term};

fn n(text: &str) -> Name {
    Name::new(text)
}

fn leaf(text: &str) -> Term {
    Term::Var { nam: n(text) }
}

#[test]
fn names_compare_by_their_characters() {
    assert!(n("abc").same(&n("abc")));
    assert!(!n("abc").same(&n("abd")));
    assert_eq!(n("abc").as_str(), "abc");
    assert_eq!(n("abc").clone(), n("abc"));
}

#[test]
fn children_come_in_order() {
    let term = Term::Match {
        scrutinee: Box::new(leaf("s")),
        arms: vec![
            (Pattern::Num(MatchNum::Zero), leaf("z")),
            (Pattern::Num(MatchNum::Succ(None)), leaf("p")),
        ],
    };
    let kids = term.children();
    assert_eq!(kids, vec![&leaf("s"), &leaf("z"), &leaf("p")]);
    let term = Term::List { els: vec![leaf("a"), leaf("b"), leaf("c")] };
    assert_eq!(term.children(), vec![&leaf("a"), &leaf("b"), &leaf("c")]);
    let term = Term::Opx { op: Op::Mul, fst: Box::new(leaf("l")), snd: Box::new(leaf("r")) };
    assert_eq!(term.children(), vec![&leaf("l"), &leaf("r")]);
    assert!(Term::Num { val: 3 }.children().is_empty());
    assert!(Term::Era.children().is_empty());
}

#[test]
fn binders_stand_over_the_right_child() {
    let dup = Term::Dup {
        tag: Tag::Auto,
        fst: Some(n("a")),
        snd: Some(n("b")),
        val: Box::new(Term::Era),
        nxt: Box::new(Term::Era),
    };
    assert!(dup.child_binders(0).is_empty());
    assert_eq!(dup.child_binders(1), vec![&n("a"), &n("b")]);
    let lam = Term::Lam { tag: Tag::Static, nam: Some(n("x")), bod: Box::new(Term::Era) };
    assert_eq!(lam.child_binders(0), vec![&n("x")]);
    assert!(lam.child_binders(1).is_empty());
    let arms = vec![
        (Pattern::Num(MatchNum::Zero), Term::Era),
        (Pattern::Num(MatchNum::Succ(Some(Some(n("p"))))), Term::Era),
        (Pattern::Var(Some(n("v"))), Term::Era),
    ];
    let mat = Term::Match { scrutinee: Box::new(Term::Era), arms };
    assert!(mat.child_binders(0).is_empty());
    assert!(mat.child_binders(1).is_empty());
    assert_eq!(mat.child_binders(2), vec![&n("p")]);
    assert!(mat.child_binders(3).is_empty());
    assert!(mat.child_binders(4).is_empty());
}

#[test]
fn pattern_binds_its_names_in_order() {
    let pat = Pattern::Tup(
        Box::new(Pattern::Tup(
            Box::new(Pattern::Var(Some(n("a")))),
            Box::new(Pattern::Var(None)),
        )),
        Box::new(Pattern::Num(MatchNum::Succ(Some(Some(n("b")))))),
    );
    assert_eq!(pat.binds(), vec![&n("a"), &n("b")]);
    assert!(pat.arm_binds().is_empty());
    assert!(!pat.is_plain());
    assert!(Pattern::Var(None).is_plain());
    assert_eq!(pat.clone(), pat);
}

#[test]
fn taking_and_putting_children_gives_the_term_back() {
    let build = || Term::Match {
        scrutinee: Box::new(leaf("s")),
        arms: vec![
            (Pattern::Num(MatchNum::Zero), leaf("z")),
            (Pattern::Num(MatchNum::Succ(Some(Some(n("p"))))), leaf("p")),
        ],
    };
    let mut term = build();
    let kids = term.take_children();
    assert_eq!(kids, vec![leaf("s"), leaf("z"), leaf("p")]);
    assert_eq!(
        term,
        Term::Match {
            scrutinee: Box::new(Term::Era),
            arms: vec![
                (Pattern::Num(MatchNum::Zero), Term::Era),
                (Pattern::Num(MatchNum::Succ(Some(Some(n("p"))))), Term::Era),
            ],
        }
    );
    term.put_children(kids);
    assert_eq!(term, build());
}

#[test]
fn putting_children_replaces_them_in_order() {
    let mut term =
        Term::App { tag: Tag::Static, fun: Box::new(Term::Era), arg: Box::new(Term::Era) };
    term.put_children(vec![leaf("f"), leaf("x")]);
    assert_eq!(
        term,
        Term::App { tag: Tag::Static, fun: Box::new(leaf("f")), arg: Box::new(leaf("x")) }
    );
    let mut list = Term::List { els: vec![leaf("old")] };
    list.put_children(vec![leaf("a"), leaf("b")]);
    assert_eq!(list, Term::List { els: vec![leaf("a"), leaf("b")] });
}

#[test]
fn shell_keeps_the_node_and_drops_the_children() {
    let term = Term::Let {
        pat: Pattern::Var(Some(n("x"))),
        val: Box::new(leaf("v")),
        nxt: Box::new(leaf("n")),
    };
    assert_eq!(
        term.shell(),
        Term::Let {
            pat: Pattern::Var(Some(n("x"))),
            val: Box::new(Term::Era),
            nxt: Box::new(Term::Era),
        }
    );
    assert_eq!(Term::Str { val: String::from("hi") }.shell(), Term::Str { val: String::from("hi") });
    assert_eq!(Term::default(), Term::Era);
}

#[test]
fn book_gives_out_rising_identifiers() {
    let mut book = Book::new();
    assert_eq!(book.len(), 0);
    let a = book.insert_def(n("a"), vec![Rule { pats: vec![], body: Term::Era }]);
    let b = book.insert_def(n("b"), vec![]);
    assert_eq!(a, DefId(0));
    assert_eq!(b, DefId(1));
    assert_eq!(book.len(), 2);
    assert_eq!(book.name(a), Some(&n("a")));
    assert_eq!(book.name(b), Some(&n("b")));
    assert_eq!(book.name(DefId(2)), None);
    assert!(book.def(0).has_single_rule());
    assert!(!book.def(1).has_single_rule());
}

#[test]
fn book_is_well_formed_when_identifiers_rise_and_have_names() {
    let mut book = Book::new();
    book.insert_def(n("a"), vec![]);
    book.insert_def(n("b"), vec![]);
    assert!(book.is_well_formed());
    book.defs.swap(0, 1);
    assert!(!book.is_well_formed());
    book.defs.swap(0, 1);
    book.names.pop();
    assert!(!book.is_well_formed());
}
