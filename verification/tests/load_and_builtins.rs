use hvm_lang::builtins::{
    core_builtin_binding, core_builtin_uses, log_message, print_payload, Binding, BLACK_BOX,
    CORE_BUILTINS, SCONS, SNIL,
};
use hvm_lang::term::load_book::{combine_diagnostics, load_outcome};
use hvm_lang::term::{Book, Name, Rule, Term};

#[test]
fn print_writes_the_text_of_a_string_and_nothing_else() {
    let term = Term::Str { val: String::from("hello") };
    assert_eq!(print_payload(&term), Some("hello"));
}

#[test]
fn print_writes_nothing_for_a_number() {
    assert_eq!(print_payload(&Term::Num { val: 42 }), None);
    assert_eq!(print_payload(&Term::Era), None);
    assert_eq!(print_payload(&Term::Var { nam: Name::new("hello") }), None);
}

#[test]
fn log_writes_the_diagnostics_before_the_term() {
    assert_eq!(log_message("warning: odd net\n", "(a b)"), "warning: odd net\n(a b)");
    assert_eq!(log_message("", "*"), "*");
}

#[test]
fn catalog_names_the_seven_builtins() {
    assert_eq!(
        CORE_BUILTINS,
        ["HVM.log", "HVM.black_box", "HVM.print", "HVM.query", "HVM.store", "HVM.load", "HVM.exit"]
    );
    assert_eq!(BLACK_BOX, "@HVM.black_box = (x x)");
}

#[test]
fn black_box_is_a_program_and_the_others_are_native() {
    let bindings: Vec<Option<Binding>> = (0..8).map(core_builtin_binding).collect();
    assert_eq!(
        bindings,
        vec![
            Some(Binding::Log),
            Some(Binding::Program),
            Some(Binding::Print),
            Some(Binding::Collaborator),
            Some(Binding::Collaborator),
            Some(Binding::Collaborator),
            Some(Binding::Collaborator),
            None,
        ]
    );
    assert_eq!(CORE_BUILTINS[1], "HVM.black_box");
    assert_eq!(CORE_BUILTINS[0], "HVM.log");
    assert_eq!(CORE_BUILTINS[2], "HVM.print");
}

#[test]
fn only_the_query_relies_on_other_definitions() {
    for index in 0..CORE_BUILTINS.len() {
        let uses = core_builtin_uses(index);
        if CORE_BUILTINS[index] == "HVM.query" {
            assert_eq!(uses, vec![SCONS, SNIL]);
            assert_eq!(uses, vec!["String.cons", "String.nil"]);
        } else {
            assert!(uses.is_empty());
        }
    }
    assert!(core_builtin_uses(7).is_empty());
}

#[test]
fn diagnostics_are_joined_one_to_a_line() {
    let blocks = vec![String::from("first"), String::from("second"), String::from("third")];
    assert_eq!(combine_diagnostics(&blocks), "first\nsecond\nthird");
}

#[test]
fn one_diagnostic_stands_alone() {
    let blocks = vec![String::from("main.hvm: 3..5: found end of input")];
    assert_eq!(combine_diagnostics(&blocks), "main.hvm: 3..5: found end of input");
    assert_eq!(combine_diagnostics(&Vec::new()), "");
}

fn three_definitions() -> Book {
    let mut book = Book::new();
    for text in ["a", "b", "c"] {
        book.insert_def(Name::new(text), vec![Rule { pats: vec![], body: Term::Era }]);
    }
    book
}

#[test]
fn parsed_book_is_handed_on_as_it_is() {
    let loaded = load_outcome(Ok(three_definitions())).unwrap();
    assert_eq!(loaded.len(), 3);
    assert_eq!(loaded, three_definitions());
}

#[test]
fn failed_parse_becomes_one_message() {
    let outcome = load_outcome(Err(vec![String::from("one"), String::from("two")]));
    assert_eq!(outcome, Err(String::from("one\ntwo")));
}
