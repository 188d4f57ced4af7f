//! The builtins that the execution host runs as native code: their names,
//! the definitions they rely on, and what the logging and printing
//! callbacks write for a term read back from the graph.

use crate::term::{views, NodeView, Term};
use vstd::prelude::*;
use vstd::string::StringExecFns;

verus! {

/// The names of the builtin definitions that are not in the book of the
/// program, but are present in the book of the host.
pub const CORE_BUILTINS: [&'static str; 7] = [
    "HVM.log",
    "HVM.black_box",
    "HVM.print",
    "HVM.query",
    "HVM.store",
    "HVM.load",
    "HVM.exit",
];

/// The constructor of a string that holds a character and a rest.
pub const SCONS: &'static str = "String.cons";

/// The constructor of the empty string.
pub const SNIL: &'static str = "String.nil";

/// The program of the one builtin that is no native code: the identity.
pub const BLACK_BOX: &'static str = "@HVM.black_box = (x x)";

/// The names of the definitions that the builtin at `index` of
/// `CORE_BUILTINS` relies on: the two constructors of strings for the
/// query, none for the others.
pub open spec fn core_builtin_uses_spec(index: int) -> Seq<Seq<char>> {
    if index == 3 {
        seq![SCONS@, SNIL@]
    } else {
        seq![]
    }
}

/// The names of the definitions that the builtin at `index` of
/// `CORE_BUILTINS` relies on.
pub fn core_builtin_uses(index: usize) -> (uses: Vec<&'static str>)
    ensures
        views(uses@) == core_builtin_uses_spec(index as int),
{
    let mut uses: Vec<&'static str> = Vec::new();
    if index == 3 {
        uses.push(SCONS);
        uses.push(SNIL);
    }
    assert(views(uses@) =~= core_builtin_uses_spec(index as int));
    uses
}

/// How a builtin comes into the table of the host.
#[derive(Clone, Copy, Debug, PartialEq, Eq, Structural)]
pub enum Binding {
    /// A native callback that logs the term it is given.
    Log,
    /// A native callback that prints the term it is given, if it is a
    /// string.
    Print,
    /// No native code: the program `BLACK_BOX`.
    Program,
    /// A native callback that the collaborator for its effect registers:
    /// the query, the file system, the exit.
    Collaborator,
}

/// How the builtin at `index` of `CORE_BUILTINS` comes into the table of
/// the host.
pub open spec fn core_builtin_binding_spec(index: int) -> Option<Binding> {
    if index == 0 {
        Some(Binding::Log)
    } else if index == 1 {
        Some(Binding::Program)
    } else if index == 2 {
        Some(Binding::Print)
    } else if 3 <= index < 7 {
        Some(Binding::Collaborator)
    } else {
        None
    }
}

/// How the builtin at `index` of `CORE_BUILTINS` comes into the table of
/// the host; `None` where the catalog has no such builtin.
pub fn core_builtin_binding(index: usize) -> (binding: Option<Binding>)
    ensures
        binding == core_builtin_binding_spec(index as int),
{
    if index == 0 {
        Some(Binding::Log)
    } else if index == 1 {
        Some(Binding::Program)
    } else if index == 2 {
        Some(Binding::Print)
    } else if index < 7 {
        Some(Binding::Collaborator)
    } else {
        None
    }
}

/// What the printing builtin writes for a term read back from the graph:
/// the text of a string, and nothing for any other term.
pub fn print_payload(term: &Term) -> (payload: Option<&str>)
    ensures
        match term@.node {
            NodeView::Str { val } => payload matches Some(text) && text@ == val,
            _ => payload is None,
        },
{
    match term {
        Term::Str { val } => Some(val.as_str()),
        _ => {
            assert(!(term@.node is Str));
            None
        },
    }
}

/// What the logging builtin writes for a term read back from the graph:
/// the diagnostics of the readback, then the term, whatever came back.
pub fn log_message(diagnostics: &str, term: &str) -> (message: String)
    ensures
        message@ == diagnostics@ + term@,
{
    let mut message = String::from_str(diagnostics);
    message.append(term);
    message
}

} // verus!
