//! The end of loading a book: a parsed book is handed on as it is, and the
//! diagnostics of a failed parse become one message.

use crate::term::{views, Book};
use itertools::Itertools;
use vstd::prelude::*;

verus! {

/// The texts in `blocks`, in order, with `sep` between each two of them.
pub open spec fn joined(blocks: Seq<Seq<char>>, sep: Seq<char>) -> Seq<char>
    decreases blocks.len(),
{
    if blocks.len() == 0 {
        seq![]
    } else if blocks.len() == 1 {
        blocks[0]
    } else {
        joined(blocks.drop_last(), sep) + sep + blocks.last()
    }
}

/// Calls `itertools::Itertools::join` on the blocks, in order. The contract
/// claims that the text it gives holds every block, in order, with `sep`
/// between each two of them and nothing else: what the documentation of
/// `join` says for items that display as themselves. The separator is at
/// most one byte long, so that the capacity `join` asks for at the start,
/// the length of the separator times the number of blocks that remain,
/// cannot overflow.
#[verifier::external_body]
fn join_blocks(blocks: &Vec<String>, sep: &str) -> (text: String)
    requires
        sep@.len() <= 1,
        sep.is_ascii(),
    ensures
        text@ == joined(views(blocks@), sep@),
{
    blocks.iter().join(sep)
}

/// The one message that stands for the diagnostics of a failed parse: the
/// rendered blocks, one for each syntax error, in order, each on a line of
/// its own after the one before.
pub fn combine_diagnostics(blocks: &Vec<String>) -> (message: String)
    ensures
        message@ == joined(views(blocks@), seq!['\n']),
{
    proof {
        reveal_strlit("\n");
        assert("\n"@ =~= seq!['\n']);
    }
    join_blocks(blocks, "\n")
}

/// What loading gives for the outcome of the parser: the book, when the
/// text was parsed, and else the diagnostics as one message.
pub fn load_outcome(parsed: Result<Book, Vec<String>>) -> (res: Result<Book, String>)
    ensures
        match parsed {
            Ok(book) => res == Ok::<Book, String>(book),
            Err(blocks) => res matches Err(message) && message@ == joined(
                views(blocks@),
                seq!['\n'],
            ),
        },
{
    match parsed {
        Ok(book) => Ok(book),
        Err(blocks) => Err(combine_diagnostics(&blocks)),
    }
}

} // verus!
