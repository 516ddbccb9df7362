//! From program text to command characters.
//!
//! Program text may hold anything: comments, line breaks, layout. Only the
//! eight command characters mean something, and the resolver expects to be
//! given nothing else.

use vstd::prelude::*;

verus! {

/// Whether `c` is one of the eight command characters.
pub open spec fn command(c: char) -> bool {
    c == '+' || c == '-' || c == '<' || c == '>' || c == '.' || c == ',' || c == '[' || c == ']'
}

/// Whether every character of `code` is a command.
pub open spec fn all_commands(code: Seq<char>) -> bool {
    forall|i: int| 0 <= i < code.len() ==> command(#[trigger] code[i])
}

/// Whether `c` is one of the eight command characters.
pub fn is_command(c: char) -> (yes: bool)
    ensures
        yes == command(c),
{
    c == '+' || c == '-' || c == '[' || c == ']' || c == '.' || c == ',' || c == '<' || c == '>'
}

/// The command characters of `text`, in the order in which they occur.
pub fn commands(text: &str) -> (code: Vec<char>)
    ensures
        code@ == text@.filter(|c: char| command(c)),
        all_commands(code@),
{
    let mut code: Vec<char> = Vec::new();
    for c in iter: text.chars()
        invariant
            iter.seq() == text@,
            code@ == text@.take(iter.index() as int).filter(|c: char| command(c)),
            all_commands(code@),
    {
        proof {
            let seen = text@.take(iter.index() + 1);
            assert(seen.drop_last() == text@.take(iter.index() as int));
            assert(seen.last() == c);
            reveal(Seq::filter);
        }
        if is_command(c) {
            code.push(c);
        }
    }
    assert(text@.take(text@.len() as int) == text@);
    code
}

} // verus!
