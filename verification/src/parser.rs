//! The resolver: from command characters to tokens with paired brackets.
//!
//! Resolution keeps one token per character. The six plain commands map to
//! their token directly. A `[` becomes a [`Token::LeftBracket`] that carries
//! the position of its `]`, and a `]` becomes a [`Token::RightBracket`] that
//! carries the position of its `[`, so that the executor can jump between the
//! two without scanning.
//!
//! The contracts are stated over [`pairs`], which says when a `]` closes a
//! `[`, and [`resolves`], which says when tokens are the resolution of code.

use crate::brackets::{
    balanced, depth, lemma_close_unique, lemma_open_unique, lemma_opening_exists,
    lemma_pairs_survive_extension, pairs, unmatched_left, unmatched_right,
};
use crate::source::{all_commands, command};
use vstd::prelude::*;

verus! {

/// One resolved instruction.
#[derive(Debug, Clone, Copy, PartialEq, Eq, Structural)]
pub enum Token {
    /// `+`: add one to the current cell, wrapping at 255.
    Plus,
    /// `-`: subtract one from the current cell, wrapping at 0.
    Minus,
    /// `[`: if the current cell is zero, jump to the token at the given
    /// position, which is the matching `]`.
    LeftBracket(usize),
    /// `]`: if the current cell is not zero, jump to the token at the given
    /// position, which is the matching `[`.
    RightBracket(usize),
    /// `.`: emit the current cell as one byte.
    Print,
    /// `,`: read one byte into the current cell.
    Read,
    /// `<`: move the cursor one cell to the left.
    Left,
    /// `>`: move the cursor one cell to the right.
    Right,
}

/// Why a sequence of commands cannot be resolved.
#[derive(Debug, Clone, Copy, PartialEq, Eq, Structural)]
pub enum Brainfuck {
    /// Some `[` is never closed.
    UnmatchedLeft,
    /// Some `]` closes nothing.
    UnmatchedRight,
}

/// `token` is the resolved form of the character at position `at`.
pub open spec fn resolved_as(code: Seq<char>, at: int, token: Token) -> bool {
    match token {
        Token::Plus => code[at] == '+',
        Token::Minus => code[at] == '-',
        Token::Left => code[at] == '<',
        Token::Right => code[at] == '>',
        Token::Print => code[at] == '.',
        Token::Read => code[at] == ',',
        Token::LeftBracket(target) => pairs(code, at, target as int),
        Token::RightBracket(target) => pairs(code, target as int, at),
    }
}

/// `tokens` is the resolution of `code`: one token per character, each
/// bracket carrying the position of its partner.
pub open spec fn resolves(code: Seq<char>, tokens: Seq<Token>) -> bool {
    &&& tokens.len() == code.len()
    &&& forall|i: int| 0 <= i < code.len() ==> #[trigger] resolved_as(code, i, tokens[i])
}

/// The defect that is reported for code that is not balanced: a `]` that
/// closes nothing if there is one, else a `[` that is never closed.
pub open spec fn defect(code: Seq<char>) -> Brainfuck {
    if exists|close: int| unmatched_right(code, close) {
        Brainfuck::UnmatchedRight
    } else {
        Brainfuck::UnmatchedLeft
    }
}

/// A resolution exists only for balanced code.
pub proof fn lemma_resolved_is_balanced(code: Seq<char>, tokens: Seq<Token>)
    requires
        resolves(code, tokens),
    ensures
        balanced(code),
{
    assert forall|open: int| !unmatched_left(code, open) by {
        if 0 <= open < code.len() && code[open] == '[' {
            assert(resolved_as(code, open, tokens[open]));
            assert(tokens[open] is LeftBracket);
            assert(pairs(code, open, tokens[open]->LeftBracket_0 as int));
        }
    }
    assert forall|close: int| !unmatched_right(code, close) by {
        if 0 <= close < code.len() && code[close] == ']' {
            assert(resolved_as(code, close, tokens[close]));
            assert(tokens[close] is RightBracket);
            assert(pairs(code, tokens[close]->RightBracket_0 as int, close));
        }
    }
}

/// The position of the `]` that closes the `[` at `open`, found by scanning
/// forward while counting the nesting depth.
fn find_closing(code: &[char], open: usize) -> (result: Option<usize>)
    requires
        open < code@.len(),
        code@[open as int] == '[',
    ensures
        result matches Some(close) ==> pairs(code@, open as int, close as int),
        result is None ==> forall|k: int|
            open < k <= code@.len() ==> depth(code@, open as int, k) > 0,
{
    let mut level: usize = 0;
    let mut at: usize = open;
    while at < code.len()
        invariant
            open <= at <= code@.len(),
            code@[open as int] == '[',
            level == depth(code@, open as int, at as int),
            level <= at - open,
            forall|k: int| open < k <= at ==> depth(code@, open as int, k) > 0,
        decreases code.len() - at,
    {
        let c = code[at];
        if c == '[' {
            level += 1;
        } else if c == ']' {
            level -= 1;
        }
        assert(level == depth(code@, open as int, at + 1));
        if level == 0 {
            return Some(at);
        }
        at += 1;
    }
    None
}

/// The position of the first `LeftBracket` among `tokens` whose target is
/// `close`.
fn find_opening(tokens: &Vec<Token>, close: usize) -> (result: Option<usize>)
    ensures
        result matches Some(open) ==> open < tokens@.len() && tokens@[open as int]
            == Token::LeftBracket(close),
        result is None ==> forall|k: int|
            0 <= k < tokens@.len() ==> tokens@[k] != Token::LeftBracket(close),
{
    let mut at: usize = 0;
    while at < tokens.len()
        invariant
            at <= tokens@.len(),
            forall|k: int| 0 <= k < at ==> tokens@[k] != Token::LeftBracket(close),
        decreases tokens.len() - at,
    {
        let found = match tokens[at] {
            Token::LeftBracket(target) => target == close,
            _ => false,
        };
        if found {
            return Some(at);
        }
        at += 1;
    }
    None
}

/// Resolves `code` into tokens.
///
/// `code` must hold command characters only. It is scanned once from the
/// left. The result is the resolution of `code` if its brackets are
/// balanced. Otherwise no tokens are returned: the error is `UnmatchedRight`
/// if some `]` closes nothing, and `UnmatchedLeft` if every `]` closes a `[`
/// but some `[` is never closed.
pub fn parse(code: &[char]) -> (result: Result<Vec<Token>, Brainfuck>)
    requires
        all_commands(code@),
    ensures
        balanced(code@) ==> (result matches Ok(tokens) && resolves(code@, tokens@)),
        !balanced(code@) ==> (result matches Err(error) && error == defect(code@)),
{
    let mut tokens: Vec<Token> = Vec::new();
    let mut i: usize = 0;
    while i < code.len()
        invariant
            i <= code@.len(),
            all_commands(code@),
            tokens@.len() == i,
            forall|k: int| 0 <= k < i ==> #[trigger] resolved_as(code@, k, tokens@[k]),
        decreases code.len() - i,
    {
        let c = code[i];
        assert(command(code@[i as int]));
        let token = if c == '[' {
            match find_closing(code, i) {
                Some(close) => Token::LeftBracket(close),
                None => {
                    proof {
                        lemma_unclosed(code@, tokens@, i as int);
                    }
                    return Err(Brainfuck::UnmatchedLeft);
                },
            }
        } else if c == ']' {
            match find_opening(&tokens, i) {
                Some(open) => {
                    assert(resolved_as(code@, open as int, tokens@[open as int]));
                    Token::RightBracket(open)
                },
                None => {
                    proof {
                        lemma_closes_nothing(code@, tokens@, i as int);
                    }
                    return Err(Brainfuck::UnmatchedRight);
                },
            }
        } else if c == '+' {
            Token::Plus
        } else if c == '-' {
            Token::Minus
        } else if c == '<' {
            Token::Left
        } else if c == '>' {
            Token::Right
        } else if c == '.' {
            Token::Print
        } else {
            Token::Read
        };
        tokens.push(token);
        i += 1;
    }
    proof {
        lemma_resolved_is_balanced(code@, tokens@);
    }
    Ok(tokens)
}

/// When the scan has resolved everything before a `[` at `open` and the
/// depth never returns to zero after it, that `[` is unmatched and no `]`
/// anywhere is.
proof fn lemma_unclosed(code: Seq<char>, tokens: Seq<Token>, open: int)
    requires
        0 <= open < code.len(),
        code[open] == '[',
        tokens.len() == open,
        forall|k: int| 0 <= k < open ==> #[trigger] resolved_as(code, k, tokens[k]),
        forall|k: int| open < k <= code.len() ==> depth(code, open, k) > 0,
    ensures
        unmatched_left(code, open),
        forall|close: int| !unmatched_right(code, close),
{
    assert forall|close: int| !pairs(code, open, close) by {
        if pairs(code, open, close) {
            assert(depth(code, open, close + 1) > 0);
        }
    }
    assert forall|close: int| !unmatched_right(code, close) by {
        if 0 <= close < code.len() && code[close] == ']' {
            if close < open {
                assert(resolved_as(code, close, tokens[close]));
                assert(pairs(code, tokens[close]->RightBracket_0 as int, close));
            } else {
                assert(depth(code, open, close + 1) > 0);
                lemma_opening_exists(code, open, close);
            }
        }
    }
}

/// When the scan has resolved everything before a `]` at `close` and none of
/// the tokens so far targets it, that `]` is unmatched.
proof fn lemma_closes_nothing(code: Seq<char>, tokens: Seq<Token>, close: int)
    requires
        0 <= close < code.len(),
        code[close] == ']',
        tokens.len() == close,
        forall|k: int| 0 <= k < close ==> #[trigger] resolved_as(code, k, tokens[k]),
        forall|k: int| 0 <= k < close ==> tokens[k] != Token::LeftBracket(close as usize),
    ensures
        unmatched_right(code, close),
{
    assert forall|open: int| !pairs(code, open, close) by {
        if pairs(code, open, close) {
            assert(resolved_as(code, open, tokens[open]));
            let target = tokens[open]->LeftBracket_0;
            lemma_close_unique(code, open, target as int, close);
        }
    }
}

/// Resolution is deterministic: a sequence of commands has at most one
/// resolution, so resolving the same code again gives the same tokens.
pub proof fn lemma_resolution_unique(code: Seq<char>, first: Seq<Token>, second: Seq<Token>)
    requires
        resolves(code, first),
        resolves(code, second),
    ensures
        first == second,
{
    assert forall|i: int| 0 <= i < code.len() implies first[i] == second[i] by {
        assert(resolved_as(code, i, first[i]));
        assert(resolved_as(code, i, second[i]));
        match first[i] {
            Token::LeftBracket(target) => {
                lemma_close_unique(code, i, target as int, second[i]->LeftBracket_0 as int);
            },
            Token::RightBracket(target) => {
                lemma_open_unique(code, target as int, second[i]->RightBracket_0 as int, i);
            },
            _ => {},
        }
    }
    assert(first =~= second);
}

/// Every pair of brackets becomes exactly one pair of jumps: the `[` is
/// resolved to a `LeftBracket` that targets the `]`, and the `]` to a
/// `RightBracket` that targets the `[`.
pub proof fn lemma_one_jump_pair_per_bracket_pair(
    code: Seq<char>,
    tokens: Seq<Token>,
    open: int,
    close: int,
)
    requires
        resolves(code, tokens),
        pairs(code, open, close),
    ensures
        close <= usize::MAX,
        tokens[open] == Token::LeftBracket(close as usize),
        tokens[close] == Token::RightBracket(open as usize),
{
    assert(resolved_as(code, open, tokens[open]));
    assert(resolved_as(code, close, tokens[close]));
    lemma_close_unique(code, open, tokens[open]->LeftBracket_0 as int, close);
    lemma_open_unique(code, tokens[close]->RightBracket_0 as int, open, close);
}

/// The jump targets of a resolution form an involution: a `LeftBracket` at
/// `at` targets a later `RightBracket` that targets `at` again, and a
/// `RightBracket` at `at` targets an earlier `LeftBracket` that targets `at`
/// again. In particular no target is dangling.
pub proof fn lemma_targets_are_mutual(code: Seq<char>, tokens: Seq<Token>, at: int)
    requires
        resolves(code, tokens),
        0 <= at < tokens.len(),
    ensures
        tokens[at] matches Token::LeftBracket(target) ==> at < target < tokens.len()
            && tokens[target as int] == Token::RightBracket(at as usize),
        tokens[at] matches Token::RightBracket(target) ==> target < at && tokens[target as int]
            == Token::LeftBracket(at as usize),
{
    assert(resolved_as(code, at, tokens[at]));
    match tokens[at] {
        Token::LeftBracket(target) => {
            lemma_one_jump_pair_per_bracket_pair(code, tokens, at, target as int);
        },
        Token::RightBracket(target) => {
            lemma_one_jump_pair_per_bracket_pair(code, tokens, target as int, at);
        },
        _ => {},
    }
}

/// Extending resolved code never alters what was resolved: if `code` and
/// its extension `code + more` both resolve, the tokens of the extension
/// begin with the tokens of `code`, target for target.
pub proof fn lemma_extension_keeps_tokens(
    code: Seq<char>,
    more: Seq<char>,
    tokens: Seq<Token>,
    extended: Seq<Token>,
)
    requires
        resolves(code, tokens),
        resolves(code + more, extended),
    ensures
        extended.subrange(0, code.len() as int) == tokens,
{
    let long = code + more;
    assert forall|i: int| 0 <= i < code.len() implies extended[i] == tokens[i] by {
        assert(resolved_as(code, i, tokens[i]));
        assert(resolved_as(long, i, extended[i]));
        assert(long[i] == code[i]);
        match tokens[i] {
            Token::LeftBracket(target) => {
                lemma_pairs_survive_extension(code, more, i, target as int);
                lemma_close_unique(long, i, target as int, extended[i]->LeftBracket_0 as int);
            },
            Token::RightBracket(target) => {
                lemma_pairs_survive_extension(code, more, target as int, i);
                lemma_open_unique(long, target as int, extended[i]->RightBracket_0 as int, i);
            },
            _ => {},
        }
    }
    assert(extended.subrange(0, code.len() as int) =~= tokens);
}

} // verus!
