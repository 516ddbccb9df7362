//! The theory of bracket matching that the resolver rests on.
//!
//! Everything is phrased over [`depth`], the net nesting of a stretch of
//! code. [`pairs`] says when a `]` closes a `[`; [`balanced`] says that
//! every bracket has its partner. The lemmas show that partners are unique,
//! when they exist, and that `balanced` is balance in the textbook sense.

use vstd::prelude::*;

verus! {

/// What one character adds to the nesting depth.
pub open spec fn nesting(c: char) -> int {
    if c == '[' {
        1
    } else if c == ']' {
        -1
    } else {
        0
    }
}

/// The net nesting of `code[from..to]`: the number of `[` in it minus the
/// number of `]`.
pub open spec fn depth(code: Seq<char>, from: int, to: int) -> int
    decreases to - from,
{
    if to <= from {
        0
    } else {
        depth(code, from, to - 1) + nesting(code[to - 1])
    }
}

/// The `]` at `close` closes the `[` at `open`: scanning forward from
/// `open`, the depth stays positive until `close` and is zero after it.
pub open spec fn pairs(code: Seq<char>, open: int, close: int) -> bool {
    &&& 0 <= open < close < code.len()
    &&& code[open] == '['
    &&& code[close] == ']'
    &&& depth(code, open, close + 1) == 0
    &&& forall|k: int| open < k <= close ==> depth(code, open, k) > 0
}

/// There is a `[` at `open` that no `]` closes.
pub open spec fn unmatched_left(code: Seq<char>, open: int) -> bool {
    &&& 0 <= open < code.len()
    &&& code[open] == '['
    &&& forall|close: int| !pairs(code, open, close)
}

/// There is a `]` at `close` that closes no `[`.
pub open spec fn unmatched_right(code: Seq<char>, close: int) -> bool {
    &&& 0 <= close < code.len()
    &&& code[close] == ']'
    &&& forall|open: int| !pairs(code, open, close)
}

/// Every bracket of `code` has its partner.
pub open spec fn balanced(code: Seq<char>) -> bool {
    &&& forall|open: int| !unmatched_left(code, open)
    &&& forall|close: int| !unmatched_right(code, close)
}

/// The textbook notion of balance: no prefix closes more brackets than it
/// opens, and the whole code closes as many as it opens.
pub open spec fn well_nested(code: Seq<char>) -> bool {
    &&& forall|k: int| 0 <= k <= code.len() ==> depth(code, 0, k) >= 0
    &&& depth(code, 0, code.len() as int) == 0
}

/// The depth of a stretch is the sum of the depths of its two parts.
pub proof fn lemma_depth_split(code: Seq<char>, from: int, mid: int, to: int)
    requires
        from <= mid <= to,
    ensures
        depth(code, from, to) == depth(code, from, mid) + depth(code, mid, to),
    decreases to - mid,
{
    if mid < to {
        lemma_depth_split(code, from, mid, to - 1);
    }
}

/// A `[` is closed by at most one `]`.
pub proof fn lemma_close_unique(code: Seq<char>, open: int, first: int, second: int)
    requires
        pairs(code, open, first),
        pairs(code, open, second),
    ensures
        first == second,
{
    if first < second {
        assert(depth(code, open, first + 1) > 0);
    } else if second < first {
        assert(depth(code, open, second + 1) > 0);
    }
}

/// A `]` closes at most one `[`.
pub proof fn lemma_open_unique(code: Seq<char>, first: int, second: int, close: int)
    requires
        pairs(code, first, close),
        pairs(code, second, close),
    ensures
        first == second,
{
    if first < second {
        lemma_depth_split(code, first, second, close + 1);
        assert(depth(code, first, second) > 0);
    } else if second < first {
        lemma_depth_split(code, second, first, close + 1);
        assert(depth(code, second, first) > 0);
    }
}

/// Walking left from the `]` at `close` over positions where the depth up
/// to `end`, the position after `close`, is negative, one reaches the `[`
/// that it closes before the depth can become non-negative at `low`.
proof fn lemma_search_opening(code: Seq<char>, low: int, at: int, close: int, end: int)
    requires
        0 <= low <= at <= close < code.len(),
        end == close + 1,
        code[close] == ']',
        depth(code, low, end) >= 0,
        forall|k: int| at <= k <= close ==> depth(code, k, end) < 0,
    ensures
        exists|open: int| low <= open < at && pairs(code, open, close),
    decreases at - low,
{
    if at == low {
        assert(depth(code, at, end) < 0);
    } else {
        let open = at - 1;
        lemma_depth_split(code, open, at, end);
        assert(depth(code, open, at) == nesting(code[open])) by {
            assert(depth(code, open, open) == 0);
        }
        assert(depth(code, at, end) < 0);
        if depth(code, open, end) == 0 {
            assert forall|k: int| open < k <= close implies depth(code, open, k) > 0 by {
                lemma_depth_split(code, open, k, end);
                assert(depth(code, k, end) < 0);
            }
            assert(pairs(code, open, close));
        } else {
            assert forall|k: int| open <= k <= close implies depth(code, k, end) < 0 by {
                if k != open {
                    assert(at <= k);
                }
            }
            lemma_search_opening(code, low, open, close, end);
        }
    }
}

/// A `]` closes some `[` at or after `low` whenever the stretch from `low`
/// up to and including that `]` has no more `]` than `[`.
pub proof fn lemma_opening_exists(code: Seq<char>, low: int, close: int)
    requires
        0 <= low <= close < code.len(),
        code[close] == ']',
        depth(code, low, close + 1) >= 0,
    ensures
        exists|open: int| low <= open < close && pairs(code, open, close),
{
    assert(depth(code, close, close + 1) == -1) by {
        assert(depth(code, close, close) == 0);
    }
    lemma_search_opening(code, low, close, close, close + 1);
}

/// Walking right from a `[` while the depth stays positive, one reaches the
/// `]` that closes it before the depth can become non-positive at `high`.
proof fn lemma_search_closing(code: Seq<char>, open: int, at: int, high: int)
    requires
        0 <= open < at <= high <= code.len(),
        code[open] == '[',
        depth(code, open, high) <= 0,
        forall|k: int| open < k <= at ==> depth(code, open, k) > 0,
    ensures
        exists|close: int| at <= close < high && pairs(code, open, close),
    decreases high - at,
{
    if at == high {
        assert(depth(code, open, at) > 0);
    } else {
        assert(depth(code, open, at) > 0);
        if depth(code, open, at + 1) == 0 {
            assert(pairs(code, open, at));
        } else {
            assert forall|k: int| open < k <= at + 1 implies depth(code, open, k) > 0 by {
                if k <= at {
                    assert(depth(code, open, k) > 0);
                }
            }
            lemma_search_closing(code, open, at + 1, high);
        }
    }
}

/// A `[` is closed before `high` whenever the stretch from it up to `high`
/// has no more `[` than `]`.
pub proof fn lemma_closing_exists(code: Seq<char>, open: int, high: int)
    requires
        0 <= open < high <= code.len(),
        code[open] == '[',
        depth(code, open, high) <= 0,
    ensures
        exists|close: int| open < close < high && pairs(code, open, close),
{
    assert(depth(code, open, open + 1) == 1) by {
        assert(depth(code, open, open) == 0);
    }
    lemma_search_closing(code, open, open + 1, high);
}

/// In balanced code no prefix closes more brackets than it opens.
proof fn lemma_prefix_depth(code: Seq<char>, end: int)
    requires
        balanced(code),
        0 <= end <= code.len(),
    ensures
        depth(code, 0, end) >= 0,
    decreases end,
{
    if end > 0 {
        lemma_prefix_depth(code, end - 1);
        if depth(code, 0, end) < 0 {
            let close = end - 1;
            assert(!unmatched_right(code, close));
            let open = choose|open: int| pairs(code, open, close);
            lemma_prefix_depth(code, open);
            lemma_depth_split(code, 0, open, end);
        }
    }
}

/// Below a stretch of positive prefix depths lies a `[` that is never
/// closed.
proof fn lemma_search_unclosed(code: Seq<char>, at: int)
    requires
        0 <= at <= code.len(),
        forall|k: int| 0 <= k <= code.len() ==> depth(code, 0, k) >= 0,
        forall|k: int| at <= k <= code.len() ==> depth(code, 0, k) > 0,
    ensures
        exists|open: int| unmatched_left(code, open),
    decreases at,
{
    if at == 0 {
        assert(depth(code, 0, 0) > 0);
    } else {
        let open = at - 1;
        assert(depth(code, 0, at) > 0);
        if depth(code, 0, open) == 0 {
            assert forall|close: int| !pairs(code, open, close) by {
                if pairs(code, open, close) {
                    lemma_depth_split(code, 0, open, close + 1);
                    assert(depth(code, 0, close + 1) > 0);
                }
            }
            assert(unmatched_left(code, open));
        } else {
            assert(depth(code, 0, open) >= 0);
            assert forall|k: int| open <= k <= code.len() implies depth(code, 0, k) > 0 by {
                if k != open {
                    assert(at <= k);
                }
            }
            lemma_search_unclosed(code, open);
        }
    }
}

/// The brackets of `code` all have partners exactly when `code` is balanced
/// in the textbook sense.
pub proof fn lemma_balanced_iff_well_nested(code: Seq<char>)
    ensures
        balanced(code) <==> well_nested(code),
{
    if balanced(code) {
        assert forall|k: int| 0 <= k <= code.len() implies depth(code, 0, k) >= 0 by {
            lemma_prefix_depth(code, k);
        }
        if depth(code, 0, code.len() as int) != 0 {
            lemma_search_unclosed(code, code.len() as int);
        }
    }
    if well_nested(code) {
        assert forall|open: int| !unmatched_left(code, open) by {
            if 0 <= open < code.len() && code[open] == '[' {
                lemma_depth_split(code, 0, open, code.len() as int);
                assert(depth(code, 0, open) >= 0);
                lemma_closing_exists(code, open, code.len() as int);
            }
        }
        assert forall|close: int| !unmatched_right(code, close) by {
            if 0 <= close < code.len() && code[close] == ']' {
                assert(depth(code, 0, close + 1) >= 0);
                lemma_opening_exists(code, 0, close);
            }
        }
    }
}

/// A `]` that closes nothing never comes after a `[` that is never closed.
pub proof fn lemma_unmatched_right_comes_first(code: Seq<char>, open: int, close: int)
    requires
        unmatched_left(code, open),
        unmatched_right(code, close),
    ensures
        close < open,
{
    if open < close {
        if depth(code, open, close + 1) >= 0 {
            lemma_opening_exists(code, open, close);
        } else {
            lemma_closing_exists(code, open, close + 1);
        }
    }
}

/// Appending characters does not change the depth of a stretch that lies
/// within the old code.
proof fn lemma_depth_of_prefix(code: Seq<char>, more: Seq<char>, from: int, to: int)
    requires
        0 <= from,
        to <= code.len(),
    ensures
        depth(code + more, from, to) == depth(code, from, to),
    decreases to - from,
{
    if from < to {
        lemma_depth_of_prefix(code, more, from, to - 1);
    }
}

/// Brackets that pair in `code` still pair after characters are appended.
pub proof fn lemma_pairs_survive_extension(
    code: Seq<char>,
    more: Seq<char>,
    open: int,
    close: int,
)
    requires
        pairs(code, open, close),
    ensures
        pairs(code + more, open, close),
{
    lemma_depth_of_prefix(code, more, open, close + 1);
    assert forall|k: int| open < k <= close implies depth(code + more, open, k) > 0 by {
        lemma_depth_of_prefix(code, more, open, k);
    }
}

} // verus!
