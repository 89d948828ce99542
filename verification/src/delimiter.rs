//! Finding the parenthesis that closes a given opening parenthesis.
//!
//! The matcher counts parentheses and nothing else: it does not know about
//! string literals or comments, so a parenthesis inside one of them counts
//! like any other.

use vstd::prelude::*;

verus! {

/// What a character adds to the nesting depth.
pub open spec fn paren_step(c: char) -> int {
    if c == '(' {
        1
    } else if c == ')' {
        -1
    } else {
        0
    }
}

/// The nesting depth that the characters `text[from..to]` add up to: the
/// number of opening parentheses among them minus the number of closing ones.
pub open spec fn depth(text: Seq<char>, from: int, to: int) -> int
    decreases to - from,
{
    if to <= from {
        0
    } else {
        depth(text, from, to - 1) + paren_step(text[to - 1])
    }
}

/// True when the parenthesis at `close` closes the one opened at `open`:
/// counted from `open`, the depth is back at zero just behind `close`, and
/// nowhere before.
pub open spec fn closes(text: Seq<char>, open: int, close: int) -> bool {
    &&& 0 <= open < close < text.len()
    &&& text[open] == '('
    &&& depth(text, open, close + 1) == 0
    &&& forall|j: int| open < j <= close ==> #[trigger] depth(text, open, j) > 0
}

/// The index of the parenthesis that closes the one at `open`, if `open`
/// holds an opening parenthesis and the text closes it.
pub open spec fn matching_paren(text: Seq<char>, open: int) -> Option<int> {
    if exists|close: int| closes(text, open, close) {
        Some(choose|close: int| closes(text, open, close))
    } else {
        None
    }
}

/// True when every parenthesis in `text` is matched: the depth never falls
/// below zero and ends at zero.
pub open spec fn balanced(text: Seq<char>) -> bool {
    &&& depth(text, 0, text.len() as int) == 0
    &&& forall|j: int| 0 <= j <= text.len() ==> #[trigger] depth(text, 0, j) >= 0
}

/// At most one parenthesis closes a given opening parenthesis.
pub proof fn lemma_closes_unique(text: Seq<char>, open: int, c1: int, c2: int)
    requires
        closes(text, open, c1),
        closes(text, open, c2),
    ensures
        c1 == c2,
{
    if c1 < c2 {
        assert(depth(text, open, c1 + 1) > 0);
    } else if c2 < c1 {
        assert(depth(text, open, c2 + 1) > 0);
    }
}

/// The parenthesis that closes an opening one is a closing parenthesis.
pub proof fn lemma_closes_on_paren(text: Seq<char>, open: int, close: int)
    requires
        closes(text, open, close),
    ensures
        text[close] == ')',
{
    assert(depth(text, open, close) > 0);
}

/// The depth over a stretch is the sum of the depths over its two parts.
pub proof fn lemma_depth_split(text: Seq<char>, from: int, mid: int, to: int)
    requires
        from <= mid <= to,
    ensures
        depth(text, from, to) == depth(text, from, mid) + depth(text, mid, to),
    decreases to - mid,
{
    if mid < to {
        lemma_depth_split(text, from, mid, to - 1);
    }
}

/// The depth within a part of a text is the depth within the text itself.
pub proof fn lemma_depth_subrange(text: Seq<char>, a: int, b: int, k: int)
    requires
        0 <= a <= b <= text.len(),
        0 <= k <= b - a,
    ensures
        depth(text.subrange(a, b), 0, k) == depth(text, a, a + k),
    decreases k,
{
    if k > 0 {
        lemma_depth_subrange(text, a, b, k - 1);
        assert(text.subrange(a, b)[k - 1] == text[a + k - 1]);
    }
}

/// Around a balanced text, a pair of parentheses match: wherever
/// `text[open]` is `(`, `text[close]` is `)` and what stands between them is
/// balanced, however deeply nested, the parenthesis at `close` is the one
/// that closes `open`.
pub proof fn lemma_balanced_pair_matches(text: Seq<char>, open: int, close: int)
    requires
        0 <= open < close < text.len(),
        text[open] == '(',
        text[close] == ')',
        balanced(text.subrange(open + 1, close)),
    ensures
        matching_paren(text, open) == Some(close),
{
    let inner = text.subrange(open + 1, close);
    assert(depth(text, open, open + 1) == 1) by {
        assert(depth(text, open, open) == 0);
    }
    assert forall|j: int| open < j <= close implies #[trigger] depth(text, open, j) > 0 by {
        lemma_depth_split(text, open, open + 1, j);
        lemma_depth_subrange(text, open + 1, close, j - open - 1);
        assert(depth(inner, 0, j - open - 1) >= 0);
    }
    lemma_depth_split(text, open, open + 1, close);
    lemma_depth_subrange(text, open + 1, close, close - open - 1);
    assert(closes(text, open, close));
    lemma_closes_unique(text, open, close, choose|c: int| closes(text, open, c));
}

/// An opening parenthesis that the text never closes has no match: if,
/// counted from `open`, the depth stays above zero to the end of the text,
/// there is no matching parenthesis.
pub proof fn lemma_unclosed_has_no_match(text: Seq<char>, open: int)
    requires
        forall|j: int| open < j <= text.len() ==> #[trigger] depth(text, open, j) > 0,
    ensures
        matching_paren(text, open) is None,
{
    assert forall|close: int| !closes(text, open, close) by {
        if closes(text, open, close) {
            assert(depth(text, open, close + 1) > 0);
        }
    }
}

/// Finds the closing parenthesis that matches the opening parenthesis at
/// index `open`. The result is `None` where `open` is not the index of an
/// opening parenthesis, and where the text ends before the nesting depth is
/// back at zero.
pub fn find_matching_paren(text: &[char], open: usize) -> (close: Option<usize>)
    ensures
        close matches Some(c) ==> closes(text@, open as int, c as int),
        close matches Some(c) ==> matching_paren(text@, open as int) == Some(c as int),
        close is None ==> matching_paren(text@, open as int) is None,
        close is None ==> forall|c: int| !closes(text@, open as int, c),
{
    if open >= text.len() || text[open] != '(' {
        return None;
    }
    let mut level: usize = 1;
    let mut i: usize = open + 1;
    assert(depth(text@, open as int, open as int) == 0);
    while i < text.len()
        invariant
            open < i <= text.len(),
            text@[open as int] == '(',
            level == depth(text@, open as int, i as int),
            level <= i - open,
            forall|j: int| open < j <= i ==> #[trigger] depth(text@, open as int, j) > 0,
        decreases text.len() - i,
    {
        let c = text[i];
        if c == '(' {
            level += 1;
        } else if c == ')' {
            level -= 1;
            if level == 0 {
                proof {
                    lemma_closes_unique(
                        text@,
                        open as int,
                        i as int,
                        choose|c: int| closes(text@, open as int, c),
                    );
                }
                return Some(i);
            }
        }
        i += 1;
    }
    proof {
        assert forall|c: int| !closes(text@, open as int, c) by {
            if closes(text@, open as int, c) {
                assert(depth(text@, open as int, c + 1) > 0);
            }
        }
    }
    None
}

} // verus!
