//! Replacing the matches of a search by other text.
//!
//! Given a text, the matches found in it and one replacement for each match,
//! the spliced text is the given text with every match cut out and its
//! replacement put in its place; what stands between the matches stays.

use vstd::prelude::*;
use crate::pattern::{end_of, group_in_range, in_order, start_of, GroupSeq, Groups};
use crate::text::{push_chars, slice_subrange};

verus! {

/// The text that group `g` of a match captured; empty where the match has
/// no such group or the group took no part in it.
pub open spec fn group_text(text: Seq<char>, groups: GroupSeq, g: int) -> Seq<char> {
    if 0 <= g < groups.len() {
        match groups[g] {
            Some((start, end)) => text.subrange(start as int, end as int),
            None => Seq::empty(),
        }
    } else {
        Seq::empty()
    }
}

/// Where the untouched text before match `k` starts: at the start of the
/// text for the first match, else where the match before ended. For
/// `k == found.len()` it is where the untouched rest of the text starts.
pub open spec fn gap_start(found: Seq<GroupSeq>, k: int) -> int {
    if k <= 0 {
        0
    } else {
        end_of(found[k - 1])
    }
}

/// The spliced text up to and with the replacement of match `k - 1`.
pub open spec fn spliced_upto(
    text: Seq<char>,
    found: Seq<GroupSeq>,
    pieces: Seq<Seq<char>>,
    k: int,
) -> Seq<char>
    decreases k,
{
    if k <= 0 {
        Seq::empty()
    } else {
        spliced_upto(text, found, pieces, k - 1) + text.subrange(
            gap_start(found, k - 1),
            start_of(found[k - 1]),
        ) + pieces[k - 1]
    }
}

/// The text with each match `found[k]` replaced by `pieces[k]`.
pub open spec fn spliced(text: Seq<char>, found: Seq<GroupSeq>, pieces: Seq<Seq<char>>) -> Seq<
    char,
> {
    spliced_upto(text, found, pieces, found.len() as int) + text.subrange(
        gap_start(found, found.len() as int),
        text.len() as int,
    )
}

/// Matches that are passed through leave the text as it is: where every
/// match is replaced by the text it matched, the spliced text is the text
/// that was searched.
pub proof fn lemma_pass_through_keeps_text(
    text: Seq<char>,
    found: Seq<GroupSeq>,
    pieces: Seq<Seq<char>>,
)
    requires
        in_order(text.len() as int, found),
        pieces.len() == found.len(),
        forall|k: int|
            0 <= k < found.len() ==> #[trigger] pieces[k] == group_text(text, found[k], 0),
    ensures
        spliced(text, found, pieces) == text,
{
    lemma_spliced_same_upto(text, found, pieces, found.len() as int);
    let n = found.len() as int;
    lemma_gap_in_range(text.len() as int, found, n);
    assert(text.subrange(0, gap_start(found, n)) + text.subrange(
        gap_start(found, n),
        text.len() as int,
    ) =~= text);
}

/// The untouched text before match `k` starts within the text, and not
/// behind match `k`.
pub proof fn lemma_gap_in_range(len: int, found: Seq<GroupSeq>, k: int)
    requires
        0 <= len,
        in_order(len, found),
        0 <= k <= found.len(),
    ensures
        0 <= gap_start(found, k) <= len,
        k < found.len() ==> gap_start(found, k) <= start_of(found[k]) <= end_of(found[k]) <= len,
{
    if k > 0 {
        assert(found[k - 1].len() > 0 && found[k - 1][0] is Some);
        assert(group_in_range(len, found[k - 1][0]));
    }
    if k < found.len() {
        assert(found[k].len() > 0 && found[k][0] is Some);
        assert(group_in_range(len, found[k][0]));
    }
}

proof fn lemma_spliced_same_upto(
    text: Seq<char>,
    found: Seq<GroupSeq>,
    pieces: Seq<Seq<char>>,
    k: int,
)
    requires
        in_order(text.len() as int, found),
        pieces.len() == found.len(),
        forall|j: int|
            0 <= j < found.len() ==> #[trigger] pieces[j] == group_text(text, found[j], 0),
        0 <= k <= found.len(),
    ensures
        spliced_upto(text, found, pieces, k) == text.subrange(0, gap_start(found, k)),
    decreases k,
{
    if k > 0 {
        lemma_spliced_same_upto(text, found, pieces, k - 1);
        lemma_gap_in_range(text.len() as int, found, k - 1);
        assert(pieces[k - 1] == group_text(text, found[k - 1], 0));
        assert(spliced_upto(text, found, pieces, k) =~= text.subrange(0, gap_start(found, k)));
    } else {
        assert(spliced_upto(text, found, pieces, k) =~= text.subrange(0, gap_start(found, k)));
    }
}

/// The characters that group `g` of a match captured; empty where the match
/// has no such group or the group took no part in it.
pub fn group_slice<'a>(chars: &'a [char], groups: &Groups, g: usize) -> (captured: &'a [char])
    requires
        forall|k: int|
            0 <= k < groups@.len() ==> group_in_range(chars@.len() as int, #[trigger] groups@[k]),
    ensures
        captured@ == group_text(chars@, groups@, g as int),
{
    if g < groups.len() {
        match groups[g] {
            Some((start, end)) => {
                assert(group_in_range(chars@.len() as int, groups@[g as int]));
                slice_subrange(chars, start, end)
            },
            None => slice_subrange(chars, 0, 0),
        }
    } else {
        slice_subrange(chars, 0, 0)
    }
}

/// Replaces each match `found[k]` in `chars` by `pieces[k]`.
pub fn splice(chars: &[char], found: &Vec<Groups>, pieces: &Vec<String>) -> (out: String)
    requires
        in_order(chars@.len() as int, found.deep_view()),
        pieces.len() == found.len(),
    ensures
        out@ == spliced(chars@, found.deep_view(), pieces.deep_view()),
{
    let ghost text = chars@;
    let ghost spans = found.deep_view();
    let ghost parts = pieces.deep_view();
    let mut out = String::new();
    let mut done: usize = 0;
    let mut k: usize = 0;
    while k < found.len()
        invariant
            k <= found.len(),
            text == chars@,
            spans == found.deep_view(),
            parts == pieces.deep_view(),
            pieces.len() == found.len(),
            in_order(text.len() as int, spans),
            done == gap_start(spans, k as int),
            out@ == spliced_upto(text, spans, parts, k as int),
        decreases found.len() - k,
    {
        proof {
            lemma_gap_in_range(text.len() as int, spans, k as int);
            assert(spans[k as int] =~= found@[k as int]@);
            assert(parts[k as int] =~= pieces@[k as int]@);
        }
        let groups = &found[k];
        let (start, end) = match groups[0] {
            Some(whole) => whole,
            None => (done, done),
        };
        push_chars(&mut out, slice_subrange(chars, done, start));
        out.append(pieces[k].as_str());
        done = end;
        k += 1;
    }
    proof {
        lemma_gap_in_range(text.len() as int, spans, k as int);
    }
    push_chars(&mut out, slice_subrange(chars, done, chars.len()));
    out
}

} // verus!
