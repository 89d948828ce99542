//! Searching a text for a regular expression.
//!
//! The search itself is done by the `regex` crate and is not verified: this
//! module gives its result a name, states what the crate documents of it,
//! and turns the byte offsets it reports into character indices.
//!
//! A match is a sequence of groups. Group 0 is the whole match; group `g`
//! is what the `g`-th parenthesis of the pattern captured, or `None` where
//! that group took no part in the match. A group is a pair of a start and
//! an end, the end exclusive.

use vstd::prelude::*;
use crate::text::{
    boundary_table, char_index, is_boundary, is_boundary_table, lemma_offset_increases, offset_of,
};

verus! {

/// The groups of one match.
pub type Groups = Vec<Option<(usize, usize)>>;

/// The groups of one match, as contracts speak of them.
pub type GroupSeq = Seq<Option<(usize, usize)>>;

/// What the `regex` crate finds when it compiles `pattern` with
/// `Regex::new` and searches `text` with `Regex::captures_iter`: `None`
/// where the pattern does not compile, else the successive matches, each
/// with the byte offsets of its groups in the UTF-8 encoding of `text`.
pub uninterp spec fn regex_captures(pattern: Seq<char>, text: Seq<char>) -> Option<Seq<Seq<Option<(usize, usize)>>>>;

/// Where a match starts: the start of its group 0.
pub open spec fn start_of(groups: GroupSeq) -> int {
    match groups[0] {
        Some((start, _)) => start as int,
        None => 0,
    }
}

/// Where a match ends: the end of its group 0.
pub open spec fn end_of(groups: GroupSeq) -> int {
    match groups[0] {
        Some((_, end)) => end as int,
        None => 0,
    }
}

/// True when `pattern` compiles and matches somewhere in `text`.
pub open spec fn regex_matches(pattern: Seq<char>, text: Seq<char>) -> bool {
    regex_captures(pattern, text) matches Some(found) && found.len() > 0
}

/// True when a group, if it is there, starts and ends between characters
/// of `text`, and does not end before it starts.
pub open spec fn group_on_boundaries(text: Seq<char>, group: Option<(usize, usize)>) -> bool {
    group matches Some((start, end)) ==> start <= end && is_boundary(text, start as int)
        && is_boundary(text, end as int)
}

/// What holds of the byte offsets of every search result: each group lies
/// on character boundaries of the text, every match has its group 0, and
/// each match starts where the matches before it have ended, or later.
pub open spec fn well_formed(text: Seq<char>, found: Seq<GroupSeq>) -> bool {
    &&& forall|m: int, g: int|
        0 <= m < found.len() && 0 <= g < found[m].len() ==> group_on_boundaries(
            text,
            #[trigger] found[m][g],
        )
    &&& forall|m: int|
        0 <= m < found.len() ==> (#[trigger] found[m]).len() > 0 && found[m][0] is Some
    &&& forall|m: int, n: int|
        0 <= m < n < found.len() ==> end_of(#[trigger] found[m]) <= start_of(#[trigger] found[n])
}

/// `Regex::new` on `pattern`, then `Regex::captures_iter` on `text`: the
/// matches in the order in which the iterator yields them, each as the
/// `Match::start` and `Match::end` of the groups that `Captures::iter`
/// yields. The contract names the result and states of it what the crate
/// documents: offsets fall on UTF-8 boundaries with the start not behind the
/// end, group 0 is present in every match, and successive matches do not
/// overlap.
#[verifier::external_body]
pub(crate) fn captures_of(pattern: &str, text: &str) -> (found: Option<Vec<Groups>>)
    ensures
        found.deep_view() == regex_captures(pattern@, text@),
        found matches Some(matches) ==> well_formed(text@, matches.deep_view()),
{
    let compiled = regex::Regex::new(pattern).ok()?;
    Some(
        compiled.captures_iter(text).map(
            |found| found.iter().map(|group| group.map(|m| (m.start(), m.end()))).collect(),
        ).collect(),
    )
}

/// True when `pattern` compiles and matches somewhere in `text`.
pub(crate) fn is_match(pattern: &str, text: &str) -> (matched: bool)
    ensures
        matched == regex_matches(pattern@, text@),
{
    match captures_of(pattern, text) {
        Some(found) => found.len() > 0,
        None => false,
    }
}

/// A group with its byte offsets replaced by the indices of the characters
/// that start there.
pub open spec fn char_group(text: Seq<char>, group: Option<(usize, usize)>) -> Option<
    (usize, usize),
> {
    match group {
        Some((start, end)) => Some(
            (char_index(text, start as int) as usize, char_index(text, end as int) as usize),
        ),
        None => None,
    }
}

/// A search result with every byte offset replaced by the index of the
/// character that starts there.
pub open spec fn char_spans(text: Seq<char>, found: Seq<GroupSeq>) -> Seq<GroupSeq> {
    Seq::new(
        found.len(),
        |m: int| Seq::new(found[m].len(), |g: int| char_group(text, found[m][g])),
    )
}

/// True when a group, if it is there, lies within a text of `len`
/// characters and does not end before it starts.
pub open spec fn group_in_range(len: int, group: Option<(usize, usize)>) -> bool {
    group matches Some((start, end)) ==> start <= end <= len
}

/// What holds of a search result in character indices: each group lies
/// within the text, every match has its group 0, and each match starts
/// where the matches before it have ended, or later.
pub open spec fn in_order(len: int, found: Seq<GroupSeq>) -> bool {
    &&& forall|m: int, g: int|
        0 <= m < found.len() && 0 <= g < found[m].len() ==> group_in_range(
            len,
            #[trigger] found[m][g],
        )
    &&& forall|m: int|
        0 <= m < found.len() ==> (#[trigger] found[m]).len() > 0 && found[m][0] is Some
    &&& forall|m: int, n: int|
        0 <= m < n < found.len() ==> end_of(#[trigger] found[m]) <= start_of(#[trigger] found[n])
}

/// Character indices keep the order of the byte offsets they stand for.
pub proof fn lemma_char_index_monotone(text: Seq<char>, a: int, b: int)
    requires
        is_boundary(text, a),
        is_boundary(text, b),
        a <= b,
    ensures
        0 <= char_index(text, a) <= char_index(text, b) <= text.len(),
        offset_of(text, char_index(text, a)) == a,
        offset_of(text, char_index(text, b)) == b,
{
    let i = char_index(text, a);
    let j = char_index(text, b);
    if j < i {
        lemma_offset_increases(text, j, i);
    }
}

/// A well-formed search result stays well-formed when its byte offsets are
/// replaced by character indices.
pub proof fn lemma_char_spans_in_order(text: Seq<char>, found: Seq<GroupSeq>)
    requires
        well_formed(text, found),
        text.len() <= usize::MAX,
    ensures
        in_order(text.len() as int, char_spans(text, found)),
{
    let located = char_spans(text, found);
    assert forall|m: int, g: int|
        0 <= m < located.len() && 0 <= g < located[m].len() implies group_in_range(
        text.len() as int,
        #[trigger] located[m][g],
    ) by {
        assert(group_on_boundaries(text, found[m][g]));
        if let Some((start, end)) = found[m][g] {
            lemma_char_index_monotone(text, start as int, end as int);
        }
    }
    assert forall|m: int| 0 <= m < located.len() implies (#[trigger] located[m]).len() > 0
        && located[m][0] is Some by {
        assert(found[m].len() > 0);
    }
    assert forall|m: int, n: int| 0 <= m < n < located.len() implies end_of(
        #[trigger] located[m],
    ) <= start_of(#[trigger] located[n]) by {
        assert(found[m].len() > 0);
        assert(found[n].len() > 0);
        assert(group_on_boundaries(text, found[m][0]));
        assert(group_on_boundaries(text, found[n][0]));
        assert(end_of(found[m]) <= start_of(found[n]));
        lemma_char_index_monotone(text, end_of(found[m]), start_of(found[n]));
    }
}

/// Every group of a match of an ordered search result lies within the
/// text.
pub proof fn lemma_groups_in_range(len: int, located: &Vec<Groups>, k: int)
    requires
        in_order(len, located.deep_view()),
        0 <= k < located@.len(),
    ensures
        located.deep_view()[k] == located@[k]@,
        forall|g: int|
            0 <= g < located@[k]@.len() ==> group_in_range(len, #[trigger] located@[k]@[g]),
{
    assert(located.deep_view()[k] =~= located@[k]@);
    assert forall|g: int| 0 <= g < located@[k]@.len() implies group_in_range(
        len,
        #[trigger] located@[k]@[g],
    ) by {
        assert(group_in_range(len, located.deep_view()[k][g]));
    }
}

/// Turns the byte offsets of one group into character indices.
fn locate_group(
    table: &Vec<usize>,
    group: Option<(usize, usize)>,
    Ghost(text): Ghost<Seq<char>>,
) -> (located: Option<(usize, usize)>)
    requires
        is_boundary_table(text, table@),
        group_on_boundaries(text, group),
    ensures
        located == char_group(text, group),
{
    match group {
        Some((start, end)) => Some((table[start], table[end])),
        None => None,
    }
}

/// Turns the byte offsets of one match into character indices.
fn locate_groups(
    table: &Vec<usize>,
    groups: &Groups,
    Ghost(text): Ghost<Seq<char>>,
) -> (located: Groups)
    requires
        is_boundary_table(text, table@),
        forall|g: int| 0 <= g < groups@.len() ==> group_on_boundaries(text, #[trigger] groups@[g]),
    ensures
        located@ == Seq::new(groups@.len(), |g: int| char_group(text, groups@[g])),
{
    let mut located: Groups = Vec::new();
    let mut g: usize = 0;
    while g < groups.len()
        invariant
            g <= groups.len(),
            is_boundary_table(text, table@),
            forall|k: int|
                0 <= k < groups@.len() ==> group_on_boundaries(text, #[trigger] groups@[k]),
            located@.len() == g,
            forall|k: int| 0 <= k < g ==> #[trigger] located@[k] == char_group(text, groups@[k]),
        decreases groups.len() - g,
    {
        let entry = locate_group(table, groups[g], Ghost(text));
        located.push(entry);
        g += 1;
    }
    assert(located@ =~= Seq::new(groups@.len(), |g: int| char_group(text, groups@[g])));
    located
}

/// Turns the byte offsets of a search result into character indices.
pub fn locate(chars: &[char], found: &Vec<Groups>) -> (located: Vec<Groups>)
    requires
        well_formed(chars@, found.deep_view()),
    ensures
        located.deep_view() == char_spans(chars@, found.deep_view()),
        in_order(chars@.len() as int, located.deep_view()),
{
    let table = boundary_table(chars);
    let ghost text = chars@;
    let ghost spec_found = found.deep_view();
    let mut located: Vec<Groups> = Vec::new();
    let mut m: usize = 0;
    while m < found.len()
        invariant
            m <= found.len(),
            text == chars@,
            spec_found == found.deep_view(),
            well_formed(text, spec_found),
            is_boundary_table(text, table@),
            located@.len() == m,
            forall|k: int|
                0 <= k < m ==> (#[trigger] located@[k])@ == char_spans(text, spec_found)[k],
        decreases found.len() - m,
    {
        let groups = &found[m];
        proof {
            assert(spec_found[m as int] =~= groups@);
            assert forall|g: int| 0 <= g < groups@.len() implies group_on_boundaries(
                text,
                #[trigger] groups@[g],
            ) by {
                assert(group_on_boundaries(text, spec_found[m as int][g]));
            }
        }
        let row = locate_groups(&table, groups, Ghost(text));
        located.push(row);
        m += 1;
    }
    proof {
        assert forall|k: int| 0 <= k < located@.len() implies (#[trigger] located.deep_view()[k])
            == char_spans(text, spec_found)[k] by {
            assert(located@[k].deep_view() =~= located@[k]@);
        }
        assert(located.deep_view() =~= char_spans(text, spec_found));
        lemma_char_spans_in_order(text, spec_found);
    }
    located
}

} // verus!
