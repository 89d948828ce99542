//! Resolving `#include` lines.
//!
//! An `#include` line names a path. The functions here find those lines
//! and put in the place of each what a resolver gives for its path. What is
//! replaced is the line of the directive, from its start to the end of the
//! path, and nothing of the lines before it. The resolver belongs to the
//! caller: nothing is known of what it answers but what its own contract
//! says. Where the resolver fails for a path, a call of `error` takes the
//! place of the line, so that the text around it can still be read, and the
//! first failure is reported together with the text.

use std::borrow::Cow;
use std::fmt::Display;
use vstd::pervasive::arbitrary;
use vstd::prelude::*;
use vstd::string::to_string_from_display_ensures;
use crate::pattern::{
    captures_of, char_spans, end_of, group_in_range, in_order, lemma_groups_in_range, locate,
    regex_captures, regex_matches, start_of, GroupSeq, Groups,
};
use crate::pipeline::as_text;
use crate::search::{find_line_start, is_line_end, lemma_line_start, line_start};
use crate::splice::{group_slice, group_text, splice, spliced};
use crate::text::{chars_of, string_of};

verus! {

/// The regular expression that finds an `#include` line: at the start of
/// a line, after white space that ends no line, the marker, white space that
/// ends no line, and the path, which is group 1.
pub open spec fn include_pattern() -> Seq<char> {
    r"(?m)^[^\S\r\n]*#include[^\S\r\n]+(\S+)"@
}

/// The matches of the pattern for `#include` lines in `text`, in character
/// indices; none where the pattern does not compile.
pub open spec fn include_matches(text: Seq<char>) -> Seq<GroupSeq> {
    match regex_captures(include_pattern(), text) {
        Some(found) => char_spans(text, found),
        None => Seq::empty(),
    }
}

/// Where the path of a match starts, if the match has a path that starts
/// within it; else where the match ends.
pub open spec fn path_start(groups: GroupSeq) -> int {
    if groups.len() > 1 {
        match groups[1] {
            Some((start, _)) => if start_of(groups) <= start <= end_of(groups) {
                start as int
            } else {
                end_of(groups)
            },
            None => end_of(groups),
        }
    } else {
        end_of(groups)
    }
}

/// The stretch that is replaced for one match: it ends where the match
/// ends, and starts where the line starts on which the path stands, not
/// before the start of the match. Whatever the match holds of the lines
/// before that line stays in the text.
pub open spec fn directive_line(text: Seq<char>, groups: GroupSeq) -> GroupSeq {
    seq![
        Some(
            (
                line_start(text, start_of(groups), path_start(groups)) as usize,
                end_of(groups) as usize,
            ),
        ),
    ]
}

/// The stretches that are replaced for the matches `located`.
pub open spec fn directive_lines(text: Seq<char>, located: Seq<GroupSeq>) -> Seq<GroupSeq> {
    Seq::new(located.len(), |k: int| directive_line(text, located[k]))
}

/// Where the `#include` lines of `text` stand, in character indices: for
/// each match of the pattern the line of the directive.
pub open spec fn include_spans(text: Seq<char>) -> Seq<GroupSeq> {
    directive_lines(text, include_matches(text))
}

/// The paths that the `#include` lines of `text` name, in the order of the
/// lines.
pub open spec fn include_paths(text: Seq<char>) -> Seq<Seq<char>> {
    Seq::new(
        include_matches(text).len(),
        |k: int| group_text(text, include_matches(text)[k], 1),
    )
}

/// What is replaced for a match starts on the directive's own line: it
/// lies within the match, no line ends between its start and the path, and
/// it starts where the match starts or just behind the end of a line.
pub proof fn lemma_directive_starts_on_its_line(text: Seq<char>, groups: GroupSeq)
    requires
        groups.len() > 0,
        groups[0] is Some,
        group_in_range(text.len() as int, groups[0]),
    ensures
        start_of(groups) <= start_of(directive_line(text, groups)) <= path_start(groups) <= end_of(
            groups,
        ),
        end_of(directive_line(text, groups)) == end_of(groups),
        forall|i: int|
            start_of(directive_line(text, groups)) <= i < path_start(groups) ==> !is_line_end(
                #[trigger] text[i],
            ),
        start_of(directive_line(text, groups)) == start_of(groups) || is_line_end(
            text[start_of(directive_line(text, groups)) - 1],
        ),
{
    lemma_line_start(text, start_of(groups), path_start(groups));
}

/// The stretches that are replaced keep the order of the matches and lie
/// within the text.
pub proof fn lemma_directive_lines_in_order(text: Seq<char>, located: Seq<GroupSeq>)
    requires
        in_order(text.len() as int, located),
    ensures
        in_order(text.len() as int, directive_lines(text, located)),
{
    let lines = directive_lines(text, located);
    assert forall|m: int| 0 <= m < lines.len() implies (#[trigger] lines[m]).len() > 0
        && lines[m][0] is Some && group_in_range(text.len() as int, lines[m][0]) && start_of(
        located[m],
    ) <= start_of(lines[m]) && end_of(lines[m]) == end_of(located[m]) by {
        assert(located[m].len() > 0 && located[m][0] is Some);
        assert(group_in_range(text.len() as int, located[m][0]));
        lemma_directive_starts_on_its_line(text, located[m]);
    }
    assert forall|m: int, g: int|
        0 <= m < lines.len() && 0 <= g < lines[m].len() implies group_in_range(
        text.len() as int,
        #[trigger] lines[m][g],
    ) by {
        assert(lines[m].len() > 0);
    }
    assert forall|m: int, n: int| 0 <= m < n < lines.len() implies end_of(#[trigger] lines[m])
        <= start_of(#[trigger] lines[n]) by {
        assert(lines[m].len() > 0);
        assert(lines[n].len() > 0);
        assert(end_of(located[m]) <= start_of(located[n]));
    }
}

/// Finds for each of the matches `located` the stretch that is replaced:
/// the line of the directive.
pub fn clip_to_lines(chars: &[char], located: &Vec<Groups>) -> (lines: Vec<Groups>)
    requires
        in_order(chars@.len() as int, located.deep_view()),
    ensures
        lines@.len() == located@.len(),
        lines.deep_view() == directive_lines(chars@, located.deep_view()),
        in_order(chars@.len() as int, lines.deep_view()),
{
    let ghost text = chars@;
    let ghost spans = located.deep_view();
    let mut lines: Vec<Groups> = Vec::new();
    let mut k: usize = 0;
    while k < located.len()
        invariant
            k <= located.len(),
            text == chars@,
            spans == located.deep_view(),
            in_order(text.len() as int, spans),
            lines@.len() == k,
            forall|j: int| 0 <= j < k ==> (#[trigger] lines@[j])@ == directive_line(text, spans[j]),
        decreases located.len() - k,
    {
        proof {
            lemma_groups_in_range(text.len() as int, located, k as int);
            assert(spans[k as int].len() > 0 && spans[k as int][0] is Some);
            lemma_directive_starts_on_its_line(text, spans[k as int]);
        }
        let groups = &located[k];
        let (start, end) = match groups[0] {
            Some(whole) => whole,
            None => (0, 0),
        };
        let mut anchor: usize = end;
        if groups.len() > 1 {
            match groups[1] {
                Some((path, _)) => {
                    if start <= path && path <= end {
                        anchor = path;
                    }
                },
                None => {},
            }
        }
        let line = find_line_start(chars, start, anchor);
        let mut row: Groups = Vec::new();
        row.push(Some((line, end)));
        proof {
            assert(row@ =~= directive_line(text, spans[k as int]));
        }
        lines.push(row);
        k += 1;
    }
    proof {
        assert forall|j: int| 0 <= j < lines@.len() implies (#[trigger] lines.deep_view()[j])
            == directive_lines(text, spans)[j] by {
            assert(lines@[j].deep_view() =~= lines@[j]@);
        }
        assert(lines.deep_view() =~= directive_lines(text, spans));
        lemma_directive_lines_in_order(text, spans);
    }
    lines
}

/// True when `outcome` is something that `resolve` may answer for `path`.
pub open spec fn answered<E, F: FnMut(&str) -> Result<String, E>>(
    resolve: F,
    path: Seq<char>,
    outcome: Result<String, E>,
) -> bool {
    exists|p: &str| p@ == path && call_ensures(resolve, (p,), outcome)
}

/// True when `content` is something that `resolve` may answer for `path`.
pub open spec fn supplied<F: FnMut(&str) -> String>(
    resolve: F,
    path: Seq<char>,
    content: String,
) -> bool {
    exists|p: &str| p@ == path && call_ensures(resolve, (p,), content)
}

/// True when `outcomes` holds, for each of `paths` in order, something
/// that `resolve` may answer for it.
pub open spec fn all_answered<E, F: FnMut(&str) -> Result<String, E>>(
    resolve: F,
    paths: Seq<Seq<char>>,
    outcomes: Seq<Result<String, E>>,
) -> bool {
    &&& outcomes.len() == paths.len()
    &&& forall|k: int|
        0 <= k < outcomes.len() ==> answered(resolve, paths[k], #[trigger] outcomes[k])
}

/// True when `contents` holds, for each of `paths` in order, something
/// that `resolve` may answer for it.
pub open spec fn all_supplied<F: FnMut(&str) -> String>(
    resolve: F,
    paths: Seq<Seq<char>>,
    contents: Seq<String>,
) -> bool {
    &&& contents.len() == paths.len()
    &&& forall|k: int|
        0 <= k < contents.len() ==> supplied(resolve, paths[k], #[trigger] contents[k])
}

/// True when `message` is what the error of `outcome` says of itself, where
/// `outcome` is an error.
pub open spec fn described<E: Display>(outcome: Result<String, E>, message: String) -> bool {
    outcome matches Err(error) ==> to_string_from_display_ensures::<E>(&error, message)
}

/// True when `messages` holds, for each error among `outcomes`, what the
/// error says of itself.
pub open spec fn all_described<E: Display>(
    outcomes: Seq<Result<String, E>>,
    messages: Seq<String>,
) -> bool {
    &&& messages.len() == outcomes.len()
    &&& forall|k: int| 0 <= k < outcomes.len() ==> described(outcomes[k], #[trigger] messages[k])
}

/// The texts that `contents` holds.
pub open spec fn texts_of(contents: Seq<String>) -> Seq<Seq<char>> {
    Seq::new(contents.len(), |k: int| contents[k]@)
}

/// The error of the first outcome that is one.
pub open spec fn first_error<E>(outcomes: Seq<Result<String, E>>) -> Option<E>
    decreases outcomes.len(),
{
    if outcomes.len() == 0 {
        None
    } else {
        match first_error(outcomes.drop_last()) {
            Some(error) => Some(error),
            None => match outcomes.last() {
                Err(error) => Some(error),
                Ok(_) => None,
            },
        }
    }
}

/// How `str` shows `text` with `{:?}`: between double quotes, with escapes
/// for what could not stand there.
pub uninterp spec fn debug_form(text: Seq<char>) -> Seq<char>;

/// `format!` with `{:?}` on a `str`: the contract gives the result its
/// name.
#[verifier::external_body]
fn debug_string(text: &str) -> (shown: String)
    ensures
        shown@ == debug_form(text@),
{
    format!("{:?}", text)
}

/// The expression that takes the place of an `#include` line whose path
/// could not be resolved: a call of `error` that names the path and gives
/// the message of the failure.
pub open spec fn failure_marker(path: Seq<char>, message: Seq<char>) -> Seq<char> {
    "error(\"failed to include "@ + debug_form(path) + ": "@ + message + "\")"@
}

/// What takes the place of the `#include` line for `path`, given the
/// outcome of resolving it and the message of its error, if it is one.
pub open spec fn piece<E>(path: Seq<char>, outcome: Result<String, E>, message: Seq<char>) -> Seq<
    char,
> {
    match outcome {
        Ok(content) => content@,
        Err(_) => failure_marker(path, message),
    }
}

/// What takes the place of each `#include` line.
pub open spec fn pieces<E>(
    paths: Seq<Seq<char>>,
    outcomes: Seq<Result<String, E>>,
    messages: Seq<String>,
) -> Seq<Seq<char>> {
    Seq::new(outcomes.len(), |k: int| piece(paths[k], outcomes[k], messages[k]@))
}

/// `text` with each `#include` line replaced by what came of resolving its
/// path: by what the resolver answered, or by a call of `error` where it
/// failed.
pub open spec fn resolved<E>(
    text: Seq<char>,
    outcomes: Seq<Result<String, E>>,
    messages: Seq<String>,
) -> Seq<char> {
    spliced(text, include_spans(text), pieces(include_paths(text), outcomes, messages))
}

/// True when `out` is what trying to resolve the `#include` lines of
/// `text` comes to: an owned text with each line replaced by what came of
/// resolving its path, alone where every path was resolved, else together
/// with the first error.
pub open spec fn comes_to<'h, E>(
    out: Result<Cow<'h, str>, (Cow<'h, str>, E)>,
    text: Seq<char>,
    outcomes: Seq<Result<String, E>>,
    messages: Seq<String>,
) -> bool {
    match first_error(outcomes) {
        Some(error) => out matches Err((Cow::Owned(new), first)) && first == error && new@
            == resolved(text, outcomes, messages),
        None => out matches Ok(Cow::Owned(new)) && new@ == resolved(text, outcomes, messages),
    }
}

/// Writes the expression that takes the place of an `#include` line whose
/// path could not be resolved.
pub fn mark_failure(path: &str, message: &str) -> (marker: String)
    ensures
        marker@ == failure_marker(path@, message@),
{
    let mut marker = String::new();
    marker.append("error(\"failed to include ");
    marker.append(debug_string(path).as_str());
    marker.append(": ");
    marker.append(message);
    marker.append("\")");
    marker
}

/// Settles one `#include` line, given the outcome of resolving its path:
/// what takes the line's place, and the error if the outcome is one.
pub fn settle<E: Display>(path: &str, outcome: Result<String, E>) -> (settled: (String, Option<E>))
    ensures
        outcome matches Ok(content) ==> settled == (content, None::<E>),
        outcome matches Err(error) ==> settled.1 == Some(error),
        outcome is Err ==> exists|message: String| #[trigger]
            described(outcome, message) && settled.0@ == failure_marker(path@, message@),
{
    match outcome {
        Ok(content) => (content, None),
        Err(error) => {
            let message = error.to_string();
            let marker = mark_failure(path, message.as_str());
            assert(described(outcome, message));
            (marker, Some(error))
        },
    }
}

/// The paths that the `#include` lines of `lua` name, in the order of the
/// lines.
pub fn find_includes(lua: &str) -> (paths: Vec<String>)
    ensures
        paths.deep_view() == include_paths(lua@),
{
    let mut paths: Vec<String> = Vec::new();
    match captures_of(r"(?m)^[^\S\r\n]*#include[^\S\r\n]+(\S+)", lua) {
        None => {
            assert(paths.deep_view() =~= include_paths(lua@));
        },
        Some(found) => {
            let chars = chars_of(lua);
            let located = locate(chars.as_slice(), &found);
            let ghost spans = located.deep_view();
            let mut k: usize = 0;
            while k < located.len()
                invariant
                    k <= located.len(),
                    chars@ == lua@,
                    spans == located.deep_view(),
                    spans == include_matches(lua@),
                    in_order(chars@.len() as int, spans),
                    paths@.len() == k,
                    forall|j: int|
                        0 <= j < k ==> (#[trigger] paths@[j])@ == group_text(lua@, spans[j], 1),
                decreases located.len() - k,
            {
                proof {
                    lemma_groups_in_range(chars@.len() as int, &located, k as int);
                }
                paths.push(string_of(group_slice(chars.as_slice(), &located[k], 1)));
                k += 1;
            }
            assert(paths.deep_view() =~= include_paths(lua@));
        },
    }
    paths
}

/// Puts in the place of each `#include` line what `resolve` gives for its
/// path, without a way for `resolve` to fail.
///
/// A text without such a line comes back as it is. Else `resolve` is asked
/// once for each line, in the order of the lines, and the result is an owned
/// text with each line replaced by what `resolve` answered for it.
pub fn patch_includes<'h, F: FnMut(&str) -> String>(lua: Cow<'h, str>, mut resolve: F) -> (out:
    Cow<'h, str>)
    requires
        forall|path: &str| call_requires(resolve, (path,)),
    ensures
        !regex_matches(include_pattern(), lua@) ==> out == lua,
        regex_matches(include_pattern(), lua@) ==> out is Owned && exists|contents: Seq<String>|
            #[trigger] all_supplied(resolve, include_paths(lua@), contents) && out@ == spliced(
                lua@,
                include_spans(lua@),
                texts_of(contents),
            ),
{
    let found = captures_of(r"(?m)^[^\S\r\n]*#include[^\S\r\n]+(\S+)", as_text(&lua));
    match found {
        None => lua,
        Some(found) => {
            if found.len() == 0 {
                return lua;
            }
            let chars = chars_of(as_text(&lua));
            let located = locate(chars.as_slice(), &found);
            let ghost spans = located.deep_view();
            let ghost paths = include_paths(lua@);
            let ghost asked = resolve;
            let mut contents: Vec<String> = Vec::new();
            let mut k: usize = 0;
            while k < located.len()
                invariant
                    k <= located.len(),
                    chars@ == lua@,
                    spans == located.deep_view(),
                    spans == include_matches(lua@),
                    paths == include_paths(lua@),
                    in_order(chars@.len() as int, spans),
                    resolve == asked,
                    forall|path: &str| call_requires(resolve, (path,)),
                    contents@.len() == k,
                    forall|j: int|
                        0 <= j < k ==> supplied(resolve, paths[j], #[trigger] contents@[j]),
                decreases located.len() - k,
            {
                proof {
                    lemma_groups_in_range(chars@.len() as int, &located, k as int);
                }
                let path = string_of(group_slice(chars.as_slice(), &located[k], 1));
                let content = resolve(path.as_str());
                contents.push(content);
                k += 1;
            }
            let lines = clip_to_lines(chars.as_slice(), &located);
            let out = splice(chars.as_slice(), &lines, &contents);
            proof {
                assert(contents.deep_view() =~= texts_of(contents@));
                assert(all_supplied(resolve, paths, contents@));
            }
            Cow::Owned(out)
        },
    }
}

/// Puts in the place of each `#include` line what `resolve` gives for its
/// path, where `resolve` may fail.
///
/// A text without such a line comes back as it is. Else `resolve` is asked
/// once for each line, in the order of the lines, also after it has failed
/// for one. The text that comes of it is owned and holds, in the place of
/// each line, what `resolve` answered for it, or a call of `error` where it
/// failed. Where `resolve` never failed the result is that text; else it is
/// that text together with the first error.
pub fn try_patch_includes<'h, E: Display, F: FnMut(&str) -> Result<String, E>>(
    lua: Cow<'h, str>,
    mut resolve: F,
) -> (out: Result<Cow<'h, str>, (Cow<'h, str>, E)>)
    requires
        forall|path: &str| call_requires(resolve, (path,)),
    ensures
        !regex_matches(include_pattern(), lua@) ==> out == Ok::<
            Cow<'h, str>,
            (Cow<'h, str>, E),
        >(lua),
        regex_matches(include_pattern(), lua@) ==> exists|
            outcomes: Seq<Result<String, E>>,
            messages: Seq<String>,
        |
            #![trigger all_described(outcomes, messages)]
            all_answered(resolve, include_paths(lua@), outcomes) && all_described(
                outcomes,
                messages,
            ) && comes_to(out, lua@, outcomes, messages),
{
    let found = captures_of(r"(?m)^[^\S\r\n]*#include[^\S\r\n]+(\S+)", as_text(&lua));
    match found {
        None => Ok(lua),
        Some(found) => {
            if found.len() == 0 {
                return Ok(lua);
            }
            let chars = chars_of(as_text(&lua));
            let located = locate(chars.as_slice(), &found);
            let ghost spans = located.deep_view();
            let ghost paths = include_paths(lua@);
            let ghost asked = resolve;
            let ghost mut outcomes: Seq<Result<String, E>> = Seq::empty();
            let ghost mut messages: Seq<String> = Seq::empty();
            let mut texts: Vec<String> = Vec::new();
            let mut error: Option<E> = None;
            let mut k: usize = 0;
            while k < located.len()
                invariant
                    k <= located.len(),
                    chars@ == lua@,
                    spans == located.deep_view(),
                    spans == include_matches(lua@),
                    paths == include_paths(lua@),
                    in_order(chars@.len() as int, spans),
                    resolve == asked,
                    forall|path: &str| call_requires(resolve, (path,)),
                    outcomes.len() == k,
                    messages.len() == k,
                    texts@.len() == k,
                    error == first_error(outcomes),
                    forall|j: int|
                        0 <= j < k ==> answered(resolve, paths[j], #[trigger] outcomes[j]),
                    forall|j: int| 0 <= j < k ==> described(outcomes[j], #[trigger] messages[j]),
                    forall|j: int|
                        0 <= j < k ==> (#[trigger] texts@[j])@ == piece(
                            paths[j],
                            outcomes[j],
                            messages[j]@,
                        ),
                decreases located.len() - k,
            {
                proof {
                    lemma_groups_in_range(chars@.len() as int, &located, k as int);
                }
                let path = string_of(group_slice(chars.as_slice(), &located[k], 1));
                let outcome = resolve(path.as_str());
                let ghost answer = outcome;
                let (text, failed) = settle(path.as_str(), outcome);
                proof {
                    let message = match answer {
                        Ok(_) => arbitrary::<String>(),
                        Err(_) => choose|message: String|
                            #[trigger] described(answer, message) && text@ == failure_marker(
                                path@,
                                message@,
                            ),
                    };
                    assert(outcomes.push(answer).drop_last() =~= outcomes);
                    outcomes = outcomes.push(answer);
                    messages = messages.push(message);
                }
                texts.push(text);
                if error.is_none() {
                    error = failed;
                }
                k += 1;
            }
            let lines = clip_to_lines(chars.as_slice(), &located);
            let out = splice(chars.as_slice(), &lines, &texts);
            proof {
                assert(texts.deep_view() =~= pieces(paths, outcomes, messages));
                assert(all_answered(resolve, paths, outcomes));
                assert(all_described(outcomes, messages));
            }
            match error {
                Some(error) => Err((Cow::Owned(out), error)),
                None => Ok(Cow::Owned(out)),
            }
        },
    }
}

} // verus!
