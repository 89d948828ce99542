//! The rewriting rules in their order, and the pipeline that applies them.
//!
//! A rule replaces either every occurrence of a fixed text by another, or
//! every match of a regular expression by what a function makes of the
//! match. The pipeline applies one rule after the other, each to the text
//! that the rules before it left. A text that no rule changed is handed back
//! as it came: borrowed if it was borrowed.

use std::borrow::Cow;
use vstd::prelude::*;
use crate::pattern::{
    captures_of, char_spans, group_in_range, in_order, is_match, lemma_char_spans_in_order,
    lemma_groups_in_range, locate, regex_captures, regex_matches, well_formed, GroupSeq, Groups,
};
use crate::rules::{
    button_call, button_digit, expand_assignment, expand_if, expanded_assignment, expanded_if,
    hex_literal, is_selector, lemma_button_symbol_gives_its_digit, print_call, rewrite_binary,
    rewrite_button, rewrite_print,
};
use crate::splice::{group_slice, group_text, lemma_pass_through_keeps_text, splice, spliced};
use crate::search::{
    find_first, lemma_find_from_is_first, lemma_no_needle_left, lemma_replaced_without_needle,
    replace_all, replaced, replaces_for_good,
};
use crate::text::{chars_of, string_of};

verus! {

/// The rewriting rules, in the order in which the pipeline applies them.
#[derive(Clone, Copy, Debug)]
pub enum Rule {
    /// `!=` becomes `~=`.
    NotEqual,
    /// `//` becomes `--`.
    LineComment,
    /// A button symbol as the argument of `btn` or `btnp` becomes the
    /// button's number.
    Button,
    /// `if (condition) body` on one line becomes
    /// `if condition then body end`.
    ShorthandIf,
    /// `target op= expression` becomes `target = target op (expression)`.
    CompoundAssignment,
    /// `?expression` at the start of a line becomes `print(expression)`.
    PrintShorthand,
    /// A binary literal becomes a hexadecimal one.
    BinaryLiteral,
}

/// The fixed text that `rule` looks for and the text that it puts in its
/// place, for the two rules that are of this kind.
pub open spec fn literal(rule: Rule) -> Option<(Seq<char>, Seq<char>)> {
    match rule {
        Rule::NotEqual => Some(("!="@, "~="@)),
        Rule::LineComment => Some(("//"@, "--"@)),
        _ => None,
    }
}

/// The regular expression that finds what `rule` rewrites. For a rule that
/// looks for a fixed text it is that text.
pub open spec fn pattern_text(rule: Rule) -> Seq<char> {
    match rule {
        Rule::NotEqual => r"!="@,
        Rule::LineComment => r"//"@,
        Rule::Button => r"(btnp?)\(\s*(\S+)\s*\)"@,
        Rule::ShorthandIf => r"(?m)^(\s*)if\s*(\([^\n]*)$"@,
        Rule::CompoundAssignment => r"(?m)([^-\s]\S*)\s*([+\-*/%])=\s*([^\n\r]+?)(\s*(\bend|\belse|;|--|$))"@,
        Rule::PrintShorthand => r"(?m)^(\s*)\?([^\n\r]+)"@,
        Rule::BinaryLiteral => r"([^[:alnum:]_])0[bB]([01.]+)"@,
    }
}

/// The regular expression that finds the keyword `then`.
pub open spec fn then_pattern() -> Seq<char> {
    r"\bthen\b"@
}

/// What `rule` puts in the place of one match in `text`, given the groups
/// of the match in character indices.
pub open spec fn replacement(rule: Rule, text: Seq<char>, groups: GroupSeq) -> Seq<char> {
    match rule {
        Rule::NotEqual => "~="@,
        Rule::LineComment => "--"@,
        Rule::Button => button_call(group_text(text, groups, 1), group_text(text, groups, 2)),
        Rule::ShorthandIf => expanded_if(
            group_text(text, groups, 0),
            group_text(text, groups, 1),
            group_text(text, groups, 2),
            regex_matches(then_pattern(), group_text(text, groups, 2)),
        ),
        Rule::CompoundAssignment => expanded_assignment(
            group_text(text, groups, 1),
            group_text(text, groups, 2),
            group_text(text, groups, 3),
            group_text(text, groups, 4),
        ),
        Rule::PrintShorthand => print_call(
            group_text(text, groups, 1),
            group_text(text, groups, 2),
        ),
        Rule::BinaryLiteral => hex_literal(
            group_text(text, groups, 0),
            group_text(text, groups, 1),
            group_text(text, groups, 2),
        ),
    }
}

/// The replacements of all the matches `located` in `text`.
pub open spec fn replacements(rule: Rule, text: Seq<char>, located: Seq<GroupSeq>) -> Seq<
    Seq<char>,
> {
    Seq::new(located.len(), |k: int| replacement(rule, text, located[k]))
}

/// `text` with each of the matches `found`, given in byte offsets, replaced
/// as `rule` says.
pub open spec fn rewritten(rule: Rule, text: Seq<char>, found: Seq<GroupSeq>) -> Seq<char> {
    let located = char_spans(text, found);
    spliced(text, located, replacements(rule, text, located))
}

/// True when `rule` finds something to rewrite in `text`: an occurrence of
/// its fixed text, or a match of its pattern.
pub open spec fn rule_applies(rule: Rule, text: Seq<char>) -> bool {
    match literal(rule) {
        Some((needle, _)) => find_first(text, needle) is Some,
        None => regex_matches(pattern_text(rule), text),
    }
}

/// What `rule` makes of `text`: the text with every occurrence of the rule's
/// fixed text replaced, or with every match of its pattern replaced. Where
/// the rule finds nothing, that is the text itself.
pub open spec fn stage(rule: Rule, text: Seq<char>) -> Seq<char> {
    match literal(rule) {
        Some((needle, with)) => replaced(text, needle, with),
        None => match regex_captures(pattern_text(rule), text) {
            Some(found) => if found.len() > 0 {
                rewritten(rule, text, found)
            } else {
                text
            },
            None => text,
        },
    }
}

/// What the pipeline makes of `text`: the seven rules applied in order,
/// each to what the rules before it made.
pub open spec fn patched(text: Seq<char>) -> Seq<char> {
    let text = stage(Rule::NotEqual, text);
    let text = stage(Rule::LineComment, text);
    let text = stage(Rule::Button, text);
    let text = stage(Rule::ShorthandIf, text);
    let text = stage(Rule::CompoundAssignment, text);
    let text = stage(Rule::PrintShorthand, text);
    stage(Rule::BinaryLiteral, text)
}

/// True when at least one rule finds something to rewrite in `text`.
pub open spec fn any_rule_applies(text: Seq<char>) -> bool {
    ||| rule_applies(Rule::NotEqual, text)
    ||| rule_applies(Rule::LineComment, text)
    ||| rule_applies(Rule::Button, text)
    ||| rule_applies(Rule::ShorthandIf, text)
    ||| rule_applies(Rule::CompoundAssignment, text)
    ||| rule_applies(Rule::PrintShorthand, text)
    ||| rule_applies(Rule::BinaryLiteral, text)
}

/// True when `rule` changes `text`: what it makes of the text is another
/// text. A rule that finds something and passes it through changes nothing.
pub open spec fn rule_changes(rule: Rule, text: Seq<char>) -> bool {
    stage(rule, text) != text
}

/// True when at least one rule of the pipeline changes the text that it is
/// given: `text` for the first rule, and for each other rule what the rules
/// before it made of `text`.
pub open spec fn any_rule_changes(text: Seq<char>) -> bool {
    let first = stage(Rule::NotEqual, text);
    let second = stage(Rule::LineComment, first);
    let third = stage(Rule::Button, second);
    let fourth = stage(Rule::ShorthandIf, third);
    let fifth = stage(Rule::CompoundAssignment, fourth);
    let sixth = stage(Rule::PrintShorthand, fifth);
    ||| rule_changes(Rule::NotEqual, text)
    ||| rule_changes(Rule::LineComment, first)
    ||| rule_changes(Rule::Button, second)
    ||| rule_changes(Rule::ShorthandIf, third)
    ||| rule_changes(Rule::CompoundAssignment, fourth)
    ||| rule_changes(Rule::PrintShorthand, fifth)
    ||| rule_changes(Rule::BinaryLiteral, sixth)
}

/// A rule that finds nothing to rewrite in a text does not change it.
pub proof fn lemma_rule_without_match_changes_nothing(rule: Rule, text: Seq<char>)
    requires
        !rule_applies(rule, text),
    ensures
        !rule_changes(rule, text),
{
    if let Some((needle, with)) = literal(rule) {
        lemma_replaced_without_needle(text, needle, with, 0);
        assert(text.skip(0) =~= text);
    }
}

/// A text in which no rule finds anything to rewrite stays as it is: no
/// rule changes it.
pub proof fn lemma_untouched_text_is_kept(text: Seq<char>)
    requires
        !any_rule_applies(text),
    ensures
        !any_rule_changes(text),
        patched(text) == text,
{
    lemma_rule_without_match_changes_nothing(Rule::NotEqual, text);
    lemma_rule_without_match_changes_nothing(Rule::LineComment, text);
    lemma_rule_without_match_changes_nothing(Rule::Button, text);
    lemma_rule_without_match_changes_nothing(Rule::ShorthandIf, text);
    lemma_rule_without_match_changes_nothing(Rule::CompoundAssignment, text);
    lemma_rule_without_match_changes_nothing(Rule::PrintShorthand, text);
    lemma_rule_without_match_changes_nothing(Rule::BinaryLiteral, text);
}

/// A rule that passes every match through leaves the text as it is: where
/// the replacement of each match is the text of the match, what the rule
/// makes of the text is the text.
pub proof fn lemma_passed_through_text_is_kept(rule: Rule, text: Seq<char>, found: Seq<GroupSeq>)
    requires
        text.len() <= usize::MAX,
        well_formed(text, found),
        forall|m: int|
            0 <= m < found.len() ==> replacement(rule, text, #[trigger] char_spans(text, found)[m])
                == group_text(text, char_spans(text, found)[m], 0),
    ensures
        rewritten(rule, text, found) == text,
{
    let located = char_spans(text, found);
    lemma_char_spans_in_order(text, found);
    lemma_pass_through_keeps_text(text, located, replacements(rule, text, located));
}

/// Conditionals that hold the keyword `then` are left alone: where every
/// line that the pattern for the short form matches holds a `then`, the
/// rule leaves the text as it is.
pub proof fn lemma_conditionals_with_then_are_kept(text: Seq<char>, found: Seq<GroupSeq>)
    requires
        text.len() <= usize::MAX,
        well_formed(text, found),
        forall|m: int|
            0 <= m < found.len() ==> regex_matches(
                then_pattern(),
                group_text(text, #[trigger] char_spans(text, found)[m], 2),
            ),
    ensures
        rewritten(Rule::ShorthandIf, text, found) == text,
{
    lemma_passed_through_text_is_kept(Rule::ShorthandIf, text, found);
}

/// A call on a button symbol is rewritten to a call on the button's
/// number: where the argument that a match of the button pattern captured
/// is one of the six symbols, with or without selector marks behind it, what
/// replaces the match is the call of the captured function on the symbol's
/// digit.
pub proof fn lemma_button_match_gives_its_digit(
    text: Seq<char>,
    groups: GroupSeq,
    symbol: char,
    marks: Seq<char>,
)
    requires
        button_digit(symbol) is Some,
        forall|i: int| 0 <= i < marks.len() ==> is_selector(#[trigger] marks[i]),
        group_text(text, groups, 2) == seq![symbol] + marks,
    ensures
        replacement(Rule::Button, text, groups) == group_text(text, groups, 1) + seq![
            '(',
            button_digit(symbol)->0,
            ')',
        ],
{
    lemma_button_symbol_gives_its_digit(group_text(text, groups, 1), symbol, marks);
}

/// The two rules that look for a fixed text rewrite every occurrence of
/// it: what they make of a text holds no `!=`, respectively no `//`.
pub proof fn lemma_literal_is_rewritten_everywhere(rule: Rule, text: Seq<char>)
    requires
        literal(rule) is Some,
    ensures
        !rule_applies(rule, stage(rule, text)),
{
    reveal_strlit("!=");
    reveal_strlit("~=");
    reveal_strlit("//");
    reveal_strlit("--");
    let (needle, with) = literal(rule)->0;
    assert(needle[0] != with[1] && needle[1] != with[0] && needle[0] != with[0]);
    assert(replaces_for_good(needle, with));
    lemma_no_needle_left(text, needle, with, 0);
    lemma_find_from_is_first(stage(rule, text), needle, 0);
}

/// The regular expression that finds what `rule` rewrites.
pub fn pattern_of(rule: Rule) -> (pattern: &'static str)
    ensures
        pattern@ == pattern_text(rule),
{
    match rule {
        Rule::NotEqual => r"!=",
        Rule::LineComment => r"//",
        Rule::Button => r"(btnp?)\(\s*(\S+)\s*\)",
        Rule::ShorthandIf => r"(?m)^(\s*)if\s*(\([^\n]*)$",
        Rule::CompoundAssignment => r"(?m)([^-\s]\S*)\s*([+\-*/%])=\s*([^\n\r]+?)(\s*(\bend|\belse|;|--|$))",
        Rule::PrintShorthand => r"(?m)^(\s*)\?([^\n\r]+)",
        Rule::BinaryLiteral => r"([^[:alnum:]_])0[bB]([01.]+)",
    }
}

/// What `rule` puts in the place of one match in `chars`.
pub fn replace_match(rule: Rule, chars: &[char], groups: &Groups) -> (piece: String)
    requires
        forall|g: int|
            0 <= g < groups@.len() ==> group_in_range(chars@.len() as int, #[trigger] groups@[g]),
    ensures
        piece@ == replacement(rule, chars@, groups@),
{
    match rule {
        Rule::NotEqual => "~=".to_string(),
        Rule::LineComment => "--".to_string(),
        Rule::Button => rewrite_button(
            group_slice(chars, groups, 1),
            group_slice(chars, groups, 2),
        ),
        Rule::ShorthandIf => {
            let line = group_slice(chars, groups, 2);
            let has_then = is_match(r"\bthen\b", string_of(line).as_str());
            expand_if(group_slice(chars, groups, 0), group_slice(chars, groups, 1), line, has_then)
        },
        Rule::CompoundAssignment => expand_assignment(
            group_slice(chars, groups, 1),
            group_slice(chars, groups, 2),
            group_slice(chars, groups, 3),
            group_slice(chars, groups, 4),
        ),
        Rule::PrintShorthand => rewrite_print(
            group_slice(chars, groups, 1),
            group_slice(chars, groups, 2),
        ),
        Rule::BinaryLiteral => rewrite_binary(
            group_slice(chars, groups, 0),
            group_slice(chars, groups, 1),
            group_slice(chars, groups, 2),
        ),
    }
}

/// Replaces in `text` each of the matches `found`, given in byte offsets,
/// as `rule` says.
pub fn rewrite(rule: Rule, text: &str, found: &Vec<Groups>) -> (out: String)
    requires
        well_formed(text@, found.deep_view()),
    ensures
        out@ == rewritten(rule, text@, found.deep_view()),
{
    let chars = chars_of(text);
    let located = locate(chars.as_slice(), found);
    let ghost spans = located.deep_view();
    let mut pieces: Vec<String> = Vec::new();
    let mut k: usize = 0;
    while k < located.len()
        invariant
            k <= located.len(),
            chars@ == text@,
            spans == located.deep_view(),
            in_order(chars@.len() as int, spans),
            pieces@.len() == k,
            forall|j: int|
                0 <= j < k ==> (#[trigger] pieces@[j])@ == replacement(rule, text@, spans[j]),
        decreases located.len() - k,
    {
        proof {
            lemma_groups_in_range(chars@.len() as int, &located, k as int);
        }
        let piece = replace_match(rule, chars.as_slice(), &located[k]);
        pieces.push(piece);
        k += 1;
    }
    proof {
        assert(pieces.deep_view() =~= replacements(rule, text@, spans));
    }
    splice(chars.as_slice(), &located, &pieces)
}

/// The text that `lua` holds, borrowed or owned.
pub fn as_text<'a, 'h>(lua: &'a Cow<'h, str>) -> (text: &'a str)
    ensures
        text@ == lua@,
{
    match lua {
        Cow::Borrowed(borrowed) => borrowed,
        Cow::Owned(owned) => owned.as_str(),
    }
}

/// Puts the text `new` in the place of `lua`, if it is another text: where
/// `new` holds what `lua` holds, `lua` itself comes back.
pub fn keep_or_replace<'h>(lua: Cow<'h, str>, new: String) -> (out: Cow<'h, str>)
    ensures
        out@ == new@,
        new@ == lua@ ==> out == lua,
        new@ != lua@ ==> out is Owned,
{
    let given = as_text(&lua).to_owned();
    if new == given {
        lua
    } else {
        Cow::Owned(new)
    }
}

/// Replaces every occurrence of `needle` in `lua` by `with`. Where that
/// changes nothing, `lua` itself comes back.
fn apply_literal<'h>(lua: Cow<'h, str>, needle: &str, with: &str) -> (out: Cow<'h, str>)
    requires
        needle@.len() > 0,
    ensures
        out@ == replaced(lua@, needle@, with@),
        replaced(lua@, needle@, with@) == lua@ ==> out == lua,
        replaced(lua@, needle@, with@) != lua@ ==> out is Owned,
{
    let chars = chars_of(as_text(&lua));
    let needle = chars_of(needle);
    match replace_all(chars.as_slice(), needle.as_slice(), with) {
        Some(new) => keep_or_replace(lua, new),
        None => lua,
    }
}

/// Applies one rule to `lua`. Where the rule changes nothing, because it
/// finds nothing to rewrite or passes through what it finds, `lua` itself
/// comes back; else a new text with everything it found replaced.
pub fn apply_rule<'h>(rule: Rule, lua: Cow<'h, str>) -> (out: Cow<'h, str>)
    ensures
        out@ == stage(rule, lua@),
        !rule_changes(rule, lua@) ==> out == lua,
        rule_changes(rule, lua@) ==> out is Owned,
{
    match rule {
        Rule::NotEqual => {
            proof {
                reveal_strlit("!=");
            }
            apply_literal(lua, "!=", "~=")
        },
        Rule::LineComment => {
            proof {
                reveal_strlit("//");
            }
            apply_literal(lua, "//", "--")
        },
        _ => {
            let found = captures_of(pattern_of(rule), as_text(&lua));
            match found {
                Some(matches) => {
                    if matches.len() > 0 {
                        let new = rewrite(rule, as_text(&lua), &matches);
                        keep_or_replace(lua, new)
                    } else {
                        lua
                    }
                },
                None => lua,
            }
        },
    }
}

/// Tells whether `patch_output` is a text of its own, as the pipeline
/// makes one as soon as a rule changes the text: `true` for an owned text,
/// `false` for a borrowed one.
pub fn was_patched<'h>(patch_output: &Cow<'h, str>) -> (patched: bool)
    ensures
        patched == (patch_output is Owned),
{
    match patch_output {
        Cow::Owned(_) => true,
        Cow::Borrowed(_) => false,
    }
}

/// Rewrites PICO-8's dialect of Lua into plain Lua.
///
/// The result is what the seven rules make of `lua`, applied in order. Where
/// no rule changes the text that it is given, the result is `lua` itself,
/// borrowed if it came borrowed; where at least one does, the result is an
/// owned text.
pub fn patch_lua<'h>(lua: Cow<'h, str>) -> (out: Cow<'h, str>)
    ensures
        out@ == patched(lua@),
        !any_rule_changes(lua@) ==> out == lua,
        any_rule_changes(lua@) ==> out is Owned,
{
    let lua = apply_rule(Rule::NotEqual, lua);
    let lua = apply_rule(Rule::LineComment, lua);
    let lua = apply_rule(Rule::Button, lua);
    let lua = apply_rule(Rule::ShorthandIf, lua);
    let lua = apply_rule(Rule::CompoundAssignment, lua);
    let lua = apply_rule(Rule::PrintShorthand, lua);
    apply_rule(Rule::BinaryLiteral, lua)
}

} // verus!
