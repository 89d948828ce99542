//! Searching a text for a fixed text, and trimming white space.
//!
//! Everything here works on characters: finding the first occurrence of a
//! text in another, replacing every occurrence, skipping the white space at
//! either end, and finding the start of a line.

use vstd::prelude::*;
use crate::text::push_char;

verus! {

/// True when `c` is white space: one of the characters to which Unicode
/// gives the property `White_Space`.
pub open spec fn white_space(c: char) -> bool {
    let code = c as u32;
    ||| 0x09 <= code <= 0x0d
    ||| code == 0x20
    ||| code == 0x85
    ||| code == 0xa0
    ||| code == 0x1680
    ||| 0x2000 <= code <= 0x200a
    ||| code == 0x2028
    ||| code == 0x2029
    ||| code == 0x202f
    ||| code == 0x205f
    ||| code == 0x3000
}

/// Tells whether `c` is white space.
pub fn is_white_space(c: char) -> (white: bool)
    ensures
        white == white_space(c),
{
    let code = c as u32;
    (0x09 <= code && code <= 0x0d) || code == 0x20 || code == 0x85 || code == 0xa0 || code
        == 0x1680 || (0x2000 <= code && code <= 0x200a) || code == 0x2028 || code == 0x2029
        || code == 0x202f || code == 0x205f || code == 0x3000
}

/// `text` without the white space it starts with.
pub open spec fn trim_start(text: Seq<char>) -> Seq<char>
    decreases text.len(),
{
    if text.len() > 0 && white_space(text[0]) {
        trim_start(text.drop_first())
    } else {
        text
    }
}

/// `text` without the white space it ends with.
pub open spec fn trim_end(text: Seq<char>) -> Seq<char>
    decreases text.len(),
{
    if text.len() > 0 && white_space(text.last()) {
        trim_end(text.drop_last())
    } else {
        text
    }
}

/// True when `c` ends a line.
pub open spec fn is_line_end(c: char) -> bool {
    c == '\n' || c == '\r'
}

/// Where the line starts on which index `to` lies, looking no further back
/// than `from`: the least index, not before `from`, from which on `text`
/// holds no line end before `to`.
pub open spec fn line_start(text: Seq<char>, from: int, to: int) -> int
    decreases to - from,
{
    if to <= from {
        from
    } else if is_line_end(text[to - 1]) {
        to
    } else {
        line_start(text, from, to - 1)
    }
}

/// What `line_start` gives lies between `from` and `to`; no line ends
/// between it and `to`; and a line ends just before it, unless it is `from`.
pub proof fn lemma_line_start(text: Seq<char>, from: int, to: int)
    requires
        from <= to,
    ensures
        from <= line_start(text, from, to) <= to,
        forall|i: int| line_start(text, from, to) <= i < to ==> !is_line_end(#[trigger] text[i]),
        line_start(text, from, to) == from || is_line_end(text[line_start(text, from, to) - 1]),
    decreases to - from,
{
    if from < to && !is_line_end(text[to - 1]) {
        lemma_line_start(text, from, to - 1);
    }
}

/// Finds where the line starts on which index `to` lies, looking no further
/// back than `from`.
pub fn find_line_start(chars: &[char], from: usize, to: usize) -> (start: usize)
    requires
        from <= to <= chars@.len(),
    ensures
        start == line_start(chars@, from as int, to as int),
        from <= start <= to,
{
    let mut start: usize = to;
    while start > from && chars[start - 1] != '\n' && chars[start - 1] != '\r'
        invariant
            from <= start <= to <= chars@.len(),
            line_start(chars@, from as int, start as int) == line_start(
                chars@,
                from as int,
                to as int,
            ),
        decreases start,
    {
        start -= 1;
    }
    start
}

/// True when `needle` stands in `hay` at index `at`.
pub open spec fn occurs_at(hay: Seq<char>, needle: Seq<char>, at: int) -> bool {
    0 <= at && at + needle.len() <= hay.len() && hay.subrange(at, at + needle.len()) == needle
}

/// The first index at or behind `from` at which `needle` stands in `hay`.
pub open spec fn find_from(hay: Seq<char>, needle: Seq<char>, from: int) -> Option<int>
    decreases hay.len() + 1 - from,
{
    if from < 0 || from + needle.len() > hay.len() {
        None
    } else if occurs_at(hay, needle, from) {
        Some(from)
    } else {
        find_from(hay, needle, from + 1)
    }
}

/// The first index at which `needle` stands in `hay`.
pub open spec fn find_first(hay: Seq<char>, needle: Seq<char>) -> Option<int> {
    find_from(hay, needle, 0)
}

/// What `find_from` finds is the first occurrence: the needle stands there
/// and nowhere between `from` and there; and where it finds nothing the
/// needle stands nowhere at or behind `from`.
pub proof fn lemma_find_from_is_first(hay: Seq<char>, needle: Seq<char>, from: int)
    requires
        0 <= from,
    ensures
        find_from(hay, needle, from) matches Some(at) ==> from <= at && occurs_at(hay, needle, at),
        find_from(hay, needle, from) matches Some(at) ==> forall|j: int|
            from <= j < at ==> !occurs_at(hay, needle, j),
        find_from(hay, needle, from) is None ==> forall|j: int|
            from <= j ==> !occurs_at(hay, needle, j),
    decreases hay.len() + 1 - from,
{
    if from + needle.len() > hay.len() {
    } else if occurs_at(hay, needle, from) {
    } else {
        lemma_find_from_is_first(hay, needle, from + 1);
    }
}

/// The index of the first character of `chars` that is no white space;
/// `chars.len()` where there is none.
pub fn skip_white(chars: &[char]) -> (at: usize)
    ensures
        at <= chars@.len(),
        chars@.skip(at as int) == trim_start(chars@),
{
    let mut at: usize = 0;
    assert(chars@.skip(0) =~= chars@);
    while at < chars.len() && is_white_space(chars[at])
        invariant
            at <= chars@.len(),
            trim_start(chars@.skip(at as int)) == trim_start(chars@),
        decreases chars.len() - at,
    {
        assert(chars@.skip(at as int).drop_first() =~= chars@.skip(at + 1));
        at += 1;
    }
    at
}

/// The length of `chars` without the white space it ends with.
pub fn trimmed_len(chars: &[char]) -> (len: usize)
    ensures
        len <= chars@.len(),
        chars@.take(len as int) == trim_end(chars@),
{
    let mut len: usize = chars.len();
    assert(chars@.take(len as int) =~= chars@);
    while len > 0 && is_white_space(chars[len - 1])
        invariant
            len <= chars@.len(),
            trim_end(chars@.take(len as int)) == trim_end(chars@),
        decreases len,
    {
        assert(chars@.take(len as int).drop_last() =~= chars@.take(len - 1));
        len -= 1;
    }
    len
}

/// Tells whether `needle` stands in `hay` at index `at`.
pub fn stands_at(hay: &[char], needle: &[char], at: usize) -> (stands: bool)
    ensures
        stands == occurs_at(hay@, needle@, at as int),
{
    if needle.len() > hay.len() || at > hay.len() - needle.len() {
        return false;
    }
    let mut k: usize = 0;
    while k < needle.len()
        invariant
            k <= needle.len(),
            at + needle.len() <= hay.len(),
            hay@.subrange(at as int, at + k) == needle@.take(k as int),
        decreases needle.len() - k,
    {
        if hay[at + k] != needle[k] {
            assert(hay@.subrange(at as int, at + needle.len())[k as int] != needle@[k as int]);
            return false;
        }
        assert(hay@.subrange(at as int, at + k + 1) =~= hay@.subrange(at as int, at + k).push(
            hay@[at + k],
        ));
        assert(needle@.take(k + 1) =~= needle@.take(k as int).push(needle@[k as int]));
        k += 1;
    }
    assert(needle@.take(needle.len() as int) =~= needle@);
    true
}

/// The first index at which `needle` stands in `hay`.
pub fn find(hay: &[char], needle: &[char]) -> (found: Option<usize>)
    ensures
        found matches Some(at) ==> find_first(hay@, needle@) == Some(at as int),
        found is None ==> find_first(hay@, needle@) is None,
{
    if needle.len() > hay.len() {
        return None;
    }
    let last: usize = hay.len() - needle.len();
    let mut at: usize = 0;
    while at < last
        invariant
            at <= last,
            last == hay.len() - needle.len(),
            find_from(hay@, needle@, at as int) == find_first(hay@, needle@),
        decreases last - at,
    {
        if stands_at(hay, needle, at) {
            return Some(at);
        }
        at += 1;
    }
    if stands_at(hay, needle, at) {
        Some(at)
    } else {
        assert(find_from(hay@, needle@, at + 1) is None);
        None
    }
}

/// `text` from index `from` on, with every occurrence of `needle` replaced
/// by `with`. The occurrences are taken from left to right, each behind the
/// end of the one before it. An empty needle occurs nowhere.
pub open spec fn replaced_from(
    text: Seq<char>,
    needle: Seq<char>,
    with: Seq<char>,
    from: int,
) -> Seq<char>
    decreases text.len() - from,
{
    if from < 0 || from >= text.len() {
        Seq::empty()
    } else if needle.len() == 0 {
        text.skip(from)
    } else if occurs_at(text, needle, from) {
        with + replaced_from(text, needle, with, from + needle.len())
    } else {
        seq![text[from]] + replaced_from(text, needle, with, from + 1)
    }
}

/// `text` with every occurrence of `needle` replaced by `with`.
pub open spec fn replaced(text: Seq<char>, needle: Seq<char>, with: Seq<char>) -> Seq<char> {
    replaced_from(text, needle, with, 0)
}

/// A text in which the needle does not occur stays as it is.
pub proof fn lemma_replaced_without_needle(
    text: Seq<char>,
    needle: Seq<char>,
    with: Seq<char>,
    from: int,
)
    requires
        0 <= from <= text.len(),
        find_from(text, needle, from) is None,
    ensures
        replaced_from(text, needle, with, from) == text.skip(from),
    decreases text.len() - from,
{
    if from < text.len() && needle.len() > 0 {
        lemma_find_from_is_first(text, needle, from);
        assert(!occurs_at(text, needle, from));
        assert(find_from(text, needle, from + 1) is None) by {
            lemma_find_from_is_first(text, needle, from + 1);
            if let Some(at) = find_from(text, needle, from + 1) {
                assert(occurs_at(text, needle, at));
            }
        }
        lemma_replaced_without_needle(text, needle, with, from + 1);
        assert(seq![text[from]] + text.skip(from + 1) =~= text.skip(from));
    }
}

/// True when replacing the two characters `needle` by the two characters
/// `with` cannot make a new `needle`: `with` is another text, it does not
/// start with the needle's last character, nor end with its first.
pub open spec fn replaces_for_good(needle: Seq<char>, with: Seq<char>) -> bool {
    &&& needle.len() == 2
    &&& with.len() == 2
    &&& needle != with
    &&& needle[1] != with[0]
    &&& needle[0] != with[1]
}

/// Every occurrence is replaced: where the replacement cannot make a new
/// needle, the needle occurs nowhere in the text that comes out.
pub proof fn lemma_no_needle_left(text: Seq<char>, needle: Seq<char>, with: Seq<char>, from: int)
    requires
        replaces_for_good(needle, with),
        0 <= from,
    ensures
        forall|at: int| !occurs_at(replaced_from(text, needle, with, from), needle, at),
    decreases text.len() - from,
{
    let out = replaced_from(text, needle, with, from);
    if from >= text.len() {
    } else if occurs_at(text, needle, from) {
        let rest = replaced_from(text, needle, with, from + 2);
        lemma_no_needle_left(text, needle, with, from + 2);
        assert forall|at: int| !occurs_at(out, needle, at) by {
            if occurs_at(out, needle, at) {
                let window = out.subrange(at, at + 2);
                if at == 0 {
                    assert(window =~= with);
                } else if at == 1 {
                    assert(window[0] == with[1]);
                } else {
                    assert(rest.subrange(at - 2, at) =~= window);
                    assert(occurs_at(rest, needle, at - 2));
                }
            }
        }
    } else {
        let rest = replaced_from(text, needle, with, from + 1);
        lemma_no_needle_left(text, needle, with, from + 1);
        assert forall|at: int| !occurs_at(out, needle, at) by {
            if occurs_at(out, needle, at) {
                let window = out.subrange(at, at + 2);
                if at == 0 {
                    assert(window[0] == text[from]);
                    assert(window[1] == rest[0]);
                    if occurs_at(text, needle, from + 1) {
                        assert(rest[0] == with[0]);
                    } else {
                        assert(from + 1 < text.len());
                        assert(rest[0] == text[from + 1]);
                        assert(text.subrange(from, from + 2) =~= window);
                    }
                } else {
                    assert(rest.subrange(at - 1, at + 1) =~= window);
                    assert(occurs_at(rest, needle, at - 1));
                }
            }
        }
    }
}

/// Replaces every occurrence of `needle` in `text` by `with`. The result is
/// `None` where `needle` does not occur in `text`.
pub fn replace_all(text: &[char], needle: &[char], with: &str) -> (out: Option<String>)
    requires
        needle@.len() > 0,
    ensures
        out is Some <==> find_first(text@, needle@) is Some,
        out matches Some(new) ==> new@ == replaced(text@, needle@, with@),
        out is None ==> replaced(text@, needle@, with@) == text@,
{
    match find(text, needle) {
        None => {
            proof {
                lemma_replaced_without_needle(text@, needle@, with@, 0);
                assert(text@.skip(0) =~= text@);
            }
            None
        },
        Some(first) => {
            let mut new = String::new();
            let mut at: usize = 0;
            while at < text.len()
                invariant
                    at <= text.len(),
                    needle@.len() > 0,
                    new@ + replaced_from(text@, needle@, with@, at as int) == replaced(
                        text@,
                        needle@,
                        with@,
                    ),
                decreases text.len() - at,
            {
                let ghost before = new@;
                if stands_at(text, needle, at) {
                    new.append(with);
                    proof {
                        assert((before + with@) + replaced_from(
                            text@,
                            needle@,
                            with@,
                            at + needle@.len(),
                        ) =~= before + replaced_from(text@, needle@, with@, at as int));
                    }
                    at += needle.len();
                } else {
                    push_char(&mut new, text[at]);
                    proof {
                        assert(before.push(text@[at as int]) + replaced_from(
                            text@,
                            needle@,
                            with@,
                            at + 1,
                        ) =~= before + replaced_from(text@, needle@, with@, at as int));
                    }
                    at += 1;
                }
            }
            proof {
                assert(new@ + text@.skip(at as int) =~= new@);
            }
            Some(new)
        },
    }
}

} // verus!
