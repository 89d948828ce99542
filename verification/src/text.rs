//! Texts as sequences of characters, and the byte offsets of their UTF-8 form.
//!
//! The rewriting rules work on characters; a search for a regular expression
//! reports byte offsets into the UTF-8 encoding of the text it searched. This
//! module holds the conversions between `str` and `Vec<char>` and the
//! arithmetic that relates a byte offset to the index of the character that
//! starts there.

use vstd::prelude::*;
use vstd::utf8::{char_is_scalar, encode_scalar, encode_utf8};

verus! {

/// The number of bytes that the UTF-8 encoding of `c` takes.
pub open spec fn utf8_width(c: char) -> int {
    if (c as u32) < 0x80 {
        1
    } else if (c as u32) < 0x800 {
        2
    } else if (c as u32) < 0x1_0000 {
        3
    } else {
        4
    }
}

/// The byte offset at which the character with index `i` starts in the
/// UTF-8 encoding of `text`. For `i == text.len()` it is the length of the
/// encoding.
pub open spec fn offset_of(text: Seq<char>, i: int) -> int
    decreases i,
{
    if i <= 0 {
        0
    } else {
        offset_of(text, i - 1) + utf8_width(text[i - 1])
    }
}

/// True when the byte offset `off` falls between two characters of `text`,
/// before its first or behind its last.
pub open spec fn is_boundary(text: Seq<char>, off: int) -> bool {
    exists|i: int| 0 <= i <= text.len() && #[trigger] offset_of(text, i) == off
}

/// The index of the character of `text` that starts at the byte offset
/// `off`; `text.len()` for the offset behind the last character. Only
/// meaningful where `is_boundary(text, off)`.
pub open spec fn char_index(text: Seq<char>, off: int) -> int {
    choose|i: int| 0 <= i <= text.len() && #[trigger] offset_of(text, i) == off
}

/// Byte offsets grow strictly with the character index.
pub proof fn lemma_offset_increases(text: Seq<char>, i: int, j: int)
    requires
        0 <= i < j,
    ensures
        offset_of(text, i) < offset_of(text, j),
        j - i <= offset_of(text, j) - offset_of(text, i),
    decreases j,
{
    if i < j - 1 {
        lemma_offset_increases(text, i, j - 1);
    }
}

/// A byte offset is the start of at most one character.
pub proof fn lemma_char_index_unique(text: Seq<char>, i: int)
    requires
        0 <= i <= text.len(),
    ensures
        is_boundary(text, offset_of(text, i)),
        char_index(text, offset_of(text, i)) == i,
{
    let off = offset_of(text, i);
    let j = char_index(text, off);
    if j < i {
        lemma_offset_increases(text, j, i);
    } else if i < j {
        lemma_offset_increases(text, i, j);
    }
}

/// The width of a character is the length of its UTF-8 encoding.
pub proof fn lemma_width_is_encoded_length(c: char)
    ensures
        utf8_width(c) == encode_scalar(c as u32).len(),
{
    char_is_scalar(c);
}

/// The encoding of a text with one more character is the encoding of the
/// text followed by that of the character.
pub proof fn lemma_encoding_of_push(text: Seq<char>, c: char)
    ensures
        encode_utf8(text.push(c)) == encode_utf8(text) + encode_scalar(c as u32),
    decreases text.len(),
{
    if text.len() == 0 {
        assert(text.push(c).drop_first() =~= text);
        assert(encode_utf8(text.push(c)) =~= encode_utf8(text) + encode_scalar(c as u32));
    } else {
        assert(text.push(c).drop_first() =~= text.drop_first().push(c));
        lemma_encoding_of_push(text.drop_first(), c);
        assert(encode_utf8(text.push(c)) =~= encode_utf8(text) + encode_scalar(c as u32));
    }
}

/// The offset of a character is the length of the UTF-8 encoding of what
/// stands before it.
pub proof fn lemma_offset_is_encoded_length(text: Seq<char>, i: int)
    requires
        0 <= i <= text.len(),
    ensures
        offset_of(text, i) == encode_utf8(text.take(i)).len(),
    decreases i,
{
    if i > 0 {
        lemma_offset_is_encoded_length(text, i - 1);
        lemma_encoding_of_push(text.take(i - 1), text[i - 1]);
        lemma_width_is_encoded_length(text[i - 1]);
        assert(text.take(i) =~= text.take(i - 1).push(text[i - 1]));
    }
}

/// The number of bytes that the UTF-8 encoding of `c` takes.
pub fn width_of(c: char) -> (w: usize)
    ensures
        w == utf8_width(c),
        1 <= w <= 4,
{
    let code = c as u32;
    if code < 0x80 {
        1
    } else if code < 0x800 {
        2
    } else if code < 0x1_0000 {
        3
    } else {
        4
    }
}

/// The characters of `s`, in order.
pub fn chars_of(s: &str) -> (chars: Vec<char>)
    ensures
        chars@ == s@,
{
    let mut chars: Vec<char> = Vec::new();
    for c in it: s.chars()
        invariant
            chars@ == it.seq().take(it.index()),
            it.seq() == s@,
    {
        chars.push(c);
    }
    chars
}

/// `String::push`: the string afterwards is the string before with `c`
/// appended as its last character.
#[verifier::external_body]
pub(crate) fn push_char(s: &mut String, c: char)
    ensures
        final(s)@ == old(s)@.push(c),
{
    s.push(c)
}

/// Appends the characters `chars` to `out`.
pub fn push_chars(out: &mut String, chars: &[char])
    ensures
        final(out)@ == old(out)@ + chars@,
{
    let mut i: usize = 0;
    while i < chars.len()
        invariant
            i <= chars.len(),
            out@ == old(out)@ + chars@.take(i as int),
        decreases chars.len() - i,
    {
        push_char(out, chars[i]);
        i += 1;
        assert(chars@.take(i as int) == chars@.take(i - 1).push(chars@[i - 1]));
    }
    assert(chars@.take(chars.len() as int) == chars@);
}

/// The string made of the characters `chars`.
pub fn string_of(chars: &[char]) -> (s: String)
    ensures
        s@ == chars@,
{
    let mut s = String::new();
    push_chars(&mut s, chars);
    s
}

/// The part of `chars` from index `from` up to, not including, `to`.
pub fn slice_subrange<'a>(chars: &'a [char], from: usize, to: usize) -> (part: &'a [char])
    requires
        from <= to <= chars@.len(),
    ensures
        part@ == chars@.subrange(from as int, to as int),
{
    &chars[from..to]
}

/// True when `table` leads from byte offsets to character indices of
/// `text`: under each offset between two characters stands the index of the
/// character that starts there, and under the length of the encoding the
/// number of characters.
pub open spec fn is_boundary_table(text: Seq<char>, table: Seq<usize>) -> bool {
    forall|off: int| #[trigger]
        is_boundary(text, off) ==> 0 <= off < table.len() && table[off] == char_index(text, off)
}

/// Builds the table that leads from byte offsets to the character indices
/// of `chars`.
pub fn boundary_table(chars: &[char]) -> (table: Vec<usize>)
    ensures
        table.len() == offset_of(chars@, chars.len() as int) + 1,
        is_boundary_table(chars@, table@),
{
    let mut table: Vec<usize> = Vec::new();
    let mut i: usize = 0;
    while i < chars.len()
        invariant
            i <= chars.len(),
            table.len() == offset_of(chars@, i as int),
            forall|j: int|
                0 <= j < i ==> 0 <= #[trigger] offset_of(chars@, j) < table.len()
                    && table@[offset_of(chars@, j)] == j,
        decreases chars.len() - i,
    {
        let w = width_of(chars[i]);
        let mut k: usize = 0;
        while k < w
            invariant
                i < chars.len(),
                k <= w,
                w == utf8_width(chars@[i as int]),
                0 <= offset_of(chars@, i as int),
                table.len() == offset_of(chars@, i as int) + k,
                k > 0 ==> table@[offset_of(chars@, i as int)] == i,
                forall|j: int|
                    0 <= j < i ==> 0 <= #[trigger] offset_of(chars@, j) < offset_of(
                        chars@,
                        i as int,
                    ) && table@[offset_of(chars@, j)] == j,
            decreases w - k,
        {
            table.push(i);
            k += 1;
        }
        proof {
            assert forall|j: int| 0 <= j < i + 1 implies 0 <= #[trigger] offset_of(chars@, j)
                < table.len() && table@[offset_of(chars@, j)] == j by {
                if j < i {
                } else {
                    if i > 0 {
                        lemma_offset_increases(chars@, 0, i as int);
                    }
                }
            }
        }
        i += 1;
        proof {
            assert forall|j: int| 0 <= j < i implies #[trigger] offset_of(chars@, j) < offset_of(
                chars@,
                i as int,
            ) by {
                lemma_offset_increases(chars@, j, i as int);
            }
        }
    }
    table.push(chars.len());
    proof {
        assert forall|off: int| #[trigger] is_boundary(chars@, off) implies 0 <= off < table.len()
            && table@[off] == char_index(chars@, off) by {
            let j = char_index(chars@, off);
            lemma_char_index_unique(chars@, j);
            if j < chars.len() {
                lemma_offset_increases(chars@, j, chars.len() as int);
                assert(table@[offset_of(chars@, j)] == j);
            }
            if j > 0 {
                lemma_offset_increases(chars@, 0, j);
            }
        }
    }
    table
}

} // verus!
