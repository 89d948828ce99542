//! The code section of a cartridge file.
//!
//! A cartridge file starts with a fixed header and holds several sections.
//! The code is the section between the line `__lua__` and the next
//! `__gfx__`; what stands before and behind is not code and is kept as it
//! is.

use std::borrow::Cow;
use vstd::prelude::*;
use crate::pipeline::{as_text, patch_lua, patched};
use crate::search::{find, find_first, lemma_find_from_is_first, occurs_at, stands_at};
use crate::text::{chars_of, slice_subrange, string_of};

verus! {

/// What a cartridge file starts with.
pub open spec fn header() -> Seq<char> {
    "pico-8 cartridge"@
}

/// The line before the code section.
pub open spec fn code_marker() -> Seq<char> {
    "__lua__\n"@
}

/// What the section behind the code starts with.
pub open spec fn trailer_marker() -> Seq<char> {
    "__gfx__"@
}

/// The three parts of a cartridge file.
pub struct Cartridge {
    /// What stands before the line `__lua__`.
    pub preamble: String,
    /// The code: what stands between the line `__lua__` and `__gfx__`.
    pub code: String,
    /// What stands behind `__gfx__`.
    pub trailer: String,
}

/// The three parts of a cartridge file, as contracts speak of them.
pub struct Parts {
    pub preamble: Seq<char>,
    pub code: Seq<char>,
    pub trailer: Seq<char>,
}

impl View for Cartridge {
    type V = Parts;

    open spec fn view(&self) -> Parts {
        Parts { preamble: self.preamble@, code: self.code@, trailer: self.trailer@ }
    }
}

/// The parts of `input`, where it is a cartridge file with a code section:
/// it starts with the header, holds the code marker, and behind the first
/// code marker the trailer marker. The code ends at the first trailer
/// marker behind the first code marker.
pub open spec fn envelope(input: Seq<char>) -> Option<Parts> {
    if !occurs_at(input, header(), 0) {
        None
    } else {
        match find_first(input, code_marker()) {
            None => None,
            Some(start) => {
                let rest = input.skip(start + code_marker().len());
                match find_first(rest, trailer_marker()) {
                    None => None,
                    Some(end) => Some(
                        Parts {
                            preamble: input.take(start),
                            code: rest.take(end),
                            trailer: rest.skip(end + trailer_marker().len()),
                        },
                    ),
                }
            },
        }
    }
}

/// The cartridge file made of `parts`, with `code` in the place of its
/// code.
pub open spec fn wrapped(parts: Parts, code: Seq<char>) -> Seq<char> {
    parts.preamble + code_marker() + code + trailer_marker() + parts.trailer
}

/// What converting makes of `input`: the rewritten code, within what stood
/// around the code where `input` is a cartridge file and `code_only` is not
/// set.
pub open spec fn converted(input: Seq<char>, code_only: bool) -> Seq<char> {
    match envelope(input) {
        Some(parts) => if code_only {
            patched(parts.code)
        } else {
            wrapped(parts, patched(parts.code))
        },
        None => patched(input),
    }
}

/// Taking a cartridge file apart and putting it together again gives the
/// file: nothing of what stands around the code is lost or changed.
pub proof fn lemma_envelope_restores(input: Seq<char>)
    requires
        envelope(input) is Some,
    ensures
        wrapped(envelope(input)->0, envelope(input)->0.code) == input,
{
    let start = find_first(input, code_marker())->0;
    lemma_find_from_is_first(input, code_marker(), 0);
    let rest = input.skip(start + code_marker().len());
    let end = find_first(rest, trailer_marker())->0;
    lemma_find_from_is_first(rest, trailer_marker(), 0);
    let parts = envelope(input)->0;
    assert(input.subrange(start, start + code_marker().len()) == code_marker());
    assert(rest.subrange(end, end + trailer_marker().len()) == trailer_marker());
    assert(rest =~= rest.take(end) + rest.subrange(end, end + trailer_marker().len()) + rest.skip(
        end + trailer_marker().len(),
    ));
    assert(input =~= input.take(start) + input.subrange(start, start + code_marker().len())
        + rest);
    assert(wrapped(parts, parts.code) =~= input);
}

/// The code of a cartridge file does not hold the trailer marker, and
/// what stands before the code does not hold the code marker.
pub proof fn lemma_envelope_is_first(input: Seq<char>)
    requires
        envelope(input) is Some,
    ensures
        find_first(envelope(input)->0.preamble, code_marker()) is None,
        find_first(envelope(input)->0.code, trailer_marker()) is None,
{
    let start = find_first(input, code_marker())->0;
    lemma_find_from_is_first(input, code_marker(), 0);
    let rest = input.skip(start + code_marker().len());
    let end = find_first(rest, trailer_marker())->0;
    lemma_find_from_is_first(rest, trailer_marker(), 0);
    let parts = envelope(input)->0;
    reveal_strlit("__lua__\n");
    reveal_strlit("__gfx__");
    lemma_find_from_is_first(parts.preamble, code_marker(), 0);
    lemma_find_from_is_first(parts.code, trailer_marker(), 0);
    if let Some(at) = find_first(parts.preamble, code_marker()) {
        assert(parts.preamble.subrange(at, at + code_marker().len()) =~= input.subrange(
            at,
            at + code_marker().len(),
        ));
        assert(occurs_at(input, code_marker(), at));
    }
    if let Some(at) = find_first(parts.code, trailer_marker()) {
        assert(parts.code.subrange(at, at + trailer_marker().len()) =~= rest.subrange(
            at,
            at + trailer_marker().len(),
        ));
        assert(occurs_at(rest, trailer_marker(), at));
    }
}

/// Takes a cartridge file apart. The result is `None` where `input` does
/// not start with the header, or lacks one of the two markers.
pub fn unwrap_cartridge(input: &str) -> (cartridge: Option<Cartridge>)
    ensures
        cartridge matches Some(parts) ==> envelope(input@) == Some(parts@),
        cartridge is None ==> envelope(input@) is None,
{
    let chars = chars_of(input);
    let header = chars_of("pico-8 cartridge");
    if !stands_at(chars.as_slice(), header.as_slice(), 0) {
        return None;
    }
    let code_marker = chars_of("__lua__\n");
    let trailer_marker = chars_of("__gfx__");
    match find(chars.as_slice(), code_marker.as_slice()) {
        None => None,
        Some(start) => {
            proof {
                lemma_find_from_is_first(chars@, code_marker@, 0);
            }
            let total = chars.len();
            let rest = slice_subrange(chars.as_slice(), start + code_marker.len(), total);
            match find(rest, trailer_marker.as_slice()) {
                None => None,
                Some(end) => {
                    proof {
                        lemma_find_from_is_first(rest@, trailer_marker@, 0);
                    }
                    let rest_len = rest.len();
                    let preamble = string_of(slice_subrange(chars.as_slice(), 0, start));
                    let code = string_of(slice_subrange(rest, 0, end));
                    let trailer = string_of(
                        slice_subrange(rest, end + trailer_marker.len(), rest_len),
                    );
                    Some(Cartridge { preamble, code, trailer })
                },
            }
        },
    }
}

/// Puts a cartridge file together, with `code` in the place of its code.
pub fn wrap_cartridge(cartridge: &Cartridge, code: &str) -> (file: String)
    ensures
        file@ == wrapped(cartridge@, code@),
{
    let mut file = String::new();
    file.append(cartridge.preamble.as_str());
    file.append("__lua__\n");
    file.append(code);
    file.append("__gfx__");
    file.append(cartridge.trailer.as_str());
    file
}

/// Converts a source file, a cartridge or plain code.
///
/// Of a cartridge file the code section is rewritten and, unless
/// `code_only` is set, put back between what stood around it; with
/// `code_only` the result is the rewritten code alone. Any other input is
/// code as a whole, and the result is that code rewritten.
pub fn convert(input: &str, code_only: bool) -> (out: String)
    ensures
        out@ == converted(input@, code_only),
{
    match unwrap_cartridge(input) {
        Some(cartridge) => {
            let code = patch_lua(Cow::Borrowed(cartridge.code.as_str()));
            if code_only {
                as_text(&code).to_string()
            } else {
                wrap_cartridge(&cartridge, as_text(&code))
            }
        },
        None => {
            let code = patch_lua(Cow::Borrowed(input));
            as_text(&code).to_string()
        },
    }
}

} // verus!
