//! Rewrites PICO-8's dialect of Lua into plain Lua.
//!
//! PICO-8 accepts a few forms that plain Lua does not: `!=`, `//` comments,
//! button symbols, conditionals without `then`, compound assignments, `?` for
//! `print`, and binary literals. [`patch_lua`] rewrites them, one rule after
//! the other. `#include` lines are resolved apart from that, by
//! [`patch_includes`] and [`try_patch_includes`], and [`convert`] rewrites
//! the code section of a cartridge file.
//!
//! Five of the rules, and the search for `#include` lines, find what they
//! rewrite with regular expressions, which the `regex` crate searches for.
//! What it finds is taken on trust, under a name that the contracts speak
//! of; everything from the matches on is verified: where they lie in the
//! text, what replaces each of them, and the text that comes out. The two
//! rules that look for a fixed text are verified as a whole.
//!
//! - [`text`]: characters, and the byte offsets of their UTF-8 encoding.
//! - [`search`]: finding and replacing a fixed text, trimming white space.
//! - [`delimiter`]: the parenthesis that closes an opening one.
//! - [`pattern`]: the matches of a regular expression.
//! - [`splice`]: putting replacements in the place of matches.
//! - [`rules`]: what replaces a match, rule by rule.
//! - [`pipeline`]: the rules in order.
//! - [`includes`]: `#include` lines.
//! - [`cartridge`]: the code section of a cartridge file.

pub mod cartridge;
pub mod delimiter;
pub mod includes;
pub mod pattern;
pub mod pipeline;
pub mod rules;
pub mod search;
pub mod splice;
pub mod text;

pub use crate::cartridge::{convert, unwrap_cartridge, wrap_cartridge, Cartridge};
pub use crate::delimiter::find_matching_paren;
pub use crate::includes::{find_includes, patch_includes, try_patch_includes};
pub use crate::pipeline::{apply_rule, patch_lua, was_patched, Rule};
