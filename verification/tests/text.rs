use pico8_to_lua::search::{find, is_white_space, replace_all, skip_white, stands_at, trimmed_len};
use pico8_to_lua::text::{boundary_table, chars_of, push_chars, string_of, width_of};

fn chars(text: &str) -> Vec<char> {
    text.chars().collect()
}

#[test]
fn chars_and_back() {
    let text = "a\u{e9}\u{27a1}\u{fe0f}\u{1f17e} z\n";
    assert_eq!(chars_of(text), chars(text));
    assert_eq!(string_of(&chars_of(text)), text);
    assert_eq!(chars_of(""), Vec::<char>::new());
    assert_eq!(string_of(&[]), "");
}

#[test]
fn string_of_is_not_empty_for_a_text() {
    assert_eq!(string_of(&['x', 'y']), "xy");
}

#[test]
fn push_chars_appends() {
    let mut out = String::from("ab");
    push_chars(&mut out, &['c', '\u{e9}']);
    assert_eq!(out, "abc\u{e9}");
    push_chars(&mut out, &[]);
    assert_eq!(out, "abc\u{e9}");
}

#[test]
fn widths_are_those_of_utf8() {
    assert_eq!(width_of('a'), 1);
    assert_eq!(width_of('\u{7f}'), 1);
    assert_eq!(width_of('\u{80}'), 2);
    assert_eq!(width_of('\u{7ff}'), 2);
    assert_eq!(width_of('\u{800}'), 3);
    assert_eq!(width_of('\u{ffff}'), 3);
    assert_eq!(width_of('\u{10000}'), 4);
    assert_eq!(width_of('\u{10ffff}'), 4);
    for code in 0..=0x10ffffu32 {
        if let Some(c) = char::from_u32(code) {
            assert_eq!(width_of(c), c.len_utf8(), "U+{:04X}", code);
        }
    }
}

#[test]
fn white_space_is_that_of_unicode() {
    assert!(is_white_space(' '));
    assert!(is_white_space('\n'));
    assert!(is_white_space('\t'));
    assert!(is_white_space('\u{a0}'));
    assert!(is_white_space('\u{3000}'));
    assert!(!is_white_space('a'));
    assert!(!is_white_space('\u{200b}'));
    assert!(!is_white_space('\u{180e}'));
    for code in 0..=0x10ffffu32 {
        if let Some(c) = char::from_u32(code) {
            assert_eq!(is_white_space(c), c.is_whitespace(), "U+{:04X}", code);
        }
    }
}

#[test]
fn table_leads_from_offsets_to_characters() {
    let text = chars("a\u{e9}\u{27a1}\u{1f17e}z");
    let table = boundary_table(&text);
    assert_eq!(table.len(), 1 + 2 + 3 + 4 + 1 + 1);
    assert_eq!(table[0], 0);
    assert_eq!(table[1], 1);
    assert_eq!(table[3], 2);
    assert_eq!(table[6], 3);
    assert_eq!(table[10], 4);
    assert_eq!(table[11], 5);
    assert_eq!(boundary_table(&[]), vec![0]);
}

#[test]
fn trimming() {
    let text = chars(" \t\u{a0}x y \n");
    assert_eq!(skip_white(&text), 3);
    assert_eq!(trimmed_len(&text), 6);
    assert_eq!(skip_white(&chars("x ")), 0);
    assert_eq!(trimmed_len(&chars(" x")), 2);
    assert_eq!(skip_white(&chars("  ")), 2);
    assert_eq!(trimmed_len(&chars("  ")), 0);
    assert_eq!(skip_white(&[]), 0);
    assert_eq!(trimmed_len(&[]), 0);
}

#[test]
fn finding() {
    let hay = chars("a--b--");
    assert_eq!(find(&hay, &chars("--")), Some(1));
    assert_eq!(find(&hay, &chars("b--")), Some(3));
    assert_eq!(find(&hay, &chars("a--b--")), Some(0));
    assert_eq!(find(&hay, &chars("a--b--c")), None);
    assert_eq!(find(&hay, &chars("-b-b")), None);
    assert_eq!(find(&hay, &[]), Some(0));
    assert_eq!(find(&[], &[]), Some(0));
    assert_eq!(find(&[], &chars("-")), None);
    assert_eq!(find(&chars("-"), &chars("--")), None);
    assert!(stands_at(&hay, &chars("--"), 4));
    assert!(!stands_at(&hay, &chars("--"), 5));
    assert!(!stands_at(&hay, &chars("--"), 2));
    assert!(!stands_at(&hay, &chars("--"), 100));
    assert!(stands_at(&hay, &[], 6));
    assert!(!stands_at(&hay, &[], 7));
}

#[test]
fn replacing() {
    assert_eq!(
        replace_all(&chars("a != b != c"), &chars("!="), "~="),
        Some("a ~= b ~= c".to_string())
    );
    assert_eq!(replace_all(&chars("a ~= b"), &chars("!="), "~="), None);
    assert_eq!(replace_all(&[], &chars("!="), "~="), None);
    assert_eq!(replace_all(&chars("!="), &chars("!="), "~="), Some("~=".to_string()));
    assert_eq!(replace_all(&chars("///"), &chars("//"), "--"), Some("--/".to_string()));
    assert_eq!(replace_all(&chars("////"), &chars("//"), "--"), Some("----".to_string()));
    assert_eq!(replace_all(&chars("aaa"), &chars("aa"), "b"), Some("ba".to_string()));
    assert_eq!(replace_all(&chars("x\u{e9}!=y"), &chars("!="), ""), Some("x\u{e9}y".to_string()));
}
