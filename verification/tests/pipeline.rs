use pico8_to_lua::pipeline::{apply_rule, as_text, pattern_of, replace_match, rewrite, Rule};
use pico8_to_lua::{patch_lua, was_patched};
use std::borrow::Cow;

fn chars(text: &str) -> Vec<char> {
    text.chars().collect()
}

fn patch(lua: &str) -> String {
    patch_lua(lua.into()).into_owned()
}

#[test]
fn untouched_text_comes_back_borrowed() {
    for lua in ["", "x = 1", "print(a ~= b) -- done\n", "if a then b() end\n"] {
        let out = patch_lua(Cow::Borrowed(lua));
        assert!(!was_patched(&out), "{:?}", lua);
        match out {
            Cow::Borrowed(text) => {
                assert_eq!(text, lua);
                assert_eq!(text.as_ptr(), lua.as_ptr());
            }
            Cow::Owned(_) => panic!("{:?} came back owned", lua),
        }
    }
}

#[test]
fn touched_text_comes_back_owned() {
    for lua in [
        "a != b",
        "// c",
        "btn(\u{2b05})",
        "if (a) b",
        "x += 1",
        "?x",
        " 0b1",
    ] {
        let out = patch_lua(Cow::Borrowed(lua));
        assert!(was_patched(&out), "{:?}", lua);
    }
}

#[test]
fn passed_through_text_comes_back_borrowed() {
    for lua in [
        "if (a) then b end",
        "if (a) then b() end",
        "  if (a and (b)\n",
        "btn(4)",
        "btnp(x) x = 0b2",
        "if (a) then\n btn(\u{2b05}\u{2b05})\nend\n",
    ] {
        let out = patch_lua(Cow::Borrowed(lua));
        assert!(!was_patched(&out), "{:?}", lua);
        assert!(matches!(out, Cow::Borrowed(text) if text.as_ptr() == lua.as_ptr()));
        for rule in [Rule::Button, Rule::ShorthandIf, Rule::BinaryLiteral] {
            let out = apply_rule(rule, Cow::Borrowed(lua));
            assert!(matches!(out, Cow::Borrowed(text) if text.as_ptr() == lua.as_ptr()));
        }
    }
}

#[test]
fn a_change_behind_a_passed_through_match_gives_an_owned_text() {
    let lua = "if (a) then b end\nif (c) d\n";
    let out = patch_lua(Cow::Borrowed(lua));
    assert!(was_patched(&out));
    assert_eq!(out, "if (a) then b end\nif c then d end\n");
}

#[test]
fn owned_text_comes_back_owned() {
    let out = patch_lua(Cow::Owned("x = 1".to_string()));
    assert!(was_patched(&out));
    assert_eq!(out, "x = 1");
}

#[test]
fn was_patched_tells_owned_from_borrowed() {
    assert!(was_patched(&Cow::Owned(String::new())));
    assert!(!was_patched(&Cow::Borrowed("x += 1")));
}

#[test]
fn patching_twice_is_stable_for_plain_code() {
    for lua in [
        "x = 1",
        "if a != b then print(a) end",
        "if (not b) i = 1 // hi\n",
        "?x + y",
        "a = 0b1010.1",
        "if btnp(\u{27a1}\u{fe0f}) or btn(\u{274e}) then",
    ] {
        let once = patch(lua);
        let twice = patch(&once);
        assert_eq!(once, twice, "{:?}", lua);
    }
}

#[test]
fn patching_twice_may_differ_from_patching_once() {
    let once = patch("a+=b+=c");
    assert_eq!(once, "a+=b = a+=b + (c)");
    let twice = patch(&once);
    assert_eq!(twice, "a = a + (b = a+=b + (c))");
    assert_ne!(once, twice);
}

#[test]
fn rules_apply_in_order() {
    assert_eq!(patch("if (a != b) x += 1 // c"), "if a ~= b then x = x + (1) end -- c");
    assert_eq!(
        patch("if (x) y -= 0b11 + btn(\u{2b06})"),
        "if x then y = y - (0x3 + btn(2)) end"
    );
    assert_eq!(patch("?0b1.1"), "print(0x1.8)");
    assert_eq!(patch("?a // 0b1"), "print(a -- 0x1)");
}

#[test]
fn every_occurrence_is_rewritten() {
    assert_eq!(patch("a != b != c"), "a ~= b ~= c");
    assert_eq!(patch("// a\n// b\n"), "-- a\n-- b\n");
    assert_eq!(patch("x += 1\ny *= 2\nz /= 3\nw %= 4\nv -= 5"),
        "x = x + (1)\ny = y * (2)\nz = z / (3)\nw = w % (4)\nv = v - (5)");
    assert_eq!(patch("?a\n  ?b\n"), "print(a)\n  print(b)\n");
    assert_eq!(patch("a = 0b1 + 0B10 + 0b11.1"), "a = 0x1 + 0x2 + 0x3.8");
    assert_eq!(patch("if (a) b\n\tif (c) d\n"), "if a then b end\n\tif c then d end\n");
}

#[test]
fn offsets_are_right_behind_characters_of_several_bytes() {
    assert_eq!(patch("s = \"\u{e9}\u{1f17e}\" x += 1"), "s = \"\u{e9}\u{1f17e}\" x = x + (1)");
    assert_eq!(patch("-- \u{2b05}\nif (a) b = \"\u{27a1}\"\n?c"),
        "-- \u{2b05}\nif a then b = \"\u{27a1}\" end\nprint(c)");
    assert_eq!(patch("\u{e9} != \u{e9}"), "\u{e9} ~= \u{e9}");
}

#[test]
fn button_rule_in_text() {
    assert_eq!(patch("btn( \u{2b07} )"), "btn(3)");
    assert_eq!(patch("btn(\u{2b07}, 1)"), "btn(\u{2b07}, 1)");
    assert_eq!(patch("  btnp(i)"), "  btnp(i)");
    assert_eq!(patch("abtn(\u{2b05})"), "abtn(0)");
    assert_eq!(patch("f(btn(\u{2b06}))"), "f(btn(\u{2b06}))");
}

#[test]
fn compound_assignment_ends_at_its_terminators() {
    assert_eq!(patch("a += 1 end"), "a = a + (1) end");
    assert_eq!(patch("a += 1 else b += 2 end"), "a = a + (1) else b = b + (2) end");
    assert_eq!(patch("a += 1; b -= 2"), "a = a + (1); b = b - (2)");
    assert_eq!(patch("a += 1 -- c"), "a = a + (1) -- c");
    assert_eq!(patch("a += b  \nc"), "a = a + (b)  \nc");
}

#[test]
fn comment_dashes_are_no_compound_assignment() {
    assert_eq!(patch("--==configurations==--"), "--==configurations==--");
    assert_eq!(patch("x --= 1"), "x --= 1");
}

#[test]
fn binary_literal_needs_something_before_it() {
    assert_eq!(patch("0b1010"), "0b1010");
    assert_eq!(patch("a0b1010"), "a0b1010");
    assert_eq!(patch("_0b1"), "_0b1");
    assert_eq!(patch("(0b1010)"), "(0xa)");
    assert_eq!(patch(" 0b2"), " 0b2");
    assert_eq!(patch(" 0b"), " 0b");
}

#[test]
fn conditional_with_then_is_left_alone() {
    assert_eq!(patch("if (a) then\n b()\nend\n"), "if (a) then\n b()\nend\n");
    assert_eq!(patch("if (a) b = then_some\n"), "if a then b = then_some end\n");
    assert_eq!(patch("if (athen) b\n"), "if athen then b end\n");
}

#[test]
fn conditional_with_unclosed_parenthesis_is_left_alone() {
    assert_eq!(patch("if (a and (b)\n  c()\n"), "if (a and (b)\n  c()\n");
}

#[test]
fn single_rules() {
    let out = apply_rule(Rule::NotEqual, "a != b // c".into());
    assert_eq!(out, "a ~= b // c");
    assert!(was_patched(&out));
    let out = apply_rule(Rule::LineComment, "a != b // c".into());
    assert_eq!(out, "a != b -- c");
    let out = apply_rule(Rule::Button, "btn(\u{274e}) != 1".into());
    assert_eq!(out, "btn(5) != 1");
    let out = apply_rule(Rule::ShorthandIf, "if (a) b += 1".into());
    assert_eq!(out, "if a then b += 1 end");
    let out = apply_rule(Rule::CompoundAssignment, "if (a) b += 1".into());
    assert_eq!(out, "if (a) b = b + (1)");
    let out = apply_rule(Rule::PrintShorthand, "?a != b".into());
    assert_eq!(out, "print(a != b)");
    let out = apply_rule(Rule::BinaryLiteral, "?a != 0b101".into());
    assert_eq!(out, "?a != 0x5");
    for rule in [
        Rule::NotEqual,
        Rule::LineComment,
        Rule::Button,
        Rule::ShorthandIf,
        Rule::CompoundAssignment,
        Rule::PrintShorthand,
        Rule::BinaryLiteral,
    ] {
        let lua = "x = 1";
        let out = apply_rule(rule, Cow::Borrowed(lua));
        assert!(!was_patched(&out));
        assert_eq!(out, lua);
    }
}

#[test]
fn every_pattern_compiles() {
    for rule in [
        Rule::NotEqual,
        Rule::LineComment,
        Rule::Button,
        Rule::ShorthandIf,
        Rule::CompoundAssignment,
        Rule::PrintShorthand,
        Rule::BinaryLiteral,
    ] {
        assert!(regex::Regex::new(pattern_of(rule)).is_ok());
    }
}

#[test]
fn rewrite_replaces_the_given_matches() {
    let text = "\u{e9} ?x\n?yy";
    let found = vec![
        vec![Some((3, 5)), Some((3, 3)), Some((4, 5))],
        vec![Some((6, 9)), Some((6, 6)), Some((7, 9))],
    ];
    assert_eq!(rewrite(Rule::PrintShorthand, text, &found), "\u{e9} print(x)\nprint(yy)");
    assert_eq!(rewrite(Rule::PrintShorthand, text, &vec![]), text);
    let found = vec![vec![Some((0, 2))], vec![Some((2, 3))]];
    assert_eq!(rewrite(Rule::NotEqual, text, &found), "~=~=?x\n?yy");
}

#[test]
fn absent_groups_read_as_empty() {
    let text = chars("a += 1");
    assert_eq!(replace_match(Rule::PrintShorthand, &text, &vec![Some((0, 6))]), "print()");
    assert_eq!(
        replace_match(Rule::CompoundAssignment, &text, &vec![Some((0, 6)), Some((0, 1)), None, Some((5, 6))]),
        "a = a  (1)"
    );
    assert_eq!(
        replace_match(Rule::BinaryLiteral, &text, &vec![Some((0, 6)), None, None]),
        "a += 1"
    );
}

#[test]
fn text_of_a_cow() {
    assert_eq!(as_text(&Cow::Borrowed("a")), "a");
    assert_eq!(as_text(&Cow::Owned("b".to_string())), "b");
}

const SAMPLES: [&str; 14] = [
    "",
    "x = 1",
    "a != b",
    "!=!=!==!!=",
    "// c\n/// d\n//// e // f",
    "x += 1",
    "a+=b+=c",
    "tb.i+=1 -- next\n\u{e9} -= 2; z *= 3 else w /= 4 end\nv %= 5",
    "?x\n  ?y + z\n?\n??a\nb ?c",
    "\u{1f17e} != \u{2b05} // \u{27a1}\u{fe0f}\n?\u{274e}\nq\u{e9} += \u{e9}",
    "if (a) b\nif (c) then d end",
    "x --= 1\ny -= -1 -- z += 2",
    "a += 1\r\nb += 2\r\n?c\r\n",
    "s = \"a += b\" t -= 1",
];

#[test]
fn fixed_text_rules_agree_with_a_pattern_search() {
    for (rule, with) in [(Rule::NotEqual, "~="), (Rule::LineComment, "--")] {
        let pattern = regex::Regex::new(pattern_of(rule)).unwrap();
        for sample in SAMPLES {
            let expected = pattern.replace_all(sample, with);
            let out = apply_rule(rule, Cow::Borrowed(sample));
            assert_eq!(out, expected, "{:?}", sample);
            assert_eq!(was_patched(&out), expected != sample, "{:?}", sample);
        }
    }
}

#[test]
fn template_rules_agree_with_the_expansion_of_their_templates() {
    for (rule, template) in [
        (Rule::CompoundAssignment, "$1 = $1 $2 ($3)$4"),
        (Rule::PrintShorthand, "${1}print($2)"),
    ] {
        let pattern = regex::Regex::new(pattern_of(rule)).unwrap();
        for sample in SAMPLES {
            let expected = pattern.replace_all(sample, template);
            let out = apply_rule(rule, Cow::Borrowed(sample));
            assert_eq!(out, expected, "{:?}", sample);
            assert_eq!(was_patched(&out), expected != sample, "{:?}", sample);
        }
    }
}
