use pico8_to_lua::delimiter::find_matching_paren;

fn chars(text: &str) -> Vec<char> {
    text.chars().collect()
}

#[test]
fn closes_a_simple_pair() {
    assert_eq!(find_matching_paren(&chars("(content)"), 0), Some(8));
}

#[test]
fn closes_the_outermost_of_nested_pairs() {
    let text = chars("((abs(x) < (a.w+a2.w)) and (y)) then");
    assert_eq!(find_matching_paren(&text, 0), Some(30));
    assert_eq!(find_matching_paren(&text, 1), Some(21));
    assert_eq!(find_matching_paren(&text, 5), Some(7));
}

#[test]
fn deep_nesting_closes_at_the_last_parenthesis() {
    let mut text = String::new();
    for _ in 0..200 {
        text.push('(');
    }
    for _ in 0..200 {
        text.push(')');
    }
    let text = chars(&text);
    assert_eq!(find_matching_paren(&text, 0), Some(399));
    assert_eq!(find_matching_paren(&text, 199), Some(200));
}

#[test]
fn unclosed_parenthesis_has_no_match() {
    assert_eq!(find_matching_paren(&chars("(a (b) c"), 0), None);
    assert_eq!(find_matching_paren(&chars("("), 0), None);
    assert_eq!(find_matching_paren(&chars("(()"), 0), None);
}

#[test]
fn only_an_opening_parenthesis_can_be_matched() {
    assert_eq!(find_matching_paren(&chars("a(b)"), 0), None);
    assert_eq!(find_matching_paren(&chars("a(b)"), 3), None);
    assert_eq!(find_matching_paren(&chars("a(b)"), 4), None);
    assert_eq!(find_matching_paren(&chars("a(b)"), 1000), None);
    assert_eq!(find_matching_paren(&chars(""), 0), None);
}

#[test]
fn other_brackets_do_not_count() {
    assert_eq!(find_matching_paren(&chars("([)]{)}"), 0), Some(2));
}

#[test]
fn parentheses_in_strings_and_comments_count() {
    assert_eq!(find_matching_paren(&chars("(a == \")\") b"), 0), Some(7));
}

#[test]
fn indices_count_characters() {
    let text = chars("(\u{27a1}\u{fe0f}(\u{1f17e}))");
    assert_eq!(find_matching_paren(&text, 0), Some(6));
    assert_eq!(find_matching_paren(&text, 3), Some(5));
}

#[test]
fn agrees_with_the_bracket_crate_on_ascii() {
    let samples = [
        "(content)",
        "((a)(b))c)",
        "(",
        ")",
        "",
        "()",
        "(()",
        "x(y)z",
        "(a(b(c)d)e)f(g)",
        "if (o.color) setmetatable(o.color, { __index = (m or n).color })",
    ];
    for sample in samples {
        let text = chars(sample);
        for open in 0..sample.len() + 2 {
            assert_eq!(
                find_matching_paren(&text, open),
                find_matching_bracket::find_matching_paren(sample, open),
                "{:?} from {}",
                sample,
                open
            );
        }
    }
}
