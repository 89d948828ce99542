use pico8_to_lua::includes::{mark_failure, settle};
use pico8_to_lua::includes::clip_to_lines;
use pico8_to_lua::{find_includes, patch_includes, try_patch_includes};
use std::borrow::Cow;

#[test]
fn finds_paths_in_order() {
    let lua = "#include a.p8\nx = 1\n  #include  dir/b.lua  \n#include\tc d\n";
    assert_eq!(find_includes(lua), vec!["a.p8", "dir/b.lua", "c"]);
}

#[test]
fn finds_nothing_without_include_lines() {
    assert_eq!(find_includes(""), Vec::<String>::new());
    assert_eq!(find_includes("x = 1 #include a\n-- #include b\n#include\n"), Vec::<String>::new());
}

#[test]
fn the_path_stands_on_the_line_of_the_marker() {
    assert_eq!(find_includes("#include\na.p8\n"), Vec::<String>::new());
    assert_eq!(find_includes("#include \r\nb.p8\n"), Vec::<String>::new());
    assert_eq!(find_includes("#include \t\u{a0}c.p8\r\n"), vec!["c.p8"]);
    let out = patch_includes("#include\na.p8\n".into(), |_| String::new());
    assert_eq!(out, "#include\na.p8\n");
    assert!(matches!(out, Cow::Borrowed(_)));
}

#[test]
fn finds_paths_behind_characters_of_several_bytes() {
    let lua = "-- \u{e9}\u{1f17e}\n#include \u{e9}.p8\n";
    assert_eq!(find_includes(lua), vec!["\u{e9}.p8"]);
}

#[test]
fn finding_twice_gives_the_same() {
    let lua = "#include a\n#include b\n";
    assert_eq!(find_includes(lua), find_includes(lua));
}

#[test]
fn includes_are_replaced_by_what_the_resolver_gives() {
    let lua = "a()\n#include one\n  #include two.lua\nb()\n";
    let out = patch_includes(lua.into(), |path| format!("<{}>", path));
    assert_eq!(out, "a()\n<one>\n<two.lua>\nb()\n");
    assert!(matches!(out, Cow::Owned(_)));
}

#[test]
fn the_directive_line_alone_is_replaced() {
    let lua = "x = 1\n\n  #include a.p8\ny = 2\n";
    let out = patch_includes(lua.into(), |_: &str| String::from("z = 3"));
    assert_eq!(out, "x = 1\n\nz = 3\ny = 2\n");
    let lua = "a()\n\n \t#include one\n\n\n#include two\r\n\r\n\t#include three";
    let out = patch_includes(lua.into(), |path| format!("<{}>", path));
    assert_eq!(out, "a()\n\n<one>\n\n\n<two>\r\n\r\n<three>");
    let lua = "\n\n#include a\n";
    let out: Result<Cow<str>, (Cow<str>, String)> =
        try_patch_includes(lua.into(), |path| Ok(path.to_uppercase()));
    assert_eq!(out, Ok(Cow::Borrowed("\n\nA\n")));
}

#[test]
fn a_match_that_spans_lines_is_clipped_to_the_line_of_its_path() {
    let text: Vec<char> = "x\n\n  #include a\ny".chars().collect();
    let located = vec![vec![Some((2, 15)), Some((14, 15))]];
    assert_eq!(clip_to_lines(&text, &located), vec![vec![Some((3, 15))]]);
    let located = vec![vec![Some((5, 15)), Some((14, 15))]];
    assert_eq!(clip_to_lines(&text, &located), vec![vec![Some((5, 15))]]);
    let located = vec![vec![Some((0, 15)), None], vec![Some((15, 17))]];
    assert_eq!(
        clip_to_lines(&text, &located),
        vec![vec![Some((3, 15))], vec![Some((16, 17))]]
    );
    let located = vec![vec![Some((0, 2)), Some((14, 15))]];
    assert_eq!(clip_to_lines(&text, &located), vec![vec![Some((2, 2))]]);
    assert_eq!(clip_to_lines(&text, &vec![]), Vec::<Vec<Option<(usize, usize)>>>::new());
}

#[test]
fn the_resolver_is_asked_once_for_each_line_in_order() {
    let lua = "#include a\n#include b\n#include a\n";
    let mut asked = Vec::new();
    let out = patch_includes(lua.into(), |path| {
        asked.push(path.to_string());
        format!("{}", asked.len())
    });
    assert_eq!(out, "1\n2\n3\n");
    assert_eq!(asked, vec!["a", "b", "a"]);
}

#[test]
fn text_without_includes_comes_back_borrowed() {
    let lua = "x = 1\n";
    let mut asked = 0;
    let out = patch_includes(Cow::Borrowed(lua), |_| {
        asked += 1;
        String::new()
    });
    assert!(matches!(out, Cow::Borrowed(text) if text.as_ptr() == lua.as_ptr()));
    assert_eq!(asked, 0);
    let out: Result<Cow<str>, (Cow<str>, String)> = try_patch_includes(Cow::Borrowed(lua), |_| {
        asked += 1;
        Err("no".to_string())
    });
    assert!(matches!(out, Ok(Cow::Borrowed(text)) if text.as_ptr() == lua.as_ptr()));
    assert_eq!(asked, 0);
}

#[test]
fn resolved_includes_give_the_text() {
    let lua = "#include a\nx()\n#include b";
    let out: Result<Cow<str>, (Cow<str>, String)> =
        try_patch_includes(lua.into(), |path| Ok(format!("-- {}", path)));
    assert_eq!(out, Ok(Cow::Borrowed("-- a\nx()\n-- b")));
    assert!(matches!(out, Ok(Cow::Owned(_))));
}

#[test]
fn the_first_error_comes_with_the_text_after_all_includes_were_tried() {
    let lua = "#include a\n#include b\n#include c\n#include d\n";
    let mut asked = Vec::new();
    let out: Result<Cow<str>, (Cow<str>, String)> = try_patch_includes(lua.into(), |path| {
        asked.push(path.to_string());
        if path == "b" || path == "d" {
            Err(format!("no {}", path))
        } else {
            Ok(path.to_uppercase())
        }
    });
    let (text, error) = out.unwrap_err();
    assert_eq!(error, "no b");
    assert_eq!(
        text,
        "A\nerror(\"failed to include \"b\": no b\")\nC\nerror(\"failed to include \"d\": no d\")\n"
    );
    assert!(matches!(text, Cow::Owned(_)));
    assert_eq!(asked, vec!["a", "b", "c", "d"]);
}

#[test]
fn failed_includes_are_marked_in_the_text() {
    let lua = "#include a\nx()\n  #include b \"c\"\n\n#include d\n";
    let out = try_patch_includes(lua.into(), |path| {
        if path == "a" {
            Ok("a()".to_string())
        } else {
            Err(format!("no {}", path))
        }
    });
    let (text, error) = out.unwrap_err();
    assert_eq!(
        text,
        "a()\nx()\nerror(\"failed to include \"b\": no b\") \"c\"\n\nerror(\"failed to include \"d\": no d\")\n"
    );
    assert_eq!(error, "no b");
}

#[test]
fn a_single_failure_comes_with_the_text() {
    let out = try_patch_includes("x\n#include a\n".into(), |_| Err::<String, u8>(7));
    assert_eq!(
        out,
        Err((Cow::Borrowed("x\nerror(\"failed to include \"a\": 7\")\n"), 7))
    );
}

#[test]
fn marker_names_the_path_and_the_failure() {
    assert_eq!(
        mark_failure("a.p8", "no such file"),
        "error(\"failed to include \"a.p8\": no such file\")"
    );
    assert_eq!(
        mark_failure("a\"b\\c", ""),
        "error(\"failed to include \"a\\\"b\\\\c\": \")"
    );
    assert_eq!(mark_failure("", "x"), "error(\"failed to include \"\": x\")");
}

#[test]
fn settling_an_outcome() {
    assert_eq!(
        settle("a", Ok::<String, String>("text".to_string())),
        ("text".to_string(), None)
    );
    assert_eq!(
        settle("a", Err::<String, u8>(7)),
        ("error(\"failed to include \"a\": 7\")".to_string(), Some(7))
    );
}
