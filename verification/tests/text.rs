use sigtrail::text::{
    has_prefix, join_dots, list_has, path_below, source_lines, split_dots, split_text,
};

#[test]
fn dotted_paths_are_split_and_joined() {
    assert_eq!(split_dots("a.b.c"), vec!["a", "b", "c"]);
    assert_eq!(split_dots(""), vec![""]);
    assert_eq!(split_dots(".x."), vec!["", "x", ""]);
    for path in ["a.b.c", "", ".x.", "plain"] {
        assert_eq!(join_dots(&split_dots(path)), path);
    }
    assert_eq!(split_text("äb-ö", '-'), vec!["äb", "ö"]);
}

#[test]
fn paths_are_written_below_prefixes() {
    assert_eq!(path_below(&"".to_string(), &"x".to_string()), "x");
    assert_eq!(path_below(&"a.b".to_string(), &"x".to_string()), "a.b.x");
    assert!(has_prefix("probe_x", "probe_"));
    assert!(has_prefix("probe_", "probe_"));
    assert!(!has_prefix("prob", "probe_"));
    assert!(list_has(&vec!["a".to_string()], &"a".to_string()));
    assert!(!list_has(&vec!["a".to_string()], &"b".to_string()));
}

#[test]
fn lines_are_those_of_the_standard_library() {
    for text in [
        "",
        "\n",
        "one",
        "one\n",
        "one\ntwo",
        "one\r\ntwo\r\n",
        "one\r\r\ntwo\rthree\r",
        "\n\n\nx\n\n",
        "\r\n",
        "ünïcode\nlines",
    ] {
        let expected: Vec<String> = text.lines().map(String::from).collect();
        assert_eq!(source_lines(text), expected);
    }
}
