use mdp::toml_text::{
    strip_controls, strip_preprocessor_blocks, strip_sections, toml_string_body,
    toml_string_body_public,
};

#[test]
fn strips_exact_section() {
    let input = "[book]\ntitle = 'x'\n\n[output.html]\nkey = 1\n\n[preprocessor.foo]\nk = 1\n";
    let out = strip_sections(input, &["preprocessor.foo"]);
    assert!(out.contains("[book]"));
    assert!(out.contains("[output.html]"));
    assert!(!out.contains("[preprocessor.foo]"));
    assert!(!out.contains("k = 1"));
}

#[test]
fn strips_nested_sections() {
    let input =
        "[output.html]\ntheme = 'x'\n\n[output.html.fold]\nenable = true\n\n[output.html.search]\nlim = 1\n\n[preprocessor.katex]\nafter = []\n";
    let out = strip_sections(input, &["output.html"]);
    assert!(!out.contains("[output.html]"));
    assert!(!out.contains("[output.html.fold]"));
    assert!(!out.contains("[output.html.search]"));
    assert!(out.contains("[preprocessor.katex]"));
}

#[test]
fn preserves_other_sections() {
    let input = "[preprocessor.pagetoc]\n\n[preprocessor.mermaid]\nfoo = 1\n\n[preprocessor.plantuml]\nbar = 2\n";
    let out = strip_sections(input, &["preprocessor.mermaid", "preprocessor.plantuml"]);
    assert!(out.contains("[preprocessor.pagetoc]"));
    assert!(!out.contains("[preprocessor.mermaid]"));
    assert!(!out.contains("[preprocessor.plantuml]"));
}

#[test]
fn strip_is_idempotent() {
    let input = "[output.html]\nx = 1\n\n[book]\ntitle = 't'\n";
    let first = strip_sections(input, &["output.html"]);
    let second = strip_sections(&first, &["output.html"]);
    assert_eq!(first, second);
    assert!(!first.contains("[output.html]"));
    assert!(first.contains("[book]"));
}

#[test]
fn strip_handles_section_with_whitespace_prefix() {
    let input = "  [preprocessor.foo]\nkey = 1\n[book]\n";
    let out = strip_sections(input, &["preprocessor.foo"]);
    assert!(!out.contains("[preprocessor.foo]"));
    assert!(out.contains("[book]"));
}

#[test]
fn strip_drops_everything_until_next_header() {
    let input = "[drop]\na = 1\n\n# comment-belongs-to-drop\n[keep]\nb = 2\n# comment-belongs-to-keep\n";
    let out = strip_sections(input, &["drop"]);
    assert!(!out.contains("[drop]"));
    assert!(!out.contains("comment-belongs-to-drop"));
    assert!(out.contains("[keep]"));
    assert!(out.contains("b = 2"));
    assert!(out.contains("comment-belongs-to-keep"));
}

#[test]
fn strip_empty_input_is_empty() {
    assert_eq!(strip_sections("", &["anything"]), "");
}

#[test]
fn strip_no_match_returns_unchanged_content() {
    let input = "[a]\nx=1\n\n[b]\ny=2\n";
    let out = strip_sections(input, &["c"]);
    assert!(out.contains("[a]"));
    assert!(out.contains("x=1"));
    assert!(out.contains("[b]"));
    assert!(out.contains("y=2"));
    assert_eq!(out, input);
}

#[test]
fn strip_preprocessor_blocks_maps_names_correctly() {
    let input = "[preprocessor.mermaid]\nx=1\n[preprocessor.plantumlextra]\ny=2\n";
    let out = strip_preprocessor_blocks(input, &["mermaid", "plantuml"]);
    assert!(!out.contains("[preprocessor.mermaid]"));
    assert!(out.contains("[preprocessor.plantumlextra]"));
    assert_eq!(out, "[preprocessor.plantumlextra]\ny=2\n");
}

#[test]
fn strip_keeps_lines_before_the_first_header_and_ends_every_line() {
    assert_eq!(strip_sections("top = 1\r\n[a]\r\nx = 1\r\n[b]", &["a"]), "top = 1\n[b]\n");
}

#[test]
fn strip_twice_can_differ_where_a_line_ends_in_a_carriage_return() {
    let first = strip_sections("a\r\r\n", &["x"]);
    assert_eq!(first, "a\r\n");
    assert_eq!(strip_sections(&first, &["x"]), "a\n");
}

#[test]
fn strip_takes_no_key_for_part_of_a_name() {
    assert_eq!(strip_sections("[ab]\n[a.b]\n[a]\n[[a]]\n", &["a"]), "[ab]\n[[a]]\n");
}

#[test]
fn toml_string_body_escapes_quotes_and_backslash() {
    assert_eq!(toml_string_body("hello"), "hello");
    assert_eq!(toml_string_body(r#"he"llo"#), r#"he\"llo"#);
    assert_eq!(toml_string_body(r"he\llo"), r"he\\llo");
}

#[test]
fn toml_string_body_escapes_control_chars() {
    assert_eq!(toml_string_body("a\nb"), r"a\nb");
    assert_eq!(toml_string_body("a\rb"), r"a\rb");
    assert_eq!(toml_string_body("a\tb"), r"a\tb");
}

#[test]
fn toml_string_body_rejects_toml_injection() {
    let evil = r#"evil"
[output.html]
additional-js = ["http://evil/x.js"]
#"#;
    let escaped = toml_string_body(evil);
    assert!(!escaped.contains('\n'));
    assert!(!escaped.contains("\"\n"));
}

#[test]
fn toml_string_body_escapes_all_ascii_controls() {
    for n in 0u32..=0x1f {
        let s = String::from(char::from_u32(n).unwrap());
        let escaped = toml_string_body(&s);
        assert!(
            !escaped.chars().any(|c| c.is_control() && c != ' '),
            "{n:#x} not escaped: {escaped:?}"
        );
    }
    let del_escaped = toml_string_body("\x7f");
    assert_eq!(del_escaped, "\\u007F");
}

#[test]
fn toml_string_body_roundtrips_via_toml_crate() {
    for input in [
        "plain",
        "한글",
        "emoji 🌸",
        r#"q"uo"tes"#,
        "line\nbreak",
        "\tindented",
        "with \\ backslash",
        "",
    ] {
        let wrapped = format!("v = \"{}\"", toml_string_body(input));
        let parsed: toml::Value = toml::from_str(&wrapped)
            .unwrap_or_else(|e| panic!("input {input:?} failed to parse: {e}"));
        let v = parsed["v"].as_str().expect("v must be a string");
        assert_eq!(v, input, "round-trip mismatch for {input:?}");
    }
}

#[test]
fn toml_string_body_handles_high_plane_unicode() {
    assert_eq!(toml_string_body("🌸"), "🌸");
    assert_eq!(toml_string_body("한"), "한");
    let wrapped = format!("v = \"{}\"", toml_string_body("🌸 한글 and 🚀"));
    let parsed: toml::Value = toml::from_str(&wrapped).unwrap();
    assert_eq!(parsed["v"].as_str().unwrap(), "🌸 한글 and 🚀");
}

#[test]
fn toml_string_body_escapes_each_kind_of_control() {
    assert_eq!(toml_string_body("\u{8}\u{c}\u{0}\u{1f}\u{80}\u{9f}\u{a0}"), "\\b\\f\\u0000\\u001F\\u0080\\u009F\u{a0}");
    assert_eq!(toml_string_body_public("a\"b\u{7}"), "a\\\"b\\u0007");
}

#[test]
fn every_character_that_is_escaped_reads_back() {
    for n in (0u32..0x100).chain([0x2028, 0xd7ff, 0xe000, 0xfffd, 0x10ffff]) {
        let c = char::from_u32(n).unwrap();
        let text = format!("x{c}y");
        let wrapped = format!("v = \"{}\"", toml_string_body(&text));
        let parsed: toml::Value = toml::from_str(&wrapped).unwrap();
        assert_eq!(parsed["v"].as_str().unwrap(), text);
    }
}

#[test]
fn strip_controls_removes_newlines() {
    assert_eq!(strip_controls("hello\nworld"), "helloworld");
    assert_eq!(strip_controls("path with space"), "path with space");
}

#[test]
fn strip_controls_preserves_utf8() {
    assert_eq!(strip_controls("안녕 world 🌸"), "안녕 world 🌸");
}

#[test]
fn strip_controls_removes_tab_and_null() {
    assert_eq!(strip_controls("a\tb\0c"), "abc");
}

#[test]
fn strip_controls_removes_ascii_controls_and_no_more() {
    assert_eq!(strip_controls("\u{7f}a\u{9f}\u{a0}b\r\n"), "a\u{9f}\u{a0}b");
    assert_eq!(strip_controls(&strip_controls("a\u{1b}[0m")), "a[0m");
}
