use mdp::number::{decimal_of, parse_u64, push_hex};
use mdp::order::{insert_ascending, le_bytes, le_paths};
use mdp::text::{
    chars_of, contains, is_control, is_whitespace, join, lines, replace, same_str, starts_with_str,
    string_of, trim, trim_end, trim_start,
};
use mdp::utf8::{lossy_string, utf8_string};

fn lines_of(s: &str) -> Vec<String> {
    lines(s).iter().map(|l| string_of(l)).collect()
}

#[test]
fn lines_agree_with_the_standard_library() {
    for s in ["", "\n", "a", "a\n", "a\nb", "a\r\nb\r\n", "\r", "a\r", "a\r\r\n", "\n\n", "\r\n\nx", "한\n글"] {
        let want: Vec<String> = s.lines().map(String::from).collect();
        assert_eq!(lines_of(s), want, "{s:?}");
    }
}

#[test]
fn lines_written_out_read_back() {
    let ls = ["", "a b", "\rx", "한글"];
    let text: String = ls.iter().map(|l| format!("{l}\n")).collect();
    assert_eq!(lines_of(&text), ls);
    assert_eq!(lines_of(&format!("{text}tail")).last().unwrap(), "tail");
}

#[test]
fn trimming_agrees_with_the_standard_library() {
    for s in ["", " ", " a ", "\t\n a\u{3000}b \u{a0}\u{85}", "\u{200b}x\u{200b}", "\u{1680}\u{2028}y\u{205f}"] {
        let cs = chars_of(s);
        assert_eq!(string_of(trim(&cs)), s.trim());
        assert_eq!(string_of(trim_start(&cs)), s.trim_start());
        assert_eq!(string_of(trim_end(&cs)), s.trim_end());
    }
}

#[test]
fn character_classes_agree_with_the_standard_library() {
    for n in 0u32..=0x10ffff {
        if let Some(c) = char::from_u32(n) {
            assert_eq!(is_whitespace(c), c.is_whitespace(), "{n:#x}");
            assert_eq!(is_control(c), c.is_control(), "{n:#x}");
        }
    }
}

#[test]
fn replacement_agrees_with_the_standard_library() {
    for (s, pat, by) in [
        ("", "a", "b"),
        ("aaa", "aa", "b"),
        ("abcabc", "bc", ""),
        ("{{T}}{{T}", "{{T}}", "{{T}}"),
        ("x", "xyz", "w"),
        ("한글한", "한", "ha"),
    ] {
        assert_eq!(replace(s, pat, by), s.replace(pat, by));
    }
}

#[test]
fn search_and_comparison() {
    let cs = chars_of("a @startuml b");
    assert!(contains(&cs, &chars_of("@startuml")));
    assert!(contains(&cs, &[]) && contains(&[], &[]));
    assert!(!contains(&cs, &chars_of("@enduml")));
    assert!(starts_with_str(&cs, "a @") && !starts_with_str(&cs, "@"));
    assert!(same_str("x", "x") && !same_str("x", "xy") && !same_str("x", "y"));
    assert_eq!(join(&vec!["a".to_string(), "b".to_string(), "c".to_string()], ", "), "a, b, c");
    assert_eq!(join(&Vec::new(), ", "), "");
}

#[test]
fn numbers_agree_with_the_standard_library() {
    for n in [0u128, 9, 10, 65_536, u64::MAX as u128, u128::MAX] {
        assert_eq!(decimal_of(n), n.to_string());
    }
    for s in ["", "0", "007", "+5", "+", "++1", "-0", " 1", "1a", "18446744073709551615", "18446744073709551616", "٣"] {
        assert_eq!(parse_u64(s), s.parse::<u64>().ok(), "{s:?}");
    }
    let mut out = String::from("x");
    push_hex(&mut out, 0x1f, 4);
    assert_eq!(out, "x001F");
}

#[test]
fn byte_strings_are_ordered_and_kept_once() {
    assert!(le_bytes(b"", b"") && le_bytes(b"a", b"ab") && le_bytes(b"Z", b"a"));
    assert!(!le_bytes(b"b", b"ab") && !le_bytes(b"ab", b"a"));
    let mut v: Vec<Vec<u8>> = Vec::new();
    for s in ["b", "a/z", "a", "b", "a-z"] {
        insert_ascending(&mut v, s.as_bytes().to_vec());
    }
    assert_eq!(v, [b"a".to_vec(), b"a/z".to_vec(), b"a-z".to_vec(), b"b".to_vec()]);
    for (x, y) in [("a/z", "a-z"), ("a", "a/b"), ("a/b", "a/b/c"), ("a.md", "a/b"), ("B", "a")] {
        assert_eq!(
            le_paths(x.as_bytes(), y.as_bytes()),
            std::path::Path::new(x) <= std::path::Path::new(y),
            "{x} {y}"
        );
        assert_ne!(le_paths(x.as_bytes(), y.as_bytes()), le_paths(y.as_bytes(), x.as_bytes()));
    }
}

#[test]
fn bytes_as_text() {
    assert_eq!(utf8_string("한".as_bytes()).unwrap(), "한");
    assert_eq!(utf8_string(b"\xff"), None);
    assert_eq!(lossy_string(b"a\xff\xfeb"), "a\u{fffd}\u{fffd}b");
    assert_eq!(lossy_string("plain 한".as_bytes()), "plain 한");
}
