use concept_graph::text::{
    decimal_text, find_text, is_whitespace, split, split_dependencies, trim,
};

fn strings(items: &[&str]) -> Vec<String> {
    items.iter().map(|s| s.to_string()).collect()
}

#[test]
fn whitespace_is_the_unicode_property() {
    for code in 0u32..0x3100 {
        if let Some(c) = char::from_u32(code) {
            assert_eq!(is_whitespace(c), c.is_whitespace(), "U+{:04X}", code);
        }
    }
    assert!(!is_whitespace('\u{feff}'));
    assert!(!is_whitespace('\u{200b}'));
}

#[test]
fn trim_drops_both_ends_only() {
    assert_eq!(trim("  a b \t\n"), "a b");
    assert_eq!(trim("a"), "a");
    assert_eq!(trim(""), "");
    assert_eq!(trim(" \t\r\n"), "");
    assert_eq!(trim("\u{3000}x\u{a0}"), "x");
    assert_eq!(trim("\u{2003}é ü\u{85}"), "é ü");
}

#[test]
fn trim_agrees_with_the_standard_library() {
    for s in [" x", "x ", " x y  z ", "\n\n", "\u{1680}q\u{205f}", "No\u{a0}Break", "\u{200b} z"] {
        assert_eq!(trim(s), s.trim());
    }
}

#[test]
fn split_keeps_empty_pieces() {
    assert_eq!(split("a;b;;c", ';'), strings(&["a", "b", "", "c"]));
    assert_eq!(split("", ';'), strings(&[""]));
    assert_eq!(split(";", ';'), strings(&["", ""]));
    assert_eq!(split("abc", ';'), strings(&["abc"]));
    assert_eq!(split(" a ; b", ';'), strings(&[" a ", " b"]));
    assert_eq!(split("é;ü;", ';'), strings(&["é", "ü", ""]));
}

#[test]
fn split_agrees_with_the_standard_library() {
    for s in ["", ";", ";;", "a;", ";a", "a;b;c", "one; two ;;three"] {
        let expected: Vec<String> = s.split(';').map(|t| t.to_string()).collect();
        assert_eq!(split(s, ';'), expected);
    }
}

#[test]
fn dependency_field_is_split_trimmed_and_cleaned() {
    assert_eq!(split_dependencies(" a ; b;; ;c "), strings(&["a", "b", "c"]));
    assert_eq!(split_dependencies(""), strings(&[]));
    assert_eq!(split_dependencies(" ; ;"), strings(&[]));
    assert_eq!(split_dependencies("binary search"), strings(&["binary search"]));
    assert_eq!(split_dependencies("a;a"), strings(&["a", "a"]));
}

#[test]
fn numbers_are_written_in_decimal() {
    assert_eq!(decimal_text(0), "0");
    assert_eq!(decimal_text(7), "7");
    assert_eq!(decimal_text(10), "10");
    assert_eq!(decimal_text(109), "109");
    assert_eq!(decimal_text(1234567890), "1234567890");
    assert_eq!(decimal_text(usize::MAX), usize::MAX.to_string());
}

#[test]
fn find_text_gives_the_first_place() {
    let list = strings(&["x", "y", "x", ""]);
    assert_eq!(find_text(&list, &"x".to_string()), Some(0));
    assert_eq!(find_text(&list, &"y".to_string()), Some(1));
    assert_eq!(find_text(&list, &"".to_string()), Some(3));
    assert_eq!(find_text(&list, &"z".to_string()), None);
    assert_eq!(find_text(&strings(&[]), &"x".to_string()), None);
}
