use litprog::text::{classify, contains_line, is_whitespace, trim, trim_bounds, LineKind};

fn check_trim(s: &str) {
    assert_eq!(trim(s), s.trim().to_string(), "trimming {:?}", s);
}

#[test]
fn trim_agrees_with_std_on_ascii() {
    check_trim("");
    check_trim(" ");
    check_trim("   \t  ");
    check_trim("abc");
    check_trim("  abc");
    check_trim("abc  ");
    check_trim("\t abc def \r");
    check_trim(" a ");
    check_trim("\u{0B}\u{0C}x\u{0B}");
}

#[test]
fn trim_agrees_with_std_on_unicode_spaces() {
    check_trim("\u{00A0}x\u{00A0}");
    check_trim("\u{3000}chunk\u{2003}");
    check_trim("\u{1680}\u{2028}\u{2029}\u{202F}\u{205F}y\u{0085}");
    check_trim("\u{200B}z\u{200B}");
    check_trim("\u{FEFF}w");
    check_trim("é  ");
}

#[test]
fn whitespace_agrees_with_std_on_every_char_below_0x3100() {
    let mut u: u32 = 0;
    while u < 0x3100 {
        if let Some(c) = char::from_u32(u) {
            assert_eq!(is_whitespace(c), c.is_whitespace(), "U+{:04X}", u);
        }
        u += 1;
    }
}

#[test]
fn trim_bounds_count_characters() {
    assert_eq!(trim_bounds("  ab "), (2, 4));
    assert_eq!(trim_bounds("    "), (4, 4));
    assert_eq!(trim_bounds(""), (0, 0));
    assert_eq!(trim_bounds(" é "), (1, 2));
}

#[test]
fn classify_recognises_opener() {
    assert_eq!(classify("<<main.rs>>="), LineKind::Opener("main.rs".to_string()));
    assert_eq!(classify("   <<a b>>=  "), LineKind::Opener("a b".to_string()));
    assert_eq!(classify("<<>>="), LineKind::Opener(String::new()));
}

#[test]
fn classify_recognises_close() {
    assert_eq!(classify("@"), LineKind::Close);
    assert_eq!(classify("  @\t"), LineKind::Close);
    assert_eq!(classify("@@"), LineKind::Text);
}

#[test]
fn classify_recognises_reference_with_indent() {
    assert_eq!(
        classify("    <<body>>"),
        LineKind::Reference("body".to_string(), "    ".to_string())
    );
    assert_eq!(classify("<<body>>"), LineKind::Reference("body".to_string(), String::new()));
    assert_eq!(
        classify("\t <<x>>  "),
        LineKind::Reference("x".to_string(), "\t ".to_string())
    );
    assert_eq!(classify("<<>>"), LineKind::Reference(String::new(), String::new()));
}

#[test]
fn classify_leaves_other_lines_as_text() {
    assert_eq!(classify(""), LineKind::Text);
    assert_eq!(classify("fn main() {"), LineKind::Text);
    assert_eq!(classify("<<"), LineKind::Text);
    assert_eq!(classify("<<>"), LineKind::Text);
    assert_eq!(classify("<>>="), LineKind::Text);
    assert_eq!(classify("x <<a>>"), LineKind::Text);
    assert_eq!(classify("<<a>> y"), LineKind::Text);
    assert_eq!(classify("<<a>>=="), LineKind::Text);
}

#[test]
fn contains_line_finds_equal_strings_only() {
    let v = vec!["a".to_string(), "bc".to_string()];
    assert!(contains_line(&v, "bc"));
    assert!(contains_line(&v, "a"));
    assert!(!contains_line(&v, "b"));
    assert!(!contains_line(&Vec::new(), ""));
}
