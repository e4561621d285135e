use evfs::text;

fn names(list: &[&str]) -> Vec<String> {
    list.iter().map(|s| s.to_string()).collect()
}

#[test]
fn white_space_is_that_of_char() {
    for code in 0..=0x10ffff_u32 {
        if let Some(c) = char::from_u32(code) {
            assert_eq!(text::is_white_space(c), c.is_whitespace(), "{:x}", code);
        }
    }
}

#[test]
fn words_of_a_line() {
    let line = "-rw-rw-r--    1 1001       1001          5046034 May 25 16:00 allmods.zip";
    assert_eq!(
        text::split_whitespace(line),
        names(&["-rw-rw-r--", "1", "1001", "1001", "5046034", "May", "25", "16:00", "allmods.zip"])
    );
    assert_eq!(text::split_whitespace(""), names(&[]));
    assert_eq!(text::split_whitespace(" \t\u{3000} "), names(&[]));
    assert_eq!(text::split_whitespace("  a\u{a0}b\n"), names(&["a", "b"]));
    for s in ["", " ", "a", " a", "a ", "a b", "\u{85}x\u{2003}yz\r\n"] {
        let expected: Vec<String> = s.split_whitespace().map(|w| w.to_string()).collect();
        assert_eq!(text::split_whitespace(s), expected, "{:?}", s);
    }
}

#[test]
fn numbers_are_those_of_parse() {
    let most = usize::MAX.to_string();
    let more = format!("{}0", most);
    let texts = [
        "", "0", "7", "5046034", "+5", "+", "++5", "-1", "-0", "1x", " 1", "1 ", "007", "1_000", "\u{663}",
        most.as_str(), more.as_str(), "18446744073709551616", "+18446744073709551615",
    ];
    for t in texts {
        assert_eq!(text::parse_number(t), t.parse::<usize>().ok(), "{:?}", t);
    }
    assert_eq!(text::parse_number("5046034"), Some(5046034));
    assert_eq!(text::parse_number("4k"), None);
}

#[test]
fn characters_there_and_back() {
    let chars = text::chars_of("aß\u{1f600}/");
    assert_eq!(chars, vec!['a', 'ß', '\u{1f600}', '/']);
    assert_eq!(text::text_of(&chars, 0, 4), "aß\u{1f600}/");
    assert_eq!(text::text_of(&chars, 1, 3), "ß\u{1f600}");
    assert_eq!(text::text_of(&chars, 2, 2), "");
}

#[test]
fn finding_in_text() {
    let chars = text::chars_of("a/b/c");
    assert_eq!(text::find_char(&chars, 0, '/'), 1);
    assert_eq!(text::find_char(&chars, 2, '/'), 3);
    assert_eq!(text::find_char(&chars, 4, '/'), 5);
    assert!(text::starts_with(&chars, &text::chars_of("")));
    assert!(text::starts_with(&chars, &text::chars_of("a/b")));
    assert!(!text::starts_with(&chars, &text::chars_of("a/c")));
    assert!(!text::starts_with(&chars, &text::chars_of("a/b/c/")));
    assert!(text::contains_pair(&text::chars_of("http:/x"), ':', '/'));
    assert!(!text::contains_pair(&text::chars_of("c:x/:"), ':', '/'));
    assert!(!text::contains_pair(&text::chars_of(""), ':', '/'));
    assert_eq!(text::joined("ftp.a.org", ":21"), "ftp.a.org:21");
}
