use shark::text::{chars_of, equals, is_whitespace, parse_u16, push_decimal, split_whitespace};

fn parse(s: &str) -> Option<u16> {
    parse_u16(&chars_of(s))
}

#[test]
fn numbers_are_read() {
    assert_eq!(parse("0"), Some(0));
    assert_eq!(parse("65535"), Some(65535));
    assert_eq!(parse("0000000000065535"), Some(65535));
    assert_eq!(parse("+12"), Some(12));
    for bad in ["", "+", "-1", "65536", "1.5", " 1", "1 ", "++1", "\u{661}"] {
        assert_eq!(parse(bad), None, "{bad}");
        assert!(bad.parse::<u16>().is_err());
    }
}

#[test]
fn numbers_are_written() {
    for n in [0u64, 7, 10, 99, 100, 65535, u64::MAX] {
        let mut s = String::from("n=");
        push_decimal(&mut s, n);
        assert_eq!(s, format!("n={n}"));
    }
}

#[test]
fn white_space_is_that_of_unicode() {
    for c in '\0'..=char::MAX {
        assert_eq!(is_whitespace(c), c.is_whitespace(), "{c:?}");
    }
}

#[test]
fn texts_split_into_words() {
    for s in ["", "  ", "a", " a b ", "one\ttwo\n three", "x\u{a0}y"] {
        let words: Vec<String> = split_whitespace(&chars_of(s))
            .iter()
            .map(|w| w.iter().collect())
            .collect();
        let expected: Vec<String> = s.split_whitespace().map(|w| w.to_string()).collect();
        assert_eq!(words, expected);
    }
}

#[test]
fn characters_compare_with_text() {
    assert!(equals(&chars_of("abc"), "abc"));
    assert!(!equals(&chars_of("abc"), "abd"));
    assert!(!equals(&chars_of("abc"), "ab"));
}
