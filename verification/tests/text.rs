use certik::text::{
    bytes_of, chars_of, contains, dec_i64, dec_u64, find_any, find_from, hex, is_white_space, join,
    lines_of, pad_left, pad_right, repeat, slice_of, starts_with, str_eq,
    strip_prefix, strip_suffix, trim, trim_end, trim_end_matches, trim_start_matches,
};

#[test]
fn white_space_is_unicode_white_space() {
    for n in 0..=0x10ffff_u32 {
        if let Some(c) = char::from_u32(n) {
            assert_eq!(is_white_space(c), c.is_whitespace(), "{n:x}");
        }
    }
}

#[test]
fn trimming() {
    for s in ["", " ", "a", " a b\t\n", "\u{a0}x\u{3000}", "x\u{200b}", "\u{feff} x"] {
        assert_eq!(trim(s), s.trim());
        assert_eq!(trim_end(s), s.trim_end());
    }
    for s in ["GMTGMT", "xGMT", "GMTx", "", "MT"] {
        assert_eq!(trim_end_matches(s, "GMT"), s.trim_end_matches("GMT"));
        assert_eq!(trim_start_matches(s, "GMT"), s.trim_start_matches("GMT"));
    }
}

#[test]
fn searching() {
    let s = chars_of("añbñb");
    assert_eq!(find_from(&s, &chars_of("ñb"), 0), Some(1));
    assert_eq!(find_from(&s, &chars_of("ñb"), 2), Some(3));
    assert_eq!(find_from(&s, &chars_of("ñb"), 4), None);
    assert_eq!(find_from(&s, &chars_of(""), 5), Some(5));
    assert_eq!(find_from(&s, &chars_of(""), 6), None);
    assert_eq!(find_any(&s, &chars_of("xb"), 0), Some(2));
    assert_eq!(find_any(&s, &chars_of("xb"), 3), Some(4));
    assert_eq!(find_any(&s, &chars_of(""), 0), None);
    assert!(contains("abc", "bc") && !contains("abc", "ac") && contains("", ""));
    assert!(starts_with("abc", "ab") && !starts_with("a", "ab"));
    assert_eq!(strip_prefix("abc", "ab").as_deref(), Some("c"));
    assert_eq!(strip_suffix("abc", "bc").as_deref(), Some("a"));
    assert_eq!(strip_suffix("abc", "ab"), None);
    assert!(str_eq("ab", "ab") && !str_eq("ab", "abc") && !str_eq("ab", "aB"));
}

#[test]
fn lines_as_in_std() {
    for s in ["", "\n", "a", "a\n", "a\r\nb", "a\rb\n\n", "\r\n\r", "x\n\ny\n"] {
        let expected: Vec<&str> = s.lines().collect();
        assert_eq!(lines_of(s), expected, "{s:?}");
    }
}

#[test]
fn numbers() {
    for n in [0, 7, 10, 99, 100, 12345, u64::MAX] {
        assert_eq!(dec_u64(n), n.to_string());
    }
    for n in [0, -1, 42, i64::MIN, i64::MAX] {
        assert_eq!(dec_i64(n), n.to_string());
    }
    assert_eq!(hex(&vec![0, 15, 16, 255]), "000f10ff");
}

#[test]
fn padding_and_joining() {
    assert_eq!(pad_right("é", 3), "é  ");
    assert_eq!(pad_right("abcd", 3), "abcd");
    assert_eq!(pad_left("7", 3), "  7");
    assert_eq!(repeat('=', 3), "===");
    let parts: Vec<String> = ["a", "", "c"].iter().map(|s| s.to_string()).collect();
    assert_eq!(join(&parts, ", "), "a, , c");
    assert_eq!(join(&vec![], ", "), "");
}

#[test]
fn bytes_and_characters() {
    let s = "aé€😀";
    assert_eq!(bytes_of(s), s.as_bytes());
    let cs = chars_of(s);
    assert_eq!(slice_of(&cs, 1, 3), "é€");
}
