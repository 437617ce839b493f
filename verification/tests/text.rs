use ollamux::text::{
    contains, digits_only, digits_value, find, lowercase, parse_unsigned, rfind, same, split,
    starts_with, strip_leading, strip_trailing, to_base, to_decimal, trim, white,
};

#[test]
fn white_space_is_unicode_white_space() {
    for c in (0..=0x10ffff).filter_map(char::from_u32) {
        assert_eq!(white(c), c.is_whitespace(), "{c:?}");
    }
}

#[test]
fn trimming() {
    for s in ["", "  ", "a", " a b\t", "\u{3000}é\u{85}\n", "x\u{200b} "] {
        assert_eq!(trim(s), s.trim(), "{s:?}");
    }
    for s in ["", "/", "//", "//a/b//", "a"] {
        assert_eq!(strip_leading(s, '/'), s.trim_start_matches('/'), "{s:?}");
        assert_eq!(strip_trailing(s, '/'), s.trim_end_matches('/'), "{s:?}");
    }
}

#[test]
fn searching() {
    assert_eq!(find("aéb=c=", '='), Some(3));
    assert_eq!(rfind("aéb=c=", '='), Some(5));
    assert_eq!(find("abc", '='), None);
    assert_eq!(rfind("", '='), None);
    for (s, needle) in [("", ""), ("abc", ""), ("abc", "bc"), ("abc", "cb"), ("ab", "abc")] {
        assert_eq!(contains(s, needle), s.contains(needle), "{s:?} {needle:?}");
        assert_eq!(starts_with(s, needle), s.starts_with(needle), "{s:?} {needle:?}");
        assert_eq!(same(s, needle), s == needle);
    }
    for s in ["", "&", "a&b", "&&a", "é&ü&"] {
        let expected: Vec<String> = s.split('&').map(str::to_string).collect();
        assert_eq!(split(s, '&'), expected, "{s:?}");
    }
}

#[test]
fn numbers() {
    for s in ["", "+", "0", "+7", "007", "-1", "12a", "18446744073709551615", "18446744073709551616", "١"] {
        assert_eq!(parse_unsigned(s, u64::MAX), s.parse::<u64>().ok(), "{s:?}");
        assert_eq!(
            parse_unsigned(s, u32::MAX as u64),
            s.parse::<u32>().ok().map(u64::from),
            "{s:?}"
        );
    }
    assert!(digits_only(""));
    assert!(digits_only("0123456789"));
    assert!(!digits_only("1 2"));
    assert_eq!(digits_value("4294967295", u32::MAX as u64), Some(4294967295));
    assert_eq!(digits_value("4294967296", u32::MAX as u64), None);
    for n in [0, 7, 10, 15, 16, 255, 0o644, 4096, u64::MAX] {
        assert_eq!(to_decimal(n), format!("{n}"));
        assert_eq!(to_base(n, 16), format!("{n:x}"));
        assert_eq!(to_base(n, 8), format!("{n:o}"));
        assert_eq!(to_base(n, 2), format!("{n:b}"));
    }
}

#[test]
fn letter_case() {
    for s in ["", "Content-LENGTH", "ÄÖÜ az AZ @[`{"] {
        assert_eq!(lowercase(s), s.to_ascii_lowercase());
    }
}
