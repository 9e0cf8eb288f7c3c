use litelearn::text::{chars_of, contains_chars, parse_u16, parse_u32, parse_u64, push_decimal, string_of, trim_str};

fn chars(s: &str) -> Vec<char> {
    s.chars().collect()
}

#[test]
fn trim_removes_unicode_whitespace_at_both_ends() {
    assert_eq!(trim_str("  hello \t\n"), "hello");
    assert_eq!(trim_str("\u{3000}全角\u{3000}"), "全角");
    assert_eq!(trim_str("a b"), "a b");
    assert_eq!(trim_str("   "), "");
    assert_eq!(trim_str(""), "");
    assert_eq!(trim_str("\u{a0}x\u{2029}"), "x");
}

#[test]
fn trim_agrees_with_std() {
    let samples = ["", " ", " a ", "\u{85}b\u{85}", "\u{200b}c", "\u{1680}\u{2000}d\u{200a}", "e\u{202f}", "\u{205f}f"];
    for s in samples {
        assert_eq!(trim_str(s), s.trim(), "sample {:?}", s);
    }
}

#[test]
fn unsigned_parsing_follows_std() {
    let samples = ["0", "42", "+7", "-1", "", "+", "12a", " 1", "4294967295", "4294967296", "65535", "65536", "000123", "18446744073709551615", "18446744073709551616"];
    for s in samples {
        assert_eq!(parse_u64(&chars(s)), s.parse::<u64>().ok(), "u64 {:?}", s);
        assert_eq!(parse_u32(&chars(s)), s.parse::<u32>().ok(), "u32 {:?}", s);
        assert_eq!(parse_u16(&chars(s)), s.parse::<u16>().ok(), "u16 {:?}", s);
    }
}

#[test]
fn decimal_printing_matches_display() {
    for n in [0u128, 7, 10, 99, 100, 12345, u64::MAX as u128, u128::MAX] {
        let mut out = Vec::new();
        push_decimal(&mut out, n);
        assert_eq!(string_of(&out), n.to_string());
    }
}

#[test]
fn decimal_round_trips_through_parsing() {
    for n in [0u64, 1, 9, 10, 4242, u64::MAX] {
        let mut out = Vec::new();
        push_decimal(&mut out, n as u128);
        assert_eq!(parse_u64(&out), Some(n));
    }
}

#[test]
fn contains_finds_infixes() {
    assert!(contains_chars(&chars("ERROR 1062: Duplicate entry 'x'"), &chars("Duplicate entry")));
    assert!(!contains_chars(&chars("Duplicate entr"), &chars("Duplicate entry")));
    assert!(contains_chars(&chars("abc"), &chars("")));
    assert_eq!(chars_of("中文"), vec!['中', '文']);
}

#[test]
fn white_space_is_std_whitespace() {
    for n in 0u32..=0x10FFFF {
        if let Some(c) = char::from_u32(n) {
            assert_eq!(litelearn::text::white_space(c), c.is_whitespace(), "U+{:04X}", n);
        }
    }
}
