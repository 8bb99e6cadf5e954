use dustpan::encode::{base64_text, code_point, utf16_bytes};
use dustpan::glob::wildcard_match;
use dustpan::json::json_escape;
use dustpan::number::{
    align_left, align_right, decimal_of, parse_u64, parse_usize, signed_decimal_of, zero_pad,
};
use dustpan::text::{
    chars_of, find, join, lines, lower_of, space, split_char, string_of, trim_str, words,
};

#[test]
fn wildcard_basics() {
    assert!(wildcard_match("thumbcache_*.db", "thumbcache_1024.db"));
    assert!(wildcard_match("thumbcache_*.db", "THUMBCACHE_idx.DB"));
    assert!(!wildcard_match("thumbcache_*.db", "iconcache_1024.db"));
    assert!(wildcard_match("*", "anything"));
    assert!(wildcard_match("a*b*c", "aXXbYYc"));
    assert!(!wildcard_match("a*b", "a"));
    assert!(wildcard_match("*cache*", "MyCacheDir"));
}

#[test]
fn wildcard_corners() {
    assert!(wildcard_match("", ""));
    assert!(!wildcard_match("", "x"));
    assert!(wildcard_match("*", ""));
    assert!(wildcard_match("**", ""));
    assert!(wildcard_match("a*", "a*b"));
    assert!(wildcard_match("*a", "*ba"));
    assert!(wildcard_match("a*bc", "abbcbc"));
    assert!(!wildcard_match("a*bc", "abbcb"));
    assert!(wildcard_match("ÄRGER*", "ärgerlich"));
    assert!(!wildcard_match("plain", "plainer"));
}

#[test]
fn json_escaping() {
    assert_eq!(json_escape("a\"b\\c"), "a\\\"b\\\\c");
    assert_eq!(json_escape("tab\there"), "tab\\u0009here");
}

#[test]
fn json_escapes_every_control_character() {
    assert_eq!(json_escape("\u{0}\n\r\u{1f}"), "\\u0000\\u000a\\u000d\\u001f");
    assert_eq!(json_escape("上 / é \u{7f}"), "上 / é \u{7f}");
}

#[test]
fn white_space_is_what_the_language_says() {
    for n in 0..0x110000u32 {
        if let Some(c) = char::from_u32(n) {
            assert_eq!(space(c), c.is_whitespace(), "U+{:04X}", n);
        }
    }
}

#[test]
fn trimming_and_splitting() {
    assert_eq!(string_of(&trim_str("\u{3000} a b \t")), "a b");
    assert_eq!(string_of(&trim_str("   ")), "");
    let pieces = split_char(&chars_of("a,,b,"), ',');
    let pieces: Vec<String> = pieces.iter().map(|p| string_of(p)).collect();
    assert_eq!(pieces, "a,,b,".split(',').collect::<Vec<&str>>());
    let found: Vec<String> = words(&chars_of("  one\ttwo  three ")).iter().map(|w| string_of(w)).collect();
    assert_eq!(found, vec!["one", "two", "three"]);
    for s in ["", "a", "a\n", "a\r\nb\n\nc\r", "\n\n", "\r\n", "a\rb"] {
        let ours: Vec<String> = lines(&chars_of(s)).iter().map(|l| string_of(l)).collect();
        assert_eq!(ours, s.lines().collect::<Vec<&str>>());
    }
    assert_eq!(join(&vec!["a".to_string(), "b".to_string()], ", "), "a, b");
    assert_eq!(join(&vec![], ", "), "");
}

#[test]
fn searching() {
    assert_eq!(find(&chars_of("abcabc"), &chars_of("ca")), Some(2));
    assert_eq!(find(&chars_of("abc"), &chars_of("")), Some(0));
    assert_eq!(find(&chars_of("ab"), &chars_of("abc")), None);
}

#[test]
fn lower_case_goes_beyond_ascii() {
    assert_eq!(string_of(&lower_of("ÀÉÎ ΣΑΣ İ")), "ÀÉÎ ΣΑΣ İ".to_lowercase());
}

#[test]
fn numbers_as_text() {
    assert_eq!(decimal_of(0), "0");
    assert_eq!(decimal_of(u64::MAX), u64::MAX.to_string());
    assert_eq!(signed_decimal_of(i32::MIN), i32::MIN.to_string());
    assert_eq!(signed_decimal_of(-1), "-1");
    assert_eq!(signed_decimal_of(42), "42");
    assert_eq!(zero_pad(7, 2), "07");
    assert_eq!(zero_pad(2024, 2), "2024");
    assert_eq!(align_left("ab", 4), "ab  ");
    assert_eq!(align_right("ab", 4), "  ab");
    assert_eq!(align_right("abcde", 4), "abcde");
}

#[test]
fn numbers_read_as_the_language_reads_them() {
    for s in [
        "", "0", "+0", "+", "-1", "007", "12a", " 1", "18446744073709551615",
        "18446744073709551616", "+18446744073709551615", "99999999999999999999999", "１",
    ] {
        assert_eq!(parse_u64(&chars_of(s)), s.parse::<u64>().ok(), "{:?}", s);
        assert_eq!(parse_usize(&chars_of(s)), s.parse::<usize>().ok(), "{:?}", s);
    }
}

#[test]
fn numbers_read_back() {
    for n in [0u64, 1, 9, 10, 99, 100, 4294967296, u64::MAX] {
        assert_eq!(parse_u64(&chars_of(&decimal_of(n))), Some(n));
    }
}

#[test]
fn wide_text_in_bytes() {
    let text = "A上😀";
    let mut expected: Vec<u8> = Vec::new();
    for unit in text.encode_utf16() {
        expected.extend_from_slice(&unit.to_le_bytes());
    }
    assert_eq!(utf16_bytes(&chars_of(text)), expected);
    assert_eq!(code_point('😀'), 0x1F600);
}

#[test]
fn base64_of_known_inputs() {
    let encode = |s: &str| string_of(&base64_text(s.as_bytes()));
    assert_eq!(encode(""), "");
    assert_eq!(encode("f"), "Zg==");
    assert_eq!(encode("fo"), "Zm8=");
    assert_eq!(encode("foo"), "Zm9v");
    assert_eq!(encode("foobar"), "Zm9vYmFy");
    assert_eq!(string_of(&base64_text(&[0xfb, 0xff, 0xfe])), "+//+");
}
