use smartclip::text::{
    chars_of, copy_all, decimal_text, eq_ignore_ascii_case, padded_text, parse_unsigned, same,
    signed_text, split_on, starts_with, trim, trim_end_matches,
};

const TEXTS: [&str; 12] = [
    "", "a", "A", "é", "É", "abc", "ABC", "a b", ".exe", "x.exe", "x.exe.exe", "été\u{a0}",
];

#[test]
fn comparisons_agree_with_the_standard_library() {
    for a in TEXTS {
        assert_eq!(chars_of(a), a.chars().collect::<Vec<char>>());
        for b in TEXTS {
            assert_eq!(same(a, b), a == b);
            assert_eq!(eq_ignore_ascii_case(a, b), a.eq_ignore_ascii_case(b));
            assert_eq!(starts_with(a, b), a.starts_with(b));
            if !b.is_empty() {
                assert_eq!(trim_end_matches(a, b), a.trim_end_matches(b));
            }
        }
    }
    assert_eq!(trim_end_matches("abc", ""), "abc");
}

#[test]
fn white_space_is_that_of_unicode() {
    for c in '\u{0}'..='\u{ffff}' {
        let text = format!("{c}x{c}");
        assert_eq!(trim(&text), text.trim(), "{:x}", c as u32);
    }
    assert_eq!(trim(" \t a b \r\n"), "a b");
    assert_eq!(trim("   "), "");
    assert_eq!(trim(""), "");
}

#[test]
fn numbers_are_written_as_the_standard_library_writes_them() {
    for n in [0, 9, 10, 99, 100, 123_456_789, u64::MAX] {
        assert_eq!(decimal_text(n), n.to_string());
        assert_eq!(padded_text(n, 6), format!("{n:06}"));
        assert_eq!(parse_unsigned(&decimal_text(n), u64::MAX), Some(n));
        assert_eq!(parse_unsigned(&padded_text(n, 30), u64::MAX), Some(n));
    }
    assert_eq!(padded_text(7, 0), "7");
    for n in [0, -1, 42, -42, i64::MIN, i64::MAX] {
        assert_eq!(signed_text(n), n.to_string());
    }
}

#[test]
fn numbers_are_read_as_the_standard_library_reads_them() {
    for text in [
        "", "+", "-", "0", "+0", "-0", "007", "12", "+12", "++1", "1 ", " 1", "1_000", "abc",
        "4294967295", "4294967296", "18446744073709551615", "18446744073709551616", "٣",
        "99999999999999999999999",
    ] {
        assert_eq!(parse_unsigned(text, u64::MAX), text.parse::<u64>().ok(), "{text}");
        assert_eq!(
            parse_unsigned(text, u32::MAX as u64),
            text.parse::<u32>().ok().map(u64::from),
            "{text}"
        );
    }
}

#[test]
fn texts_are_split_as_the_standard_library_splits_them() {
    for text in ["", ",", "a", "a,b", ",a,,b,", "é,è"] {
        let expected: Vec<&str> = text.split(',').collect();
        assert_eq!(split_on(text, ','), expected);
    }
    let texts = vec!["a".to_string(), "b".to_string()];
    assert_eq!(copy_all(&texts), texts);
}
