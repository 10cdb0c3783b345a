//! Text and number handling.
use nlm::fmt::{fmt_hms, trim_trailing_zeros};
use nlm::order::{rank_text, Rank};
use nlm::text::{
    decimal, find, hex_u16, join_strings, parse_unsigned, repeated, same_any_case, split,
    split_list, trim, upper_ascii,
};

#[test]
fn hms_wraps_correctly() {
    assert_eq!(fmt_hms(0.0f64 as u64), "00:00:00");
    assert_eq!(fmt_hms(3661.0f64 as u64), "01:01:01");
    assert_eq!(fmt_hms((-5.0f64).max(0.0) as u64), "00:00:00");
    assert_eq!(fmt_hms(360_000), "100:00:00");
}

#[test]
fn trailing_zeros_go_but_for_two_decimals() {
    assert_eq!(trim_trailing_zeros("0.0100", 2), "0.01");
    assert_eq!(trim_trailing_zeros("1.000", 2), "1.00");
    assert_eq!(trim_trailing_zeros("0.5000", 2), "0.50");
    assert_eq!(trim_trailing_zeros("0.004119", 2), "0.004119");
    assert_eq!(trim_trailing_zeros("100", 2), "100");
    assert_eq!(trim_trailing_zeros("1.0", 2), "1.0");
    assert_eq!(trim_trailing_zeros("1.000", 0), "1.");
    assert_eq!(trim_trailing_zeros("\u{e9}.\u{e9}00", 2), "\u{e9}.\u{e9}");
    assert_eq!(trim_trailing_zeros("", 2), "");
}

/// The model's white space is exactly that of `char`.
#[test]
fn white_space_is_that_of_unicode() {
    for n in 0..=0x10FFFFu32 {
        if let Some(c) = char::from_u32(n) {
            let s = c.to_string();
            assert_eq!(trim(&s).is_empty(), c.is_whitespace(), "{n:x}");
        }
    }
    assert_eq!(trim("\u{3000} a b\t"), "a b");
}

/// Of ASCII texts, case mapping changes the ASCII letters and nothing else.
#[test]
fn case_mapping_of_ascii_is_plain() {
    for b in 0..128u8 {
        let c = (b as char).to_string();
        assert_eq!(c.to_uppercase(), upper_ascii(&c));
        assert_eq!(c.to_lowercase(), c.to_ascii_lowercase());
    }
    assert_eq!(upper_ascii("a\u{e9}Z"), "A\u{e9}Z");
}

#[test]
fn texts_compare_in_any_ascii_case() {
    assert!(same_any_case("Ethernet", "eTHERNET"));
    assert!(!same_any_case("\u{e9}", "\u{c9}"));
    assert!(!same_any_case("a", "ab"));
    for (a, b) in [("", ""), ("", "a"), ("a", ""), ("a", "b"), ("ab", "a"), ("\u{e9}", "z")] {
        let want = if a < b {
            Rank::Before
        } else if a == b {
            Rank::Same
        } else {
            Rank::After
        };
        assert_eq!(rank_text(a, b), want);
    }
}

#[test]
fn numbers_are_read_and_written() {
    assert_eq!(decimal(u64::MAX), "18446744073709551615");
    assert_eq!(hex_u16(0x00ab), "0x00AB");
    assert_eq!(parse_unsigned("+9223372036854775807", 10, i64::MAX as u64), Some(i64::MAX as u64));
    assert_eq!(parse_unsigned("9223372036854775808", 10, i64::MAX as u64), None);
    assert_eq!(parse_unsigned("18446744073709551616000", 10, u64::MAX - 1), None);
    assert_eq!(parse_unsigned("fF", 16, 255), Some(255));
    assert_eq!(parse_unsigned("", 10, 9), None);
    assert_eq!(parse_unsigned("+", 10, 9), None);
    assert_eq!(parse_unsigned("1 ", 10, 9), None);
}

#[test]
fn fields_rejoin() {
    for s in ["", ",", "a,b", "a,,b,", "\u{e9},x"] {
        let parts = split(s, ',');
        assert_eq!(parts.len(), s.matches(',').count() + 1);
        assert_eq!(join_strings(&parts, ","), s);
    }
    assert_eq!(split_list(" a ,, b"), vec!["a", "b"]);
    assert_eq!(repeated('-', 3), "---");
    assert_eq!(find("abcabc", "ca"), Some(2));
    assert_eq!(find("abc", "d"), None);
    assert_eq!(find("abc", ""), Some(0));
    assert_eq!(find("a", "ab"), None);
}
