use opencrab::bignat::BigNat;
use opencrab::bignat::Sign;
use opencrab::text::contains;
use opencrab::text::ends_with;
use opencrab::text::find;
use opencrab::text::i64_text;
use opencrab::text::join;
use opencrab::text::parse_i64;
use opencrab::text::parse_natural;
use opencrab::text::rfind_char;
use opencrab::text::show_list;
use opencrab::text::starts_with;
use opencrab::text::strip_prefix;
use opencrab::text::strip_suffix;
use opencrab::text::to_ascii_lowercase;
use opencrab::text::trim;
use opencrab::text::trim_end_char;
use opencrab::text::trim_start_breaks;
use opencrab::text::u128_text;
use opencrab::text::u64_text;
use opencrab::text::white_space;

#[test]
fn white_space_is_what_the_standard_library_says() {
    for n in 0..=0x3100u32 {
        if let Some(c) = char::from_u32(n) {
            assert_eq!(white_space(c), c.is_whitespace(), "{n:x}");
        }
    }
}

#[test]
fn trimming_agrees_with_the_standard_library() {
    for s in ["", " ", "a", " a b\n", "\u{3000}字\u{85}", "\r\n\tx"] {
        assert_eq!(trim(s), s.trim());
    }
    assert_eq!(trim_end_char("a//", '/'), "a");
    assert_eq!(trim_start_breaks("\r\n\n x"), " x");
}

#[test]
fn patterns_are_found_by_characters() {
    assert_eq!(find("字abc", "abc"), Some(1));
    assert_eq!(find("aab", "ab"), Some(1));
    assert_eq!(find("abc", ""), Some(0));
    assert_eq!(find("abc", "d"), None);
    assert!(contains("xyz", "y") && !contains("xyz", "Y"));
    assert_eq!(rfind_char("a]b]c", ']'), Some(3));
    assert_eq!(rfind_char("abc", ']'), None);
    assert!(starts_with("abc", "ab") && ends_with("abc", "bc"));
    assert_eq!(strip_prefix("abc", "ab"), Some("c"));
    assert_eq!(strip_suffix("abc", "x"), None);
    assert_eq!(to_ascii_lowercase("AbÄ"), "abÄ");
}

#[test]
fn numbers_are_read_and_written() {
    assert_eq!(parse_natural("18446744073709551615", u64::MAX), Some(u64::MAX));
    assert_eq!(parse_natural("18446744073709551616", u64::MAX), None);
    assert_eq!(parse_natural("+7", 9), Some(7));
    assert_eq!(parse_natural("10", 9), None);
    assert_eq!(parse_natural("-0", 9), None);
    assert_eq!(parse_natural("", 9), None);
    for s in ["0", "-0", "+5", "-9223372036854775808", "9223372036854775808", "", "-", "x1", "１"] {
        assert_eq!(parse_i64(s), s.parse::<i64>().ok(), "{s}");
    }
    assert_eq!(i64_text(i64::MIN), i64::MIN.to_string());
    assert_eq!(u64_text(u64::MAX), u64::MAX.to_string());
    assert_eq!(u128_text(u128::MAX), u128::MAX.to_string());
    assert_eq!(u64_text(0), "0");
}

#[test]
fn lists_are_joined_and_shown() {
    let list = vec!["a\"b".to_string(), "c\n".to_string()];
    assert_eq!(join(&list, "-"), "a\"b-c\n");
    assert_eq!(join(&vec![], "-"), "");
    assert_eq!(show_list(&list), format!("{list:?}"));
    assert_eq!(show_list(&vec![]), "[]");
}

#[test]
fn large_naturals_are_added_multiplied_and_weighed() {
    let mut n = BigNat::one();
    for _ in 0..40 {
        n = n.times(u64::MAX as u128);
    }
    let twice = n.plus(&n);
    assert!(matches!(twice.against(&n), Sign::More));
    assert!(matches!(n.against(&twice), Sign::Less));
    assert!(matches!(n.times(2).against(&twice), Sign::Same));
    assert!(matches!(n.times(0).against(&BigNat::zero()), Sign::Same));
}
