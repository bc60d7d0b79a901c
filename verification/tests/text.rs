use hayday_planner::registry::{parse_u64, times_to_seconds};
use hayday_planner::parsers::TimeUnit;
use hayday_planner::text::{chars_of, decimal_string, is_multispace_char, is_whitespace, trim_bounds};

#[test]
fn is_whitespace_matches_char_is_whitespace() {
    for u in 0u32..0x11_0000 {
        if let Some(c) = char::from_u32(u) {
            assert_eq!(is_whitespace(c), c.is_whitespace(), "code point {:x}", u);
        }
    }
}

#[test]
fn multispace_is_space_tab_cr_lf() {
    assert!(is_multispace_char(' '));
    assert!(is_multispace_char('\t'));
    assert!(is_multispace_char('\r'));
    assert!(is_multispace_char('\n'));
    assert!(!is_multispace_char('\u{a0}'));
    assert!(!is_multispace_char('x'));
}

#[test]
fn decimal_string_matches_format() {
    for n in [0u64, 1, 9, 10, 11, 99, 100, 12345, 4_294_967_296, u64::MAX - 1, u64::MAX] {
        assert_eq!(decimal_string(n), format!("{}", n));
    }
}

#[test]
fn parse_u64_matches_str_parse() {
    let samples = [
        "", "0", "7", "+7", "++7", "-7", "007", " 7", "7 ", "18446744073709551615",
        "18446744073709551616", "99999999999999999999999", "1_000", "12a", "+", "٣",
    ];
    for s in samples {
        assert_eq!(parse_u64(s), s.parse::<u64>().ok(), "input {:?}", s);
    }
}

#[test]
fn parse_u64_reads_back_decimal_string() {
    for n in [0u64, 5, 10, 65535, u64::MAX] {
        assert_eq!(parse_u64(&decimal_string(n)), Some(n));
    }
}

#[test]
fn trim_bounds_match_str_trim() {
    let samples = ["", "   ", " a ", "\u{3000}Brown sugar\u{a0}", "x", "a b", "\n\tq\r\n"];
    for s in samples {
        let c = chars_of(s);
        let (a, b) = trim_bounds(&c, 0, c.len());
        let trimmed: String = c[a..b].iter().collect();
        assert_eq!(trimmed, s.trim(), "input {:?}", s);
    }
}

#[test]
fn times_add_up_in_seconds() {
    let t = vec![TimeUnit::Days(1), TimeUnit::Hours(2), TimeUnit::Minutes(3), TimeUnit::Seconds(4)];
    assert_eq!(times_to_seconds(t), 86_400 + 7_200 + 180 + 4);
    assert_eq!(times_to_seconds(vec![]), 0);
}
