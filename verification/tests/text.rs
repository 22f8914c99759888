use cquill::text::{
    char_is_whitespace, chars_of, decimal_of, find_char, parse_u8_chars, same_chars, slice,
    split_chars, string_of, trim_chars, trim_matches_chars,
};

fn chars(s: &str) -> Vec<char> {
    s.chars().collect()
}

fn text(v: &Vec<char>) -> String {
    v.iter().collect()
}

#[test]
fn chars_and_strings_convert_both_ways() {
    for s in ["", "a", "héllo wörld", "日本語", "a\u{10FFFF}b"] {
        assert_eq!(chars_of(s), chars(s));
        assert_eq!(string_of(&chars(s)), s);
    }
}

#[test]
fn whitespace_is_the_unicode_white_space_set() {
    for code in 0..=0x10FFFFu32 {
        if let Some(c) = char::from_u32(code) {
            assert_eq!(char_is_whitespace(c), c.is_whitespace(), "{code:x}");
        }
    }
}

#[test]
fn trim_removes_whitespace_at_both_ends_only() {
    for s in ["", " ", "  a  ", "a", "\t\na b\r\n", "\u{2003}x\u{85}", "a  ", "  a", " \u{200B} "] {
        assert_eq!(text(&trim_chars(&chars(s))), s.trim(), "{s:?}");
    }
}

#[test]
fn trim_matches_removes_runs_of_the_character() {
    for (s, q) in [("''a''", '\''), ("'a", '\''), ("a'", '\''), ("'", '\''), ("''", '\''), ("a'b", '\''), ("\"'a'\"", '"'), ("", 'x'), ("xxaxbxx", 'x')] {
        assert_eq!(text(&trim_matches_chars(&chars(s), q)), s.trim_matches(q), "{s:?}");
    }
}

#[test]
fn find_gives_the_first_position() {
    assert_eq!(find_char(&chars("a:b:c"), ':'), Some(1));
    assert_eq!(find_char(&chars(":"), ':'), Some(0));
    assert_eq!(find_char(&chars("abc"), ':'), None);
    assert_eq!(find_char(&chars(""), ':'), None);
    assert_eq!(find_char(&chars("é:"), ':'), Some(1));
}

#[test]
fn split_gives_one_piece_more_than_separators() {
    for s in ["", ",", "a", "a,b", "a,,b", ",a,", ",,", "a, b ,c"] {
        let expected: Vec<Vec<char>> = s.split(',').map(chars).collect();
        assert_eq!(split_chars(&chars(s), ','), expected, "{s:?}");
    }
}

#[test]
fn slice_copies_a_range() {
    let v = chars("abcdef");
    assert_eq!(text(&slice(&v, 0, 6)), "abcdef");
    assert_eq!(text(&slice(&v, 2, 4)), "cd");
    assert_eq!(text(&slice(&v, 3, 3)), "");
}

#[test]
fn same_chars_compares_contents() {
    assert!(same_chars(&chars(""), &chars("")));
    assert!(same_chars(&chars("abc"), &chars("abc")));
    assert!(!same_chars(&chars("abc"), &chars("abd")));
    assert!(!same_chars(&chars("abc"), &chars("ab")));
}

#[test]
fn parse_u8_reads_what_the_standard_parser_reads() {
    for n in 0..=300u32 {
        for s in [n.to_string(), format!("+{n}"), format!("0{n}"), format!("-{n}"), format!(" {n}"), format!("{n} ")] {
            assert_eq!(parse_u8_chars(&chars(&s)), s.parse::<u8>().ok(), "{s:?}");
        }
    }
    for s in ["", "+", "-", "++1", "+-1", "1+", "a", "1a", "٣", "１", "1_0", "0x1", "255", "256", "000", "00000000000000000000000000000255", "00000000000000000000000000000256", "4294967296", "18446744073709551616"] {
        assert_eq!(parse_u8_chars(&chars(s)), s.parse::<u8>().ok(), "{s:?}");
    }
}

#[test]
fn decimal_writes_numbers_without_leading_zeros() {
    for n in [0u64, 1, 9, 10, 11, 99, 100, 255, 256, 1000, 4294967295, 4294967296, u64::MAX] {
        assert_eq!(text(&decimal_of(n)), n.to_string());
    }
    assert_eq!(text(&decimal_of(u64::MAX)), "18446744073709551615");
}
