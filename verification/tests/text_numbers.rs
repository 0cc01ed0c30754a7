use phire::text::{is_float_token, parse_i32, parse_u32, parse_usize, split_lines, split_tokens, string_from_chars};
use phire::numerals::{int_to_chinese, int_to_roman, integer_to_chinese};

fn chars(s: &str) -> Vec<char> {
    s.chars().collect()
}

#[test]
fn float_tokens_follow_the_std_grammar() {
    for ok in ["1", "1.", ".5", "1.5", "1e5", "1E-5", "2.5e+3", "+inf", "-Infinity", "NaN", "iNf", "-0", "007"] {
        assert!(is_float_token(&chars(ok)), "{ok} should read");
        assert!(ok.parse::<f64>().is_ok(), "{ok} should parse with std");
    }
    for bad in ["", ".", "e5", "1e", "1e+", "1.2.3", "nan1", "--1", "1x", "in", "+", "0x10", " 1"] {
        assert!(!is_float_token(&chars(bad)), "{bad} should not read");
        assert!(bad.parse::<f64>().is_err(), "{bad} should not parse with std");
    }
}

#[test]
fn integer_parsers_match_std() {
    assert_eq!(parse_usize(&chars("42")), Some(42));
    assert_eq!(parse_usize(&chars("+7")), Some(7));
    assert_eq!(parse_usize(&chars("-1")), None);
    assert_eq!(parse_usize(&chars("")), None);
    assert_eq!(parse_u32(&chars("4294967295")), Some(u32::MAX));
    assert_eq!(parse_u32(&chars("4294967296")), None);
    assert_eq!(parse_i32(&chars("-2147483648")), Some(i32::MIN));
    assert_eq!(parse_i32(&chars("2147483648")), None);
    assert_eq!(parse_i32(&chars("-")), None);
}

#[test]
fn lines_and_tokens_split_like_std() {
    let src = "a b\r\n\n  c\td  \nlast";
    let ls: Vec<String> = split_lines(&chars(src)).iter().map(|l| l.iter().collect()).collect();
    let expected: Vec<String> = src.lines().map(|l| l.to_string()).collect();
    assert_eq!(ls, expected);
    let ts: Vec<String> = split_tokens(&chars("  c\td  x")).iter().map(|t| t.iter().collect()).collect();
    assert_eq!(ts, vec!["c", "d", "x"]);
    assert_eq!(string_from_chars(&chars("héllo")), "héllo");
}

#[test]
fn roman_numerals() {
    assert_eq!(int_to_roman(0), "-");
    assert_eq!(int_to_roman(1), "I");
    assert_eq!(int_to_roman(4), "IV");
    assert_eq!(int_to_roman(1994), "MCMXCIV");
    assert_eq!(int_to_roman(3999), "MMMCMXCIX");
    assert_eq!(int_to_roman(10000), "X￣");
    assert_eq!(int_to_roman(1234567), "M￣C￣C￣X￣X￣X￣MMMMDLXVII");
}

#[test]
fn chinese_numerals_of_the_crate() {
    assert_eq!(int_to_chinese(0), "零");
    assert_eq!(int_to_chinese(10), "十");
    assert_eq!(int_to_chinese(12345), "一万二千三百四十五");
    assert_eq!(int_to_chinese(10001), "一万零一");
}

#[test]
fn chinese_whole_parts() {
    assert_eq!(integer_to_chinese(0), "零");
    assert_eq!(integer_to_chinese(7), "七");
    assert_eq!(integer_to_chinese(10), "十");
    assert_eq!(integer_to_chinese(15), "十五");
    assert_eq!(integer_to_chinese(105), "一百零五");
    assert_eq!(integer_to_chinese(1000), "一千");
    assert_eq!(integer_to_chinese(1001), "一千零一");
    assert_eq!(integer_to_chinese(110000), "十万一万");
    assert_eq!(integer_to_chinese(999999999), "九亿九千万九百万九十万九万九千九百九十九");
}
