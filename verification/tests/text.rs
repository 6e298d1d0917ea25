use bytecode::text::{
    chars_of, contains_chars, is_whitespace, parse_i64_chars, parse_usize_chars, split_chars,
    trim_chars,
};

fn chars(s: &str) -> Vec<char> {
    s.chars().collect()
}

#[test]
fn whitespace_is_unicode_white_space() {
    for c in [' ', '\t', '\n', '\r', '\u{0B}', '\u{0C}', '\u{85}', '\u{A0}', '\u{2003}', '\u{3000}'] {
        assert!(is_whitespace(c));
        assert!(c.is_whitespace());
    }
    for c in ['a', '0', '\u{200B}', '_'] {
        assert!(!is_whitespace(c));
        assert!(!c.is_whitespace());
    }
}

#[test]
fn trimming_and_splitting() {
    assert_eq!(trim_chars(&chars(" \t ab c \r")), chars("ab c"));
    assert_eq!(trim_chars(&chars("   ")), chars(""));
    assert_eq!(
        split_chars(&chars("a  b"), ' '),
        vec![chars("a"), chars(""), chars("b")]
    );
    assert_eq!(split_chars(&chars(""), ' '), vec![chars("")]);
    assert_eq!(chars_of("héllo"), chars("héllo"));
}

#[test]
fn infix_search() {
    assert!(contains_chars(&chars("XLOAD_VALY"), &chars("LOAD_VAL")));
    assert!(!contains_chars(&chars("LOAD_VA"), &chars("LOAD_VAL")));
    assert!(contains_chars(&chars("abc"), &chars("")));
}

#[test]
fn numerals_parse_as_std_does() {
    for s in ["0", "+12", "-12", "007", "-9223372036854775808", "9223372036854775807", "9223372036854775808", "", "+", "-", "1a", "--1", "+-1", " 1", "١"] {
        assert_eq!(parse_i64_chars(&chars(s)), s.parse::<i64>().ok(), "i64 {:?}", s);
        assert_eq!(parse_usize_chars(&chars(s)), s.parse::<usize>().ok(), "usize {:?}", s);
    }
    let big = "18446744073709551616";
    assert_eq!(parse_usize_chars(&chars(big)), big.parse::<usize>().ok());
    let max = "18446744073709551615";
    assert_eq!(parse_usize_chars(&chars(max)), max.parse::<usize>().ok());
}
