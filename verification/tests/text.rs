use cuda_lbm::text::{
    characters, decimal_text, parse_unsigned, replace_all, same_text, IntegerError,
};

#[test]
fn numerals_match_display() {
    for n in [0, 1, 9, 10, 11, 99, 100, 262144, 4294967295, u64::MAX] {
        assert_eq!(decimal_text(n), n.to_string());
    }
}

#[test]
fn numerals_read_back() {
    for n in [0, 7, 10, 65535, u64::MAX] {
        assert_eq!(parse_unsigned(&decimal_text(n), u64::MAX), Ok(n));
    }
}

#[test]
fn integers_are_parsed_like_the_standard_library_does() {
    for s in [
        "", "+", "-", "0", "00", "+0", "-0", "+5", "-5", "42", " 42", "42 ", "4_2", "0x10", "4.2",
        "4294967295", "4294967296", "42949672950", "9999999999a", "a9999999999", "++1", "+-1", "é",
        "１", "1é",
    ] {
        let expected: Result<u32, std::num::ParseIntError> = s.parse();
        let got = parse_unsigned(s, u32::MAX as u64);
        match expected {
            Ok(v) => assert_eq!(got, Ok(v as u64), "{s}"),
            Err(e) => {
                let kind = match e.kind() {
                    std::num::IntErrorKind::Empty => IntegerError::Empty,
                    std::num::IntErrorKind::InvalidDigit => IntegerError::InvalidDigit,
                    _ => IntegerError::Overflow,
                };
                assert_eq!(got, Err(kind), "{s}");
            }
        }
    }
    assert_eq!(parse_unsigned("18446744073709551615", u64::MAX), Ok(u64::MAX));
    assert_eq!(parse_unsigned("18446744073709551616", u64::MAX), Err(IntegerError::Overflow));
}

#[test]
fn replacement_matches_the_standard_library() {
    for (s, token, value) in [
        ("", "a", "b"),
        ("aaa", "aa", "b"),
        ("a{{N}}b{{N}}", "{{N}}", "64"),
        ("{{{N}}}", "{{N}}", "1"),
        ("{{N}", "{{N}}", "1"),
        ("äöä", "ä", "x"),
        ("abc", "abcd", "x"),
        ("abc", "abc", ""),
        ("aXaX", "X", "aX"),
    ] {
        assert_eq!(replace_all(s, token, value), s.replace(token, value), "{s} {token}");
    }
}

#[test]
fn texts_are_compared_by_their_characters() {
    assert!(same_text("--n", "--n"));
    assert!(!same_text("--n", "--N"));
    assert!(!same_text("--n", "--nn"));
    assert!(same_text("", ""));
    assert_eq!(characters("aé{"), vec!['a', 'é', '{']);
}
