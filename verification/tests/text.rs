use graph_metrics::text::{is_whitespace, parse_tokens};

#[test]
fn tokens_are_parted_by_any_white_space() {
    assert_eq!(parse_tokens("1 2 3"), vec![Some(1), Some(2), Some(3)]);
    assert_eq!(parse_tokens("  10\t20\r\n"), vec![Some(10), Some(20)]);
    assert_eq!(parse_tokens("7\u{a0}8\u{3000}9\u{2003}10"), vec![Some(7), Some(8), Some(9), Some(10)]);
    assert_eq!(parse_tokens(""), vec![]);
    assert_eq!(parse_tokens(" \t "), vec![]);
}

#[test]
fn tokens_spell_numbers_as_the_standard_parser_does() {
    let tokens = [
        "0", "007", "+5", "+", "-5", "++5", "5+", "1_000", "12a", "a12", "١٢", "0x10", "1.5",
        "18446744073709551615", "18446744073709551616", "99999999999999999999999", "+0",
        "00000000000000000000000000000000000001",
    ];
    for token in tokens {
        assert_eq!(parse_tokens(token), vec![token.parse::<usize>().ok()]);
    }
}

#[test]
fn a_bad_token_does_not_spoil_the_next() {
    assert_eq!(parse_tokens("1 x 3"), vec![Some(1), None, Some(3)]);
    assert_eq!(parse_tokens("+ 4 5x +6"), vec![None, Some(4), None, Some(6)]);
    assert_eq!(parse_tokens("99999999999999999999 1"), vec![None, Some(1)]);
}

#[test]
fn white_space_is_what_the_standard_library_says() {
    for code in 0..0x3100u32 {
        if let Some(c) = char::from_u32(code) {
            assert_eq!(is_whitespace(c), c.is_whitespace());
        }
    }
    assert!(!is_whitespace('\u{feff}'));
    assert!(!is_whitespace('\u{200b}'));
}

#[test]
fn tokens_agree_with_splitting_and_parsing() {
    let lines = ["12 34\t56", " +1  -2 3a ", "\u{2028}5\u{85}6", "18446744073709551615 18446744073709551616"];
    for line in lines {
        let expected: Vec<Option<usize>> =
            line.split_whitespace().map(|token| token.parse().ok()).collect();
        assert_eq!(parse_tokens(line), expected);
    }
}
