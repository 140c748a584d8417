use sequoia::term_line::{format_term_line, is_white_space_char, parse_term_line};

fn chars(s: &str) -> Vec<char> {
    s.chars().collect()
}

#[test]
fn parses_a_written_line() {
    assert_eq!(parse_term_line(&chars("10 60\n")), Some((10, 60)));
    assert_eq!(parse_term_line(&chars("1 1")), Some((1, 1)));
}

#[test]
fn ignores_surrounding_white_space() {
    assert_eq!(parse_term_line(&chars("  12\t83 \r\n")), Some((12, 83)));
    assert_eq!(parse_term_line(&chars("3\u{a0}\u{3000}9")), Some((3, 9)));
}

#[test]
fn needs_exactly_two_tokens() {
    assert_eq!(parse_term_line(&chars("")), None);
    assert_eq!(parse_term_line(&chars("\n")), None);
    assert_eq!(parse_term_line(&chars("   \t \n")), None);
    assert_eq!(parse_term_line(&chars("10\n")), None);
    assert_eq!(parse_term_line(&chars("10 60 7\n")), None);
}

#[test]
fn tokens_parse_as_usize() {
    assert_eq!(parse_term_line(&chars("+10 +60")), Some((10, 60)));
    assert_eq!(parse_term_line(&chars("007 0")), Some((7, 0)));
    assert_eq!(parse_term_line(&chars("+ 60")), None);
    assert_eq!(parse_term_line(&chars("++1 60")), None);
    assert_eq!(parse_term_line(&chars("-1 60")), None);
    assert_eq!(parse_term_line(&chars("1 6x")), None);
    assert_eq!(parse_term_line(&chars("1\u{200b}2 3")), None);
    assert_eq!(parse_term_line(&chars("1 \u{0661}")), None);
}

#[test]
fn token_overflow_is_rejected() {
    let max = usize::MAX.to_string();
    assert_eq!(parse_term_line(&chars(&format!("1 {max}"))), Some((1, usize::MAX)));
    let over = format!("{}0", max);
    assert_eq!(parse_term_line(&chars(&format!("1 {over}"))), None);
    let over_by_one = (usize::MAX as u128 + 1).to_string();
    assert_eq!(parse_term_line(&chars(&format!("{over_by_one} 1"))), None);
}

#[test]
fn agrees_with_std_parsing() {
    let samples = [
        "1 1", "2 2\n", " 3 3 ", "4 7 x", "5", "", "+5 8", "5 -8", "a b", "9\u{85}40",
        "9\u{2028}40\u{2029}", "10\u{1680}60", "0 0", "18446744073709551615 3",
    ];
    for s in samples {
        let expected = {
            let mut parts = s.trim_end().split_whitespace();
            match (parts.next(), parts.next(), parts.next()) {
                (Some(a), Some(b), None) => match (a.parse::<usize>(), b.parse::<usize>()) {
                    (Ok(a), Ok(b)) => Some((a, b)),
                    _ => None,
                },
                _ => None,
            }
        };
        assert_eq!(parse_term_line(&chars(s)), expected, "line {s:?}");
    }
}

#[test]
fn formats_like_display() {
    let line: String = format_term_line(10, 60).into_iter().collect();
    assert_eq!(line, "10 60\n");
    let line: String = format_term_line(0, usize::MAX).into_iter().collect();
    assert_eq!(line, format!("0 {}\n", usize::MAX));
}

#[test]
fn written_lines_parse_back() {
    for (n, x) in [(1usize, 1usize), (12, 83), (2001, 231621384), (usize::MAX, 0), (7, 10)] {
        assert_eq!(parse_term_line(&format_term_line(n, x)), Some((n, x)));
    }
}

#[test]
fn white_space_matches_std() {
    for u in 0u32..0x3100 {
        if let Some(c) = char::from_u32(u) {
            assert_eq!(is_white_space_char(c), c.is_whitespace(), "U+{u:04X}");
        }
    }
}
