use aoc22::text::{
    chars_of, find, is_char, is_plain, is_whitespace, is_word, lines_of, matches_at, one_char,
    parse_digits, rows_of, skip_to, slice_of, split_char, split_on, split_once_char,
    split_once_on, split_terminator_on, string_of, to_i64, to_i64_after, to_usize, trimmed,
    trimmed_lines_of, words_of,
};

fn chars(s: &str) -> Vec<char> {
    s.chars().collect()
}

fn strings(parts: Vec<Vec<char>>) -> Vec<String> {
    parts.into_iter().map(|p| p.into_iter().collect()).collect()
}

#[test]
fn characters_of_a_text() {
    assert_eq!(chars_of("héllo"), vec!['h', 'é', 'l', 'l', 'o']);
    assert_eq!(chars_of(""), Vec::<char>::new());
    assert_eq!(string_of(&chars("héllo")), "héllo");
    assert_eq!(string_of(&Vec::new()), "");
    assert_eq!(slice_of(&chars("abcdef"), 2, 4), chars("cd"));
    assert_eq!(slice_of(&chars("abcdef"), 3, 3), chars(""));
    assert_eq!(one_char('x'), vec!['x']);
}

#[test]
fn white_space_is_what_rust_trims() {
    for n in 0..0x3100u32 {
        if let Some(c) = char::from_u32(n) {
            assert_eq!(is_whitespace(c), c.is_whitespace());
        }
    }
    for s in ["", " ", "  a b \n", "\t\u{a0}x\u{3000}", "abc", " \n ", "\u{85}a\u{2028}"] {
        let got: String = trimmed(&chars(s)).into_iter().collect();
        assert_eq!(got, s.trim());
    }
}

#[test]
fn splitting_agrees_with_rust() {
    let texts = ["", "a", "a,b", ",a,,b,", ",,", "abc", "a\n\nb\n\n\nc", "\n\n", "\n\n\n\n", "xx"];
    for s in texts {
        for pat in [",", "\n\n", "x", "\n"] {
            let expected: Vec<String> = s.split(pat).map(String::from).collect();
            assert_eq!(strings(split_on(&chars(s), &chars(pat))), expected);
            let expected: Vec<String> = s.split_terminator(pat).map(String::from).collect();
            assert_eq!(strings(split_terminator_on(&chars(s), &chars(pat))), expected);
            let once = split_once_on(&chars(s), &chars(pat))
                .map(|(a, b)| (string_of(&a), string_of(&b)));
            let expected = s.split_once(pat).map(|(a, b)| (a.to_string(), b.to_string()));
            assert_eq!(once, expected);
        }
        let expected: Vec<String> = s.split(',').map(String::from).collect();
        assert_eq!(strings(split_char(&chars(s), ',')), expected);
    }
    assert_eq!(split_once_char(&chars("a:b:c"), ':'), Some((chars("a"), chars("b:c"))));
    assert_eq!(split_once_char(&chars("abc"), ':'), None);
}

#[test]
fn lines_agree_with_rust() {
    let texts =
        ["", "a", "a\n", "a\nb", "a\r\nb\r\n", "a\r", "\n", "\n\na", "a\n\n", "\r\n", "a\rb\n", "\r"];
    for s in texts {
        let expected: Vec<String> = s.lines().map(String::from).collect();
        assert_eq!(strings(lines_of(&chars(s))), expected);
        let expected: Vec<String> = s.trim().lines().map(String::from).collect();
        assert_eq!(strings(trimmed_lines_of(s)), expected);
        let expected: Vec<String> = s.trim().split('\n').map(String::from).collect();
        assert_eq!(strings(rows_of(s)), expected);
    }
}

#[test]
fn words_agree_with_rust() {
    for s in ["", " ", "a", " a  b\tc\n", "ab cd", "\u{a0}x\u{2003}y "] {
        let expected: Vec<String> = s.split_whitespace().map(String::from).collect();
        assert_eq!(strings(words_of(&chars(s))), expected);
    }
    assert_eq!(skip_to(&chars("  ab "), false, 0), 2);
    assert_eq!(skip_to(&chars("  ab "), true, 2), 4);
    assert_eq!(skip_to(&chars("ab"), true, 0), 2);
}

#[test]
fn finding_a_pattern() {
    let v = chars("abcabc");
    assert_eq!(find(&v, &chars("bc"), 0), 1);
    assert_eq!(find(&v, &chars("bc"), 2), 4);
    assert_eq!(find(&v, &chars("bd"), 0), 6);
    assert_eq!(find(&v, &chars("abcabcd"), 0), 6);
    assert_eq!(find(&v, &chars(""), 3), 3);
    assert!(matches_at(&v, &chars("cab"), 2));
    assert!(!matches_at(&v, &chars("cab"), 3));
    assert!(!matches_at(&v, &chars("c"), 6));
    assert!(matches_at(&v, &chars(""), 6));
    assert!(!matches_at(&v, &chars(""), 7));
    assert!(is_char(&chars("a"), 'a'));
    assert!(!is_char(&chars("ab"), 'a'));
    assert!(!is_char(&chars(""), 'a'));
    assert!(is_word(&chars("noop"), "noop"));
    assert!(!is_word(&chars("noo"), "noop"));
    assert!(!is_word(&chars("nooq"), "noop"));
    assert!(is_plain(&chars("abc~\u{7f}")));
    assert!(!is_plain(&chars("ab\u{80}")));
}

#[test]
fn numbers_agree_with_rust() {
    let texts = [
        "",
        "0",
        "7",
        "-7",
        "+7",
        "007",
        "-0",
        "+",
        "-",
        "--1",
        "+-1",
        "1 ",
        " 1",
        "1a",
        "a",
        "12345678901234567890",
        "9223372036854775807",
        "9223372036854775808",
        "-9223372036854775808",
        "-9223372036854775809",
        "18446744073709551615",
        "18446744073709551616",
        "99999999999999999999999999999999999999999",
        "١٢",
    ];
    for s in texts {
        assert_eq!(to_i64(&chars(s)), s.parse::<i64>().ok());
        assert_eq!(to_usize(&chars(s)), s.parse::<usize>().ok());
    }
    assert_eq!(parse_digits(&chars("x123"), 1, 200), Some(123));
    assert_eq!(parse_digits(&chars("x123"), 1, 123), Some(123));
    assert_eq!(parse_digits(&chars("x123"), 1, 122), None);
    assert_eq!(parse_digits(&chars("x123"), 4, 200), None);
    assert_eq!(parse_digits(&chars("x123"), 0, 200), None);
    assert_eq!(to_i64_after(&chars(" y=18"), 3), Some(18));
    assert_eq!(to_i64_after(&chars(" y="), 3), None);
    assert_eq!(to_i64_after(&chars(" y"), 3), None);
}
