use flamingo::parse::{
    decimal_of, lines_of, parse_usize, replace_chars, trim_chars, white_space, words_of,
};
use flamingo::text::{byte_len_at_most, byte_len_capped, chars_of, join_chars, split_chars, string_of};

fn v(s: &str) -> Vec<char> {
    s.chars().collect()
}

fn strings(parts: Vec<Vec<char>>) -> Vec<String> {
    parts.into_iter().map(|p| p.into_iter().collect()).collect()
}

#[test]
fn white_space_matches_std() {
    for c in ['\t', '\n', '\u{b}', '\u{c}', '\r', ' ', '\u{85}', '\u{a0}', '\u{1680}', '\u{2000}', '\u{200a}', '\u{2028}', '\u{2029}', '\u{202f}', '\u{205f}', '\u{3000}', 'a', '\u{200b}', '\u{1f600}', '0'] {
        assert_eq!(white_space(c), c.is_whitespace(), "{c:?}");
    }
}

#[test]
fn trim_and_words_match_std() {
    for s in ["", "  ", " a b ", "\t4\t7\n", "x", " \u{3000}y\u{a0}z "] {
        let t: String = trim_chars(&v(s)).into_iter().collect();
        assert_eq!(t, s.trim());
        let w = strings(words_of(&v(s)));
        let expected: Vec<String> = s.split_whitespace().map(|x| x.to_string()).collect();
        assert_eq!(w, expected);
    }
}

#[test]
fn parse_usize_matches_std() {
    for s in ["", "+", "-", "0", "+12", "-1", "007", "1a", " 1", "18446744073709551615", "18446744073709551616", "99999999999999999999999"] {
        assert_eq!(parse_usize(&v(s)), s.parse::<usize>().ok(), "{s:?}");
    }
}

#[test]
fn lines_match_std() {
    for s in ["", "a", "a\n", "a\r\n", "a\r", "\n", "\n\n", "a\nb", "a\r\nb\r\n", "a\r\rb\n"] {
        let ls = strings(lines_of(&v(s)));
        let expected: Vec<String> = s.lines().map(|x| x.to_string()).collect();
        assert_eq!(ls, expected, "{s:?}");
    }
}

#[test]
fn decimal_matches_to_string() {
    for n in [0usize, 7, 10, 99, 100, 12345, usize::MAX] {
        let d: String = decimal_of(n).into_iter().collect();
        assert_eq!(d, n.to_string());
        assert_eq!(parse_usize(&v(&d)), Some(n));
    }
}

#[test]
fn replace_matches_std() {
    for (s, pat, rep) in [
        ("$a$a", "$a", "x"),
        ("aaa", "aa", "b"),
        ("", "$x", "y"),
        ("$branch ($dirty)", "$dirty", "*"),
        ("abc", "abcd", "z"),
        ("abc", "", "-"),
        ("", "", "x"),
    ] {
        let r: String = replace_chars(&v(s), &v(pat), &v(rep)).into_iter().collect();
        assert_eq!(r, s.replace(pat, rep));
    }
}

#[test]
fn split_and_join_match_std() {
    for s in ["", "/", "a//b/", "/very/long"] {
        let parts = split_chars(&v(s), '/');
        let expected: Vec<String> = s.split('/').map(|x| x.to_string()).collect();
        assert_eq!(strings(parts.clone()), expected);
        let joined: String = join_chars(&parts, '/').into_iter().collect();
        assert_eq!(joined, s);
    }
}

#[test]
fn byte_lengths() {
    assert!(byte_len_at_most(&v("\u{2026}"), 3));
    assert!(!byte_len_at_most(&v("\u{2026}"), 2));
    assert_eq!(byte_len_capped(&v("a\u{e9}\u{2026}\u{1f600}"), 100), 10);
    assert_eq!(byte_len_capped(&v("abcdef"), 4), 4);
    assert_eq!(string_of(&chars_of("h\u{e9}llo")), "h\u{e9}llo");
}
