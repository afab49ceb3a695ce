use repo_summary::order::str_less;
use repo_summary::text::{
    contains_str, last_piece, lines, parse_i32, push_decimal, split_char, trim,
};

#[test]
fn split_char_agrees_with_split() {
    for s in ["", "a", "a b", " a  b ", "a.b.c", "...", "x\ty", "é b"] {
        for sep in [' ', '.', '\t'] {
            let expected: Vec<String> = s.split(sep).map(|p| p.to_string()).collect();
            assert_eq!(split_char(s, sep), expected, "split {:?} at {:?}", s, sep);
        }
    }
}

#[test]
fn last_piece_is_extension() {
    assert_eq!(last_piece("src/main.rs", '.'), "rs");
    assert_eq!(last_piece("Makefile", '.'), "Makefile");
    assert_eq!(last_piece("archive.tar.gz", '.'), "gz");
    assert_eq!(last_piece("dir.d/file.", '.'), "");
    assert_eq!(last_piece("", '.'), "");
}

#[test]
fn lines_agree_with_str_lines() {
    for s in ["", "a", "a\n", "a\r\n b\r", "\n\n", "x\ry\n", "one\ntwo\r\nthree", "\r\n", "a\r"] {
        let expected: Vec<String> = s.lines().map(|p| p.to_string()).collect();
        assert_eq!(lines(s), expected, "lines of {:?}", s);
    }
}

#[test]
fn trim_agrees_with_str_trim() {
    for s in ["", "   ", "  \u{3000}x y\u{85}\t", "\u{a0}a\u{2028}", "abc", " \n 2019 \r"] {
        assert_eq!(trim(s), s.trim(), "trim {:?}", s);
    }
}

#[test]
fn parse_i32_agrees_with_parse() {
    for s in [
        "+5", "-", "+", "", "0", "2147483647", "2147483648", "-2147483648", "-2147483649", "00012",
        "1_0", " 1", "99999999999999999999", "-0", "+-1", "12a", "٣",
    ] {
        assert_eq!(parse_i32(s), s.parse::<i32>().ok(), "parse {:?}", s);
    }
}

#[test]
fn contains_str_agrees_with_contains() {
    for (h, n) in [("changelog.md", "changelog"), ("abc", ""), ("", "a"), ("ab", "abc"), ("aab", "ab"), ("test", "tset")] {
        assert_eq!(contains_str(h, n), h.contains(n), "{:?} in {:?}", n, h);
    }
}

#[test]
fn push_decimal_writes_digits() {
    for n in [0usize, 7, 10, 12345, usize::MAX] {
        let mut s = String::from("n=");
        push_decimal(&mut s, n);
        assert_eq!(s, format!("n={}", n));
    }
}

#[test]
fn str_less_agrees_with_ord() {
    for (a, b) in [("2019", "2020"), ("2020", "2019"), ("", "a"), ("a", ""), ("ab", "a"), ("é", "z"), ("z", "é"), ("same", "same")] {
        assert_eq!(str_less(a, b), a < b, "{:?} < {:?}", a, b);
    }
}
