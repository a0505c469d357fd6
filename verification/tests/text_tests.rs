use pinniped_core::text::{
    chars_of, count_leading, find, is_whitespace_char, join_with, lines_of, push_decimal,
    push_repeated, push_str, split_on, stands_at, starts_with, string_of, strip_char, trim,
    trim_end, trim_start,
};

fn cs(s: &str) -> Vec<char> {
    s.chars().collect()
}

fn all(parts: &[&str]) -> Vec<Vec<char>> {
    parts.iter().map(|p| cs(p)).collect()
}

#[test]
fn chars_and_strings_convert_both_ways() {
    let s = "a\u{e9}\u{1f680} z";
    assert_eq!(chars_of(s), cs(s));
    assert_eq!(string_of(&cs(s)), s);
    assert_eq!(string_of(&[]), "");
    assert_eq!(chars_of("").len(), 0);
}

#[test]
fn whitespace_is_the_unicode_property() {
    for c in [' ', '\t', '\n', '\u{b}', '\u{c}', '\r', '\u{85}', '\u{a0}', '\u{1680}', '\u{2000}',
        '\u{200a}', '\u{2028}', '\u{2029}', '\u{202f}', '\u{205f}', '\u{3000}']
    {
        assert!(is_whitespace_char(c));
        assert!(c.is_whitespace());
    }
    for c in ['a', '\u{8}', '\u{e}', '\u{200b}', '\u{180e}', '\u{feff}', '-'] {
        assert!(!is_whitespace_char(c));
        assert!(!c.is_whitespace());
    }
}

#[test]
fn whitespace_agrees_with_std_on_every_char() {
    let mut c = 0u32;
    while c <= 0x10ffff {
        if let Some(ch) = char::from_u32(c) {
            assert_eq!(is_whitespace_char(ch), ch.is_whitespace());
        }
        c += 1;
    }
}

#[test]
fn trim_removes_whitespace_at_both_ends() {
    assert_eq!(trim(&cs("  a b \n")), &cs("a b")[..]);
    assert_eq!(trim(&cs("\u{a0}x\u{3000}")), &cs("x")[..]);
    assert_eq!(trim(&cs(" \t ")), &cs("")[..]);
    assert_eq!(trim(&cs("")), &cs("")[..]);
    assert_eq!(trim_start(&cs("  a ")), &cs("a ")[..]);
    assert_eq!(trim_end(&cs("  a ")), &cs("  a")[..]);
}

#[test]
fn find_gives_the_first_occurrence() {
    assert_eq!(find(&cs("abcabc"), &cs("bc")), Some(1));
    assert_eq!(find(&cs("abc"), &cs("abc")), Some(0));
    assert_eq!(find(&cs("abc"), &cs("abcd")), None);
    assert_eq!(find(&cs("aaa"), &cs("b")), None);
    assert_eq!(find(&cs(""), &cs("a")), None);
    assert_eq!(find(&cs("``` ```"), &cs("```")), Some(0));
    assert_eq!(find(&cs("`` ```"), &cs("```")), Some(3));
}

#[test]
fn stands_at_and_starts_with() {
    assert!(stands_at(&cs("abc"), &cs("bc"), 1));
    assert!(!stands_at(&cs("abc"), &cs("bc"), 2));
    assert!(!stands_at(&cs("abc"), &cs("bc"), 9));
    assert!(starts_with(&cs("> q"), &cs("> ")));
    assert!(!starts_with(&cs(">"), &cs("> ")));
    assert!(starts_with(&cs("x"), &cs("")));
}

#[test]
fn split_goes_from_left_to_right() {
    assert_eq!(split_on(&cs("a\n\n\nb"), &cs("\n\n")), all(&["a", "\nb"]));
    assert_eq!(split_on(&cs("a\n\n\n\nb"), &cs("\n\n")), all(&["a", "", "b"]));
    assert_eq!(split_on(&cs("a|b|"), &cs("|")), all(&["a", "b", ""]));
    assert_eq!(split_on(&cs(""), &cs("|")), all(&[""]));
    assert_eq!(split_on(&cs("abc"), &cs("")), all(&["abc"]));
}

#[test]
fn split_agrees_with_std() {
    for s in ["", "a", "\n\n", "a\n\nb\n\n\n\nc\n", "x\n\n\ny", "|a||b|"] {
        for pat in ["\n\n", "|", "\n"] {
            let expected: Vec<Vec<char>> = s.split(pat).map(cs).collect();
            assert_eq!(split_on(&cs(s), &cs(pat)), expected);
        }
    }
}

#[test]
fn lines_end_at_line_feeds() {
    assert_eq!(lines_of(&cs("a\nb")), all(&["a", "b"]));
    assert_eq!(lines_of(&cs("a\r\nb\n")), all(&["a", "b"]));
    assert_eq!(lines_of(&cs("a\n\nb")), all(&["a", "", "b"]));
    assert_eq!(lines_of(&cs("")), all(&[]));
    assert_eq!(lines_of(&cs("\n")), all(&[""]));
    assert_eq!(lines_of(&cs("a\r")), all(&["a\r"]));
    assert_eq!(lines_of(&cs("a\r\r\nb")), all(&["a\r", "b"]));
}

#[test]
fn lines_agree_with_std() {
    for s in ["", "\n", "\r\n", "a", "a\n", "a\r\nb\r", "\n\na\n\n", "x\ry\n\rz", "\r"] {
        let expected: Vec<Vec<char>> = s.lines().map(cs).collect();
        assert_eq!(lines_of(&cs(s)), expected);
    }
}

#[test]
fn join_puts_the_separator_between() {
    assert_eq!(join_with(&all(&["a", "b", "c"]), &cs(", ")), cs("a, b, c"));
    assert_eq!(join_with(&all(&["a"]), &cs(", ")), cs("a"));
    assert_eq!(join_with(&all(&[]), &cs(", ")), cs(""));
    assert_eq!(join_with(&all(&["", ""]), &cs("|")), cs("|"));
}

#[test]
fn strip_char_removes_every_one_at_both_ends() {
    assert_eq!(strip_char(&cs("||a|b||"), '|'), &cs("a|b")[..]);
    assert_eq!(strip_char(&cs("|||"), '|'), &cs("")[..]);
    assert_eq!(strip_char(&cs("a"), '|'), &cs("a")[..]);
}

#[test]
fn count_leading_counts_the_run_at_the_start() {
    assert_eq!(count_leading(&cs("###a#"), '#'), 3);
    assert_eq!(count_leading(&cs("a#"), '#'), 0);
    assert_eq!(count_leading(&cs("##"), '#'), 2);
    assert_eq!(count_leading(&cs(""), '#'), 0);
}

#[test]
fn decimal_digits() {
    for (n, expected) in [(0usize, "0"), (7, "7"), (10, "10"), (99, "99"), (1234567890, "1234567890")] {
        let mut out = cs("n=");
        push_decimal(&mut out, n);
        assert_eq!(out, cs(&format!("n={}", expected)));
    }
    let mut out = Vec::new();
    push_decimal(&mut out, usize::MAX);
    assert_eq!(out, cs(&format!("{}", usize::MAX)));
}

#[test]
fn push_helpers_append() {
    let mut out = cs("a");
    push_repeated(&mut out, '#', 3);
    push_repeated(&mut out, '!', 0);
    push_str(&mut out, " b\u{e9}");
    assert_eq!(out, cs("a### b\u{e9}"));
}

#[test]
fn trimming_agrees_with_std() {
    for s in ["", " ", "a", " a", "a ", "\t a b \r\n", "\u{a0}\u{3000}x\u{2003}", "\n\n", " \u{200b} "] {
        assert_eq!(trim(&cs(s)), &cs(s.trim())[..]);
        assert_eq!(trim_start(&cs(s)), &cs(s.trim_start())[..]);
        assert_eq!(trim_end(&cs(s)), &cs(s.trim_end())[..]);
    }
}

#[test]
fn strip_char_agrees_with_std() {
    for s in ["", "|", "||", "a", "|a|", "||a|b||", "a|", "|a", "| |"] {
        assert_eq!(strip_char(&cs(s), '|'), &cs(s.trim_matches('|'))[..]);
    }
}

#[test]
fn find_agrees_with_std() {
    for s in ["", "a", ". ", "1. a. b", "x.y. z", "``", "```", "a```b```", "`` ` ```", "\n\n\n"] {
        for pat in [". ", "```", "\n\n", "|", "a"] {
            let expected = s.find(pat).map(|byte| s[..byte].chars().count());
            assert_eq!(find(&cs(s), &cs(pat)), expected);
            assert_eq!(starts_with(&cs(s), &cs(pat)), s.starts_with(pat));
        }
    }
}
