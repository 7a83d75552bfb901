use grafite::text::{
    ends_with_str, lex_less, lines_str, split_str, starts_with_str, str_eq, trim_end_str, trim_str,
};

#[test]
fn split_keeps_empty_pieces() {
    assert_eq!(split_str("a//b/", '/'), vec!["a", "", "b", ""]);
    assert_eq!(split_str("", '/'), vec![""]);
}

#[test]
fn lines_follow_str_lines() {
    assert_eq!(lines_str("a\r\nb\n\nc"), vec!["a", "b", "", "c"]);
    assert_eq!(lines_str("a\n"), vec!["a"]);
    assert!(lines_str("").is_empty());
    // A carriage return is removed only before a newline.
    assert_eq!(lines_str("a\r"), vec!["a\r"]);
}

#[test]
fn trimming_uses_unicode_whitespace() {
    assert_eq!(trim_str("\u{3000}\t a b \u{A0}\n"), "a b");
    assert_eq!(trim_end_str("  a  "), "  a");
    assert_eq!(trim_str(" \n "), "");
}

#[test]
fn prefixes_suffixes_and_equality() {
    assert!(starts_with_str("docs/x.md", "docs/"));
    assert!(!starts_with_str("doc", "docs/"));
    assert!(ends_with_str("x.md", ".md"));
    assert!(!ends_with_str("md", ".md"));
    assert!(str_eq("✨", "✨"));
    assert!(!str_eq("✨", "✨ "));
}

#[test]
fn lexicographic_order_matches_string_order() {
    for (a, b) in [
        ("a", "b"),
        ("a", "ab"),
        ("", "a"),
        ("Z", "a"),
        ("file:a.rs", "file:b.rs"),
        ("é", "✨"),
        ("abc", "abc"),
    ] {
        assert_eq!(lex_less(a, b), a.to_string() < b.to_string(), "{a} < {b}");
        assert_eq!(lex_less(b, a), b.to_string() < a.to_string(), "{b} < {a}");
    }
}

const SAMPLES: [&str; 12] = [
    "",
    "a",
    "a\n",
    "\n",
    "a\r",
    "a\r\n",
    "a\r\r\nb",
    " \u{2003}x y\u{205F} ",
    "line one\n  line two  \n\n",
    "\u{1d}a\u{1e}b\u{1e}\u{1d}",
    "✨ emoji: scope\u{85}",
    "\r\n\r\n",
];

#[test]
fn helpers_agree_with_std_on_samples() {
    for s in SAMPLES {
        let std_lines: Vec<&str> = s.lines().collect();
        assert_eq!(lines_str(s), std_lines, "lines of {s:?}");
        let std_split: Vec<&str> = s.split('\n').collect();
        assert_eq!(split_str(s, '\n'), std_split, "split of {s:?}");
        assert_eq!(trim_str(s), s.trim(), "trim of {s:?}");
        assert_eq!(trim_end_str(s), s.trim_end(), "trim_end of {s:?}");
    }
}
