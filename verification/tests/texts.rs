use flboot::num::digits_text;
use flboot::order::{is_before, sort_texts, stable_order};
use flboot::text::{
    join_texts, replace_text, text_begins_with, text_contains, text_ends_with, text_lines,
    trim_end_text, trim_text,
};

#[test]
fn white_space_is_what_the_language_says() {
    for c in '\0'..=char::MAX {
        let s = format!("a{c}");
        assert_eq!(trim_end_text(&s), s.trim_end(), "{c:?}");
    }
    assert_eq!(trim_text(" \t a b \u{2029}"), "a b");
    assert_eq!(trim_text("  "), "");
}

#[test]
fn lines_are_what_the_language_says() {
    for s in ["", "\n", "a", "a\n", "a\r\nb", "a\n\nb\r", "\r\n", "a\rb\n\r"] {
        assert_eq!(text_lines(s), s.lines().collect::<Vec<_>>(), "{s:?}");
    }
}

#[test]
fn replacing_is_what_the_language_does() {
    for (s, from) in [("aaa", "aa"), ("abab", "ab"), ("", "x"), ("xyz", "y"), ("é\"é", "\""), ("aab", "ab")] {
        assert_eq!(replace_text(s, from, "<>"), s.replace(from, "<>"), "{s:?}");
        assert_eq!(text_contains(s, from), s.contains(from), "{s:?}");
    }
}

#[test]
fn ends_are_told() {
    assert!(text_begins_with("abc", "ab") && !text_begins_with("a", "ab") && text_begins_with("a", ""));
    assert!(text_ends_with("abc", "bc") && !text_ends_with("c", "bc") && text_ends_with("", ""));
}

#[test]
fn texts_are_ordered_by_their_characters() {
    for a in ["", "a", "ab", "b", "é", "\u{10000}", "\u{ffff}"] {
        for b in ["", "a", "ab", "b", "é", "\u{10000}", "\u{ffff}"] {
            assert_eq!(is_before(a, b), a < b, "{a:?} {b:?}");
        }
    }
    let mut v: Vec<String> = ["b", "a", "", "ab", "a"].iter().map(|s| s.to_string()).collect();
    let sorted = sort_texts(&v);
    v.sort();
    assert_eq!(sorted, v);
    assert_eq!(join_texts(&sorted, "|"), "|a|a|ab|b");
}

#[test]
fn equal_keys_keep_their_order() {
    assert_eq!(stable_order(&vec![(2, 0), (1, 5), (1, 5), (1, 4), (2, 0)]), vec![3, 1, 2, 0, 4]);
}

#[test]
fn digits_read_in_their_base() {
    for n in [0u64, 1, 9, 10, 255, 4096, u64::MAX] {
        assert_eq!(digits_text(n, 10), n.to_string());
        assert_eq!(digits_text(n, 16), format!("{n:x}"));
    }
}
