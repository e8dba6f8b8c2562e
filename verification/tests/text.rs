use shell_core::number::{decimal_text, pad_after, pad_before, parse_i32};
use shell_core::order::{is_not_after, sort_texts, sort_texts_once};
use shell_core::text::{
    chars_of, has_last_char, has_prefix, is_white_space, join_words, same_text, split_lines,
    split_on_char, split_words, text_between, trim,
};

fn owned(words: &[&str]) -> Vec<String> {
    words.iter().map(|w| w.to_string()).collect()
}

#[test]
fn white_space_is_that_of_unicode() {
    for n in 0..=0x10ffffu32 {
        if let Some(c) = char::from_u32(n) {
            assert_eq!(is_white_space(c), c.is_whitespace(), "{:x}", n);
        }
    }
}

#[test]
fn trim_is_that_of_std() {
    for s in ["", " ", "a", " a ", "\t a b \n", "\u{3000}x\u{a0}", " \u{2003} ", "日本 語 "] {
        assert_eq!(trim(s), s.trim());
    }
    assert_eq!(trim("  ls -l "), "ls -l");
}

#[test]
fn words_are_those_of_std() {
    for s in ["", "  ", "a", " a  b\tc ", "\u{3000}x\u{a0}y", "git  commit -m"] {
        let expected: Vec<String> = s.split_whitespace().map(|w| w.to_string()).collect();
        assert_eq!(split_words(s), expected);
    }
    assert_eq!(split_words(" a  b\tc "), owned(&["a", "b", "c"]));
}

#[test]
fn lines_are_those_of_std() {
    for s in [
        "", "\n", "a", "a\n", "a\nb", "a\r\nb\r\n", "a\r", "\r\n", "a\n\nb\n", "a\r\r\nb", "\n\n",
    ] {
        let expected: Vec<String> = s.lines().map(|l| l.to_string()).collect();
        assert_eq!(split_lines(s), expected, "{:?}", s);
    }
    assert_eq!(split_lines("a\r\nb\nc"), owned(&["a", "b", "c"]));
}

#[test]
fn text_pieces() {
    assert_eq!(chars_of("aß"), vec!['a', 'ß']);
    assert_eq!(text_between(&vec!['a', 'b', 'c', 'd'], 1, 3), "bc");
    assert!(same_text("abc", "abc"));
    assert!(!same_text("abc", "abd"));
    assert!(!same_text("abc", "ab"));
    assert!(has_prefix("echo", "ec"));
    assert!(has_prefix("echo", ""));
    assert!(!has_prefix("echo", "echoo"));
    assert!(!has_prefix("echo", "xc"));
    assert!(has_last_char("dir/", '/'));
    assert!(!has_last_char("", '/'));
    assert_eq!(join_words(&owned(&["a", "b", "c"]), ' '), "a b c");
    assert_eq!(join_words(&[], ' '), "");
    assert_eq!(split_on_char("a::b", ':'), owned(&["a", "", "b"]));
    assert_eq!(split_on_char("", ':'), owned(&[""]));
}

#[test]
fn decimal_notation() {
    for n in [0usize, 7, 9, 10, 42, 99, 100, 1234567890, usize::MAX] {
        assert_eq!(decimal_text(n), n.to_string());
    }
    assert_eq!(decimal_text(1024), "1024");
}

#[test]
fn padding_is_that_of_format() {
    assert_eq!(pad_after("Done", 24), format!("{:<24}", "Done"));
    assert_eq!(pad_after("abc", 2), "abc");
    assert_eq!(pad_before("7", 4), "   7");
    assert_eq!(pad_before("12345", 4), format!("{:>4}", 12345));
}

#[test]
fn numbers_are_read_as_std_reads_them() {
    for s in [
        "", "+", "-", "0", "-0", "+5", "-5", "007", "12", "1a", " 1", "1 ", "--1", "2147483647",
        "2147483648", "-2147483648", "-2147483649", "4294967297", "99999999999999999999999", "-r",
        "１",
    ] {
        assert_eq!(parse_i32(s), s.parse::<i32>().ok(), "{:?}", s);
    }
    assert_eq!(parse_i32("-12"), Some(-12));
    assert_eq!(parse_i32("x"), None);
}

#[test]
fn texts_are_ordered_as_std_orders_them() {
    let words = owned(&["b", "", "a", "ab", "B", "é", "z", "a", "日", "aa", "/", "~"]);
    for a in &words {
        for b in &words {
            assert_eq!(is_not_after(a, b), a <= b);
        }
    }
    let mut expected = words.clone();
    expected.sort();
    assert_eq!(sort_texts(words.clone()), expected);
    expected.dedup();
    assert_eq!(sort_texts_once(words), expected);
    assert_eq!(sort_texts(owned(&["pwd", "cd", "cd"])), owned(&["cd", "cd", "pwd"]));
    assert_eq!(sort_texts_once(owned(&["pwd", "cd", "cd"])), owned(&["cd", "pwd"]));
}

#[test]
fn order_is_unique_whatever_the_start() {
    let a = sort_texts(owned(&["x", "y", "x", "w"]));
    let b = sort_texts(owned(&["w", "x", "y", "x"]));
    assert_eq!(a, b);
}
