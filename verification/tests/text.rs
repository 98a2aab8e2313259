//! Texts, lines, words and rankings.

use go_filters::json::{get_field, get_flag, get_text, Member};
use go_filters::lines::{content_lines, lines, object_lines, words};
use go_filters::plan::{concat2, take_flag};
use go_filters::ranking::{count, rank_rules, text_not_after};
use go_filters::text::{
    contains, distinct_texts, holds, join, push_decimal, skip_bytes_of, split_once, starts_with,
    trim, trim_end, trim_end_matches, trim_start, trim_start_matches, truncate, without_prefix,
};

fn strings(list: &[&str]) -> Vec<String> {
    list.iter().map(|s| s.to_string()).collect()
}

#[test]
fn lines_end_as_in_the_standard_library() {
    for s in ["", "\n", "a", "a\n", "a\r\nb", "a\r", "\r\n\n x \r\r\n", "é\n\n▶"] {
        let expected: Vec<String> = s.lines().map(|l| l.to_string()).collect();
        assert_eq!(lines(s), expected, "{:?}", s);
    }
}

#[test]
fn words_are_split_as_in_the_standard_library() {
    for s in ["", "  ", "a", " a\tb\u{a0}c ", "é ▶\u{2003}x"] {
        let expected: Vec<String> = s.split_whitespace().map(|w| w.to_string()).collect();
        assert_eq!(words(s), expected, "{:?}", s);
    }
}

#[test]
fn trimming_is_as_in_the_standard_library() {
    for s in ["", " \t\n", " a b ", "\u{3000}x\u{85}", "x\u{200b}", "\u{1680}\u{feff}y "] {
        assert_eq!(trim(s), s.trim());
        assert_eq!(trim_start(s), s.trim_start());
        assert_eq!(trim_end(s), s.trim_end());
    }
    assert_eq!(trim_start_matches("••• •x", '•'), " •x");
    assert_eq!(trim_end_matches("x. ...", '.'), "x. ");
}

#[test]
fn content_lines_skip_blank_ones() {
    assert_eq!(content_lines(" a \n\n\t\n b\r\n"), strings(&["a", "b"]));
    assert_eq!(object_lines("x\n {\n[{\n{}"), strings(&["{", "{}"]));
}

#[test]
fn content_of_texts_in_a_row_adds_up() {
    for a in ["", "x", "x\r", " y \n", "{a\n\n b"] {
        for b in ["", "{z", "\n w\r\n{"] {
            let both = format!("{a}\n{b}");
            let mut expected = content_lines(a);
            expected.extend(content_lines(b));
            assert_eq!(content_lines(&both), expected);
            let noisy = format!("{a}\nnoise\n noise {{\n{b}");
            assert_eq!(object_lines(&noisy), object_lines(&both));
        }
    }
}

#[test]
fn texts_are_shortened_to_a_width() {
    assert_eq!(truncate("abcdef", 6), "abcdef");
    assert_eq!(truncate("abcdefg", 6), "abc...");
    assert_eq!(truncate("ééééé", 4), "é...");
    assert_eq!(truncate("abcd", 3), "...");
    assert_eq!(truncate("abcd", 2), "...");
    assert_eq!(truncate("", 0), "");
}

#[test]
fn numbers_are_written_in_decimal() {
    for n in [0, 7, 10, 99, 100, 12_345, u128::from(u64::MAX), u128::MAX] {
        let mut out = String::from("n=");
        push_decimal(&mut out, n);
        assert_eq!(out, format!("n={n}"));
    }
}

#[test]
fn texts_are_searched() {
    assert!(contains("abcabd", "abd"));
    assert!(contains("x", ""));
    assert!(!contains("ab", "abc"));
    assert!(starts_with("éa", "é"));
    assert!(!starts_with("a", "ab"));
    assert_eq!(without_prefix("✗ a", "✗ "), Some("a".to_string()));
    assert_eq!(without_prefix("a", "b"), None);
    assert_eq!(split_once("a:b:c", ':'), Some(("a".to_string(), "b:c".to_string())));
    assert_eq!(split_once("abc", ':'), None);
    assert_eq!(skip_bytes_of("éx", "ab"), Some("x".to_string()));
    assert_eq!(skip_bytes_of("éx", "a"), None);
}

#[test]
fn lists_of_texts_are_handled() {
    assert_eq!(join(&strings(&["a", "", "b"]), ", "), "a, , b");
    assert_eq!(join(&[], ", "), "");
    assert!(holds(&strings(&["a", "b"]), "b"));
    assert!(!holds(&strings(&["ab"]), "b"));
    assert_eq!(distinct_texts(&strings(&["b", "a", "b", "a", "c"])), strings(&["b", "a", "c"]));
    assert_eq!(distinct_texts(&strings(&["b", "a", "b"])), strings(&["b", "a"]));
    assert_eq!(concat2("a", "b"), "ab");
}

#[test]
fn a_flag_is_taken_out_everywhere() {
    let args = strings(&["--x", "a", "--x", "--xx"]);
    let (rest, found) = take_flag(&args, "--x");
    assert_eq!(rest, strings(&["a", "--xx"]));
    assert!(found);
    let (again, found) = take_flag(&rest, "--x");
    assert_eq!(again, rest);
    assert!(!found);
}

#[test]
fn rules_are_ranked_by_frequency_and_name() {
    let keys = strings(&["b", "c", "a", "c", "B", "b", "d"]);
    let ranked: Vec<(String, usize)> =
        rank_rules(&keys).into_iter().map(|r| (r.rule, r.count)).collect();
    let expected: Vec<(String, usize)> = [("b", 2), ("c", 2), ("B", 1), ("a", 1), ("d", 1)]
        .iter()
        .map(|(r, n)| (r.to_string(), *n))
        .collect();
    assert_eq!(ranked, expected);
    assert_eq!(count(&keys, "c"), 2);
    assert_eq!(count(&keys, "x"), 0);
}

#[test]
fn texts_are_ordered_as_in_the_standard_library() {
    let all = ["", "A", "a", "ab", "b", "é", "z", "▶", "😀"];
    for a in all {
        for b in all {
            assert_eq!(text_not_after(a, b), a <= b, "{:?} {:?}", a, b);
        }
    }
}

#[test]
fn members_are_read_by_key() {
    let members = vec![
        ("k".to_string(), Member::Text("first".to_string())),
        ("k".to_string(), Member::Text("second".to_string())),
        ("t".to_string(), Member::Bool(true)),
        ("f".to_string(), Member::Bool(false)),
    ];
    assert_eq!(get_text(&members, "k"), Some("first".to_string()));
    assert_eq!(get_text(&members, "t"), None);
    assert_eq!(get_text(&members, "x"), None);
    assert!(get_flag(&members, "t"));
    assert!(!get_flag(&members, "f"));
    assert!(!get_flag(&members, "k"));
    let fields = vec![("a".to_string(), "1".to_string())];
    assert_eq!(get_field(&fields, "a"), Some("1".to_string()));
    assert_eq!(get_field(&fields, "b"), None);
}
