//! Line endings, clock times and character helpers.

use subomatic::chars::{
    find_text, first_word_of, is_word, labelled, lines_of, parse_integer, replace_text, split_all,
    split_up_to, starts_word, to_chars, to_text, trimmed,
};
use subomatic::text::{decompose_ms, hms_to_ms, normalize};

fn strings(parts: Vec<&[char]>) -> Vec<String> {
    parts.into_iter().map(to_text).collect()
}

#[test]
fn normalize_strips_bom_and_line_endings() {
    assert_eq!(normalize("\u{feff}a\r\nb\rc"), "a\nb\nc");
    assert_eq!(normalize("plain"), "plain");
}

#[test]
fn normalize_strips_one_bom_and_keeps_lone_returns_apart() {
    assert_eq!(normalize("\u{feff}\u{feff}a"), "\u{feff}a");
    assert_eq!(normalize("a\r\r\nb"), "a\n\nb");
    assert_eq!(normalize(""), "");
}

#[test]
fn decompose_round_trips_and_clamps_negatives() {
    assert_eq!(decompose_ms(3_661_001), (1, 1, 1, 1));
    assert_eq!(decompose_ms(-5), (0, 0, 0, 0));
}

#[test]
fn hms_to_ms_is_checked() {
    assert_eq!(hms_to_ms(1, 1, 1, 1), Some(3_661_001));
    assert_eq!(hms_to_ms(i64::MAX, 0, 0, 0), None);
}

#[test]
fn decomposed_times_combine_to_the_same_time() {
    for ms in [0, 1, 999, 1_000, 59_999, 3_599_999, 3_600_000, i64::MAX] {
        let (h, m, s, x) = decompose_ms(ms);
        assert_eq!(hms_to_ms(h, m, s, x), Some(ms));
    }
}

#[test]
fn integers_follow_the_grammar_of_i64() {
    let cases: [(&str, Option<i64>); 9] = [
        ("0", Some(0)),
        ("+7", Some(7)),
        ("-9223372036854775808", Some(i64::MIN)),
        ("9223372036854775807", Some(i64::MAX)),
        ("9223372036854775808", None),
        ("00012", Some(12)),
        ("", None),
        ("-", None),
        ("1 ", None),
    ];
    for (text, value) in cases {
        assert_eq!(parse_integer(&to_chars(text)), value, "{text:?}");
        assert_eq!(text.parse::<i64>().ok(), value, "{text:?}");
    }
}

#[test]
fn trimming_and_words_go_by_unicode_white_space() {
    let text = to_chars("\u{3000}\tone two\u{85} ");
    assert_eq!(to_text(trimmed(&text)), "one two");
    assert_eq!(to_text(first_word_of(&text)), "one");
    assert_eq!(to_text(first_word_of(&to_chars("  "))), "");
    assert_eq!(to_text(trimmed(&to_chars("\u{feff}x"))), "\u{feff}x");
}

#[test]
fn splitting_agrees_with_the_standard_library() {
    let text = "a,,b,c";
    let all = to_chars(text);
    assert_eq!(strings(split_all(&all, ',')), text.split(',').collect::<Vec<_>>());
    assert_eq!(strings(split_up_to(&all, 2, ',')), text.splitn(2, ',').collect::<Vec<_>>());
    assert!(split_up_to(&all, 0, ',').is_empty());
    let lines = "x\r\n\ny\rz\n";
    assert_eq!(strings(lines_of(&to_chars(lines))), lines.lines().collect::<Vec<_>>());
}

#[test]
fn replacing_text_goes_from_left_to_right() {
    let text = to_chars("aaa&lt;&lt;b");
    assert_eq!(to_text(&replace_text(&text, "aa", "x")), "xa&lt;&lt;b");
    assert_eq!(to_text(&replace_text(&text, "&lt;", "<")), "aaa<<b");
    assert_eq!(find_text(&text, &to_chars("lt")), Some(4));
    assert_eq!(find_text(&text, &to_chars("zz")), None);
}

#[test]
fn words_ignore_ascii_case_only() {
    assert!(is_word(&to_chars("StArT"), "start"));
    assert!(!is_word(&to_chars("\u{212a}"), "k"));
    assert!(starts_word(&to_chars("FORMAT: x"), "format:"));
    assert!(!starts_word(&to_chars("form"), "format:"));
    assert_eq!(labelled("a: ", "b"), "a: b");
}
