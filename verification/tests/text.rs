//! Texts, maps keyed by them, and lists of them.

use aw_combined::list::dedup_texts;
use aw_combined::order::sort;
use aw_combined::text::{
    contains, ends_with, find, frame, lines, parse_u64, part, starts_with, to_decimal, trim, word,
};
use aw_combined::TextMap;

fn texts(items: &[&str]) -> Vec<String> {
    items.iter().map(|s| s.to_string()).collect()
}

#[test]
fn lines_end_at_a_line_feed_with_or_without_a_carriage_return() {
    for text in ["", "a", "a\n", "a\r\nb", "a\n\nb\n", "\n", "a\rb\r", "é\n\u{1F600}"] {
        let expected: Vec<String> = text.lines().map(String::from).collect();
        assert_eq!(lines(text), expected, "{text:?}");
    }
}

#[test]
fn what_is_framed_reads_back_line_by_line() {
    let all = texts(&["one", "", "three"]);
    assert_eq!(frame(&all), "one\n\nthree\n");
    assert_eq!(lines(&frame(&all)), all);
    assert_eq!(frame(&vec![]), "");
}

#[test]
fn white_space_is_trimmed_from_both_ends() {
    for text in ["", "  ", " a b\t\n", "\u{a0}x\u{2003}", "x", "\u{200b}x"] {
        assert_eq!(trim(text), text.trim(), "{text:?}");
    }
}

#[test]
fn the_first_word_is_what_white_space_leaves() {
    assert_eq!(word("  184 new events").as_deref(), Some("184"));
    assert_eq!(word("  "), None);
}

#[test]
fn numbers_read_as_they_are_written() {
    for n in [0, 7, 10, 184, u64::MAX] {
        assert_eq!(to_decimal(n), n.to_string());
        assert_eq!(parse_u64(&to_decimal(n)), Some(n));
    }
    assert_eq!(parse_u64("+5"), Some(5));
    for bad in ["", "+", "-1", "1 ", "1x", "18446744073709551616"] {
        assert_eq!(parse_u64(bad), None, "{bad:?}");
    }
}

#[test]
fn a_part_is_found_by_characters() {
    assert_eq!(find("aé-synced-from-b", "-synced-from-"), Some(2));
    assert_eq!(find("abc", "x"), None);
    assert_eq!(find("abc", ""), Some(0));
    assert_eq!(part("aéb", 1, 2), "é");
    assert!(contains("abc", "bc") && !contains("abc", "cb"));
    assert!(starts_with("abc", "ab") && !starts_with("abc", "bc"));
    assert!(ends_with("abc", "bc") && !ends_with("abc", "abcd"));
}

#[test]
fn texts_sort_as_strings_do() {
    let mut got = texts(&["b", "a", "é", "B", "", "ab", "a"]);
    let mut expected = got.clone();
    sort(&mut got);
    expected.sort();
    assert_eq!(got, expected);
    assert_eq!(dedup_texts(&got), texts(&["", "B", "a", "ab", "b", "é"]));
}

#[test]
fn a_map_keeps_the_last_value_and_lists_its_keys_in_order() {
    let mut map: TextMap<u64> = TextMap::new();
    map.insert("b".to_string(), 1);
    map.insert("a".to_string(), 2);
    map.insert("b".to_string(), 3);
    assert_eq!(map.len(), 2);
    assert_eq!(map.get("b"), Some(&3));
    assert_eq!(map.get("c"), None);
    assert!(map.contains_key("a"));
    assert_eq!(map.keys(), texts(&["a", "b"]));
}
