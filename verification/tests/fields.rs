use ptt_core::blocks::find_blocks;
use ptt_core::details::overlap;
use ptt_core::fields::{set_strings, strings, unique, FieldValue, Fields, Item};
use ptt_core::matching::{find, full, has_match, spans, text_of};
use ptt_core::ParseError;

fn texts(v: &[&str]) -> Vec<String> {
    v.iter().map(|s| s.to_string()).collect()
}

#[test]
fn unique_keeps_first_occurrences() {
    assert_eq!(unique(texts(&["a", "b", "a", "c", "b"])), texts(&["a", "b", "c"]));
}

#[test]
fn unique_twice_is_unique_once() {
    let once = unique(texts(&["x", "y", "x"]));
    assert_eq!(unique(once.clone()), once);
}

#[test]
fn unique_of_nothing() {
    assert_eq!(unique(Vec::new()), Vec::<String>::new());
}

#[test]
fn set_strings_then_strings_reads_back_distinct_values() {
    let mut result = Fields::new();
    set_strings(&mut result, "hdr", texts(&["HDR10", "DV", "HDR10"]));
    assert_eq!(strings(result.get("hdr")), texts(&["HDR10", "DV"]));
}

#[test]
fn strings_ignores_non_text_items_and_non_lists() {
    let mut result = Fields::new();
    result.insert(
        "audio",
        FieldValue::List(vec![
            Item::Text("AAC".to_string()),
            Item::Other(serde_json::Value::Bool(true)),
            Item::Text("DTS".to_string()),
        ]),
    );
    result.insert("title", FieldValue::Text("Movie".to_string()));
    assert_eq!(strings(result.get("audio")), texts(&["AAC", "DTS"]));
    assert_eq!(strings(result.get("title")), Vec::<String>::new());
    assert_eq!(strings(result.get("missing")), Vec::<String>::new());
}

#[test]
fn fields_insert_get_remove() {
    let mut result = Fields::new();
    result.insert("quality", FieldValue::Text("HDTV".to_string()));
    result.insert("quality", FieldValue::Text("BluRay".to_string()));
    assert_eq!(result.entries().len(), 1);
    match result.get("quality") {
        Some(v) => assert_eq!(v.as_text().map(|s| s.as_str()), Some("BluRay")),
        None => panic!("quality missing"),
    }
    result.remove("quality");
    assert!(result.get("quality").is_none());
    result.remove("quality");
    assert!(result.entries().is_empty());
}

#[test]
fn overlap_is_symmetric_on_values() {
    assert!(overlap((0, 5), (4, 8)));
    assert!(overlap((4, 8), (0, 5)));
    assert!(!overlap((0, 4), (4, 8)));
    assert!(!overlap((4, 8), (0, 4)));
}

#[test]
fn find_blocks_innermost_first() {
    let title = b"a [b (c)] {d";
    assert_eq!(find_blocks(title), vec![(10, 12), (5, 7), (2, 8)]);
}

#[test]
fn find_blocks_ignores_mismatched_closer() {
    assert_eq!(find_blocks(b"(a] b)"), vec![(0, 5)]);
}

#[test]
fn has_match_is_case_insensitive() {
    assert!(has_match(r"\bsubs\b", b"Movie SUBS"));
    assert!(!has_match(r"\bsubs\b", b"Movie subsX"));
}

#[test]
fn has_match_invalid_pattern_is_no_match() {
    assert!(!has_match("(", b"abc"));
}

#[test]
fn find_first_match() {
    assert_eq!(find("b+", b"abbcbb"), Some((1, 3)));
    assert_eq!(find("z", b"abc"), None);
}

#[test]
fn full_needs_whole_subject() {
    assert!(full(r"[ .,:-]*", b" .-"));
    assert!(!full(r"[ .,:-]*", b" x"));
    assert!(full(r"[ .,:-]*", b""));
}

#[test]
fn spans_use_group_one_or_whole_match() {
    let found = spans(r"(a)b|c", b"abxc").unwrap();
    assert_eq!(found, vec![(0, 2, b"a".to_vec()), (3, 4, b"c".to_vec())]);
}

#[test]
fn spans_invalid_pattern_is_regex_error() {
    match spans("(", b"abc") {
        Err(ParseError::Regex(message)) => assert!(!message.is_empty()),
        Ok(_) => panic!("an invalid pattern must fail"),
    }
}

#[test]
fn text_of_decodes_utf8() {
    assert_eq!(text_of("café".as_bytes()), "café");
}

#[test]
fn spans_refuse_a_match_inside_a_character() {
    match spans(r"\C", "é".as_bytes()) {
        Err(ParseError::Regex(message)) => assert_eq!(message, "a match splits a character"),
        Ok(_) => panic!("a one-byte match inside a character must fail"),
    }
}

#[test]
fn find_ignores_a_match_inside_a_character() {
    assert_eq!(find(r"\C", "é".as_bytes()), None);
    assert_eq!(find(r"\C", b"ab"), Some((0, 1)));
}

#[test]
fn spans_come_in_order() {
    let found = spans("a", b"banana").unwrap();
    let starts: Vec<(usize, usize)> = found.iter().map(|s| (s.0, s.1)).collect();
    assert_eq!(starts, vec![(1, 2), (3, 4), (5, 6)]);
}

#[test]
fn blocks_pair_matching_brackets() {
    let title = b"x [a (b] c) {d";
    let blocks = find_blocks(title);
    assert_eq!(blocks, vec![(12, 14), (5, 10), (2, 14)]);
    for (l, r) in blocks {
        let close = if r == title.len() { None } else { Some(title[r]) };
        match title[l] {
            b'(' => assert!(close.is_none() || close == Some(b')')),
            b'[' => assert!(close.is_none() || close == Some(b']')),
            _ => assert!(close.is_none() || close == Some(b'}')),
        }
    }
}
