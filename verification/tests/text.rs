use metamoji::collections::{TextMap, TextSet};
use metamoji::text::{
    chars_of, decimal_of, insert_text, joined, lowercased, same_text, text_has_part, text_precedes,
};

#[test]
fn texts_stand_in_the_order_of_their_code_points() {
    let words = ["", "A", "a", "aa", "ab", "b", "z", "é", "あ", "読", "\u{1f600}"];
    for a in words {
        for b in words {
            assert_eq!(text_precedes(a, b), a < b, "{a} {b}");
            assert_eq!(same_text(a, b), a == b, "{a} {b}");
        }
    }
}

#[test]
fn a_part_is_found_wherever_it_stands() {
    for (whole, part) in [
        ("", ""),
        ("a", ""),
        ("", "a"),
        ("aab", "ab"),
        ("abab", "bb"),
        ("P1_[layer-forUser]_42", "_[layer-for"),
        ("P1_[layer-common]", "_[layer-for"),
        ("ああい", "あい"),
    ] {
        assert_eq!(text_has_part(whole, part), whole.contains(part), "{whole} {part}");
    }
}

#[test]
fn numbers_are_written_in_decimal() {
    for n in [0, 7, 9, 10, 99, 100, 120, usize::MAX] {
        assert_eq!(decimal_of(n), n.to_string());
    }
}

#[test]
fn only_the_letters_of_ascii_change_their_case() {
    assert_eq!(lowercased("Set-COOKIE É @[`{"), "set-cookie É @[`{");
    assert_eq!(lowercased("AZaz"), "azaz");
    assert_eq!(joined("あ", "b"), "あb");
    assert_eq!(chars_of("あb"), vec!['あ', 'b']);
}

#[test]
fn a_list_takes_each_text_once_where_it_belongs() {
    let mut list = Vec::new();
    for word in ["b", "a", "c", "b", "aa"] {
        insert_text(&mut list, word.to_string());
    }
    assert_eq!(list, vec!["a", "aa", "b", "c"]);
}

#[test]
fn a_set_holds_what_was_put_in() {
    let mut set = TextSet::new();
    assert!(set.is_empty());
    set.insert("a".to_string());
    set.insert("a".to_string());
    assert!(set.contains("a"));
    assert!(!set.contains("b"));
    assert!(!set.is_empty());
}

#[test]
fn a_map_gives_back_what_was_put_in_last() {
    let mut map = TextMap::new();
    map.insert("k".to_string(), "1".to_string());
    map.insert("l".to_string(), "2".to_string());
    map.insert("k".to_string(), "3".to_string());
    assert_eq!(map.get("k").unwrap(), "3");
    assert_eq!(map.get("l").unwrap(), "2");
    assert!(map.get("m").is_none());
    assert!(!map.contains_key("m"));
    assert_eq!(map.entries().len(), 2);
}
