use poop_scoreboard::keyed::Keyed;
use poop_scoreboard::text::{decimal_text, insert_ordered, str_eq, str_lt, strip_ends};

#[test]
fn texts_are_ordered_as_strings_are() {
    let samples = [
        "", "a", "A", "ab", "abc", "abd", "b", "Z", "z", "0", "10", "9", " ", "\u{e9}", "e\u{301}",
        "\u{7f}", "\u{80}", "\u{7ff}", "\u{800}", "\u{ffff}", "\u{10000}", "\u{10ffff}", "aa\u{10000}",
        "aa\u{ffff}",
    ];
    for a in samples {
        for b in samples {
            assert_eq!(str_lt(a, b), a < b, "{:?} < {:?}", a, b);
            assert_eq!(str_eq(a, b), a == b, "{:?} == {:?}", a, b);
        }
    }
}

#[test]
fn a_prefix_comes_first() {
    assert!(str_lt("al", "alice"));
    assert!(!str_lt("alice", "al"));
    assert!(!str_lt("alice", "alice"));
    assert!(str_lt("", "a"));
    assert!(!str_lt("", ""));
}

#[test]
fn integers_in_decimal() {
    let cases: [i64; 14] = [
        0, 1, 9, 10, 11, 99, 100, 1234567890, -1, -9, -10, -1000, i64::MAX, i64::MIN,
    ];
    for v in cases {
        assert_eq!(decimal_text(v), v.to_string());
    }
    assert_eq!(decimal_text(-15), "-15");
    assert_eq!(decimal_text(i64::MIN), "-9223372036854775808");
    assert_eq!(decimal_text(7), "7");
}

#[test]
fn one_character_leaves_from_each_end() {
    assert_eq!(strip_ends("\"Deaths\""), "Deaths");
    assert_eq!(strip_ends("abc"), "b");
    assert_eq!(strip_ends("ab"), "");
    assert_eq!(strip_ends("a"), "");
    assert_eq!(strip_ends(""), "");
    assert_eq!(strip_ends("\u{1f600}x\u{1f600}"), "x");
    assert_eq!(strip_ends("\"\"\"\""), "\"\"");
}

#[test]
fn names_go_to_their_place() {
    let mut names: Vec<String> = Vec::new();
    for name in ["m", "a", "z", "m", "b", "", "a", "zz"] {
        insert_ordered(&mut names, name.to_string());
    }
    assert_eq!(names, vec!["", "a", "b", "m", "z", "zz"]);
}

#[test]
fn a_mapping_is_walked_in_order_of_its_names() {
    let mut map: Keyed<i32> = Keyed::new();
    assert_eq!(map.len(), 0);
    assert_eq!(map.get("a"), None);
    map.insert("m".to_string(), 1);
    map.insert("a".to_string(), 2);
    map.insert("z".to_string(), 3);
    map.insert("b".to_string(), 4);
    assert_eq!(map.len(), 4);
    let walked: Vec<(String, i32)> = (0..map.len()).map(|i| (map.key(i).clone(), *map.value(i))).collect();
    assert_eq!(
        walked,
        vec![("a".to_string(), 2), ("b".to_string(), 4), ("m".to_string(), 1), ("z".to_string(), 3)]
    );
    assert_eq!(map.get("m"), Some(&1));
    assert_eq!(map.get("n"), None);
    assert_eq!(map.get(""), None);
    assert_eq!(map.get("zz"), None);
}

#[test]
fn a_value_under_a_known_name_is_replaced() {
    let mut map: Keyed<i32> = Keyed::new();
    map.insert("a".to_string(), 1);
    map.insert("b".to_string(), 2);
    map.insert("a".to_string(), 3);
    assert_eq!(map.len(), 2);
    assert_eq!(map.get("a"), Some(&3));
    assert_eq!(map.get("b"), Some(&2));
}

#[test]
fn items_are_added_to_the_list_of_their_name() {
    let mut map: Keyed<Vec<i32>> = Keyed::new();
    map.push("b".to_string(), 1);
    map.push("a".to_string(), 2);
    map.push("b".to_string(), 3);
    map.push("b".to_string(), 1);
    assert_eq!(map.len(), 2);
    assert_eq!(map.get("a"), Some(&vec![2]));
    assert_eq!(map.get("b"), Some(&vec![1, 3, 1]));
    assert_eq!(map.key(0), "a");
    assert_eq!(map.key(1), "b");
}
