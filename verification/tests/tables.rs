use cardano_census::sort::sort;
use cardano_census::table::{distinct, Table};
use cardano_census::text::{number, parse_unsigned, signed_number};

#[test]
fn a_table_keeps_its_keys_in_order_and_the_first_value() {
    let mut t = Table::new();
    assert_eq!(t.slot("b", 1), 0);
    assert_eq!(t.slot("a", 2), 0);
    assert_eq!(t.slot("b", 3), 1, "already there");
    assert_eq!(t.keys, vec!["a", "b"]);
    assert_eq!((t.get("a"), t.get("b"), t.get("c")), (Some(&2), Some(&1), None));
    t.set(1, 9);
    assert_eq!(t.get("b"), Some(&9));
}

#[test]
fn distinct_texts_ascend() {
    let s = |v: &[&str]| v.iter().map(|k| k.to_string()).collect::<Vec<_>>();
    assert_eq!(distinct(&s(&["b", "a", "b", "aa", ""])), s(&["", "a", "aa", "b"]));
}

#[test]
fn sorting_is_stable_and_complete() {
    assert_eq!(sort(vec![3u64, 1, 2, 1]), vec![1, 1, 2, 3]);
}

#[test]
fn numbers_read_back() {
    for n in [0u64, 9, 10, 12345, u64::MAX] {
        assert_eq!(number(n), n.to_string());
        let chars: Vec<char> = number(n).chars().collect();
        assert_eq!(parse_unsigned(&chars, u64::MAX), Some(n));
    }
    let read = |s: &str, max: u64| parse_unsigned(&s.chars().collect::<Vec<_>>(), max);
    assert_eq!((read("256", 255), read("255", 255), read("+7", 9), read("", 9), read("-1", 9)), (None, Some(255), Some(7), None, None));
    assert_eq!(signed_number(i128::MIN), i128::MIN.to_string());
    assert_eq!(signed_number(-5), "-5");
}
