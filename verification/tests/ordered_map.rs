use route_builder::geometry::isqrt;
use route_builder::ordered_map::OrderedMap;
use route_builder::text::{compare_bytes, compare_keys, find_char, same_text, KeyOrder};

#[test]
fn entries_are_listed_in_the_order_of_their_keys() {
    let mut map: OrderedMap<u32> = OrderedMap::new();
    assert_eq!(map.len(), 0);
    assert_eq!(map.insert("b".to_string(), 2), None);
    assert_eq!(map.insert("a".to_string(), 1), None);
    assert_eq!(map.insert("c".to_string(), 3), None);
    assert_eq!(map.insert("ab".to_string(), 4), None);
    assert_eq!(map.insert("b".to_string(), 5), Some(2));
    assert_eq!(map.len(), 4);
    let keys: Vec<&str> = (0..map.len()).map(|i| map.key_at(i).as_str()).collect();
    assert_eq!(keys, vec!["a", "ab", "b", "c"]);
    let values: Vec<u32> = (0..map.len()).map(|i| *map.value_at(i)).collect();
    assert_eq!(values, vec![1, 4, 5, 3]);
    assert_eq!(map.get("ab"), Some(&4));
    assert_eq!(map.get("d"), None);
    assert_eq!(map.position("b"), Some(2));
    assert_eq!(map.position("aa"), None);
    assert!(map.contains_key("c"));
    assert!(!map.contains_key(""));
    assert_eq!(map.remove("ab"), Some(4));
    assert_eq!(map.remove("ab"), None);
    assert_eq!(map.len(), 3);
    let (keys, values) = map.into_lists();
    assert_eq!(keys, vec!["a", "b", "c"]);
    assert_eq!(values, vec![1, 5, 3]);
}

#[test]
fn keys_are_ordered_as_their_bytes() {
    assert_eq!(compare_keys("2738", "2740"), KeyOrder::Less);
    assert_eq!(compare_keys("KELB", "KELB"), KeyOrder::Equal);
    assert_eq!(compare_keys("b", "a"), KeyOrder::Greater);
    assert_eq!(compare_keys("a", "ab"), KeyOrder::Less);
    assert_eq!(compare_keys("", "a"), KeyOrder::Less);
    assert_eq!(compare_keys("10", "9"), KeyOrder::Less);
    assert_eq!(compare_keys("Z", "a"), KeyOrder::Less);
    assert_eq!(compare_keys("é", "z"), KeyOrder::Greater);
    assert_eq!(compare_bytes(&[1, 2, 3], &[1, 2]), KeyOrder::Greater);
    assert_eq!(compare_bytes(&[], &[]), KeyOrder::Equal);
    assert!(same_text("abc", "abc"));
    assert!(!same_text("abc", "abd"));
    assert_eq!(find_char("a/b/c", '/'), Some(1));
    assert_eq!(find_char("é/b", '/'), Some(1));
    assert_eq!(find_char("abc", '/'), None);
}

#[test]
fn integer_square_roots() {
    assert_eq!(isqrt(0), 0);
    assert_eq!(isqrt(1), 1);
    assert_eq!(isqrt(3), 1);
    assert_eq!(isqrt(4), 2);
    assert_eq!(isqrt(24), 4);
    assert_eq!(isqrt(25), 5);
    assert_eq!(isqrt(1 << 64), 1 << 32);
    assert_eq!(isqrt((1 << 64) - 1), (1 << 32) - 1);
    assert_eq!(isqrt(u128::MAX), u64::MAX);
}
