use pfds::treemap::TreeMap;

#[test]
fn treemap_test() {
    let empty_map: TreeMap<i64, i64> = TreeMap::empty();
    assert_eq!(empty_map.lookup(&42), None);

    let map = TreeMap::empty()
        .bind(String::from("abcde"), 12345)
        .bind(String::from("fghik"), 67890);
    assert_eq!(map.lookup(&String::from("abcde")), Some(&12345));
    assert_eq!(map.lookup(&String::from("fghik")), Some(&67890));
    assert_eq!(map.lookup(&String::from("ooooo")), None);
}

#[test]
fn treemap_round_trip() {
    let map: TreeMap<i64, i64> = TreeMap::empty().bind(10, 100).bind(-3, 30).bind(7, 70);
    assert_eq!(map.lookup(&10), Some(&100));
    assert_eq!(map.lookup(&-3), Some(&30));
    assert_eq!(map.lookup(&7), Some(&70));
    assert_eq!(map.lookup(&0), None);
    let empty_map: TreeMap<i64, i64> = TreeMap::empty();
    assert_eq!(empty_map.lookup(&0), None);
    assert_eq!(empty_map.lookup(&10), None);
}

#[test]
fn treemap_rebind_is_noop() {
    let map: TreeMap<i64, i64> = TreeMap::empty().bind(4, 40).bind(9, 90);
    let rebound = map.bind(4, 41);
    assert_eq!(rebound.lookup(&4), Some(&40));
    assert_eq!(rebound.lookup(&9), Some(&90));
    let deeper = map.bind(9, 91);
    assert_eq!(deeper.lookup(&9), Some(&90));
}

#[test]
fn treemap_string_key_ordering() {
    let map: TreeMap<String, i64> = TreeMap::empty()
        .bind(String::from("b"), 2)
        .bind(String::from("a"), 1)
        .bind(String::from("ab"), 3)
        .bind(String::from(""), 0);
    assert_eq!(map.lookup(&String::from("")), Some(&0));
    assert_eq!(map.lookup(&String::from("a")), Some(&1));
    assert_eq!(map.lookup(&String::from("ab")), Some(&3));
    assert_eq!(map.lookup(&String::from("b")), Some(&2));
    assert_eq!(map.lookup(&String::from("aa")), None);
    let rebound = map.bind(String::from("a"), 9);
    assert_eq!(rebound.lookup(&String::from("a")), Some(&1));
}
