use randomized_skip_list::SkipMap;

#[test]
fn put_get_replace() {
    let mut sm: SkipMap<&str> = SkipMap::new();
    assert_eq!(sm.put(1, "a"), None);
    assert_eq!(sm.get(1), Some(&"a"));
    assert_eq!(sm.put(1, "b"), Some("a"));
    assert_eq!(sm.get(1), Some(&"b"));
}

#[test]
fn del_on_empty_map() {
    let mut sm: SkipMap<i64> = SkipMap::new();
    assert_eq!(sm.del(99), None);
}

#[test]
fn replace_leaves_one_entry() {
    let mut sm: SkipMap<i64> = SkipMap::new();
    assert_eq!(sm.put(5, 50), None);
    assert_eq!(sm.put(5, 51), Some(50));
    assert_eq!(sm.del(5), Some(51));
    assert_eq!(sm.del(5), None);
    assert_eq!(sm.get(5), None);
}

#[test]
fn several_keys() {
    let mut sm: SkipMap<i64> = SkipMap::new();
    for k in [3i64, 1, 4, 1, 5, 9, 2, 6] {
        sm.put(k, 10 * k);
    }
    for k in [1i64, 2, 3, 4, 5, 6, 9] {
        assert_eq!(sm.get(k), Some(&(10 * k)));
    }
    assert_eq!(sm.get(7), None);
    assert_eq!(sm.del(4), Some(40));
    assert_eq!(sm.get(4), None);
    assert_eq!(sm.get(5), Some(&50));
}

#[test]
fn find_gives_live_slot() {
    let mut sm: SkipMap<i64> = SkipMap::new();
    sm.put(2, 20);
    sm.put(8, 80);
    let idx = sm.find(8).expect("key 8 is stored");
    let node = sm.list().node(idx);
    assert_eq!(node.val().key, 8);
    assert!(sm.find(3).is_none());
}
