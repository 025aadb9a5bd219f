use rand::seq::SliceRandom;
use randomized_skip_list::SkipList;

#[test]
fn empty_find_is_none() {
    let sl: SkipList<i64> = SkipList::new();
    assert!(sl.find(&7).is_none());
}

#[test]
fn insert_then_find() {
    let mut sl: SkipList<i64> = SkipList::new();
    sl.insert(5);
    sl.insert(1);
    sl.insert(3);
    sl.insert(4);
    sl.insert(2);
    for v in 1..=5i64 {
        assert_eq!(sl.find(&v).copied(), Some(v));
    }
    assert!(sl.find(&0).is_none());
    assert!(sl.find(&6).is_none());
}

#[test]
fn ascending_walk() {
    let mut sl: SkipList<i64> = SkipList::new();
    for v in [5i64, 1, 3, 4, 2] {
        sl.insert(v);
    }
    // start at the smallest and walk successor links: 1, 2, 3, 4, 5
    let mut idx = sl.front().expect("the list is not empty");
    assert_eq!(sl.find_node(&1), Some(idx));
    let mut seen: Vec<i64> = vec![*sl.node(idx).val()];
    while let Some(nxt) = sl.node(idx).suc() {
        seen.push(*sl.node(nxt).val());
        idx = nxt;
    }
    assert_eq!(seen, vec![1, 2, 3, 4, 5]);
    // and back down again via predecessors
    let mut back: Vec<i64> = vec![*sl.node(idx).val()];
    while let Some(prv) = sl.node(idx).pre() {
        back.push(*sl.node(prv).val());
        idx = prv;
    }
    assert_eq!(back, vec![5, 4, 3, 2, 1]);
}

#[test]
fn duplicates_delete_one_at_a_time() {
    let mut sl: SkipList<i64> = SkipList::new();
    sl.insert(7);
    sl.insert(7);
    assert_eq!(sl.delete(&7), Some(7));
    assert_eq!(sl.find(&7).copied(), Some(7));
    assert_eq!(sl.delete(&7), Some(7));
    assert!(sl.delete(&7).is_none());
    assert!(sl.find(&7).is_none());
}

#[test]
fn insert_delete_restores() {
    let mut sl: SkipList<i64> = SkipList::new();
    for v in [10i64, 20, 30] {
        sl.insert(v);
    }
    sl.insert(25);
    assert_eq!(sl.delete(&25), Some(25));
    for v in [10i64, 20, 30] {
        assert_eq!(sl.find(&v).copied(), Some(v));
    }
    assert!(sl.find(&25).is_none());
}

#[test]
fn insert_or_replace_keeps_one_per_key() {
    let mut sl: SkipList<i64> = SkipList::new();
    assert_eq!(sl.insert_or_replace(1), None);
    assert_eq!(sl.insert_or_replace(1), Some(1));
    assert_eq!(sl.delete(&1), Some(1));
    assert!(sl.delete(&1).is_none());
}

#[test]
fn delete_on_empty_is_none() {
    let mut sl: SkipList<i64> = SkipList::new();
    assert!(sl.delete(&99).is_none());
}

#[test]
fn many_random_values() {
    let n: usize = 1000;
    let mut vals: Vec<i64> = (0..n as i64).collect();
    let mut rng = rand::thread_rng();
    vals.shuffle(&mut rng);
    let mut sl: SkipList<i64> = SkipList::new();
    for &v in vals.iter() {
        sl.insert(v);
    }
    for j in (0..n).rev() {
        assert_eq!(sl.delete(&vals[j]), Some(vals[j]));
        assert!(sl.find(&vals[j]).is_none());
        if j > 0 {
            assert_eq!(sl.find(&vals[j - 1]).copied(), Some(vals[j - 1]));
        }
        if j % 25 == 0 {
            for &w in vals[..j].iter() {
                assert_eq!(sl.find(&w).copied(), Some(w));
            }
        }
    }
}

#[test]
fn front_of_empty_is_none() {
    let sl: SkipList<i64> = SkipList::new();
    assert!(sl.front().is_none());
}
