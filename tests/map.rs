use lockfree::map::TrieMap;

#[test]
fn inserts_and_gets() {
    let mut map = TrieMap::new();
    assert_eq!(map.get("five", |x| *x), None);
    assert!(map.insert("five".to_owned(), 5).is_none());
    assert_eq!(map.get("five", |x| *x), Some(5));
    assert_eq!(map.get("four", |x| *x), None);
    assert!(map.insert("four".to_owned(), 4).is_none());
    assert_eq!(map.get("five", |x| *x), Some(5));
    assert_eq!(map.get("four", |x| *x), Some(4));
    map.get_pair("four", |k, v| {
        assert_eq!(k, "four");
        assert_eq!(*v, 4);
    });
}

#[test]
fn inserts_reinserts() {
    let mut map = TrieMap::new();
    assert!(map.insert("four".to_owned(), 4).is_none());
    let prev = map.insert("four".to_owned(), 40).unwrap();
    assert_eq!((prev.key().as_str(), *prev.val()), ("four", 4));
    let back = map.reinsert(prev).unwrap();
    assert_eq!((back.key().as_str(), *back.val()), ("four", 40));
    assert!(map.get("four", |&x| x == 4).unwrap());
}

#[test]
fn inserts_and_removes() {
    let mut map = TrieMap::new();
    assert!(map.remove("five").is_none());
    assert!(map.remove("four").is_none());
    map.insert("five".to_owned(), 5);
    let removed = map.remove("five").unwrap();
    assert_eq!((removed.key().as_str(), *removed.val()), ("five", 5));
    assert!(map.insert("four".to_owned(), 4).is_none());
    map.insert("three".to_owned(), 3);
    assert!(map.remove("two").is_none());
    map.insert("two".to_owned(), 2);
    let removed = map.remove("three").unwrap();
    assert_eq!((removed.key().as_str(), *removed.val()), ("three", 3));
    let removed = map.remove("two").unwrap();
    assert_eq!((removed.key().as_str(), *removed.val()), ("two", 2));
    let removed = map.remove("four").unwrap();
    assert_eq!((removed.key().as_str(), *removed.val()), ("four", 4));
}

#[test]
fn repeated_inserts() {
    let mut map = TrieMap::new();
    assert!(map.insert("five".to_owned(), 5).is_none());
    assert!(*map.insert("five".to_owned(), 5).unwrap().val() == 5);
}

#[test]
fn empty_map_finds_nothing() {
    let map: TrieMap<i64> = TrieMap::default();
    assert_eq!(map.get("x", |x| *x), None);
    assert_eq!(map.get_pair("x", |_, v| *v), None);
}

#[test]
fn second_remove_finds_nothing() {
    let mut map = TrieMap::new();
    assert!(map.remove("x").is_none());
    map.insert("five".to_owned(), 5);
    let removed = map.remove("five").unwrap();
    assert_eq!((removed.key().as_str(), *removed.val()), ("five", 5));
    assert!(map.remove("five").is_none());
    assert_eq!(map.get("five", |x| *x), None);
}

#[test]
fn reinsert_round_trip_restores_value() {
    let mut map = TrieMap::new();
    map.insert("k".to_owned(), 7);
    let removed = map.remove("k").unwrap();
    assert_eq!(map.get("k", |x| *x), None);
    assert!(map.reinsert(removed).is_none());
    assert_eq!(map.get("k", |x| *x), Some(7));
}

#[test]
fn displacement_hands_back_old_value() {
    let mut map = TrieMap::new();
    assert!(map.insert("k".to_owned(), 1).is_none());
    let r = map.insert("k".to_owned(), 2).unwrap();
    assert_eq!(*r.val(), 1);
    assert_eq!(r.key(), "k");
    assert_eq!(map.get("k", |x| *x), Some(2));
}

#[test]
fn double_insert_then_remove_leaves_no_pair() {
    let mut map = TrieMap::new();
    map.insert("k".to_owned(), 1);
    map.insert("k".to_owned(), 2);
    assert_eq!(*map.remove("k").unwrap().val(), 2);
    assert!(map.remove("k").is_none());
    assert_eq!(map.get("k", |x| *x), None);
}

#[test]
fn chained_inserts_keep_every_key() {
    let mut map = TrieMap::new();
    for i in 1i64..=20 {
        let prev = map.get(&format!("prefix{}suffix", i - 1), |x| *x).unwrap_or(0);
        map.insert(format!("prefix{}suffix", i), prev + i);
    }
    for i in 1i64..=20 {
        assert!(map.get(&format!("prefix{}suffix", i), |x| *x > 0).unwrap());
    }
    assert_eq!(map.get("prefix20suffix", |x| *x), Some(210));
}

#[test]
fn many_keys_all_found() {
    let mut map = TrieMap::new();
    for i in 0u32..2000 {
        assert!(map.insert(format!("key{}", i), i).is_none());
    }
    for i in 0u32..2000 {
        assert_eq!(map.get(&format!("key{}", i), |x| *x), Some(i));
    }
    for i in (0u32..2000).step_by(2) {
        assert_eq!(*map.remove(&format!("key{}", i)).unwrap().val(), i);
    }
    for i in 0u32..2000 {
        let expected = if i % 2 == 0 { None } else { Some(i) };
        assert_eq!(map.get(&format!("key{}", i), |x| *x), expected);
    }
}

#[test]
fn removed_pairs_compare_by_key_then_value() {
    let mut map = TrieMap::new();
    map.insert("a".to_owned(), 2);
    map.insert("b".to_owned(), 1);
    let a = map.remove("a").unwrap();
    let b = map.remove("b").unwrap();
    assert!(a < b);
    map.insert("a".to_owned(), 2);
    let a2 = map.insert("a".to_owned(), 3).unwrap();
    assert_eq!(a, a2);
    let a3 = map.remove("a").unwrap();
    assert!(a2 < a3);
}
