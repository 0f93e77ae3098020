use open_addressing::hashmap::HashMap;

#[test]
fn test_insert_and_retrieval() {
    // Type inference lets us omit an explicit type signature (which
    // would be `HashMap<String, String>` in this example).
    let mut book_reviews: HashMap<String, String> = HashMap::new();

    // Review some books.
    book_reviews.insert(
        "Pride and Prejudice".to_string(),
        "Very enjoyable.".to_string(),
    );

    // Look up the value for a key (will panic if the key is not found).
    assert_eq!(
        book_reviews.contains_key(&"Pride and Prejudice".to_string()),
        true
    );

    // Look up the value for a key
    assert_eq!(
        book_reviews.get(&"Pride and Prejudice".to_string()),
        Some(&"Very enjoyable.".to_string())
    );
    assert_ne!(
        book_reviews.get(&"Pride and Prejudice".to_string()),
        Some(&"A different string review.".to_string())
    );
}

#[test]
fn test_resizing_by_adding_many_items() {
    let mut test_map: HashMap<i64, i64> = HashMap::new();

    for i in 0..1000 {
        test_map.insert(3 * i, i * 8 + 5);
    }

    assert_eq!(test_map.size, 1000);
    assert_eq!(test_map.capacity, 2560);
    assert!(test_map.contains_key(&3));
    assert!(test_map.contains_key(&63));
    assert!(test_map.contains_key(&33));
    assert!(test_map.contains_key(&300));
}

#[test]
fn test_deletes() {
    let mut test_map: HashMap<i64, i64> = HashMap::new();

    for i in 0..10 {
        test_map.insert(3 * i, i * 8 + 5);
    }

    assert_eq!(test_map.get(&9), Some(&29));
    assert_eq!(test_map.remove(&9), Some(29));
    assert_eq!(test_map.get(&9), None);
}

#[test]
fn test_overwrite_same_key() {
    let mut map: HashMap<i64, i64> = HashMap::new();

    assert_eq!(map.insert(7, 100), None);
    assert_eq!(map.size, 1);
    assert_eq!(map.insert(7, 200), Some(100));
    assert_eq!(map.size, 1);
    assert_eq!(map.get(&7), Some(&200));
}

#[test]
fn test_absent_key() {
    let mut map: HashMap<i64, i64> = HashMap::new();

    // On a freshly created table.
    assert_eq!(map.get(&42), None);
    assert_eq!(map.contains_key(&42), false);
    assert_eq!(map.remove(&42), None);
    assert_eq!(map.size, 0);

    // On a table holding other keys.
    map.insert(1, 10);
    map.insert(2, 20);
    assert_eq!(map.get(&42), None);
    assert_eq!(map.contains_key(&42), false);
    assert_eq!(map.remove(&42), None);
    assert_eq!(map.size, 2);
}

#[test]
fn test_remove_decrements_size() {
    let mut map: HashMap<i64, i64> = HashMap::new();

    map.insert(1, 10);
    map.insert(2, 20);
    map.insert(3, 30);
    assert_eq!(map.size, 3);

    assert_eq!(map.remove(&2), Some(20));
    assert_eq!(map.size, 2);
    assert_eq!(map.get(&2), None);
    assert_eq!(map.contains_key(&2), false);

    // The other keys are untouched by this removal (no collision here).
    assert_eq!(map.get(&1), Some(&10));
    assert_eq!(map.get(&3), Some(&30));
}

#[test]
fn test_resize_at_exact_threshold() {
    let mut map: HashMap<i64, i64> = HashMap::new();
    assert_eq!(map.capacity, 20);

    // Fourteen entries fill the table to exactly the 0.7 threshold:
    // the fourteenth insert sees 10 * (13 + 1) == 7 * 20, not above
    // it, so the table does not grow yet.
    for i in 0..14 {
        map.insert(i, i);
    }
    assert_eq!(map.capacity, 20);
    assert_eq!(map.size, 14);

    // The fifteenth insert would push the fraction past the
    // threshold, so it doubles the capacity first.
    map.insert(14, 14);
    assert_eq!(map.capacity, 40);
    assert_eq!(map.size, 15);

    // Every inserted key is still retrievable after the rehash.
    for i in 0..15 {
        assert_eq!(map.get(&i), Some(&i));
    }
}

#[test]
fn test_colliding_keys_chain() {
    let mut map: HashMap<i64, i64> = HashMap::new();

    // 0, 20, 40 and 60 all start probing at the same slot of a
    // 20-slot table, so they chain into consecutive slots.
    map.insert(0, 1);
    map.insert(20, 2);
    map.insert(40, 3);
    map.insert(60, 4);

    assert_eq!(map.get(&0), Some(&1));
    assert_eq!(map.get(&20), Some(&2));
    assert_eq!(map.get(&40), Some(&3));
    assert_eq!(map.get(&60), Some(&4));
    assert_eq!(map.size, 4);
}

#[test]
fn test_naive_delete_cuts_chain() {
    let mut map: HashMap<i64, i64> = HashMap::new();

    // 0 and 20 collide: 20 is displaced to the slot after 0.
    map.insert(0, 1);
    map.insert(20, 2);

    // Vacating 0's slot cuts 20's probe chain: probing for 20 now
    // meets the emptied slot first and reports it absent, although its
    // pair still occupies the next slot. This is the documented
    // behavior of deletion without tombstones or chain repair.
    assert_eq!(map.remove(&0), Some(1));
    assert_eq!(map.size, 1);
    assert_eq!(map.get(&20), None);
    assert_eq!(map.contains_key(&20), false);

    // Inserting 20 again fills the emptied slot.
    assert_eq!(map.insert(20, 5), None);
    assert_eq!(map.get(&20), Some(&5));
}

#[test]
fn test_string_keys() {
    let mut map: HashMap<String, u64> = HashMap::new();

    map.insert("alpha".to_string(), 1);
    map.insert("beta".to_string(), 2);
    map.insert("".to_string(), 3);

    assert_eq!(map.get(&"alpha".to_string()), Some(&1));
    assert_eq!(map.get(&"beta".to_string()), Some(&2));
    assert_eq!(map.get(&"".to_string()), Some(&3));
    assert_eq!(map.get(&"gamma".to_string()), None);
    assert_eq!(map.remove(&"beta".to_string()), Some(2));
    assert_eq!(map.get(&"beta".to_string()), None);
    assert_eq!(map.size, 2);
}

#[test]
fn test_u64_keys_and_negative_i64_keys() {
    let mut unsigned: HashMap<u64, i64> = HashMap::new();
    unsigned.insert(u64::MAX, -1);
    unsigned.insert(0, 7);
    assert_eq!(unsigned.get(&u64::MAX), Some(&-1));
    assert_eq!(unsigned.get(&0), Some(&7));

    let mut signed: HashMap<i64, i64> = HashMap::new();
    signed.insert(i64::MIN, 1);
    signed.insert(i64::MAX, 2);
    signed.insert(-3, 3);
    assert_eq!(signed.get(&i64::MIN), Some(&1));
    assert_eq!(signed.get(&i64::MAX), Some(&2));
    assert_eq!(signed.get(&-3), Some(&3));
    assert_eq!(signed.get(&3), None);
}

#[test]
fn test_growth_keeps_all_bindings() {
    let mut map: HashMap<i64, i64> = HashMap::new();

    // 100 distinct keys force several doublings: 20 -> 40 -> 80 -> 160.
    for i in 0..100 {
        map.insert(i * 7, i);
    }
    assert_eq!(map.size, 100);
    assert_eq!(map.capacity, 160);
    for i in 0..100 {
        assert_eq!(map.get(&(i * 7)), Some(&i));
    }
}
