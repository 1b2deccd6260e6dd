use hash_table::{hash_function, HashTable, CAPACITY_EXCEEDED};

#[test]
fn round_trip_of_each_inserted_value() {
    let mut table: HashTable<String> = HashTable::new(8, true);
    let words = ["alpha", "beta", "gamma", "delta", "epsilon", "zeta"];
    for word in words {
        table.insert(word.to_owned()).unwrap();
        assert_eq!(table.get(&word.to_owned()), Some(&word.to_owned()));
    }
    for word in words {
        assert_eq!(table.get(&word.to_owned()), Some(&word.to_owned()));
    }
}

#[test]
fn size_counts_the_successful_insertions() {
    let mut table: HashTable<u32> = HashTable::new(16, false);
    for (count, value) in [3u32, 19, 35, 4, 100, 7, 51].into_iter().enumerate() {
        assert_eq!(table.size(), count);
        table.insert(value).unwrap();
        assert_eq!(table.size(), count + 1);
    }
    assert_eq!(table.size(), 7);
}

#[test]
fn capacity_ceiling_of_a_table_that_may_not_grow() {
    let capacity = 6;
    let mut table: HashTable<u32> = HashTable::new(capacity, false);
    for value in 0..6u32 {
        assert_eq!(table.insert(value * 6), Ok(()));
    }
    assert_eq!(table.size(), capacity);
    assert_eq!(table.insert(1000), Err(CAPACITY_EXCEEDED));
    assert_eq!(table.size(), capacity);
    assert_eq!(table.capacity(), capacity);
}

#[test]
fn growth_preserves_membership() {
    let capacity = 5;
    let mut table: HashTable<u32> = HashTable::new(capacity, true);
    let values: Vec<u32> = (0..10).map(|n| n * 7 + 1).collect();
    for value in &values {
        assert_eq!(table.insert(*value), Ok(()));
    }
    assert_eq!(table.size(), 2 * capacity);
    assert_eq!(table.capacity(), 2 * capacity);
    for value in &values {
        assert_eq!(table.get(value), Some(value));
    }
}

#[test]
fn colliding_values_take_different_slots_and_are_both_found() {
    assert_eq!(hash_function("a", 10), hash_function("k", 10));
    let mut table: HashTable<String> = HashTable::new(10, false);
    table.insert("a".to_owned()).unwrap();
    table.insert("k".to_owned()).unwrap();
    assert_eq!(table.get_index(7), Some(&"a".to_owned()));
    assert_eq!(table.get_index(8), Some(&"k".to_owned()));
    assert_eq!(table.get(&"a".to_owned()), Some(&"a".to_owned()));
    assert_eq!(table.get(&"k".to_owned()), Some(&"k".to_owned()));
}

#[test]
fn removal_then_lookup_finds_nothing_and_size_drops_by_one() {
    let mut table: HashTable<u32> = HashTable::new(8, false);
    table.insert_vector(&[1, 9, 17, 4]).unwrap();
    assert_eq!(table.size(), 4);
    assert_eq!(table.remove(9), Some(9));
    assert_eq!(table.get(&9), None);
    assert_eq!(table.size(), 3);
    assert_eq!(table.remove(25), None);
    assert_eq!(table.size(), 3);
    assert_eq!(table.get(&1), Some(&1));
    assert_eq!(table.get(&17), Some(&17));
    assert_eq!(table.get(&4), Some(&4));
}

#[test]
fn example_scenario() {
    let mut table: HashTable<String> = HashTable::new(10, false);
    table.insert("abcd".to_owned()).unwrap();
    table.insert("efgh".to_owned()).unwrap();
    assert_eq!(table.size(), 2);
    assert_eq!(table.get(&"abcd".to_owned()), Some(&"abcd".to_owned()));
    assert_eq!(table.remove("abcd".to_owned()), Some("abcd".to_owned()));
    assert_eq!(table.get(&"abcd".to_owned()), None);
    assert_eq!(table.remove("zzzz".to_owned()), None);
}

#[test]
fn growth_scenario() {
    let mut table: HashTable<String> = HashTable::new(10, true);
    for c in 'a'..='z' {
        assert_eq!(table.insert(c.to_string()), Ok(()));
    }
    assert_eq!(table.size(), 26);
    assert_eq!(table.capacity(), 40);
    for c in 'a'..='z' {
        assert_eq!(table.get(&c.to_string()), Some(&c.to_string()));
    }
}
