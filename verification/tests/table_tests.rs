use hash_table::{hash_function, HashTable};

const SIZE_10: usize = 10;
const TEST_STR_1: &str = "abcd";
const TEST_STR_2: &str = "efgh";

// Both hash to slot 7 of ten: 'a' is 97, 'k' is 107.
const COLLISION_STR_1: &str = "a";
const COLLISION_STR_2: &str = "k";

#[test]
fn test_hash_function_within_index() {
    let upper_bound = 10;
    let hash_code = hash_function("abcdefghijklmnopqrstuvwxyz", upper_bound);
    assert!(hash_code < upper_bound);
}

#[test]
fn test_new_hash_table() {
    let test_hash_table: HashTable<String> = HashTable::new(SIZE_10, false);
    assert!(test_hash_table.is_empty());
}

#[test]
fn test_size() {
    let mut test_hash_table: HashTable<String> = HashTable::new(SIZE_10, false);
    test_hash_table.insert(TEST_STR_1.to_owned()).unwrap();
    test_hash_table.insert(TEST_STR_2.to_owned()).unwrap();
    assert!(test_hash_table.size() == 2);
}

#[test]
fn test_insert() {
    let mut test_hash_table: HashTable<String> = HashTable::new(SIZE_10, false);
    test_hash_table
        .insert(TEST_STR_1.to_owned())
        .expect("oopsie");
    assert!(!test_hash_table.is_empty());
}

#[test]
fn test_insert_collision() {
    let mut test_hash_table: HashTable<String> = HashTable::new(SIZE_10, false);
    test_hash_table
        .insert(COLLISION_STR_1.to_owned())
        .expect("oopsie");
    test_hash_table
        .insert(COLLISION_STR_2.to_owned())
        .expect("oopsie");
    assert!(test_hash_table.size() == 2);
}

#[test]
fn test_get_by_index() {
    let mut test_hash_table: HashTable<String> = HashTable::new(SIZE_10, false);
    test_hash_table
        .insert(TEST_STR_1.to_owned())
        .expect("oopsie");
    assert!(
        test_hash_table.get_index(hash_function(TEST_STR_1, SIZE_10))
            == Some(&TEST_STR_1.to_string())
    );
}

#[test]
fn test_get_by_string() {
    let mut test_hash_table: HashTable<String> = HashTable::new(SIZE_10, false);
    test_hash_table
        .insert(COLLISION_STR_1.to_owned())
        .expect("Insertion error.");
    test_hash_table
        .insert(COLLISION_STR_2.to_owned())
        .expect("Insertion error.");

    assert!(test_hash_table.get(&COLLISION_STR_2.to_owned()).unwrap() == COLLISION_STR_2);
}

#[test]
fn test_remove() {
    let mut test_hash_table: HashTable<String> = HashTable::new(SIZE_10, false);
    test_hash_table
        .insert(TEST_STR_1.to_owned())
        .expect("failed to insert");
    test_hash_table
        .insert(TEST_STR_2.to_owned())
        .expect("failed to insert");

    let removed_string = test_hash_table.remove(TEST_STR_1.to_owned());
    assert!(removed_string.unwrap() == *TEST_STR_1);
}

#[test]
fn test_remove_with_collision() {
    let mut test_hash_table: HashTable<String> = HashTable::new(SIZE_10, false);
    test_hash_table
        .insert(COLLISION_STR_1.to_owned())
        .expect("failed to insert");
    test_hash_table
        .insert(COLLISION_STR_2.to_owned())
        .expect("failed to insert");

    let removed_string = test_hash_table.remove(COLLISION_STR_2.to_owned());
    assert!(removed_string.unwrap() == *COLLISION_STR_2);
}

#[test]
fn test_remove_object_not_in_table() {
    let mut test_hash_table: HashTable<String> = HashTable::new(SIZE_10, false);
    assert!(test_hash_table.remove(TEST_STR_1.to_owned()) == None);
}

#[test]
fn test_growing_capacity_growable() {
    let mut test_hash_table: HashTable<String> = HashTable::new(SIZE_10, true);
    for c in 'a'..='z' {
        test_hash_table
            .insert(c.to_string())
            .expect("unexpected insertion error");
    }
    //With 26 being the number of letters a-z
    assert!(test_hash_table.size() == 26);
}

#[test]
fn test_growing_capacity_not_growable() {
    let mut test_hash_table: HashTable<String> = HashTable::new(SIZE_10, false);
    for c in 'a'..='z' {
        match test_hash_table.insert(c.to_string()) {
            Ok(_) => continue,
            Err(msg) => {
                println!("{}", msg);
                break;
            }
        }
    }
    //With 26 being the number of letters a-z
    assert!(test_hash_table.size() == 10);
}

#[test]
fn test_insert_vec() {
    let mut test_hash_table: HashTable<u32> = HashTable::new(SIZE_10, true);
    let my_vector = vec![22, 10, 2, 30, 23, 45, 1, 67, 4];
    test_hash_table
        .insert_vector(&my_vector)
        .expect("Error during test.");
    println!("{:?}", test_hash_table);
    assert!(test_hash_table.size() == 9);
}
