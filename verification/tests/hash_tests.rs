use hash_table::{hash_function, Hashable};

#[test]
fn text_hash_is_the_sum_of_the_code_points() {
    // 'a' + 'b' + 'c' + 'd' = 97 + 98 + 99 + 100
    assert_eq!("abcd".hash(), 394);
    assert_eq!(String::from("abcd").hash(), 394);
    let borrowed: &str = "abcd";
    assert_eq!(Hashable::hash(&borrowed), 394);
    assert_eq!("efgh".hash(), 101 + 102 + 103 + 104);
}

#[test]
fn text_hash_of_the_empty_string_is_zero() {
    assert_eq!("".hash(), 0);
    assert_eq!(String::new().hash(), 0);
}

#[test]
fn text_hash_counts_code_points_not_bytes() {
    // U+00E9 takes two bytes and U+20AC three; their code points are 233 and 8364.
    assert_eq!("\u{e9}".hash(), 233);
    assert_eq!("\u{20ac}".hash(), 8364);
    assert_eq!("a\u{e9}\u{20ac}".hash(), 97 + 233 + 8364);
    assert_eq!("\u{10ffff}".hash(), 0x10ffff);
}

#[test]
fn text_hash_of_the_alphabet() {
    // 97 + 98 + ... + 122 = 2847
    assert_eq!("abcdefghijklmnopqrstuvwxyz".hash(), 2847);
    assert_eq!(hash_function("abcdefghijklmnopqrstuvwxyz", 10), 7);
}

#[test]
fn unsigned_hash_is_the_value() {
    assert_eq!(0usize.hash(), 0);
    assert_eq!(12345usize.hash(), 12345);
    assert_eq!(usize::MAX.hash(), usize::MAX);
    assert_eq!(255u8.hash(), 255);
    assert_eq!(65535u16.hash(), 65535);
    assert_eq!(22u32.hash(), 22);
    assert_eq!(4_000_000_000u32.hash(), 4_000_000_000);
    assert_eq!(67u64.hash(), 67);
    assert_eq!(67u128.hash(), 67);
}

#[test]
fn signed_hash_of_a_non_negative_value_is_the_value() {
    assert_eq!(127i8.hash(), 127);
    assert_eq!(32767i16.hash(), 32767);
    assert_eq!(45i32.hash(), 45);
    assert_eq!(45i64.hash(), 45);
    assert_eq!(45i128.hash(), 45);
}

#[test]
fn signed_hash_of_a_negative_value_wraps() {
    assert_eq!((-1i8).hash(), usize::MAX);
    assert_eq!((-1i16).hash(), usize::MAX);
    assert_eq!((-1i32).hash(), usize::MAX);
    assert_eq!((-1i64).hash(), usize::MAX);
    assert_eq!((-1i128).hash(), usize::MAX);
    assert_eq!((-2i8).hash(), usize::MAX - 1);
}

#[test]
fn wide_hash_keeps_the_low_bits() {
    assert_eq!(u128::MAX.hash(), usize::MAX);
    assert_eq!(((1u128 << 64) + 5).hash(), 5);
    assert_eq!(((1u128 << 100) + 9).hash(), 9);
}

#[test]
fn hash_function_reduces_modulo_the_table_size() {
    assert_eq!(hash_function("abcd", 10), 4);
    assert_eq!(hash_function("efgh", 10), 0);
    assert_eq!(hash_function("a", 10), 7);
    assert_eq!(hash_function("k", 10), 7);
    assert_eq!(hash_function(&22u32, 10), 2);
    assert_eq!(hash_function(&22u32, 1), 0);
    assert_eq!(hash_function(&9usize, 10), 9);
    assert_eq!(hash_function(&10usize, 10), 0);
    assert_eq!(hash_function(&String::from("abcd"), 7), 394 % 7);
}
