use rainbow::chain::Keyspace;
use rainbow::keyspace::{
    absolute_index_to_relative, factorial, hash_count, relative_index_to_absolute,
    relative_index_to_text, text_to_relative_index, total_hash_count, KeyspaceError,
};

fn ab() -> Vec<char> {
    vec!['a', 'b']
}

#[test]
fn factorial_values() {
    assert_eq!(factorial(0), 1);
    assert_eq!(factorial(1), 1);
    assert_eq!(factorial(5), 120);
    assert_eq!(factorial(20), 2_432_902_008_176_640_000);
}

#[test]
fn hash_count_is_a_power() {
    assert_eq!(hash_count(2, 3), Ok(8));
    assert_eq!(hash_count(26, 0), Ok(1));
    assert_eq!(hash_count(10, 4), Ok(10_000));
    assert_eq!(hash_count(2, 127), Ok(1u128 << 127));
}

#[test]
fn hash_count_overflow() {
    assert_eq!(hash_count(2, 128), Err(KeyspaceError::Overflow));
    assert_eq!(hash_count(95, 40), Err(KeyspaceError::Overflow));
}

#[test]
fn total_count_binary_one_to_three() {
    assert_eq!(total_hash_count(2, 1, 3), Ok(14));
}

#[test]
fn total_count_binary_one_to_two() {
    assert_eq!(total_hash_count(2, 1, 2), Ok(6));
    assert_eq!(total_hash_count(4, 1, 3), Ok(84));
    assert_eq!(total_hash_count(3, 2, 2), Ok(9));
}

#[test]
fn total_count_invalid_range() {
    assert_eq!(total_hash_count(2, 3, 1), Err(KeyspaceError::InvalidRange));
}

#[test]
fn total_count_overflow() {
    assert_eq!(total_hash_count(2, 1, 128), Err(KeyspaceError::Overflow));
    assert_eq!(total_hash_count(2, 1, 127), Ok(u128::MAX - 1));
    assert_eq!(total_hash_count(2, 1, 126), Ok((1u128 << 127) - 2));
}

#[test]
fn relative_and_absolute_indices() {
    // Lengths 1 and 2 over two symbols come before length 3: 2 + 4 = 6.
    assert_eq!(relative_index_to_absolute(0, 2, 3, 5), Ok(6));
    assert_eq!(relative_index_to_absolute(10, 2, 3, 5), Ok(16));
    assert_eq!(relative_index_to_absolute(7, 2, 1, 5), Ok(7));
    assert_eq!(absolute_index_to_relative(6, 2, 3), Ok(0));
    assert_eq!(absolute_index_to_relative(16, 2, 3), Ok(10));
    assert_eq!(absolute_index_to_relative(5, 2, 3), Err(KeyspaceError::IndexOutOfRange));
    assert_eq!(relative_index_to_absolute(u128::MAX, 2, 2, 5), Err(KeyspaceError::Overflow));
}

#[test]
fn absolute_relative_round_trip() {
    for x in [6u128, 7, 100, 1_000_000, u128::MAX] {
        let rel = absolute_index_to_relative(x, 2, 3).unwrap();
        assert_eq!(relative_index_to_absolute(rel, 2, 3, 5), Ok(x));
    }
}

#[test]
fn scenario_ab_one_to_two() {
    assert_eq!(total_hash_count(2, 1, 2), Ok(6));
    assert_eq!(relative_index_to_text(0, &ab(), 1, 2), Ok(String::from("a")));
    assert_eq!(relative_index_to_text(1, &ab(), 1, 2), Ok(String::from("b")));
    assert_eq!(relative_index_to_text(2, &ab(), 1, 2), Ok(String::from("aa")));
    assert_eq!(relative_index_to_text(3, &ab(), 1, 2), Ok(String::from("ab")));
    assert_eq!(relative_index_to_text(4, &ab(), 1, 2), Ok(String::from("ba")));
    assert_eq!(relative_index_to_text(5, &ab(), 1, 2), Ok(String::from("bb")));
}

#[test]
fn index_out_of_range() {
    assert_eq!(relative_index_to_text(6, &ab(), 1, 2), Err(KeyspaceError::IndexOutOfRange));
    assert_eq!(relative_index_to_text(0, &ab(), 3, 2), Err(KeyspaceError::IndexOutOfRange));
}

#[test]
fn index_to_text_most_significant_first() {
    let digits: Vec<char> = "0123456789".chars().collect();
    assert_eq!(relative_index_to_text(42, &digits, 3, 3), Ok(String::from("042")));
    assert_eq!(relative_index_to_text(1042, &digits, 4, 4), Ok(String::from("1042")));
}

#[test]
fn text_to_index_values() {
    assert_eq!(text_to_relative_index("a", &ab(), 1, 2), Ok(0));
    assert_eq!(text_to_relative_index("bb", &ab(), 1, 2), Ok(5));
    assert_eq!(text_to_relative_index("ba", &ab(), 1, 2), Ok(4));
}

#[test]
fn text_to_index_errors() {
    assert_eq!(text_to_relative_index("abc", &ab(), 1, 2), Err(KeyspaceError::InvalidLength));
    assert_eq!(text_to_relative_index("", &ab(), 1, 2), Err(KeyspaceError::InvalidLength));
    assert_eq!(text_to_relative_index("ac", &ab(), 1, 2), Err(KeyspaceError::InvalidAlphabet));
}

#[test]
fn index_text_round_trip_everywhere() {
    let alphabet: Vec<char> = "abcd".chars().collect();
    let total = total_hash_count(4, 1, 3).unwrap();
    for i in 0..total {
        let text = relative_index_to_text(i, &alphabet, 1, 3).unwrap();
        assert_eq!(text_to_relative_index(&text, &alphabet, 1, 3), Ok(i));
    }
}

#[test]
fn text_index_round_trip_samples() {
    let alphabet: Vec<char> = "xyz".chars().collect();
    for p in ["x", "zz", "xyz", "zzzz", "yxzy"] {
        let i = text_to_relative_index(p, &alphabet, 1, 4).unwrap();
        assert_eq!(relative_index_to_text(i, &alphabet, 1, 4), Ok(String::from(p)));
    }
}

#[test]
fn keyspace_validation() {
    assert!(matches!(Keyspace::new(ab(), 0, 2), Err(KeyspaceError::InvalidRange)));
    assert!(matches!(Keyspace::new(ab(), 3, 2), Err(KeyspaceError::InvalidRange)));
    assert!(matches!(Keyspace::new(vec!['a'], 1, 2), Err(KeyspaceError::InvalidAlphabet)));
    assert!(matches!(Keyspace::new(vec!['a', 'b', 'a'], 1, 2), Err(KeyspaceError::InvalidAlphabet)));
    assert!(matches!(Keyspace::new(ab(), 1, 200), Err(KeyspaceError::Overflow)));
    let ks = Keyspace::new(ab(), 1, 2).unwrap();
    assert_eq!(ks.size, 6);
    assert_eq!(ks.index_to_text(5), "bb");
    assert_eq!(ks.text_to_index("ab"), Ok(3));
}
