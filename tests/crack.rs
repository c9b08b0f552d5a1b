use rainbow::chain::{build_chain, Keyspace};
use rainbow::crack::{crack, cracked_record};
use rainbow::digest::hash;
use rainbow::generate::fill_table;
use rainbow::table::ChainTable;

#[test]
fn full_keyspace_table_cracks_every_password() {
    let ks = Keyspace::new("abcd".chars().collect(), 1, 3).unwrap();
    assert_eq!(ks.size, 84);
    let rounds: u64 = 4;
    let mut table = ChainTable::new(0, 0);
    let starts: Vec<u128> = (0..ks.size).collect();
    assert_eq!(fill_table(&ks, &mut table, &starts, rounds), starts.len());
    assert_eq!(table.len(), 84);
    for i in 0..ks.size {
        let password = ks.index_to_text(i);
        let target = hash(&password);
        let found = crack(&ks, &table, &target, rounds).expect("every password is covered");
        assert_eq!(hash(&found), target);
        assert_eq!(found, password);
    }
}

#[test]
fn crack_finds_password_inside_a_chain() {
    let ks = Keyspace::new("abc".chars().collect(), 2, 2).unwrap();
    let rounds: u64 = 5;
    let mut table = ChainTable::new(0, 0);
    table.insert(build_chain(&ks, 4, rounds)).unwrap();
    // The password at position 2 of that chain.
    let mut index: u128 = 4;
    for round in 0..2u64 {
        index = rainbow::chain::step(&ks, index, round);
    }
    let password = ks.index_to_text(index);
    let found = crack(&ks, &table, &hash(&password), rounds).unwrap();
    assert_eq!(hash(&found), hash(&password));
}

#[test]
fn crack_not_found() {
    let ks = Keyspace::new("abcd".chars().collect(), 1, 3).unwrap();
    let empty = ChainTable::new(0, 0);
    assert_eq!(crack(&ks, &empty, &hash("abc"), 10), None);
    let mut table = ChainTable::new(0, 0);
    table.insert(build_chain(&ks, 0, 3)).unwrap();
    assert_eq!(crack(&ks, &table, &hash("not in the keyspace"), 3), None);
}

#[test]
fn fill_table_stops_when_full() {
    let ks = Keyspace::new("abcd".chars().collect(), 1, 3).unwrap();
    let mut table = ChainTable::new(64, 0);
    let starts: Vec<u128> = vec![1, 2, 3, 4, 5];
    assert_eq!(fill_table(&ks, &mut table, &starts, 3), 2);
    assert_eq!(table.len(), 2);
    assert!(table.serialized_size() <= 64);
}

#[test]
fn cracked_record_layout() {
    let digest = hash("ab");
    let record = cracked_record(&digest, "ab");
    assert_eq!(record.len(), 34);
    assert_eq!(&record[..32], &digest[..]);
    assert_eq!(&record[32..], b"ab");
}
