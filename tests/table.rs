use rainbow::chain::Chain;
use rainbow::table::{ChainTable, TableError, RECORD_BYTES};

fn chain(start: u128, end: u128) -> Chain {
    Chain { start, end }
}

#[test]
fn insert_until_table_full() {
    let max_bytes: u64 = 100;
    let mut table = ChainTable::new(max_bytes, 0);
    let mut stored = 0;
    let mut i: u128 = 0;
    loop {
        match table.insert(chain(i, i * 7 % 5)) {
            Ok(true) => stored += 1,
            Ok(false) => panic!("no cap was set"),
            Err(e) => {
                assert_eq!(e, TableError::TableFull);
                break;
            }
        }
        i += 1;
    }
    assert_eq!(stored, 3);
    assert_eq!(table.len(), 3);
    assert!(table.serialized_size() <= max_bytes as u128);
    assert_eq!(table.insert(chain(99, 1)), Err(TableError::TableFull));
    assert_eq!(table.len(), 3);
}

#[test]
fn unbounded_table_takes_everything() {
    let mut table = ChainTable::new(0, 0);
    for i in 0..1000u128 {
        assert_eq!(table.insert(chain(i, i % 10)), Ok(true));
    }
    assert_eq!(table.serialized_size(), 1000 * RECORD_BYTES as u128);
}

#[test]
fn lookup_returns_every_match_in_order() {
    let mut table = ChainTable::new(0, 0);
    table.insert(chain(1, 5)).unwrap();
    table.insert(chain(2, 3)).unwrap();
    table.insert(chain(3, 5)).unwrap();
    table.insert(chain(4, 9)).unwrap();
    table.insert(chain(5, 5)).unwrap();
    assert_eq!(table.lookup_by_end(5), vec![chain(1, 5), chain(3, 5), chain(5, 5)]);
    assert_eq!(table.lookup_by_end(3), vec![chain(2, 3)]);
    assert_eq!(table.lookup_by_end(4), vec![]);
    assert_eq!(table.lookup_by_end(100), vec![]);
    let ends: Vec<u128> = (0..table.len()).map(|i| table.get(i).end).collect();
    assert_eq!(ends, vec![3, 5, 5, 5, 9]);
}

#[test]
fn cap_per_end_drops_extra_chains() {
    let mut table = ChainTable::new(0, 2);
    assert_eq!(table.insert(chain(1, 7)), Ok(true));
    assert_eq!(table.insert(chain(2, 7)), Ok(true));
    assert_eq!(table.insert(chain(3, 7)), Ok(false));
    assert_eq!(table.insert(chain(4, 8)), Ok(true));
    assert_eq!(table.lookup_by_end(7), vec![chain(1, 7), chain(2, 7)]);
}

#[test]
fn serialize_round_trip() {
    let mut table = ChainTable::new(0, 0);
    for (s, e) in [(10u128, 4u128), (u128::MAX, 2), (0, u128::MAX), (7, 4)] {
        table.insert(chain(s, e)).unwrap();
    }
    let bytes = table.to_bytes();
    assert_eq!(bytes.len(), 4 * RECORD_BYTES);
    // In order of end index the first chain starts at u128::MAX.
    assert_eq!(&bytes[0..16], &[0xffu8; 16]);
    let back = ChainTable::from_bytes(&bytes).unwrap();
    assert_eq!(back.len(), table.len());
    for i in 0..table.len() {
        assert_eq!(back.get(i), table.get(i));
    }
}

#[test]
fn serialized_layout_is_big_endian() {
    let mut table = ChainTable::new(0, 0);
    table.insert(chain(0x0102, 0x0304)).unwrap();
    let bytes = table.to_bytes();
    let mut expected = vec![0u8; 32];
    expected[14] = 1;
    expected[15] = 2;
    expected[30] = 3;
    expected[31] = 4;
    assert_eq!(bytes, expected);
}

#[test]
fn deserialize_errors() {
    assert!(matches!(ChainTable::from_bytes(&vec![0u8; 31]), Err(TableError::InvalidLength)));
    let mut bytes = vec![0u8; 64];
    bytes[31] = 9;
    bytes[63] = 1;
    assert!(matches!(ChainTable::from_bytes(&bytes), Err(TableError::Unsorted)));
    assert_eq!(ChainTable::from_bytes(&vec![]).unwrap().len(), 0);
}
