use rainbow::chain::{build_chain, step, Chain, Keyspace};
use rainbow::digest::hash;
use rainbow::reduce::reduce;

fn keyspace() -> Keyspace {
    Keyspace::new("abcd".chars().collect(), 1, 3).unwrap()
}

#[test]
fn build_chain_deterministic() {
    let ks = keyspace();
    for start in [0u128, 17, 83] {
        let a = build_chain(&ks, start, 50);
        let b = build_chain(&ks, start, 50);
        assert_eq!(a, b);
        assert_eq!(a.start, start);
        assert!(a.end < ks.size);
    }
}

#[test]
fn zero_rounds_end_at_start() {
    let ks = keyspace();
    assert_eq!(build_chain(&ks, 9, 0), Chain { start: 9, end: 9 });
}

#[test]
fn one_round_is_one_step() {
    let ks = keyspace();
    let password = ks.index_to_text(5);
    let expected = reduce(&hash(&password), ks.size, 0).unwrap();
    assert_eq!(step(&ks, 5, 0), expected);
    assert_eq!(build_chain(&ks, 5, 1).end, expected);
}

#[test]
fn rounds_compose() {
    let ks = keyspace();
    let two = build_chain(&ks, 11, 2).end;
    let first = step(&ks, 11, 0);
    assert_eq!(step(&ks, first, 1), two);
}
