use rainbow::digest::hash;
use rainbow::reduce::{hash_to_relative, reduce, ReduceError};

fn hex(bytes: &[u8]) -> String {
    bytes.iter().map(|b| format!("{:02x}", b)).collect()
}

#[test]
fn digest_is_sha256() {
    assert_eq!(
        hex(&hash("abc")),
        "ba7816bf8f01cfea414140de5dae2223b00361a396177a9cb410ff61f20015ad"
    );
    assert_eq!(
        hex(&hash("")),
        "e3b0c44298fc1c149afbf4c8996fb92427ae41e4649b934ca495991b7852b855"
    );
    assert_eq!(hash("password").len(), 32);
}

#[test]
fn hex_window_width_follows_square_root() {
    // Four indices: a window of two digits, 0xff % 4.
    assert_eq!(hash_to_relative("ff00", 4), Ok(3));
    // Six indices: three digits, 0x123 % 6.
    assert_eq!(hash_to_relative("123456", 6), Ok(291 % 6));
    // One index: a window of one digit.
    assert_eq!(hash_to_relative("9", 1), Ok(0));
    // Upper case digits read like lower case ones.
    assert_eq!(hash_to_relative("FF", 4), Ok(3));
}

#[test]
fn hex_window_is_clamped() {
    let h = "0".repeat(31) + "7" + &"f".repeat(32);
    assert_eq!(hash_to_relative(&h, u128::MAX), Ok(7));
}

#[test]
fn hex_window_errors() {
    assert_eq!(hash_to_relative("f", 4), Err(ReduceError::InvalidDigestLength));
    assert_eq!(hash_to_relative("zz", 4), Err(ReduceError::InvalidHexDigit));
    assert_eq!(hash_to_relative("", 2), Err(ReduceError::InvalidDigestLength));
}

#[test]
fn reduce_exact_values() {
    let mut digest = vec![0u8; 32];
    digest[0] = 0x12;
    digest[1] = 0x34;
    assert_eq!(reduce(&digest, 6, 0), Ok(0x123 % 6));
    assert_eq!(reduce(&digest, 6, 1), Ok((0x123 + 1) % 6));
    assert_eq!(reduce(&digest, 100, 7), Ok((0x12_3400_0000 + 7) % 100));
}

#[test]
fn reduce_round_dependent() {
    let digest = hash("abc");
    let a = reduce(&digest, 1000, 0).unwrap();
    let b = reduce(&digest, 1000, 1).unwrap();
    assert_eq!((a + 1) % 1000, b);
}

#[test]
fn reduce_output_below_keyspace_size() {
    for (i, n) in [1u128, 2, 3, 6, 84, 1000, 1 << 40, u128::MAX].iter().enumerate() {
        let digest = hash(&format!("sample{}", i));
        for round in [0u64, 1, 999, u64::MAX] {
            let r = reduce(&digest, *n, round).unwrap();
            assert!(r < *n);
        }
    }
}

#[test]
fn reduce_short_digest() {
    assert_eq!(reduce(&vec![0xab], 1 << 20, 0), Err(ReduceError::InvalidDigestLength));
}
