//! The reduction step: from a digest back into the keyspace. A window of the
//! digest's leading hexadecimal digits is read as a number and taken modulo
//! the keyspace size.
use crate::radix::{digits_below, lemma_value_bound, lemma_value_take_step, value_of};
use vstd::arithmetic::div_mod::{lemma_add_mod_noop, lemma_mod_pos_bound};
use vstd::arithmetic::power::{lemma_pow_increases, pow};
use vstd::prelude::*;

verus! {

/// Why a digest could not be reduced.
#[derive(Debug, Clone, Copy, PartialEq, Eq, Structural)]
pub enum ReduceError {
    /// The digest has fewer hexadecimal digits than the window needs.
    InvalidDigestLength,
    /// A character of the window is not a hexadecimal digit.
    InvalidHexDigit,
}

/// The widest window: 32 hexadecimal digits, the most that fit in 128 bits.
pub const MAX_WINDOW: usize = 32;

/// The smallest `k` from `from` up with `k * k >= n`, but at most 32.
pub open spec fn width_from(n: nat, from: nat) -> nat
    decreases 32 - from,
{
    if from >= 32 || from * from >= n {
        from
    } else {
        width_from(n, from + 1)
    }
}

/// How many leading hexadecimal digits the reduction reads for a keyspace of
/// `n` indices: the ceiling of the square root of `n`, clamped to 32.
pub open spec fn window_width(n: nat) -> nat {
    width_from(n, 0)
}

proof fn lemma_width_from_bound(n: nat, from: nat)
    requires
        from <= 32,
    ensures
        width_from(n, from) <= 32,
    decreases 32 - from,
{
    if from < 32 && from * from < n {
        lemma_width_from_bound(n, from + 1);
    }
}

/// The window is at most 32 digits wide, so a 16-byte digest always suffices.
pub proof fn lemma_window_width_bound(n: nat)
    ensures
        window_width(n) <= 32,
{
    lemma_width_from_bound(n, 0);
}

/// The hexadecimal digits of `d`, high half of each byte first.
pub open spec fn nibbles_of(d: Seq<u8>) -> Seq<nat> {
    Seq::new(
        2 * d.len(),
        |i: int|
            if i % 2 == 0 {
                (d[i / 2] / 16) as nat
            } else {
                (d[i / 2] % 16) as nat
            },
    )
}

/// The value of the hexadecimal digit `c`, upper or lower case.
pub open spec fn hex_value(c: char) -> nat {
    if '0' <= c <= '9' {
        (c as nat - '0' as nat) as nat
    } else if 'a' <= c <= 'f' {
        (c as nat - 'a' as nat + 10) as nat
    } else {
        (c as nat - 'A' as nat + 10) as nat
    }
}

/// `c` is a hexadecimal digit.
pub open spec fn is_hex_digit(c: char) -> bool {
    ('0' <= c <= '9') || ('a' <= c <= 'f') || ('A' <= c <= 'F')
}

/// The index that the digest `d` reduces to in round `round` of a keyspace of
/// `n` indices: the window read as a number, plus the round, modulo `n`.
pub open spec fn reduce_of(d: Seq<u8>, n: nat, round: nat) -> nat {
    (value_of(nibbles_of(d).take(window_width(n) as int), 16) + round) % n
}

/// The index that the hexadecimal text `h` reduces to in a keyspace of `n`
/// indices.
pub open spec fn hex_reduce_of(h: Seq<char>, n: nat) -> nat {
    value_of(h.take(window_width(n) as int).map_values(|c: char| hex_value(c)), 16) % n
}

proof fn lemma_pow16_window()
    ensures
        pow(16, 32) == 0x1_0000_0000_0000_0000_0000_0000_0000_0000,
{
    reveal_with_fuel(pow, 33);
}

fn window_width_of(n: u128) -> (k: usize)
    ensures
        k == window_width(n as nat),
        k <= MAX_WINDOW,
{
    let mut k: usize = 0;
    while k < MAX_WINDOW
        invariant
            k <= MAX_WINDOW,
            window_width(n as nat) == width_from(n as nat, k as nat),
        ensures
            k <= MAX_WINDOW,
            window_width(n as nat) == k,
        decreases MAX_WINDOW - k,
    {
        let w = k as u128;
        assert(w * w <= 1024) by (nonlinear_arith)
            requires
                w <= 32,
        ;
        if w * w >= n {
            break ;
        }
        k += 1;
    }
    k
}

/// The number that the first `k` digits of `digits` denote in base 16.
fn window_value(digits: &Vec<u8>, k: usize) -> (r: u128)
    requires
        k <= MAX_WINDOW,
        k <= digits@.len(),
        forall|i: int| 0 <= i < digits@.len() ==> #[trigger] digits@[i] < 16,
    ensures
        r == value_of(digits@.map_values(|x: u8| x as nat).take(k as int), 16),
{
    let ghost ds = digits@.map_values(|x: u8| x as nat);
    let mut v: u128 = 0;
    let mut i: usize = 0;
    proof {
        lemma_pow16_window();
    }
    while i < k
        invariant
            k <= MAX_WINDOW,
            k <= digits@.len(),
            ds == digits@.map_values(|x: u8| x as nat),
            forall|j: int| 0 <= j < digits@.len() ==> #[trigger] digits@[j] < 16,
            i <= k,
            v == value_of(ds.take(i as int), 16),
            pow(16, 32) == 0x1_0000_0000_0000_0000_0000_0000_0000_0000,
        decreases k - i,
    {
        proof {
            lemma_value_take_step(ds, 16, i as nat);
            let next = ds.take(i + 1);
            assert(digits_below(next, 16)) by {
                assert forall|j: int| 0 <= j < next.len() implies #[trigger] next[j] < 16 by {
                    assert(next[j] == digits@[j] as nat);
                }
            }
            lemma_value_bound(next, 16);
            lemma_pow_increases(16, (i + 1) as nat, 32);
        }
        v = v * 16 + digits[i] as u128;
        i += 1;
    }
    v
}

/// `(v + round) % n`, without overflow.
fn add_mod(v: u128, round: u64, n: u128) -> (r: u128)
    requires
        n > 0,
    ensures
        r == (v + round) % (n as int),
        r < n,
{
    let a = v % n;
    let b = (round as u128) % n;
    proof {
        lemma_add_mod_noop(v as int, round as int, n as int);
        lemma_mod_pos_bound((a + b) as int, n as int);
    }
    if a >= n - b {
        let r = a - (n - b);
        assert(r == (a + b) % (n as int)) by {
            vstd::arithmetic::div_mod::lemma_fundamental_div_mod_converse(
                (a + b) as int,
                n as int,
                1,
                r as int,
            );
        }
        r
    } else {
        assert((a + b) % (n as int) == a + b) by {
            vstd::arithmetic::div_mod::lemma_small_mod((a + b) as nat, n as nat);
        }
        a + b
    }
}

/// The index that `digest` reduces to in round `round` of a keyspace of
/// `keyspace_size` indices. Mixing in the round gives each round of a chain
/// its own reduction.
pub fn reduce(digest: &Vec<u8>, keyspace_size: u128, round: u64) -> (r: Result<u128, ReduceError>)
    requires
        keyspace_size > 0,
    ensures
        2 * digest@.len() >= window_width(keyspace_size as nat) ==> r == Ok::<u128, ReduceError>(
            reduce_of(digest@, keyspace_size as nat, round as nat) as u128,
        ),
        2 * digest@.len() < window_width(keyspace_size as nat) ==> r == Err::<u128, ReduceError>(
            ReduceError::InvalidDigestLength,
        ),
        r matches Ok(v) ==> v < keyspace_size,
{
    let k = window_width_of(keyspace_size);
    if digest.len() < k / 2 + k % 2 {
        return Err(ReduceError::InvalidDigestLength);
    }
    let mut digits: Vec<u8> = Vec::new();
    let mut i: usize = 0;
    while i < digest.len()
        invariant
            i <= digest@.len(),
            digits@.len() == 2 * i,
            forall|j: int| 0 <= j < digits@.len() ==> #[trigger] digits@[j] < 16,
            forall|j: int|
                0 <= j < digits@.len() ==> #[trigger] digits@[j] as nat == nibbles_of(digest@)[j],
        decreases digest@.len() - i,
    {
        let b = digest[i];
        digits.push(b / 16);
        digits.push(b % 16);
        i += 1;
    }
    assert(digits@.map_values(|x: u8| x as nat) =~= nibbles_of(digest@));
    let v = window_value(&digits, k);
    Ok(add_mod(v, round, keyspace_size))
}

/// The index that the hexadecimal text `hash` reduces to in a keyspace of
/// `hash_count` indices.
pub fn hash_to_relative(hash: &str, hash_count: u128) -> (r: Result<u128, ReduceError>)
    requires
        hash_count > 0,
    ensures
        hash@.len() < window_width(hash_count as nat) ==> r == Err::<u128, ReduceError>(
            ReduceError::InvalidDigestLength,
        ),
        hash@.len() >= window_width(hash_count as nat) && !(forall|i: int|
            0 <= i < window_width(hash_count as nat) ==> is_hex_digit(#[trigger] hash@[i]))
            ==> r == Err::<u128, ReduceError>(ReduceError::InvalidHexDigit),
        hash@.len() >= window_width(hash_count as nat) && (forall|i: int|
            0 <= i < window_width(hash_count as nat) ==> is_hex_digit(#[trigger] hash@[i]))
            ==> r == Ok::<u128, ReduceError>(hex_reduce_of(hash@, hash_count as nat) as u128),
        r matches Ok(v) ==> v < hash_count,
{
    let k = window_width_of(hash_count);
    let n = hash.unicode_len();
    if n < k {
        return Err(ReduceError::InvalidDigestLength);
    }
    let ghost window = hash@.take(k as int).map_values(|c: char| hex_value(c));
    let mut digits: Vec<u8> = Vec::new();
    let mut i: usize = 0;
    while i < k
        invariant
            k <= n,
            n == hash@.len(),
            k == window_width(hash_count as nat),
            window == hash@.take(k as int).map_values(|c: char| hex_value(c)),
            i <= k,
            digits@.len() == i,
            forall|j: int| 0 <= j < i ==> is_hex_digit(#[trigger] hash@[j]),
            forall|j: int| 0 <= j < digits@.len() ==> #[trigger] digits@[j] < 16,
            forall|j: int| 0 <= j < digits@.len() ==> #[trigger] digits@[j] as nat == window[j],
        decreases k - i,
    {
        let c = hash.get_char(i);
        let d: u8 = if '0' <= c && c <= '9' {
            (c as u32 - '0' as u32) as u8
        } else if 'a' <= c && c <= 'f' {
            (c as u32 - 'a' as u32 + 10) as u8
        } else if 'A' <= c && c <= 'F' {
            (c as u32 - 'A' as u32 + 10) as u8
        } else {
            return Err(ReduceError::InvalidHexDigit);
        };
        digits.push(d);
        i += 1;
    }
    assert(digits@.map_values(|x: u8| x as nat).take(k as int) =~= window);
    let v = window_value(&digits, k);
    proof {
        lemma_mod_pos_bound(v as int, hash_count as int);
    }
    Ok(v % hash_count)
}

} // verus!
