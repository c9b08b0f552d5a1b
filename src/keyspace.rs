//! The keyspace: every password over an alphabet whose length lies in an
//! inclusive range, numbered densely by length first and then
//! lexicographically by the alphabet's order.
use crate::radix::{digits_below, digits_of, lemma_digits_of_shape, lemma_digits_of_value, lemma_pow_step, lemma_value_bound, lemma_value_of_digits, lemma_value_prefix, lemma_value_take_step, value_of};
use crate::text::push_char;
use vstd::arithmetic::power::*;
use vstd::prelude::*;

verus! {

/// Why a keyspace computation could not be carried out.
#[derive(Debug, Clone, Copy, PartialEq, Eq, Structural)]
pub enum KeyspaceError {
    /// A count or an index does not fit in 128 bits.
    Overflow,
    /// The maximum length is below the minimum length.
    InvalidRange,
    /// The index lies outside the keyspace.
    IndexOutOfRange,
    /// The password's length lies outside the length range.
    InvalidLength,
    /// The password holds a character that the alphabet lacks, or the
    /// alphabet itself is unusable.
    InvalidAlphabet,
}

/// `n!`.
pub open spec fn factorial_of(n: nat) -> nat
    decreases n,
{
    if n <= 1 {
        1
    } else {
        factorial_of((n - 1) as nat) * n
    }
}

/// The number of passwords of exactly `len` symbols over `a` symbols: `a^len`.
pub open spec fn count_of_length(a: nat, len: nat) -> nat {
    pow(a as int, len) as nat
}

/// The number of passwords whose length lies in `[lo, hi)`.
pub open spec fn bucket_sum(a: nat, lo: nat, hi: nat) -> nat
    decreases hi - lo,
{
    if lo >= hi {
        0
    } else {
        count_of_length(a, lo) + bucket_sum(a, lo + 1, hi)
    }
}

/// The number of passwords whose length lies in `[min, max]`.
pub open spec fn total_of(a: nat, min: nat, max: nat) -> nat {
    bucket_sum(a, min, max + 1)
}

/// The number of non-empty passwords shorter than `min`: what separates an
/// absolute index from a relative one.
pub open spec fn offset_of(a: nat, min: nat) -> nat {
    bucket_sum(a, 1, min)
}

proof fn lemma_pow_nat(a: nat, n: nat)
    ensures
        pow(a as int, n) >= 0,
{
    if a > 0 {
        lemma_pow_positive(a as int, n);
    } else if n == 0 {
        lemma_pow0(a as int);
    } else {
        lemma0_pow(n);
    }
}

/// Counting one more length adds the count of that length.
pub proof fn lemma_bucket_sum_extend(a: nat, lo: nat, hi: nat)
    requires
        lo <= hi,
    ensures
        bucket_sum(a, lo, hi + 1) == bucket_sum(a, lo, hi) + count_of_length(a, hi),
    decreases hi - lo,
{
    if lo < hi {
        lemma_bucket_sum_extend(a, lo + 1, hi);
    } else {
        assert(bucket_sum(a, hi + 1, hi + 1) == 0);
    }
}

/// Counting more lengths never counts fewer passwords, and a range counts at
/// least the passwords of each length in it.
pub proof fn lemma_bucket_sum_monotone(a: nat, lo: nat, mid: nat, hi: nat)
    requires
        lo <= mid <= hi,
    ensures
        bucket_sum(a, lo, mid) <= bucket_sum(a, lo, hi),
        mid < hi ==> count_of_length(a, mid) <= bucket_sum(a, lo, hi),
    decreases hi - mid,
{
    if mid < hi {
        lemma_bucket_sum_extend(a, lo, mid);
        lemma_bucket_sum_monotone(a, lo, mid + 1, hi);
    }
}

/// `num!`, computed recursively.
pub fn factorial(num: u128) -> (r: u128)
    requires
        factorial_of(num as nat) <= u128::MAX,
    ensures
        r == factorial_of(num as nat),
    decreases num,
{
    if num <= 1 {
        1
    } else {
        let ghost prev = (num - 1) as nat;
        assert(factorial_of(prev) <= factorial_of(num as nat)) by (nonlinear_arith)
            requires
                factorial_of(num as nat) == factorial_of(prev) * num,
                num >= 2,
        ;
        let f = factorial(num - 1);
        f * num
    }
}

/// `alphabet_length^length`, the number of passwords of exactly `length`
/// symbols.
pub fn hash_count(alphabet_length: usize, length: usize) -> (r: Result<u128, KeyspaceError>)
    ensures
        count_of_length(alphabet_length as nat, length as nat) <= u128::MAX ==> r == Ok::<
            u128,
            KeyspaceError,
        >(count_of_length(alphabet_length as nat, length as nat) as u128),
        count_of_length(alphabet_length as nat, length as nat) > u128::MAX ==> r == Err::<
            u128,
            KeyspaceError,
        >(KeyspaceError::Overflow),
{
    let a = alphabet_length as u128;
    let mut r: u128 = 1;
    let mut i: usize = 0;
    proof {
        lemma_pow0(a as int);
    }
    while i < length
        invariant
            i <= length,
            a == alphabet_length as u128,
            r == pow(a as int, i as nat),
        decreases length - i,
    {
        match r.checked_mul(a) {
            None => {
                proof {
                    lemma_pow_step(a as int, i as nat);
                    assert(a > 0) by (nonlinear_arith)
                        requires
                            r * a > u128::MAX,
                    ;
                    lemma_pow_increases(a as nat, (i + 1) as nat, length as nat);
                    assert(pow(a as int, (i + 1) as nat) == r * a) by (nonlinear_arith)
                        requires
                            pow(a as int, (i + 1) as nat) == a * pow(a as int, i as nat),
                            r == pow(a as int, i as nat),
                    ;
                    assert(pow(a as int, (i + 1) as nat) > u128::MAX);
                    assert(pow(a as int, length as nat) >= pow(a as int, (i + 1) as nat));
                    assert(count_of_length(alphabet_length as nat, length as nat) > u128::MAX);
                }
                return Err(KeyspaceError::Overflow);
            },
            Some(x) => {
                proof {
                    lemma_pow_step(a as int, i as nat);
                }
                r = x;
            },
        }
        i += 1;
    }
    Ok(r)
}

/// The number of passwords whose length lies in `[lo, hi)`, or `None` when it
/// does not fit in 128 bits.
fn sum_counts(a: usize, lo: usize, hi: usize) -> (r: Option<u128>)
    ensures
        bucket_sum(a as nat, lo as nat, hi as nat) <= u128::MAX ==> r == Some(
            bucket_sum(a as nat, lo as nat, hi as nat) as u128,
        ),
        bucket_sum(a as nat, lo as nat, hi as nat) > u128::MAX ==> r is None,
{
    let mut acc: u128 = 0;
    let mut len: usize = lo;
    while len < hi
        invariant
            lo <= hi ==> lo <= len <= hi,
            lo > hi ==> len == lo,
            acc == bucket_sum(a as nat, lo as nat, len as nat),
        decreases hi - len,
    {
        proof {
            lemma_bucket_sum_extend(a as nat, lo as nat, len as nat);
            lemma_bucket_sum_monotone(a as nat, lo as nat, (len + 1) as nat, hi as nat);
        }
        match hash_count(a, len) {
            Err(_) => {
                return None;
            },
            Ok(h) => match acc.checked_add(h) {
                None => {
                    return None;
                },
                Some(s) => {
                    acc = s;
                },
            },
        }
        len += 1;
    }
    Some(acc)
}

/// The number of passwords whose length lies in `[min_length, max_length]`.
pub fn total_hash_count(alphabet_length: usize, min_length: usize, max_length: usize) -> (r: Result<
    u128,
    KeyspaceError,
>)
    ensures
        max_length < min_length ==> r == Err::<u128, KeyspaceError>(KeyspaceError::InvalidRange),
        min_length <= max_length && total_of(
            alphabet_length as nat,
            min_length as nat,
            max_length as nat,
        ) <= u128::MAX ==> r == Ok::<u128, KeyspaceError>(
            total_of(alphabet_length as nat, min_length as nat, max_length as nat) as u128,
        ),
        min_length <= max_length && total_of(
            alphabet_length as nat,
            min_length as nat,
            max_length as nat,
        ) > u128::MAX ==> r == Err::<u128, KeyspaceError>(KeyspaceError::Overflow),
{
    if max_length < min_length {
        return Err(KeyspaceError::InvalidRange);
    }
    proof {
        lemma_bucket_sum_extend(alphabet_length as nat, min_length as nat, max_length as nat);
        lemma_pow_nat(alphabet_length as nat, max_length as nat);
    }
    let below = match sum_counts(alphabet_length, min_length, max_length) {
        None => {
            return Err(KeyspaceError::Overflow);
        },
        Some(s) => s,
    };
    let top = match hash_count(alphabet_length, max_length) {
        Err(e) => {
            return Err(e);
        },
        Ok(h) => h,
    };
    match below.checked_add(top) {
        None => Err(KeyspaceError::Overflow),
        Some(t) => Ok(t),
    }
}

/// The absolute index of `relative_index`: the relative index plus the number
/// of non-empty passwords shorter than `min_length`.
pub fn relative_index_to_absolute(
    relative_index: u128,
    alphabet_length: usize,
    min_length: usize,
    _max_length: usize,
) -> (r: Result<u128, KeyspaceError>)
    ensures
        relative_index + offset_of(alphabet_length as nat, min_length as nat) <= u128::MAX ==> r
            == Ok::<u128, KeyspaceError>(
            (relative_index + offset_of(alphabet_length as nat, min_length as nat)) as u128,
        ),
        relative_index + offset_of(alphabet_length as nat, min_length as nat) > u128::MAX ==> r
            == Err::<u128, KeyspaceError>(KeyspaceError::Overflow),
{
    match sum_counts(alphabet_length, 1, min_length) {
        None => Err(KeyspaceError::Overflow),
        Some(offset) => match offset.checked_add(relative_index) {
            None => Err(KeyspaceError::Overflow),
            Some(a) => Ok(a),
        },
    }
}

/// The relative index of `absolute_index` for passwords of at least
/// `at_length` symbols.
pub fn absolute_index_to_relative(absolute_index: u128, alphabet_length: usize, at_length: usize) -> (r:
    Result<u128, KeyspaceError>)
    ensures
        absolute_index >= offset_of(alphabet_length as nat, at_length as nat) ==> r == Ok::<
            u128,
            KeyspaceError,
        >((absolute_index - offset_of(alphabet_length as nat, at_length as nat)) as u128),
        absolute_index < offset_of(alphabet_length as nat, at_length as nat) ==> r == Err::<
            u128,
            KeyspaceError,
        >(KeyspaceError::IndexOutOfRange),
{
    match sum_counts(alphabet_length, 1, at_length) {
        None => Err(KeyspaceError::IndexOutOfRange),
        Some(offset) => {
            if absolute_index < offset {
                Err(KeyspaceError::IndexOutOfRange)
            } else {
                Ok(absolute_index - offset)
            }
        },
    }
}

/// Converting an absolute index to a relative one and back gives it back, for
/// every absolute index at or above the offset of the minimum length: the
/// relative index is `x` less the offset, and adding the offset back fits in
/// 128 bits and gives `x`.
pub proof fn lemma_absolute_relative_round_trip(x: u128, alphabet_length: usize, min_length: usize)
    requires
        x >= offset_of(alphabet_length as nat, min_length as nat),
    ensures
        ({
            let rel = x - offset_of(alphabet_length as nat, min_length as nat);
            &&& rel >= 0
            &&& rel + offset_of(alphabet_length as nat, min_length as nat) <= u128::MAX
            &&& rel + offset_of(alphabet_length as nat, min_length as nat) == x
        }),
{
}


/// Where relative index `r` falls, walking lengths upward from `len` to at
/// most `max`: the length of its password and its offset among the
/// passwords of that length.
pub open spec fn locate(a: nat, len: nat, max: nat, r: nat) -> (nat, nat)
    decreases max - len,
{
    if len >= max || r < count_of_length(a, len) {
        (len, r)
    } else {
        locate(a, len + 1, max, (r - count_of_length(a, len)) as nat)
    }
}

/// The symbols that the digits `ds` stand for in `alpha`.
pub open spec fn spell(alpha: Seq<char>, ds: Seq<nat>) -> Seq<char> {
    ds.map_values(|d: nat| alpha[d as int])
}

/// The password of relative index `r` in the keyspace of lengths
/// `[min, max]` over `alpha`.
pub open spec fn index_text(alpha: Seq<char>, min: nat, max: nat, r: nat) -> Seq<char> {
    let at = locate(alpha.len(), min, max, r);
    spell(alpha, digits_of(at.1, alpha.len(), at.0))
}

/// The position of each symbol of `p` in `alpha`.
pub open spec fn symbol_ranks(alpha: Seq<char>, p: Seq<char>) -> Seq<nat> {
    p.map_values(|c: char| alpha.index_of(c) as nat)
}

/// Every symbol of `p` is in `alpha`.
pub open spec fn over_alphabet(alpha: Seq<char>, p: Seq<char>) -> bool {
    forall|i: int| 0 <= i < p.len() ==> alpha.contains(#[trigger] p[i])
}

/// The relative index of password `p` in a keyspace whose shortest length is
/// `min`.
pub open spec fn text_rank(alpha: Seq<char>, min: nat, p: Seq<char>) -> nat {
    bucket_sum(alpha.len(), min, p.len()) + value_of(symbol_ranks(alpha, p), alpha.len())
}

/// The password of `relative_index`: its length is found by walking the
/// lengths upward from `min_length`, and its offset within that length is
/// written in base `alphabet.len()`, most significant symbol first.
pub fn relative_index_to_text(
    relative_index: u128,
    alphabet: &Vec<char>,
    min_length: usize,
    max_length: usize,
) -> (r: Result<String, KeyspaceError>)
    ensures
        relative_index < total_of(alphabet@.len(), min_length as nat, max_length as nat) ==> (
        match r {
            Ok(s) => s@ == index_text(
                alphabet@,
                min_length as nat,
                max_length as nat,
                relative_index as nat,
            ),
            Err(_) => false,
        }),
        relative_index >= total_of(alphabet@.len(), min_length as nat, max_length as nat) ==> r
            == Err::<String, KeyspaceError>(KeyspaceError::IndexOutOfRange),
{
    let ghost alpha = alphabet@;
    let ghost a = alphabet@.len();
    let ghost rel = relative_index as nat;
    let ghost total = total_of(a, min_length as nat, max_length as nat);
    if max_length < min_length {
        assert(total == 0);
        return Err(KeyspaceError::IndexOutOfRange);
    }
    let base = alphabet.len();
    let mut len: usize = min_length;
    let mut rest: u128 = relative_index;
    loop
        invariant
            base == a,
            a == alphabet@.len(),
            rel == relative_index as nat,
            total == total_of(a, min_length as nat, max_length as nat),
            min_length <= len <= max_length,
            locate(a, min_length as nat, max_length as nat, rel) == locate(
                a,
                len as nat,
                max_length as nat,
                rest as nat,
            ),
            rel < total <==> rest < bucket_sum(a, len as nat, (max_length + 1) as nat),
        ensures
            min_length <= len <= max_length,
            rest < count_of_length(a, len as nat),
            rel < total,
            locate(a, min_length as nat, max_length as nat, rel) == (len as nat, rest as nat),
        decreases max_length - len,
    {
        proof {
            lemma_pow_nat(a, len as nat);
        }
        match hash_count(base, len) {
            Err(_) => {
                proof {
                    lemma_bucket_sum_monotone(a, len as nat, len as nat, (max_length + 1) as nat);
                }
                break ;
            },
            Ok(h) => {
                if rest < h {
                    proof {
                        lemma_bucket_sum_monotone(a, len as nat, len as nat, (max_length + 1) as nat);
                    }
                    break ;
                }
                if len == max_length {
                    assert(bucket_sum(a, (len + 1) as nat, (max_length + 1) as nat) == 0);
                    assert(bucket_sum(a, len as nat, (max_length + 1) as nat) == h);

                    return Err(KeyspaceError::IndexOutOfRange);
                }
                rest = rest - h;
                len = len + 1;
            },
        }
    }
    // `rest` is below `base^len`: write it out in `len` digits.
    let ghost digits = digits_of(rest as nat, a, len as nat);
    proof {
        lemma_pow_nat(a, len as nat);
        if len > 0 && a == 0 {
            lemma0_pow(len as nat);
        }
        if a > 0 {
            lemma_value_of_digits(rest as nat, a, len as nat);
        }
    }
    let mut q: u128 = rest;
    let mut low_first: Vec<usize> = Vec::new();
    let ghost mut tail: Seq<nat> = Seq::empty();
    let mut i: usize = 0;
    while i < len
        invariant
            base == a,
            len > 0 ==> a > 0,
            i <= len,
            digits == digits_of(q as nat, a, (len - i) as nat) + tail,
            tail.len() == i,
            low_first@.len() == i,
            forall|j: int| 0 <= j < i ==> #[trigger] tail[j] == low_first@[i - 1 - j] as nat,
            forall|j: int| 0 <= j < i ==> #[trigger] tail[j] < a,
        decreases len - i,
    {
        let b = base as u128;
        let d = q % b;
        let ghost m = (len - i) as nat;
        assert(digits_of(q as nat, a, m) == digits_of((q / b) as nat, a, (m - 1) as nat).push(
            d as nat,
        ));
        assert(digits_of((q / b) as nat, a, (m - 1) as nat).push(d as nat) + tail
            =~= digits_of((q / b) as nat, a, (m - 1) as nat) + (seq![d as nat] + tail));
        proof {
            tail = seq![d as nat] + tail;
        }
        low_first.push(d as usize);
        q = q / b;
        i = i + 1;
    }
    assert(digits =~= tail);
    let mut text = String::new();
    let mut k: usize = 0;
    while k < len
        invariant
            i == len,
            alphabet@ == alpha,
            k <= len,
            tail.len() == len,
            low_first@.len() == len,
            forall|j: int| 0 <= j < len ==> #[trigger] tail[j] == low_first@[len - 1 - j] as nat,
            forall|j: int| 0 <= j < len ==> #[trigger] tail[j] < alpha.len(),
            text@ == spell(alpha, tail.take(k as int)),
        decreases len - k,
    {
        let d = low_first[len - 1 - k];
        assert(tail[k as int] == d as nat);
        push_char(&mut text, alphabet[d]);
        assert(spell(alpha, tail.take(k + 1)) =~= spell(alpha, tail.take(k as int)).push(
            alpha[d as int],
        ));
        k = k + 1;
    }
    assert(tail.take(len as int) =~= tail);
    Ok(text)
}

/// The position of a symbol in an alphabet without repeated symbols is the
/// one place where it stands.
pub proof fn lemma_index_of_unique(alpha: Seq<char>, i: int)
    requires
        alpha.no_duplicates(),
        0 <= i < alpha.len(),
    ensures
        alpha.index_of(alpha[i]) == i,
{
    assert(alpha.contains(alpha[i]));
}

proof fn lemma_ranks_of_spell(alpha: Seq<char>, ds: Seq<nat>)
    requires
        alpha.no_duplicates(),
        digits_below(ds, alpha.len()),
    ensures
        symbol_ranks(alpha, spell(alpha, ds)) == ds,
        over_alphabet(alpha, spell(alpha, ds)),
{
    let p = spell(alpha, ds);
    assert forall|i: int| 0 <= i < p.len() implies alpha.contains(#[trigger] p[i]) by {
        assert(ds[i] < alpha.len());
        assert(alpha[ds[i] as int] == p[i]);
    }
    assert forall|i: int| 0 <= i < ds.len() implies #[trigger] symbol_ranks(alpha, p)[i]
        == ds[i] by {
        assert(ds[i] < alpha.len());
        lemma_index_of_unique(alpha, ds[i] as int);
    }
    assert(symbol_ranks(alpha, p) =~= ds);
}

proof fn lemma_spell_of_ranks(alpha: Seq<char>, p: Seq<char>)
    requires
        over_alphabet(alpha, p),
    ensures
        spell(alpha, symbol_ranks(alpha, p)) == p,
        digits_below(symbol_ranks(alpha, p), alpha.len()),
{
    let ds = symbol_ranks(alpha, p);
    assert forall|i: int| 0 <= i < ds.len() implies #[trigger] ds[i] < alpha.len()
        && alpha[ds[i] as int] == p[i] by {
        assert(alpha.contains(p[i]));
    }
    assert(spell(alpha, ds) =~= p);
}

proof fn lemma_locate_of_rank(a: nat, lo: nat, max: nat, len: nat, v: nat)
    requires
        lo <= len <= max,
        v < count_of_length(a, len),
    ensures
        locate(a, lo, max, bucket_sum(a, lo, len) + v) == (len, v),
    decreases len - lo,
{
    if lo < len {
        lemma_pow_nat(a, lo);
        lemma_locate_of_rank(a, lo + 1, max, len, v);
    }
}

proof fn lemma_locate_bounds(a: nat, lo: nat, max: nat, r: nat)
    requires
        lo <= max,
        r < bucket_sum(a, lo, max + 1),
    ensures
        ({
            let at = locate(a, lo, max, r);
            &&& lo <= at.0 <= max
            &&& at.1 < count_of_length(a, at.0)
            &&& r == bucket_sum(a, lo, at.0) + at.1
        }),
    decreases max - lo,
{
    lemma_pow_nat(a, lo);
    if lo < max && r >= count_of_length(a, lo) {
        lemma_locate_bounds(a, lo + 1, max, (r - count_of_length(a, lo)) as nat);
    } else if lo == max {
        assert(bucket_sum(a, lo + 1, max + 1) == 0);
    }
}

/// Decoding a relative index to its password and encoding that password
/// again gives the index back, for every index of the keyspace.
pub proof fn lemma_index_text_round_trip(alpha: Seq<char>, min: nat, max: nat, r: nat)
    requires
        alpha.no_duplicates(),
        r < total_of(alpha.len(), min, max),
    ensures
        min <= index_text(alpha, min, max, r).len() <= max,
        over_alphabet(alpha, index_text(alpha, min, max, r)),
        text_rank(alpha, min, index_text(alpha, min, max, r)) == r,
{
    let a = alpha.len();
    if max < min {
        assert(total_of(a, min, max) == 0);
    }
    lemma_locate_bounds(a, min, max, r);
    let at = locate(a, min, max, r);
    let ds = digits_of(at.1, a, at.0);
    let p = index_text(alpha, min, max, r);
    lemma_pow_nat(a, at.0);
    if at.0 == 0 {
        assert(ds =~= Seq::<nat>::empty());
        lemma_pow0(a as int);
        assert(symbol_ranks(alpha, p) =~= Seq::<nat>::empty());
    } else {
        if a == 0 {
            lemma0_pow(at.0);
        }
        lemma_digits_of_shape(at.1, a, at.0);
        lemma_ranks_of_spell(alpha, ds);
        lemma_value_of_digits(at.1, a, at.0);
    }
}

/// Encoding a password of the keyspace to its relative index and decoding
/// that index again gives the password back.
pub proof fn lemma_text_index_round_trip(alpha: Seq<char>, min: nat, max: nat, p: Seq<char>)
    requires
        alpha.no_duplicates(),
        min <= p.len() <= max,
        over_alphabet(alpha, p),
    ensures
        text_rank(alpha, min, p) < total_of(alpha.len(), min, max),
        index_text(alpha, min, max, text_rank(alpha, min, p)) == p,
{
    let a = alpha.len();
    let ds = symbol_ranks(alpha, p);
    let len = p.len();
    lemma_spell_of_ranks(alpha, p);
    if len > 0 {
        assert(alpha.contains(p[0]));
    }
    let v = value_of(ds, a);
    if len == 0 {
        assert(ds =~= Seq::<nat>::empty());
        lemma_pow0(a as int);
    } else {
        lemma_value_bound(ds, a);
        lemma_digits_of_value(ds, a);
    }
    lemma_locate_of_rank(a, min, max, len, v);
    lemma_bucket_sum_extend(a, min, len);
    lemma_bucket_sum_monotone(a, min, len + 1, max + 1);
    if len == 0 {
        assert(spell(alpha, digits_of(v, a, len)) =~= p);
    }
}

fn symbol_position(alphabet: &Vec<char>, c: char) -> (r: Option<usize>)
    requires
        alphabet@.no_duplicates(),
    ensures
        match r {
            Some(i) => i < alphabet@.len() && alphabet@[i as int] == c && alphabet@.index_of(c)
                == i,
            None => !alphabet@.contains(c),
        },
{
    let mut i: usize = 0;
    while i < alphabet.len()
        invariant
            alphabet@.no_duplicates(),
            i <= alphabet@.len(),
            forall|j: int| 0 <= j < i ==> alphabet@[j] != c,
        decreases alphabet.len() - i,
    {
        if alphabet[i] == c {
            proof {
                lemma_index_of_unique(alphabet@, i as int);
            }
            return Some(i);
        }
        i += 1;
    }
    None
}

/// The relative index of `password`: the number of shorter passwords of the
/// keyspace plus its value as a base-`alphabet.len()` numeral.
pub fn text_to_relative_index(
    password: &str,
    alphabet: &Vec<char>,
    min_length: usize,
    max_length: usize,
) -> (r: Result<u128, KeyspaceError>)
    requires
        alphabet@.no_duplicates(),
    ensures
        !(min_length <= password@.len() <= max_length) ==> r == Err::<u128, KeyspaceError>(
            KeyspaceError::InvalidLength,
        ),
        min_length <= password@.len() <= max_length && !over_alphabet(alphabet@, password@) ==> r
            == Err::<u128, KeyspaceError>(KeyspaceError::InvalidAlphabet),
        min_length <= password@.len() <= max_length && over_alphabet(alphabet@, password@)
            && text_rank(alphabet@, min_length as nat, password@) <= u128::MAX ==> r == Ok::<
            u128,
            KeyspaceError,
        >(text_rank(alphabet@, min_length as nat, password@) as u128),
        min_length <= password@.len() <= max_length && over_alphabet(alphabet@, password@)
            && text_rank(alphabet@, min_length as nat, password@) > u128::MAX ==> r == Err::<
            u128,
            KeyspaceError,
        >(KeyspaceError::Overflow),
{
    let ghost p = password@;
    let ghost alpha = alphabet@;
    let n = password.unicode_len();
    if n < min_length || n > max_length {
        return Err(KeyspaceError::InvalidLength);
    }
    let mut ranks: Vec<usize> = Vec::new();
    let mut i: usize = 0;
    while i < n
        invariant
            min_length <= n <= max_length,
            n == p.len(),
            p == password@,
            alpha == alphabet@,
            alpha.no_duplicates(),
            i <= n,
            ranks@.len() == i,
            forall|j: int| 0 <= j < i ==> alpha.contains(#[trigger] p[j]),
            forall|j: int|
                0 <= j < i ==> #[trigger] ranks@[j] as nat == alpha.index_of(p[j]) && ranks@[j]
                    < alpha.len(),
        decreases n - i,
    {
        let c = password.get_char(i);
        match symbol_position(alphabet, c) {
            None => {
                return Err(KeyspaceError::InvalidAlphabet);
            },
            Some(k) => {
                ranks.push(k);
            },
        }
        i += 1;
    }
    let ghost ds = symbol_ranks(alpha, p);
    assert(over_alphabet(alpha, p));
    let base = alphabet.len();
    if n > 0 {
        assert(alpha.contains(p[0]));
    }
    let mut value: u128 = 0;
    let mut k: usize = 0;
    while k < n
        invariant
            min_length <= n <= max_length,
            n == p.len(),
            p == password@,
            over_alphabet(alpha, p),
            ds == symbol_ranks(alpha, p),
            alpha == alphabet@,
            base == alpha.len(),
            n > 0 ==> base >= 1,
            ranks@.len() == n,
            forall|j: int| 0 <= j < n ==> #[trigger] ranks@[j] as nat == ds[j],
            k <= n,
            value == value_of(ds.take(k as int), base as nat),
        decreases n - k,
    {
        proof {
            lemma_value_take_step(ds, base as nat, k as nat);
            lemma_value_prefix(ds, base as nat, (k + 1) as nat);
        }
        let digit = ranks[k] as u128;
        let next = match value.checked_mul(base as u128) {
            None => {
                return Err(KeyspaceError::Overflow);
            },
            Some(m) => match m.checked_add(digit) {
                None => {
                    return Err(KeyspaceError::Overflow);
                },
                Some(s) => s,
            },
        };
        value = next;
        k += 1;
    }
    assert(ds.take(n as int) =~= ds);
    match sum_counts(base, min_length, n) {
        None => Err(KeyspaceError::Overflow),
        Some(shorter) => match shorter.checked_add(value) {
            None => Err(KeyspaceError::Overflow),
            Some(rank) => Ok(rank),
        },
    }
}

} // verus!
