//! Chains: from a start index, alternate the digest of the index's password
//! with a round-dependent reduction, and keep only the two ends.
use crate::digest::{hash, password_digest};
use crate::keyspace::{
    index_text, lemma_index_text_round_trip, over_alphabet, relative_index_to_text,
    text_rank, text_to_relative_index, total_hash_count, total_of, KeyspaceError,
};
use crate::reduce::{lemma_window_width_bound, reduce, reduce_of};
use vstd::prelude::*;

verus! {

/// A validated keyspace: an alphabet of at least two distinct symbols and a
/// length range `[min_length, max_length]` with `min_length >= 1`, whose
/// number of passwords `size` fits in 128 bits.
pub struct Keyspace {
    pub alphabet: Vec<char>,
    pub min_length: usize,
    pub max_length: usize,
    pub size: u128,
}

/// One chain: the index it starts from and the index it ends at.
#[derive(Debug, Clone, Copy, PartialEq, Eq, Structural)]
pub struct Chain {
    pub start: u128,
    pub end: u128,
}

impl Keyspace {
    pub open spec fn wf(&self) -> bool {
        &&& self.alphabet@.no_duplicates()
        &&& self.alphabet@.len() >= 2
        &&& 1 <= self.min_length <= self.max_length
        &&& self.size == total_of(
            self.alphabet@.len(),
            self.min_length as nat,
            self.max_length as nat,
        )
    }

    /// The password of index `i`.
    pub open spec fn text_of(&self, i: nat) -> Seq<char> {
        index_text(self.alphabet@, self.min_length as nat, self.max_length as nat, i)
    }

    /// A keyspace holds at least one password.
    pub proof fn lemma_size_positive(&self)
        requires
            self.wf(),
        ensures
            self.size > 0,
    {
        let a = self.alphabet@.len();
        vstd::arithmetic::power::lemma_pow_positive(a as int, self.min_length as nat);
        crate::keyspace::lemma_bucket_sum_monotone(
            a,
            self.min_length as nat,
            self.min_length as nat,
            (self.max_length + 1) as nat,
        );
    }

    /// Checks the alphabet and the length range and counts the passwords.
    pub fn new(alphabet: Vec<char>, min_length: usize, max_length: usize) -> (r: Result<
        Keyspace,
        KeyspaceError,
    >)
        ensures
            min_length == 0 || max_length < min_length ==> r == Err::<Keyspace, KeyspaceError>(
                KeyspaceError::InvalidRange,
            ),
            1 <= min_length <= max_length && !(alphabet@.len() >= 2 && alphabet@.no_duplicates())
                ==> r == Err::<Keyspace, KeyspaceError>(KeyspaceError::InvalidAlphabet),
            1 <= min_length <= max_length && alphabet@.len() >= 2 && alphabet@.no_duplicates()
                && total_of(alphabet@.len(), min_length as nat, max_length as nat) > u128::MAX
                ==> r == Err::<Keyspace, KeyspaceError>(KeyspaceError::Overflow),
            r matches Ok(k) ==> k.wf() && k.alphabet@ == alphabet@ && k.min_length == min_length
                && k.max_length == max_length,
            1 <= min_length <= max_length && alphabet@.len() >= 2 && alphabet@.no_duplicates()
                && total_of(alphabet@.len(), min_length as nat, max_length as nat) <= u128::MAX
                ==> r is Ok,
    {
        if min_length == 0 || max_length < min_length {
            return Err(KeyspaceError::InvalidRange);
        }
        if alphabet.len() < 2 || !all_distinct(&alphabet) {
            return Err(KeyspaceError::InvalidAlphabet);
        }
        match total_hash_count(alphabet.len(), min_length, max_length) {
            Err(e) => Err(e),
            Ok(size) => Ok(Keyspace { alphabet, min_length, max_length, size }),
        }
    }

    /// The password of `index`.
    pub fn index_to_text(&self, index: u128) -> (r: String)
        requires
            self.wf(),
            index < self.size,
        ensures
            r@ == self.text_of(index as nat),
    {
        match relative_index_to_text(index, &self.alphabet, self.min_length, self.max_length) {
            Ok(s) => s,
            Err(_) => {
                assert(false);
                String::new()
            },
        }
    }

    /// The index of `password`.
    pub fn text_to_index(&self, password: &str) -> (r: Result<u128, KeyspaceError>)
        requires
            self.wf(),
        ensures
            !(self.min_length <= password@.len() <= self.max_length) ==> r == Err::<
                u128,
                KeyspaceError,
            >(KeyspaceError::InvalidLength),
            self.min_length <= password@.len() <= self.max_length && !over_alphabet(
                self.alphabet@,
                password@,
            ) ==> r == Err::<u128, KeyspaceError>(KeyspaceError::InvalidAlphabet),
            self.min_length <= password@.len() <= self.max_length && over_alphabet(
                self.alphabet@,
                password@,
            ) ==> r == Ok::<u128, KeyspaceError>(
                text_rank(self.alphabet@, self.min_length as nat, password@) as u128,
            ),
    {
        proof {
            if self.min_length <= password@.len() <= self.max_length && over_alphabet(
                self.alphabet@,
                password@,
            ) {
                crate::keyspace::lemma_text_index_round_trip(
                    self.alphabet@,
                    self.min_length as nat,
                    self.max_length as nat,
                    password@,
                );
            }
        }
        text_to_relative_index(password, &self.alphabet, self.min_length, self.max_length)
    }
}

fn all_distinct(symbols: &Vec<char>) -> (r: bool)
    ensures
        r == symbols@.no_duplicates(),
{
    let mut i: usize = 0;
    while i < symbols.len()
        invariant
            i <= symbols@.len(),
            forall|a: int, b: int|
                0 <= a < i && 0 <= b < symbols@.len() && a != b ==> symbols@[a] != symbols@[b],
        decreases symbols.len() - i,
    {
        let mut j: usize = 0;
        while j < symbols.len()
            invariant
                i < symbols@.len(),
                j <= symbols@.len(),
                forall|a: int, b: int|
                    0 <= a < i && 0 <= b < symbols@.len() && a != b ==> symbols@[a] != symbols@[b],
                forall|b: int| 0 <= b < j && b != i ==> symbols@[i as int] != symbols@[b],
            decreases symbols.len() - j,
        {
            if j != i && symbols[i] == symbols[j] {
                return false;
            }
            j += 1;
        }
        i += 1;
    }
    true
}

/// One round: the index that the digest of the password of `index` reduces
/// to in round `round`.
pub open spec fn step_of(ks: Keyspace, index: nat, round: nat) -> nat {
    reduce_of(password_digest(ks.text_of(index)), ks.size as nat, round)
}

/// The index reached from `index` by the rounds `from .. to`.
pub open spec fn walk(ks: Keyspace, index: nat, from: nat, to: nat) -> nat
    decreases to - from,
{
    if from >= to {
        index
    } else {
        walk(ks, step_of(ks, index, from), from + 1, to)
    }
}

/// The chain of `rounds` rounds that starts at `start`.
pub open spec fn chain_of(ks: Keyspace, start: nat, rounds: nat) -> Chain {
    Chain { start: start as u128, end: walk(ks, start, 0, rounds) as u128 }
}

/// Walking `a .. b` and then `b .. c` is walking `a .. c`.
pub proof fn lemma_walk_split(ks: Keyspace, index: nat, a: nat, b: nat, c: nat)
    requires
        a <= b <= c,
    ensures
        walk(ks, walk(ks, index, a, b), b, c) == walk(ks, index, a, c),
    decreases b - a,
{
    if a < b {
        lemma_walk_split(ks, step_of(ks, index, a), a + 1, b, c);
    }
}

/// One round of a chain, from `index` in round `round`.
pub fn step(ks: &Keyspace, index: u128, round: u64) -> (r: u128)
    requires
        ks.wf(),
        index < ks.size,
    ensures
        r == step_of(*ks, index as nat, round as nat),
        r < ks.size,
{
    let password = ks.index_to_text(index);
    let digest = hash(password.as_str());
    proof {
        lemma_index_text_round_trip(
            ks.alphabet@,
            ks.min_length as nat,
            ks.max_length as nat,
            index as nat,
        );
        assert(ks.size > 0);
        lemma_window_width_bound(ks.size as nat);
    }
    match reduce(&digest, ks.size, round) {
        Ok(next) => next,
        Err(_) => {
            assert(false);
            0
        },
    }
}

/// Builds the chain of `rounds` rounds from `start`.
pub fn build_chain(ks: &Keyspace, start: u128, rounds: u64) -> (r: Chain)
    requires
        ks.wf(),
        start < ks.size,
    ensures
        r == chain_of(*ks, start as nat, rounds as nat),
{
    let mut index = start;
    let mut round: u64 = 0;
    while round < rounds
        invariant
            ks.wf(),
            index < ks.size,
            round <= rounds,
            walk(*ks, start as nat, 0, rounds as nat) == walk(
                *ks,
                index as nat,
                round as nat,
                rounds as nat,
            ),
        decreases rounds - round,
    {
        index = step(ks, index, round);
        round += 1;
    }
    Chain { start, end: index }
}

/// A chain is a function of its start, its length and the keyspace: two
/// builds from the same inputs end at the same index.
pub proof fn lemma_build_chain_deterministic(ks: Keyspace, start: nat, rounds: nat, a: Chain, b: Chain)
    requires
        a == chain_of(ks, start, rounds),
        b == chain_of(ks, start, rounds),
    ensures
        a.end == b.end,
        a == b,
{
}

} // verus!
