//! The chain table: chains kept in order of their end index, bounded by a
//! budget of serialized bytes and by a cap on chains that share an end.
use crate::chain::Chain;
use crate::radix::{digits_below, digits_of, lemma_digits_of_shape, lemma_value_bound, lemma_value_of_digits, lemma_value_take_step, value_of};
use vstd::arithmetic::power::{lemma_pow_increases, pow};
use vstd::prelude::*;

verus! {

/// Bytes that one chain takes when serialized: two 16-byte big-endian
/// integers, start then end.
pub const RECORD_BYTES: usize = 32;

/// Why the table refused a chain or a serialized table.
#[derive(Debug, Clone, Copy, PartialEq, Eq, Structural)]
pub enum TableError {
    /// The chain would take the table past its byte budget.
    TableFull,
    /// The serialized length is not a whole number of records.
    InvalidLength,
    /// The serialized records are not in order of their end index.
    Unsorted,
}

/// The chains of `s` that end at `end`, in their order in `s`.
pub open spec fn ending_at(s: Seq<Chain>, end: u128) -> Seq<Chain> {
    s.filter(|c: Chain| c.end == end)
}

/// A chain is among those of `s` that end at `end` exactly when it is in `s`
/// and ends there.
pub proof fn lemma_ending_at_members(s: Seq<Chain>, end: u128)
    ensures
        forall|c: Chain| #[trigger]
            ending_at(s, end).contains(c) <==> s.contains(c) && c.end == end,
{
    let f = ending_at(s, end);
    assert forall|c: Chain| #[trigger] f.contains(c) <==> s.contains(c) && c.end == end by {
        if f.contains(c) {
            s.lemma_filter_contains_rev(|c: Chain| c.end == end, c);
            let k = choose|k: int| 0 <= k < f.len() && f[k] == c;
            s.lemma_filter_pred(|c: Chain| c.end == end, k);
        }
        if s.contains(c) && c.end == end {
            let k = choose|k: int| 0 <= k < s.len() && s[k] == c;
            s.lemma_filter_contains(|c: Chain| c.end == end, k);
        }
    }
}

/// Inserting a chain that ends elsewhere leaves the chains ending at `e` as
/// they were.
pub proof fn lemma_ending_at_insert_other(s: Seq<Chain>, i: int, c: Chain, e: u128)
    requires
        0 <= i <= s.len(),
        c.end != e,
    ensures
        ending_at(s.insert(i, c), e) == ending_at(s, e),
{
    let a = s.take(i);
    let b = s.skip(i);
    let one = seq![c];
    assert(s.insert(i, c) =~= a + (one + b));
    assert(s =~= a + b);
    Seq::filter_distributes_over_add(a, one + b, |x: Chain| x.end == e);
    Seq::filter_distributes_over_add(one, b, |x: Chain| x.end == e);
    Seq::filter_distributes_over_add(a, b, |x: Chain| x.end == e);
    reveal(Seq::filter);
    assert(one.drop_last() =~= Seq::<Chain>::empty());
    assert(one.last() == c);
    assert(Seq::<Chain>::empty().filter(|x: Chain| x.end == e) == Seq::<Chain>::empty());
    assert(one.drop_last().filter(|x: Chain| x.end == e) == Seq::<Chain>::empty());
    assert(one.filter(|x: Chain| x.end == e) =~= Seq::<Chain>::empty());
    assert(ending_at(s.insert(i, c), e) =~= ending_at(s, e));
}

/// `s` is ordered by end index.
pub open spec fn sorted_by_end(s: Seq<Chain>) -> bool {
    forall|i: int, j: int| 0 <= i <= j < s.len() ==> s[i].end <= s[j].end
}

/// A table of chains.
pub struct ChainTable {
    chains: Vec<Chain>,
    max_bytes: u64,
    max_per_end: usize,
}

impl View for ChainTable {
    type V = Seq<Chain>;

    closed spec fn view(&self) -> Seq<Chain> {
        self.chains@
    }
}

/// The serialized size of `n` chains.
pub open spec fn serialized_size_of(n: nat) -> nat {
    RECORD_BYTES as nat * n
}

/// With a budget of `max_bytes` bytes (0: no budget), `n` chains fit.
pub open spec fn fits(max_bytes: nat, n: nat) -> bool {
    max_bytes == 0 || serialized_size_of(n) <= max_bytes
}

proof fn lemma_filter_range(s: Seq<Chain>, key: u128, lo: int, hi: int, m: int)
    requires
        0 <= lo <= hi <= s.len(),
        0 <= m <= s.len(),
        forall|k: int| 0 <= k < lo ==> #[trigger] s[k].end < key,
        forall|k: int| lo <= k < hi ==> #[trigger] s[k].end == key,
        forall|k: int| hi <= k < s.len() ==> #[trigger] s[k].end > key,
    ensures
        ending_at(s.take(m), key) == s.subrange(
            lo,
            if m < lo {
                lo
            } else if m > hi {
                hi
            } else {
                m
            },
        ),
    decreases m,
{
    reveal(Seq::filter);
    if m == 0 {
        assert(ending_at(s.take(0), key) =~= Seq::<Chain>::empty());
        assert(s.subrange(lo, lo) =~= Seq::<Chain>::empty());
    } else {
        lemma_filter_range(s, key, lo, hi, m - 1);
        assert(s.take(m).drop_last() =~= s.take(m - 1));
        let prev = if m - 1 < lo {
            lo
        } else if m - 1 > hi {
            hi
        } else {
            m - 1
        };
        if lo <= m - 1 < hi {
            assert(s.subrange(lo, m) =~= s.subrange(lo, prev).push(s[m - 1]));
        }
    }
}

proof fn lemma_ending_at_range(s: Seq<Chain>, key: u128, lo: int, hi: int)
    requires
        0 <= lo <= hi <= s.len(),
        forall|k: int| 0 <= k < lo ==> #[trigger] s[k].end < key,
        forall|k: int| lo <= k < hi ==> #[trigger] s[k].end == key,
        forall|k: int| hi <= k < s.len() ==> #[trigger] s[k].end > key,
    ensures
        ending_at(s, key) == s.subrange(lo, hi),
{
    lemma_filter_range(s, key, lo, hi, s.len() as int);
    assert(s.take(s.len() as int) =~= s);
}

/// The 16-byte big-endian encoding of `v`.
pub open spec fn be_bytes(v: nat) -> Seq<u8> {
    digits_of(v, 256, 16).map_values(|d: nat| d as u8)
}

/// The number that the big-endian bytes `b` denote.
pub open spec fn read_be(b: Seq<u8>) -> nat {
    value_of(b.map_values(|x: u8| x as nat), 256)
}

/// One serialized chain: its start, then its end.
pub open spec fn record_bytes(c: Chain) -> Seq<u8> {
    be_bytes(c.start as nat) + be_bytes(c.end as nat)
}

/// The serialized form of the chains `s`, one record after another.
pub open spec fn encode_chains(s: Seq<Chain>) -> Seq<u8>
    decreases s.len(),
{
    if s.len() == 0 {
        Seq::empty()
    } else {
        encode_chains(s.drop_last()) + record_bytes(s.last())
    }
}

/// The chain of record `i` of the serialized bytes `b`.
pub open spec fn record_at(b: Seq<u8>, i: int) -> Chain {
    Chain {
        start: read_be(b.subrange(32 * i, 32 * i + 16)) as u128,
        end: read_be(b.subrange(32 * i + 16, 32 * i + 32)) as u128,
    }
}

/// The chains that the serialized bytes `b` hold.
pub open spec fn decode_chains(b: Seq<u8>) -> Seq<Chain> {
    Seq::new(b.len() / 32, |i: int| record_at(b, i))
}

proof fn lemma_pow256_16()
    ensures
        pow(256, 16) == 0x1_0000_0000_0000_0000_0000_0000_0000_0000,
{
    reveal_with_fuel(pow, 17);
}

/// Sixteen bytes hold any 128-bit integer, and read back to it.
pub proof fn lemma_be_bytes(v: u128)
    ensures
        be_bytes(v as nat).len() == 16,
        read_be(be_bytes(v as nat)) == v,
{
    lemma_pow256_16();
    lemma_digits_of_shape(v as nat, 256, 16);
    lemma_value_of_digits(v as nat, 256, 16);
    let ds = digits_of(v as nat, 256, 16);
    assert(be_bytes(v as nat).map_values(|x: u8| x as nat) =~= ds) by {
        assert forall|i: int| 0 <= i < 16 implies #[trigger] ds[i] < 256 by {}
    }
}

/// Where each record stands in the serialized form.
pub proof fn lemma_encode_chains(s: Seq<Chain>)
    ensures
        encode_chains(s).len() == 32 * s.len(),
        forall|i: int|
            0 <= i < s.len() ==> #[trigger] encode_chains(s).subrange(32 * i, 32 * i + 32)
                == record_bytes(s[i]),
    decreases s.len(),
{
    if s.len() > 0 {
        let rest = s.drop_last();
        lemma_encode_chains(rest);
        lemma_be_bytes(s.last().start);
        lemma_be_bytes(s.last().end);
        let e = encode_chains(s);
        assert forall|i: int| 0 <= i < s.len() implies #[trigger] e.subrange(32 * i, 32 * i + 32)
            == record_bytes(s[i]) by {
            if i < rest.len() {
                assert(e.subrange(32 * i, 32 * i + 32) =~= encode_chains(rest).subrange(
                    32 * i,
                    32 * i + 32,
                ));
                assert(rest[i] == s[i]);
            } else {
                assert(e.subrange(32 * i, 32 * i + 32) =~= record_bytes(s.last()));
            }
        }
    }
}

/// Serializing chains and reading them back gives the same chains.
pub proof fn lemma_serialize_round_trip(s: Seq<Chain>)
    ensures
        encode_chains(s).len() % 32 == 0,
        decode_chains(encode_chains(s)) == s,
{
    lemma_encode_chains(s);
    let e = encode_chains(s);
    assert(e.len() / 32 == s.len()) by (nonlinear_arith)
        requires
            e.len() == 32 * s.len(),
    ;
    assert forall|i: int| 0 <= i < s.len() implies #[trigger] record_at(e, i) == s[i] by {
        let r = e.subrange(32 * i, 32 * i + 32);
        assert(r == record_bytes(s[i]));
        lemma_be_bytes(s[i].start);
        lemma_be_bytes(s[i].end);
        assert(e.subrange(32 * i, 32 * i + 16) =~= r.subrange(0, 16));
        assert(e.subrange(32 * i + 16, 32 * i + 32) =~= r.subrange(16, 32));
        assert(r.subrange(0, 16) =~= be_bytes(s[i].start as nat));
        assert(r.subrange(16, 32) =~= be_bytes(s[i].end as nat));
    }
    assert(decode_chains(e) =~= s);
}

/// Appends the 16-byte big-endian encoding of `v`.
fn write_be(out: &mut Vec<u8>, v: u128)
    ensures
        final(out)@ == old(out)@ + be_bytes(v as nat),
{
    let ghost digits = digits_of(v as nat, 256, 16);
    let mut q: u128 = v;
    let mut low_first: Vec<u8> = Vec::new();
    let ghost mut tail: Seq<nat> = Seq::empty();
    let mut i: usize = 0;
    while i < 16
        invariant
            i <= 16,
            digits == digits_of(q as nat, 256, (16 - i) as nat) + tail,
            tail.len() == i,
            low_first@.len() == i,
            forall|j: int| 0 <= j < i ==> #[trigger] tail[j] == low_first@[i - 1 - j] as nat,
        decreases 16 - i,
    {
        let d = q % 256;
        let ghost m = (16 - i) as nat;
        assert(digits_of(q as nat, 256, m) == digits_of((q / 256) as nat, 256, (m - 1) as nat).push(
            d as nat,
        ));
        assert(digits_of((q / 256) as nat, 256, (m - 1) as nat).push(d as nat) + tail
            =~= digits_of((q / 256) as nat, 256, (m - 1) as nat) + (seq![d as nat] + tail));
        proof {
            tail = seq![d as nat] + tail;
        }
        low_first.push(d as u8);
        q = q / 256;
        i = i + 1;
    }
    assert(digits =~= tail);
    proof {
        lemma_digits_of_shape(v as nat, 256, 16);
    }
    let ghost start = out@;
    let mut k: usize = 0;
    while k < 16
        invariant
            k <= 16,
            tail.len() == 16,
            low_first@.len() == 16,
            digits == tail,
            digits == digits_of(v as nat, 256, 16),
            digits.len() == 16,
            digits_below(digits, 256),
            forall|j: int| 0 <= j < 16 ==> #[trigger] tail[j] == low_first@[15 - j] as nat,
            out@ == start + be_bytes(v as nat).take(k as int),
        decreases 16 - k,
    {
        let b = low_first[15 - k];
        out.push(b);
        assert(tail[k as int] == b as nat);
        assert(be_bytes(v as nat)[k as int] == b);
        assert(be_bytes(v as nat).take(k + 1) =~= be_bytes(v as nat).take(k as int).push(b));
        k += 1;
    }
    assert(be_bytes(v as nat).take(16) =~= be_bytes(v as nat));
}

/// The number that `bytes[at .. at + 16]` denote, big-endian.
fn read_be_at(bytes: &Vec<u8>, at: usize) -> (r: u128)
    requires
        at + 16 <= bytes@.len(),
    ensures
        r == read_be(bytes@.subrange(at as int, at + 16)),
{
    let ghost ds = bytes@.subrange(at as int, at + 16).map_values(|x: u8| x as nat);
    proof {
        lemma_pow256_16();
    }
    let len = bytes.len();
    let mut v: u128 = 0;
    let mut k: usize = 0;
    while k < 16
        invariant
            len == bytes@.len(),
            at + 16 <= bytes@.len(),
            ds == bytes@.subrange(at as int, at + 16).map_values(|x: u8| x as nat),
            k <= 16,
            v == value_of(ds.take(k as int), 256),
            pow(256, 16) == 0x1_0000_0000_0000_0000_0000_0000_0000_0000,
        decreases 16 - k,
    {
        proof {
            lemma_value_take_step(ds, 256, k as nat);
            let next = ds.take(k + 1);
            assert(digits_below(next, 256)) by {
                assert forall|j: int| 0 <= j < next.len() implies #[trigger] next[j] < 256 by {
                    assert(next[j] == bytes@[at + j] as nat);
                }
            }
            lemma_value_bound(next, 256);
            lemma_pow_increases(256, (k + 1) as nat, 16);
        }
        v = v * 256 + bytes[at + k] as u128;
        k += 1;
    }
    assert(ds.take(16) =~= ds);
    v
}

impl ChainTable {
    /// The byte budget; 0 means none.
    pub closed spec fn budget(&self) -> nat {
        self.max_bytes as nat
    }

    /// The most chains kept per end index; 0 means no cap.
    pub closed spec fn cap(&self) -> nat {
        self.max_per_end as nat
    }

    pub closed spec fn wf(&self) -> bool {
        &&& sorted_by_end(self.chains@)
        &&& fits(self.max_bytes as nat, self.chains@.len())
    }

    /// An empty table with a budget of `max_bytes` serialized bytes (0: no
    /// budget) that keeps at most `max_per_end` chains per end index (0: no
    /// cap).
    pub fn new(max_bytes: u64, max_per_end: usize) -> (r: ChainTable)
        ensures
            r.wf(),
            r@ == Seq::<Chain>::empty(),
            r.budget() == max_bytes,
            r.cap() == max_per_end,
    {
        ChainTable { chains: Vec::new(), max_bytes, max_per_end }
    }

    /// The number of chains.
    pub fn len(&self) -> (r: usize)
        ensures
            r == self@.len(),
    {
        self.chains.len()
    }

    /// The chain at position `i`, in order of end index.
    pub fn get(&self, i: usize) -> (r: Chain)
        requires
            i < self@.len(),
        ensures
            r == self@[i as int],
    {
        self.chains[i]
    }

    /// The size of the table once serialized.
    pub fn serialized_size(&self) -> (r: u128)
        ensures
            r == serialized_size_of(self@.len()),
    {
        RECORD_BYTES as u128 * self.chains.len() as u128
    }

    /// The table is in order of end index and within its budget.
    pub proof fn lemma_within_budget(&self)
        requires
            self.wf(),
        ensures
            sorted_by_end(self@),
            fits(self.budget(), self@.len()),
    {
    }

    /// Where the chains that end at `key` stand: `[lo, hi)`.
    fn key_range(&self, key: u128) -> (r: (usize, usize))
        requires
            self.wf(),
        ensures
            r.0 <= r.1 <= self@.len(),
            forall|k: int| 0 <= k < r.0 ==> #[trigger] self@[k].end < key,
            forall|k: int| r.0 <= k < r.1 ==> #[trigger] self@[k].end == key,
            forall|k: int| r.1 <= k < self@.len() ==> #[trigger] self@[k].end > key,
            ending_at(self@, key) == self@.subrange(r.0 as int, r.1 as int),
    {
        let n = self.chains.len();
        let mut lo: usize = 0;
        let mut hi: usize = n;
        while lo < hi
            invariant
                sorted_by_end(self.chains@),
                n == self.chains@.len(),
                lo <= hi <= n,
                forall|k: int| 0 <= k < lo ==> #[trigger] self.chains@[k].end < key,
                forall|k: int| hi <= k < n ==> #[trigger] self.chains@[k].end >= key,
            decreases hi - lo,
        {
            let mid = lo + (hi - lo) / 2;
            if self.chains[mid].end < key {
                lo = mid + 1;
            } else {
                hi = mid;
            }
        }
        let mut end = lo;
        while end < n && self.chains[end].end == key
            invariant
                sorted_by_end(self.chains@),
                n == self.chains@.len(),
                lo <= end <= n,
                forall|k: int| 0 <= k < lo ==> #[trigger] self.chains@[k].end < key,
                forall|k: int| lo <= k < end ==> #[trigger] self.chains@[k].end == key,
                forall|k: int| lo <= k < n ==> #[trigger] self.chains@[k].end >= key,
            decreases n - end,
        {
            end += 1;
        }
        proof {
            assert forall|k: int| end <= k < n implies #[trigger] self.chains@[k].end > key by {
                assert(self.chains@[end as int].end != key);
                assert(self.chains@[end as int].end <= self.chains@[k].end);
            }
            lemma_ending_at_range(self.chains@, key, lo as int, end as int);
        }
        (lo, end)
    }

    /// Every stored chain that ends at `end`, in stored order.
    pub fn lookup_by_end(&self, end: u128) -> (r: Vec<Chain>)
        requires
            self.wf(),
        ensures
            r@ == ending_at(self@, end),
    {
        let (lo, hi) = self.key_range(end);
        let mut found: Vec<Chain> = Vec::new();
        let mut i: usize = lo;
        while i < hi
            invariant
                lo <= i <= hi <= self.chains@.len(),
                found@ == self.chains@.subrange(lo as int, i as int),
            decreases hi - i,
        {
            found.push(self.chains[i]);
            assert(self.chains@.subrange(lo as int, i + 1) =~= self.chains@.subrange(
                lo as int,
                i as int,
            ).push(self.chains@[i as int]));
            i += 1;
        }
        found
    }

    /// Adds `chain`. Returns `Ok(true)` when it was stored, `Ok(false)` when
    /// as many chains as the cap allows already end where it ends (it is then
    /// dropped), and `Err(TableFull)` when storing it would take the table
    /// past its byte budget: the signal to stop generating.
    pub fn insert(&mut self, chain: Chain) -> (r: Result<bool, TableError>)
        requires
            old(self).wf(),
        ensures
            final(self).wf(),
            final(self).budget() == old(self).budget(),
            final(self).cap() == old(self).cap(),
            old(self).cap() != 0 && ending_at(old(self)@, chain.end).len() >= old(self).cap() ==> r
                == Ok::<bool, TableError>(false) && final(self)@ == old(self)@,
            !(old(self).cap() != 0 && ending_at(old(self)@, chain.end).len() >= old(self).cap())
                && !fits(old(self).budget(), old(self)@.len() + 1) ==> r == Err::<bool, TableError>(
                TableError::TableFull,
            ) && final(self)@ == old(self)@,
            !(old(self).cap() != 0 && ending_at(old(self)@, chain.end).len() >= old(self).cap())
                && fits(old(self).budget(), old(self)@.len() + 1) ==> r == Ok::<bool, TableError>(
                true,
            ) && ending_at(final(self)@, chain.end) == ending_at(old(self)@, chain.end).push(
                chain,
            ) && exists|i: int|
                0 <= i <= old(self)@.len() && final(self)@ == old(self)@.insert(i, chain),
            r == Ok::<bool, TableError>(true) ==> forall|e: u128|
                e != chain.end ==> #[trigger] ending_at(final(self)@, e) == ending_at(old(self)@, e),
    {
        let (lo, hi) = self.key_range(chain.end);
        if self.max_per_end != 0 && hi - lo >= self.max_per_end {
            return Ok(false);
        }
        let n = self.chains.len() as u128;
        if self.max_bytes != 0 && RECORD_BYTES as u128 * (n + 1) > self.max_bytes as u128 {
            return Err(TableError::TableFull);
        }
        let ghost before = self.chains@;
        self.chains.insert(hi, chain);
        proof {
            let after = self.chains@;
            assert(after =~= before.insert(hi as int, chain));
            assert forall|i: int, j: int| 0 <= i <= j < after.len() implies after[i].end
                <= after[j].end by {
                if i < hi && j > hi {
                    assert(after[i] == before[i]);
                    assert(after[j] == before[j - 1]);
                } else if i < hi && j < hi {
                    assert(after[i] == before[i]);
                    assert(after[j] == before[j]);
                } else if i > hi && j > hi {
                    assert(after[i] == before[i - 1]);
                    assert(after[j] == before[j - 1]);
                } else if i == hi && j > hi {
                    assert(after[j] == before[j - 1]);
                } else if i < hi && j == hi {
                    assert(after[i] == before[i]);
                }
            }
            assert forall|k: int| 0 <= k < lo implies #[trigger] after[k].end < chain.end by {
                assert(after[k] == before[k]);
            }
            assert forall|k: int| lo <= k < hi + 1 implies #[trigger] after[k].end == chain.end by {
                if k < hi {
                    assert(after[k] == before[k]);
                }
            }
            assert forall|k: int| hi + 1 <= k < after.len() implies #[trigger] after[k].end
                > chain.end by {
                assert(after[k] == before[k - 1]);
            }
            lemma_ending_at_range(after, chain.end, lo as int, hi + 1);
            assert(after.subrange(lo as int, hi + 1) =~= before.subrange(lo as int, hi as int).push(
                chain,
            ));
            assert forall|e: u128| e != chain.end implies #[trigger] ending_at(after, e)
                == ending_at(before, e) by {
                lemma_ending_at_insert_other(before, hi as int, chain, e);
            }
        }
        Ok(true)
    }

    /// The table serialized: each chain as its start and then its end, two
    /// 16-byte big-endian integers, in order of end index.
    pub fn to_bytes(&self) -> (r: Vec<u8>)
        ensures
            r@ == encode_chains(self@),
    {
        let mut out: Vec<u8> = Vec::new();
        let mut i: usize = 0;
        while i < self.chains.len()
            invariant
                i <= self.chains@.len(),
                out@ == encode_chains(self.chains@.take(i as int)),
            decreases self.chains.len() - i,
        {
            let c = self.chains[i];
            write_be(&mut out, c.start);
            write_be(&mut out, c.end);
            assert(self.chains@.take(i + 1).drop_last() =~= self.chains@.take(i as int));
            assert(out@ =~= encode_chains(self.chains@.take(i + 1)));
            i += 1;
        }
        assert(self.chains@.take(self.chains@.len() as int) =~= self.chains@);
        out
    }

    /// Reads a table serialized by `to_bytes`, with no byte budget and no cap
    /// per end index.
    pub fn from_bytes(bytes: &Vec<u8>) -> (r: Result<ChainTable, TableError>)
        ensures
            bytes@.len() % 32 != 0 ==> r == Err::<ChainTable, TableError>(TableError::InvalidLength),
            bytes@.len() % 32 == 0 && !sorted_by_end(decode_chains(bytes@)) ==> r == Err::<
                ChainTable,
                TableError,
            >(TableError::Unsorted),
            bytes@.len() % 32 == 0 && sorted_by_end(decode_chains(bytes@)) ==> (r matches Ok(t)
                && t.wf() && t@ == decode_chains(bytes@) && t.budget() == 0 && t.cap() == 0),
    {
        if bytes.len() % RECORD_BYTES != 0 {
            return Err(TableError::InvalidLength);
        }
        let len = bytes.len();
        let n = len / RECORD_BYTES;
        let ghost all = decode_chains(bytes@);
        let mut chains: Vec<Chain> = Vec::new();
        let mut i: usize = 0;
        while i < n
            invariant
                len == bytes@.len(),
                n == bytes@.len() / 32,
                bytes@.len() % 32 == 0,
                all == decode_chains(bytes@),
                i <= n,
                chains@ == all.take(i as int),
                sorted_by_end(chains@),
            decreases n - i,
        {
            assert(32 * i + 32 <= bytes@.len()) by (nonlinear_arith)
                requires
                    i < n,
                    n == bytes@.len() / 32,
                    bytes@.len() % 32 == 0,
            ;
            let start = read_be_at(bytes, RECORD_BYTES * i);
            let end = read_be_at(bytes, RECORD_BYTES * i + 16);
            let c = Chain { start, end };
            assert(c == all[i as int]);
            if i > 0 && chains[i - 1].end > end {
                assert(!sorted_by_end(all)) by {
                    assert(all[i - 1].end > all[i as int].end);
                }
                return Err(TableError::Unsorted);
            }
            chains.push(c);
            assert(chains@ =~= all.take(i + 1));
            i += 1;
        }
        assert(all.take(n as int) =~= all);
        Ok(ChainTable { chains, max_bytes: 0, max_per_end: 0 })
    }
}

} // verus!
