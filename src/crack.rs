//! Inverting a digest with a chain table: for each position that the digest
//! may hold in a chain, finish the chain from there, look its end up, and
//! replay the chains that end there from their start.
use crate::chain::{lemma_walk_split, step, step_of, walk, Chain, Keyspace};
use crate::digest::{hash, password_digest};
use crate::reduce::{lemma_window_width_bound, reduce, reduce_of};
use crate::table::{ending_at, lemma_ending_at_members, ChainTable};
use vstd::prelude::*;
use vstd::utf8::encode_utf8;

verus! {

/// The end of the chain whose password at position `offset` has digest
/// `target`: reduce the digest in round `offset`, then run the remaining
/// rounds.
pub open spec fn candidate_end(ks: Keyspace, target: Seq<u8>, offset: nat, rounds: nat) -> nat {
    walk(ks, reduce_of(target, ks.size as nat, offset), offset + 1, rounds)
}

/// The password at position `i` of the chain that starts at `start`.
pub open spec fn chain_text(ks: Keyspace, start: nat, i: nat) -> Seq<char> {
    ks.text_of(walk(ks, start, 0, i))
}

/// Chain `c` of `chains` ends where the chain through `target` at position
/// `offset` would end, and its password at position `i` has digest `target`.
pub open spec fn is_hit(
    ks: Keyspace,
    chains: Seq<Chain>,
    target: Seq<u8>,
    rounds: nat,
    c: Chain,
    offset: nat,
    i: nat,
) -> bool {
    &&& chains.contains(c)
    &&& c.start < ks.size
    &&& offset < rounds
    &&& i < rounds
    &&& c.end == candidate_end(ks, target, offset, rounds)
    &&& password_digest(chain_text(ks, c.start as nat, i)) == target
}

fn same_bytes(a: &Vec<u8>, b: &Vec<u8>) -> (r: bool)
    ensures
        r == (a@ == b@),
{
    if a.len() != b.len() {
        return false;
    }
    let mut i: usize = 0;
    while i < a.len()
        invariant
            a@.len() == b@.len(),
            i <= a@.len(),
            forall|k: int| 0 <= k < i ==> a@[k] == b@[k],
        decreases a.len() - i,
    {
        if a[i] != b[i] {
            return false;
        }
        i += 1;
    }
    assert(a@ =~= b@);
    true
}

/// The end of the chain through `target` at position `offset`.
fn candidate(ks: &Keyspace, target: &Vec<u8>, offset: u64, rounds: u64) -> (r: u128)
    requires
        ks.wf(),
        target@.len() == 32,
        offset < rounds,
    ensures
        r == candidate_end(*ks, target@, offset as nat, rounds as nat),
{
    proof {
        lemma_window_width_bound(ks.size as nat);
        ks.lemma_size_positive();
    }
    let mut index = match reduce(target, ks.size, offset) {
        Ok(i) => i,
        Err(_) => {
            assert(false);
            0
        },
    };
    let ghost first = index;
    let mut round: u64 = offset + 1;
    while round < rounds
        invariant
            ks.wf(),
            index < ks.size,
            offset < round <= rounds,
            first == reduce_of(target@, ks.size as nat, offset as nat),
            walk(*ks, first as nat, (offset + 1) as nat, rounds as nat) == walk(
                *ks,
                index as nat,
                round as nat,
                rounds as nat,
            ),
        decreases rounds - round,
    {
        index = step(ks, index, round);
        round += 1;
    }
    index
}

/// Replays the chain from `start`, looking for a password with digest
/// `target` among its first `rounds` positions.
fn replay(ks: &Keyspace, start: u128, target: &Vec<u8>, rounds: u64) -> (r: Option<String>)
    requires
        ks.wf(),
        start < ks.size,
    ensures
        match r {
            Some(p) => exists|i: nat|
                i < rounds && p@ == chain_text(*ks, start as nat, i) && password_digest(p@)
                    == target@,
            None => forall|i: nat|
                i < rounds ==> password_digest(#[trigger] chain_text(*ks, start as nat, i))
                    != target@,
        },
{
    let mut index = start;
    let mut round: u64 = 0;
    while round < rounds
        invariant
            ks.wf(),
            index < ks.size,
            round <= rounds,
            index == walk(*ks, start as nat, 0, round as nat),
            forall|i: nat|
                i < round ==> password_digest(#[trigger] chain_text(*ks, start as nat, i))
                    != target@,
        decreases rounds - round,
    {
        let password = ks.index_to_text(index);
        let digest = hash(password.as_str());
        if same_bytes(&digest, target) {
            assert(password@ == chain_text(*ks, start as nat, round as nat));
            return Some(password);
        }
        proof {
            lemma_walk_split(*ks, start as nat, 0, round as nat, (round + 1) as nat);
            assert(walk(*ks, index as nat, round as nat, (round + 1) as nat) == walk(
                *ks,
                step_of(*ks, index as nat, round as nat),
                (round + 1) as nat,
                (round + 1) as nat,
            ));
        }
        index = step(ks, index, round);
        round += 1;
    }
    None
}

/// Recovers a password whose digest is `target` from the chains of `table`,
/// built with `rounds` rounds over `ks`. Positions are tried from the last
/// round down to the first; for each, every chain that ends where the chain
/// through `target` would end is replayed from its start. `None` means that
/// no such chain holds a password with that digest.
pub fn crack(ks: &Keyspace, table: &ChainTable, target: &Vec<u8>, rounds: u64) -> (r: Option<
    String,
>)
    requires
        ks.wf(),
        table.wf(),
        target@.len() == 32,
    ensures
        match r {
            Some(p) => password_digest(p@) == target@ && exists|c: Chain, offset: nat, i: nat|
                #[trigger] is_hit(*ks, table@, target@, rounds as nat, c, offset, i) && p@
                    == chain_text(*ks, c.start as nat, i),
            None => forall|c: Chain, offset: nat, i: nat|
                !#[trigger] is_hit(*ks, table@, target@, rounds as nat, c, offset, i),
        },
{
    let mut offset: u64 = rounds;
    while offset > 0
        invariant
            ks.wf(),
            table.wf(),
            target@.len() == 32,
            offset <= rounds,
            forall|c: Chain, o: nat, i: nat|
                offset <= o ==> !#[trigger] is_hit(*ks, table@, target@, rounds as nat, c, o, i),
        decreases offset,
    {
        offset -= 1;
        let end = candidate(ks, target, offset, rounds);
        let found = table.lookup_by_end(end);
        proof {
            lemma_ending_at_members(table@, end);
        }
        let mut j: usize = 0;
        while j < found.len()
            invariant
                ks.wf(),
                offset < rounds,
                end == candidate_end(*ks, target@, offset as nat, rounds as nat),
                found@ == ending_at(table@, end),
                forall|c: Chain| #[trigger]
                    ending_at(table@, end).contains(c) <==> table@.contains(c) && c.end == end,
                j <= found@.len(),
                forall|k: int, i: nat|
                    0 <= k < j && found@[k].start < ks.size && i < rounds ==> password_digest(
                        #[trigger] chain_text(*ks, found@[k].start as nat, i),
                    ) != target@,
            decreases found.len() - j,
        {
            let c = found[j];
            if c.start < ks.size {
                match replay(ks, c.start, target, rounds) {
                    Some(p) => {
                        proof {
                            assert(found@.contains(c));
                            let i = choose|i: nat|
                                i < rounds && p@ == chain_text(*ks, c.start as nat, i)
                                    && password_digest(p@) == target@;
                            assert(is_hit(*ks, table@, target@, rounds as nat, c, offset as nat, i));
                        }
                        return Some(p);
                    },
                    None => {},
                }
            }
            j += 1;
        }
        proof {
            assert forall|c: Chain, o: nat, i: nat|
                offset <= o implies !#[trigger] is_hit(
                *ks,
                table@,
                target@,
                rounds as nat,
                c,
                o,
                i,
            ) by {
                if o == offset && is_hit(*ks, table@, target@, rounds as nat, c, o, i) {
                    assert(found@.contains(c));
                    let k = choose|k: int| 0 <= k < found@.len() && found@[k] == c;
                    assert(password_digest(chain_text(*ks, found@[k].start as nat, i)) != target@);
                }
            }
        }
    }
    None
}

fn push_all(out: &mut Vec<u8>, bytes: &[u8])
    ensures
        final(out)@ == old(out)@ + bytes@,
{
    let mut i: usize = 0;
    while i < bytes.len()
        invariant
            i <= bytes@.len(),
            out@ == old(out)@ + bytes@.take(i as int),
        decreases bytes.len() - i,
    {
        out.push(bytes[i]);
        assert(bytes@.take(i + 1) =~= bytes@.take(i as int).push(bytes@[i as int]));
        i += 1;
    }
    assert(bytes@.take(bytes@.len() as int) =~= bytes@);
}

/// The record kept of a cracked digest: the digest's bytes followed by the
/// password's UTF-8 bytes.
pub fn cracked_record(digest: &Vec<u8>, password: &str) -> (r: Vec<u8>)
    ensures
        r@ == digest@ + encode_utf8(password@),
{
    let mut out: Vec<u8> = Vec::new();
    push_all(&mut out, digest.as_slice());
    push_all(&mut out, password.as_bytes());
    assert(out@ =~= digest@ + encode_utf8(password@));
    out
}

} // verus!
