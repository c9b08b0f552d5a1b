//! Filling a chain table: one chain per start index, stored until the table
//! reports that it is full.
use crate::chain::{build_chain, chain_of, Keyspace};
use crate::table::{ending_at, fits, ChainTable, TableError};
use vstd::prelude::*;

verus! {

/// Builds the chain of `rounds` rounds from each of `starts` in turn and
/// stores it in `table`, stopping at the first chain that the table refuses
/// as full. Returns how many starts were used: all of them, or the position
/// of the refused one. Every chain built from a used start is in the table,
/// unless as many chains as the cap allows already end where it ends.
pub fn fill_table(ks: &Keyspace, table: &mut ChainTable, starts: &Vec<u128>, rounds: u64) -> (r:
    usize)
    requires
        ks.wf(),
        old(table).wf(),
        forall|i: int| 0 <= i < starts@.len() ==> #[trigger] starts@[i] < ks.size,
    ensures
        final(table).wf(),
        final(table).budget() == old(table).budget(),
        final(table).cap() == old(table).cap(),
        r <= starts@.len(),
        r < starts@.len() ==> !fits(final(table).budget(), final(table)@.len() + 1),
        old(table)@.len() <= final(table)@.len() <= old(table)@.len() + r,
        forall|c|
            #[trigger] final(table)@.contains(c) ==> old(table)@.contains(c) || exists|k: int|
                0 <= k < r && c == chain_of(*ks, starts@[k] as nat, rounds as nat),
        forall|k: int|
            0 <= k < r ==> stored_or_capped(
                *final(table),
                #[trigger] chain_of(*ks, starts@[k] as nat, rounds as nat),
            ),
{
    let ghost start_table = table@;
    let mut i: usize = 0;
    while i < starts.len()
        invariant
            ks.wf(),
            table.wf(),
            table.budget() == old(table).budget(),
            table.cap() == old(table).cap(),
            start_table == old(table)@,
            forall|j: int| 0 <= j < starts@.len() ==> #[trigger] starts@[j] < ks.size,
            i <= starts@.len(),
            start_table.len() <= table@.len() <= start_table.len() + i,
            forall|c|
                #[trigger] table@.contains(c) ==> start_table.contains(c) || exists|k: int|
                    0 <= k < i && c == chain_of(*ks, starts@[k] as nat, rounds as nat),
            forall|k: int|
                0 <= k < i ==> stored_or_capped(
                    *table,
                    #[trigger] chain_of(*ks, starts@[k] as nat, rounds as nat),
                ),
        decreases starts.len() - i,
    {
        let chain = build_chain(ks, starts[i], rounds);
        let ghost before = table@;
        match table.insert(chain) {
            Err(TableError::TableFull) => {
                return i;
            },
            Err(_) => {},
            Ok(_) => {},
        }
        proof {
            let after = table@;
            assert forall|k: int| 0 <= k < i + 1 implies stored_or_capped(
                *table,
                #[trigger] chain_of(*ks, starts@[k] as nat, rounds as nat),
            ) by {
                let ck = chain_of(*ks, starts@[k] as nat, rounds as nat);
                if after != before {
                    let p = choose|p: int| 0 <= p <= before.len() && after == before.insert(p, chain);
                    if k == i {
                        assert(after[p] == chain);
                    } else if before.contains(ck) {
                        let m = choose|m: int| 0 <= m < before.len() && before[m] == ck;
                        if m < p {
                            assert(after[m] == ck);
                        } else {
                            assert(after[m + 1] == ck);
                        }
                    } else if ck.end != chain.end {
                        assert(ending_at(after, ck.end) == ending_at(before, ck.end));
                    }
                }
            }

            assert forall|c| #[trigger] after.contains(c) implies start_table.contains(c) || exists|
                k: int,
            | 0 <= k < i + 1 && c == chain_of(*ks, starts@[k] as nat, rounds as nat) by {
                if after != before {
                    let p = choose|p: int| 0 <= p <= before.len() && after == before.insert(p, chain);
                    let m = choose|m: int| 0 <= m < after.len() && after[m] == c;
                    if m < p {
                        assert(before[m] == c);
                        assert(before.contains(c));
                    } else if m > p {
                        assert(before[m - 1] == c);
                        assert(before.contains(c));
                    } else {
                        assert(c == chain_of(*ks, starts@[i as int] as nat, rounds as nat));
                    }
                }
                if before.contains(c) && !start_table.contains(c) {
                    let k = choose|k: int|
                        0 <= k < i && c == chain_of(*ks, starts@[k] as nat, rounds as nat);
                    assert(0 <= k < i + 1);
                }
            }
        }
        i += 1;
    }
    i
}

/// `chain` is in `table`, or the table holds as many chains ending where it
/// ends as its cap allows.
pub open spec fn stored_or_capped(table: ChainTable, chain: crate::chain::Chain) -> bool {
    table@.contains(chain) || (table.cap() != 0 && ending_at(table@, chain.end).len()
        >= table.cap())
}

} // verus!
