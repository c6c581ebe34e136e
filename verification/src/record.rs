//! The transaction record and the per-timestamp census.

use vstd::prelude::*;

verus! {

/// One transaction of the input. Its id is its 1-based position in the
/// sequence it belongs to; a parent id of 0 means "no parent".
#[derive(Clone, Copy, Debug, PartialEq, Eq, Structural)]
pub struct TransactionNode {
    pub left: usize,
    pub right: usize,
    pub timestamp: usize,
}

/// Number of records whose timestamp is `depth`.
pub open spec fn timestamp_count(records: Seq<TransactionNode>, depth: usize) -> nat {
    records.filter(|r: TransactionNode| r.timestamp == depth).len()
}

/// Counts the records whose timestamp equals `depth`.
pub fn count_transactions_at_depth(nodes: &[TransactionNode], depth: usize) -> (count: usize)
    ensures
        count == timestamp_count(nodes@, depth),
{
    let ghost hit = |r: TransactionNode| r.timestamp == depth;
    let mut count: usize = 0;
    let mut i: usize = 0;
    while i < nodes.len()
        invariant
            i <= nodes.len(),
            count <= i,
            count == nodes@.take(i as int).filter(hit).len(),
            hit == (|r: TransactionNode| r.timestamp == depth),
        decreases nodes.len() - i,
    {
        proof {
            reveal(Seq::filter);
            assert(nodes@.take(i + 1).drop_last() =~= nodes@.take(i as int));
        }
        if nodes[i].timestamp == depth {
            count = count + 1;
        }
        i = i + 1;
    }
    proof {
        assert(nodes@.take(nodes.len() as int) =~= nodes@);
    }
    count
}

} // verus!
