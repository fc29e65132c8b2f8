//! A layout built from the number of indices each rank owns.
//!
//! Building this layout is a collective: every rank contributes its own
//! local count and the counts are gathered so that each rank holds the full
//! list.  The constructor here takes that gathered list — entry `r` is the
//! local count contributed by rank `r` — and turns it into cumulative
//! boundaries; every rank computes the same boundaries from the same list.

use crate::exchange;
use crate::index_layout::{layout_wf, IndexLayout};
use vstd::prelude::*;

verus! {

/// An index layout built from the gathered per-rank local counts.
pub struct IndexLayoutFromLocalCounts {
    counts: Vec<usize>,
    rank: usize,
    size: usize,
}

impl IndexLayoutFromLocalCounts {
    /// Build the layout from the gathered local counts, as seen from `rank`:
    /// the boundary of rank `r` is the sum of the local counts of the ranks
    /// before it.
    pub fn new(local_counts: &Vec<usize>, rank: usize) -> (l: Self)
        requires
            local_counts@.len() >= 1,
            rank < local_counts@.len(),
            exchange::seq_total(local_counts@) <= usize::MAX,
        ensures
            l.counts_seq().len() == local_counts@.len() + 1,
            l.rank_spec() == rank,
            l.size_spec() == local_counts@.len(),
            layout_wf(l.counts_seq(), rank as int, local_counts@.len() as int),
            forall|r: int|
                0 <= r <= local_counts@.len() ==> #[trigger] l.counts_seq()[r]
                    == exchange::prefix_total(local_counts@, r),
    {
        let size = local_counts.len();
        let mut counts: Vec<usize> = Vec::new();
        counts.push(0);
        let mut acc: usize = 0;
        let mut r: usize = 0;
        while r < size
            invariant
                r <= size,
                size == local_counts@.len(),
                counts@.len() == r + 1,
                acc == exchange::prefix_total(local_counts@, r as int),
                exchange::seq_total(local_counts@) <= usize::MAX,
                forall|m: int|
                    0 <= m <= r ==> #[trigger] counts@[m] == exchange::prefix_total(
                        local_counts@,
                        m,
                    ),
            decreases size - r,
        {
            proof {
                assert(exchange::prefix_total(local_counts@, r + 1) == acc
                    + local_counts@[r as int]);
                exchange::lemma_prefix_total_monotone(local_counts@, r + 1, size as int);
            }
            acc = acc + local_counts[r];
            counts.push(acc);
            r = r + 1;
        }
        proof {
            assert forall|i: int, j: int| 0 <= i <= j < counts@.len() implies counts@[i]
                <= counts@[j] by {
                exchange::lemma_prefix_total_monotone(local_counts@, i, j);
            }
        }
        Self { counts, rank, size }
    }
}

impl IndexLayout for IndexLayoutFromLocalCounts {
    closed spec fn counts_seq(&self) -> Seq<usize> {
        self.counts@
    }

    closed spec fn rank_spec(&self) -> int {
        self.rank as int
    }

    closed spec fn size_spec(&self) -> int {
        self.size as int
    }

    fn counts(&self) -> &Vec<usize> {
        &self.counts
    }

    fn rank(&self) -> usize {
        self.rank
    }

    fn size(&self) -> usize {
        self.size
    }

    fn local_range(&self) -> (usize, usize) {
        (self.counts[self.rank], self.counts[self.rank + 1])
    }

    fn number_of_global_indices(&self) -> usize {
        self.counts[self.size]
    }

    fn number_of_local_indices(&self) -> usize {
        self.counts[self.rank + 1] - self.counts[self.rank]
    }

    fn index_range(&self, rank: usize) -> Option<(usize, usize)> {
        if rank < self.size {
            Some((self.counts[rank], self.counts[rank + 1]))
        } else {
            None
        }
    }

    fn local2global(&self, index: usize) -> Option<usize> {
        let lo = self.counts[self.rank];
        let hi = self.counts[self.rank + 1];
        if index < hi - lo {
            Some(lo + index)
        } else {
            None
        }
    }

    fn global2local(&self, rank: usize, index: usize) -> Option<usize> {
        if rank < self.size {
            let lo = self.counts[rank];
            let hi = self.counts[rank + 1];
            if lo <= index && index < hi {
                Some(index - lo)
            } else {
                None
            }
        } else {
            None
        }
    }

    fn rank_from_index(&self, index: usize) -> Option<usize> {
        crate::index_layout::rank_from_index_search(&self.counts, self.size, index)
    }
}

} // verus!
