//! A layout whose indices all live on one root rank.

use crate::index_layout::{layout_wf, IndexLayout};
use vstd::prelude::*;

verus! {

/// An index layout that pins every index to a single root rank.
pub struct SingleProcessIndexLayout {
    counts: Vec<usize>,
    rank: usize,
    size: usize,
}

impl SingleProcessIndexLayout {
    /// Build the layout that places `ndofs` indices on rank `root` of a group
    /// of `size` ranks, as seen from `rank`.  Every rank computes the same
    /// boundaries locally; no communication is involved.
    pub fn new(root: usize, ndofs: usize, rank: usize, size: usize) -> (l: Self)
        requires
            size >= 1,
            size < usize::MAX,
            root < size,
            rank < size,
        ensures
            l.counts_seq().len() == size + 1,
            l.rank_spec() == rank,
            l.size_spec() == size,
            layout_wf(l.counts_seq(), rank as int, size as int),
            forall|r: int|
                0 <= r <= size ==> #[trigger] l.counts_seq()[r] == if r <= root {
                    0int
                } else {
                    ndofs as int
                },
    {
        let mut counts: Vec<usize> = Vec::new();
        let mut r: usize = 0;
        while r <= size
            invariant
                r <= size + 1,
                size < usize::MAX,
                root < size,
                counts@.len() == r,
                forall|m: int|
                    0 <= m < r ==> #[trigger] counts@[m] == if m <= root {
                        0int
                    } else {
                        ndofs as int
                    },
            decreases size + 1 - r,
        {
            if r <= root {
                counts.push(0);
            } else {
                counts.push(ndofs);
            }
            r = r + 1;
        }
        Self { counts, rank, size }
    }
}

impl IndexLayout for SingleProcessIndexLayout {
    closed spec fn counts_seq(&self) -> Seq<usize> {
        self.counts@
    }

    closed spec fn rank_spec(&self) -> int {
        self.rank as int
    }

    closed spec fn size_spec(&self) -> int {
        self.size as int
    }

    fn counts(&self) -> &Vec<usize> {
        &self.counts
    }

    fn rank(&self) -> usize {
        self.rank
    }

    fn size(&self) -> usize {
        self.size
    }

    fn local_range(&self) -> (usize, usize) {
        (self.counts[self.rank], self.counts[self.rank + 1])
    }

    fn number_of_global_indices(&self) -> usize {
        self.counts[self.size]
    }

    fn number_of_local_indices(&self) -> usize {
        self.counts[self.rank + 1] - self.counts[self.rank]
    }

    fn index_range(&self, rank: usize) -> Option<(usize, usize)> {
        if rank < self.size {
            Some((self.counts[rank], self.counts[rank + 1]))
        } else {
            None
        }
    }

    fn local2global(&self, index: usize) -> Option<usize> {
        let lo = self.counts[self.rank];
        let hi = self.counts[self.rank + 1];
        if index < hi - lo {
            Some(lo + index)
        } else {
            None
        }
    }

    fn global2local(&self, rank: usize, index: usize) -> Option<usize> {
        if rank < self.size {
            let lo = self.counts[rank];
            let hi = self.counts[rank + 1];
            if lo <= index && index < hi {
                Some(index - lo)
            } else {
                None
            }
        } else {
            None
        }
    }

    fn rank_from_index(&self, index: usize) -> Option<usize> {
        crate::index_layout::rank_from_index_search(&self.counts, self.size, index)
    }
}

} // verus!
