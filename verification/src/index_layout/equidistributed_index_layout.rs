//! A layout that spreads a number of equally sized chunks as evenly as
//! possible over the ranks.

use crate::index_layout::{layout_wf, total_of, IndexLayout};
use vstd::prelude::*;

verus! {

/// The boundary of rank `r` when `nchunks` chunks of `k` indices each are
/// distributed over `p` ranks: with few chunks, one chunk per rank until the
/// chunks run out; otherwise `nchunks / p` chunks per rank, with the
/// remainder spread over the first `nchunks % p` ranks.
pub open spec fn equi_boundary(nchunks: int, k: int, p: int, r: int) -> int {
    if nchunks <= p {
        if r <= nchunks {
            r * k
        } else {
            nchunks * k
        }
    } else {
        let q = nchunks / p;
        let s = nchunks % p;
        if r <= s {
            r * (q + 1) * k
        } else {
            (r * q + s) * k
        }
    }
}

/// How many indices rank `r` owns under the equidistributed layout.
pub open spec fn equi_share(nchunks: int, k: int, p: int, r: int) -> int {
    if nchunks <= p {
        if r < nchunks {
            k
        } else {
            0
        }
    } else {
        if r < nchunks % p {
            (nchunks / p + 1) * k
        } else {
            (nchunks / p) * k
        }
    }
}

/// Each rank's range has exactly its share of indices.
pub proof fn lemma_equi_boundary_step(nchunks: int, k: int, p: int, r: int)
    requires
        p >= 1,
        k >= 0,
        nchunks >= 0,
        0 <= r < p,
    ensures
        equi_boundary(nchunks, k, p, r + 1) == equi_boundary(nchunks, k, p, r) + equi_share(
            nchunks,
            k,
            p,
            r,
        ),
{
    if nchunks <= p {
        if r < nchunks {
            assert((r + 1) * k == r * k + k) by (nonlinear_arith);
        }
    } else {
        let q = nchunks / p;
        let s = nchunks % p;
        vstd::arithmetic::div_mod::lemma_fundamental_div_mod(nchunks, p);
        vstd::arithmetic::div_mod::lemma_mod_bound(nchunks, p);
        if r + 1 <= s {
            assert((r + 1) * (q + 1) * k == r * (q + 1) * k + (q + 1) * k) by (nonlinear_arith);
        } else if r <= s {
            assert(r == s ==> ((r + 1) * q + s) * k == (r * q + r) * k + q * k)
                by (nonlinear_arith);
            assert(r == s ==> r * (q + 1) * k == (r * q + r) * k) by (nonlinear_arith);
        } else {
            assert(((r + 1) * q + s) * k == (r * q + s) * k + q * k) by (nonlinear_arith);
        }
    }
}

pub proof fn lemma_equi_share_non_negative(nchunks: int, k: int, p: int, r: int)
    requires
        p >= 1,
        k >= 0,
        nchunks >= 0,
    ensures
        equi_share(nchunks, k, p, r) >= 0,
{
    if nchunks > p {
        vstd::arithmetic::div_mod::lemma_div_pos_is_pos(nchunks, p);
        vstd::arithmetic::mul::lemma_mul_nonnegative(nchunks / p, k);
        vstd::arithmetic::mul::lemma_mul_nonnegative(nchunks / p + 1, k);
    }
}

/// The boundaries start at zero and end at the total number of indices.
pub proof fn lemma_equi_boundary_ends(nchunks: int, k: int, p: int)
    requires
        p >= 1,
        k >= 0,
        nchunks >= 0,
    ensures
        equi_boundary(nchunks, k, p, 0) == 0,
        equi_boundary(nchunks, k, p, p) == nchunks * k,
{
    if nchunks > p {
        let q = nchunks / p;
        let s = nchunks % p;
        vstd::arithmetic::div_mod::lemma_fundamental_div_mod(nchunks, p);
        vstd::arithmetic::div_mod::lemma_mod_bound(nchunks, p);
        assert(0 * (q + 1) * k == 0) by (nonlinear_arith);
        assert((p * q + s) * k == nchunks * k) by (nonlinear_arith)
            requires
                nchunks == q * p + s,
        ;
    }
}

pub proof fn lemma_equi_boundary_monotone(nchunks: int, k: int, p: int, i: int, j: int)
    requires
        p >= 1,
        k >= 0,
        nchunks >= 0,
        0 <= i <= j <= p,
    ensures
        equi_boundary(nchunks, k, p, i) <= equi_boundary(nchunks, k, p, j),
    decreases j - i,
{
    if i < j {
        lemma_equi_boundary_step(nchunks, k, p, j - 1);
        lemma_equi_share_non_negative(nchunks, k, p, j - 1);
        lemma_equi_boundary_monotone(nchunks, k, p, i, j - 1);
    }
}

/// Law: the per-rank range lengths of an equidistributed layout sum to the
/// total number of indices, and with more chunks than ranks the first
/// `nchunks % p` ranks own exactly one chunk more than the rest.
pub proof fn lemma_equidistributed_balance(nchunks: int, k: int, p: int, boundaries: Seq<usize>)
    requires
        p >= 1,
        k >= 0,
        nchunks >= 0,
        boundaries.len() == p + 1,
        forall|r: int| 0 <= r <= p ==> #[trigger] boundaries[r] == equi_boundary(nchunks, k, p, r),
    ensures
        boundaries[0] == 0,
        total_of(boundaries) == nchunks * k,
        forall|r: int|
            0 <= r < p ==> #[trigger] boundaries[r + 1] - boundaries[r] == equi_share(
                nchunks,
                k,
                p,
                r,
            ),
{
    lemma_equi_boundary_ends(nchunks, k, p);
    assert forall|r: int| 0 <= r < p implies #[trigger] boundaries[r + 1] - boundaries[r]
        == equi_share(nchunks, k, p, r) by {
        lemma_equi_boundary_step(nchunks, k, p, r);
    }
}

/// An index layout that distributes `nchunks` chunks of `chunk_size` indices
/// each as evenly as possible over the ranks.
pub struct EquiDistributedIndexLayout {
    counts: Vec<usize>,
    rank: usize,
    size: usize,
}

impl EquiDistributedIndexLayout {
    /// Build the layout for `nchunks` chunks of `chunk_size` indices each on
    /// a group of `size` ranks, as seen from `rank`.  Every rank computes the
    /// same boundaries locally; no communication is involved.
    pub fn new(nchunks: usize, chunk_size: usize, rank: usize, size: usize) -> (l: Self)
        requires
            size >= 1,
            size < usize::MAX,
            rank < size,
            nchunks * chunk_size <= usize::MAX,
        ensures
            l.counts_seq().len() == size + 1,
            l.rank_spec() == rank,
            l.size_spec() == size,
            layout_wf(l.counts_seq(), rank as int, size as int),
            forall|r: int|
                0 <= r <= size ==> #[trigger] l.counts_seq()[r] == equi_boundary(
                    nchunks as int,
                    chunk_size as int,
                    size as int,
                    r,
                ),
    {
        let ghost n: int = nchunks as int;
        let ghost k: int = chunk_size as int;
        let ghost p: int = size as int;
        let mut counts: Vec<usize> = Vec::new();
        if nchunks <= size {
            let nindices = nchunks * chunk_size;
            let mut r: usize = 0;
            while r <= size
                invariant
                    r <= size + 1,
                    size < usize::MAX,
                    n == nchunks as int,
                    k == chunk_size as int,
                    p == size as int,
                    counts@.len() == r,
                    nindices == nchunks * chunk_size,
                    nchunks <= size,
                    nindices <= usize::MAX,
                    forall|m: int|
                        0 <= m < r ==> #[trigger] counts@[m] == equi_boundary(n, k, p, m),
                decreases size + 1 - r,
            {
                if r <= nchunks {
                    proof {
                        vstd::arithmetic::mul::lemma_mul_inequality(r as int, n, k);
                        vstd::arithmetic::mul::lemma_mul_nonnegative(r as int, k);
                    }
                    counts.push(r * chunk_size);
                } else {
                    counts.push(nindices);
                }
                r = r + 1;
            }
        } else {
            let q = nchunks / size;
            let s = nchunks % size;
            counts.push(0);
            proof {
                lemma_equi_boundary_ends(n, k, p);
            }
            let mut count: usize = 0;
            let mut r: usize = 0;
            while r < size
                invariant
                    r <= size,
                    size >= 1,
                    nchunks > size,
                    n == nchunks as int,
                    k == chunk_size as int,
                    p == size as int,
                    counts@.len() == r + 1,
                    q == n / p,
                    s == n % p,
                    nchunks * chunk_size <= usize::MAX,
                    count == equi_boundary(n, k, p, r as int),
                    forall|m: int|
                        0 <= m <= r ==> #[trigger] counts@[m] == equi_boundary(n, k, p, m),
                decreases size - r,
            {
                proof {
                    lemma_equi_boundary_step(n, k, p, r as int);
                    lemma_equi_share_non_negative(n, k, p, r as int);
                    lemma_equi_boundary_monotone(n, k, p, r + 1, p);
                    lemma_equi_boundary_ends(n, k, p);
                    vstd::arithmetic::div_mod::lemma_fundamental_div_mod(n, p);
                    vstd::arithmetic::div_mod::lemma_mod_bound(n, p);
                    vstd::arithmetic::div_mod::lemma_div_pos_is_pos(n, p);
                    assert(q as int <= q as int * p) by (nonlinear_arith)
                        requires
                            p >= 1 && q as int >= 0,
                    ;
                    vstd::arithmetic::mul::lemma_mul_inequality(q as int, n, k);
                    assert((q as int + 1) * k == q as int * k + k) by (nonlinear_arith);
                    if r < s {
                        vstd::arithmetic::mul::lemma_mul_inequality(q as int + 1, n, k);
                    }
                    assert(equi_share(n, k, p, r as int) <= n * k - equi_boundary(n, k, p, r as int));
                }
                let new_count: usize = if r < s {
                    count + q * chunk_size + chunk_size
                } else {
                    count + q * chunk_size
                };
                counts.push(new_count);
                count = new_count;
                r = r + 1;
            }
        }
        proof {
            assert forall|i: int, j: int| 0 <= i <= j < counts@.len() implies counts@[i]
                <= counts@[j] by {
                lemma_equi_boundary_monotone(n, k, p, i, j);
            }
            lemma_equi_boundary_ends(n, k, p);
        }
        Self { counts, rank, size }
    }
}

impl IndexLayout for EquiDistributedIndexLayout {
    closed spec fn counts_seq(&self) -> Seq<usize> {
        self.counts@
    }

    closed spec fn rank_spec(&self) -> int {
        self.rank as int
    }

    closed spec fn size_spec(&self) -> int {
        self.size as int
    }

    fn counts(&self) -> &Vec<usize> {
        &self.counts
    }

    fn rank(&self) -> usize {
        self.rank
    }

    fn size(&self) -> usize {
        self.size
    }

    fn local_range(&self) -> (usize, usize) {
        (self.counts[self.rank], self.counts[self.rank + 1])
    }

    fn number_of_global_indices(&self) -> usize {
        self.counts[self.size]
    }

    fn number_of_local_indices(&self) -> usize {
        self.counts[self.rank + 1] - self.counts[self.rank]
    }

    fn index_range(&self, rank: usize) -> Option<(usize, usize)> {
        if rank < self.size {
            Some((self.counts[rank], self.counts[rank + 1]))
        } else {
            None
        }
    }

    fn local2global(&self, index: usize) -> Option<usize> {
        let lo = self.counts[self.rank];
        let hi = self.counts[self.rank + 1];
        if index < hi - lo {
            Some(lo + index)
        } else {
            None
        }
    }

    fn global2local(&self, rank: usize, index: usize) -> Option<usize> {
        if rank < self.size {
            let lo = self.counts[rank];
            let hi = self.counts[rank + 1];
            if lo <= index && index < hi {
                Some(index - lo)
            } else {
                None
            }
        } else {
            None
        }
    }

    fn rank_from_index(&self, index: usize) -> Option<usize> {
        crate::index_layout::rank_from_index_search(&self.counts, self.size, index)
    }
}

} // verus!
