//! Index layouts: how a contiguous global index space is divided among the
//! participating processes.
//!
//! A layout stores the cumulative boundaries `counts`: rank `r` owns the
//! half-open range `[counts[r], counts[r+1])`.  A rank may own nothing, in
//! which case its two boundaries coincide.  Layouts are immutable after
//! construction.

mod equidistributed_index_layout;
mod index_layout_from_local_counts;
mod single_process_index_layout;

pub use equidistributed_index_layout::EquiDistributedIndexLayout;
pub use index_layout_from_local_counts::IndexLayoutFromLocalCounts;
pub use single_process_index_layout::SingleProcessIndexLayout;

use crate::array_tools;
use crate::exchange;
use vstd::prelude::*;

verus! {

/// Well-formed boundaries for a process group of `size` ranks, seen from
/// process `rank`: one boundary per rank plus the total, starting at zero and
/// non-decreasing.
pub open spec fn layout_wf(counts: Seq<usize>, rank: int, size: int) -> bool {
    &&& size >= 1
    &&& 0 <= rank < size
    &&& counts.len() == size + 1
    &&& counts[0] == 0
    &&& array_tools::is_non_decreasing(counts)
}

/// The total number of global indices described by `counts`.
pub open spec fn total_of(counts: Seq<usize>) -> int {
    counts[counts.len() - 1] as int
}

/// The first rank at or after `r` whose upper boundary lies above `g`
/// (the last rank when there is none).
pub open spec fn owner_from(counts: Seq<usize>, g: int, r: int) -> int
    decreases counts.len() - r,
{
    if r >= counts.len() - 2 {
        r
    } else if g < counts[r + 1] {
        r
    } else {
        owner_from(counts, g, r + 1)
    }
}

/// The rank owning global index `g`: the first rank whose upper boundary
/// lies above `g`.
pub open spec fn owner_of(counts: Seq<usize>, g: int) -> int {
    owner_from(counts, g, 0)
}

proof fn lemma_owner_from_bounds(counts: Seq<usize>, g: int, r: int)
    requires
        counts.len() >= 2,
        0 <= r <= counts.len() - 2,
        counts[r] <= g,
    ensures
        r <= owner_from(counts, g, r) <= counts.len() - 2,
        counts[owner_from(counts, g, r)] <= g,
        owner_from(counts, g, r) < counts.len() - 2 ==> g < counts[owner_from(counts, g, r) + 1],
    decreases counts.len() - r,
{
    if r >= counts.len() - 2 {
    } else if g < counts[r + 1] {
    } else {
        lemma_owner_from_bounds(counts, g, r + 1);
    }
}

/// The owner of `g` lies between the boundaries of its rank, and is the last
/// rank only when no earlier boundary exceeds `g`.
pub proof fn lemma_owner_of_bounds(counts: Seq<usize>, g: int)
    requires
        counts.len() >= 2,
        counts[0] == 0,
        0 <= g,
    ensures
        0 <= owner_of(counts, g) <= counts.len() - 2,
        counts[owner_of(counts, g)] <= g,
        g < total_of(counts) ==> g < counts[owner_of(counts, g) + 1],
{
    lemma_owner_from_bounds(counts, g, 0);
}

proof fn lemma_owner_from_exact(counts: Seq<usize>, g: int, r0: int, r: int)
    requires
        counts.len() >= 2,
        array_tools::is_non_decreasing(counts),
        0 <= r0 <= r <= counts.len() - 2,
        counts[r] <= g,
        r < counts.len() - 2 ==> g < counts[r + 1],
    ensures
        owner_from(counts, g, r0) == r,
    decreases r - r0,
{
    if r0 < r {
        assert(counts[r0 + 1] <= counts[r]);
        lemma_owner_from_exact(counts, g, r0 + 1, r);
    }
}

/// A global index between the boundaries of rank `r` is owned by `r`.
pub proof fn lemma_owner_of_exact(counts: Seq<usize>, g: int, r: int)
    requires
        counts.len() >= 2,
        array_tools::is_non_decreasing(counts),
        0 <= r <= counts.len() - 2,
        counts[r] <= g,
        g < counts[r + 1],
    ensures
        owner_of(counts, g) == r,
{
    lemma_owner_from_exact(counts, g, 0, r);
}

/// Law: mapping any local index to its global index and asking for that
/// index's owner gives back this process's rank.
pub proof fn lemma_local2global_owned_by_self(counts: Seq<usize>, rank: int, size: int, i: int)
    requires
        layout_wf(counts, rank, size),
        0 <= i < counts[rank + 1] - counts[rank],
    ensures
        owner_of(counts, counts[rank] + i) == rank,
{
    lemma_owner_of_exact(counts, counts[rank] + i, rank);
}

pub proof fn lemma_concat_rows_len<T>(rows: Seq<Seq<T>>, counts: Seq<usize>, k: int, j: int)
    requires
        0 <= j <= rows.len(),
        counts.len() == rows.len() + 1,
        counts[0] == 0,
        array_tools::is_non_decreasing(counts),
        k >= 0,
        forall|r: int|
            0 <= r < rows.len() ==> (#[trigger] rows[r]).len() == (counts[r + 1] - counts[r]) * k,
    ensures
        exchange::concat_rows(rows, j).len() == counts[j] * k,
    decreases j,
{
    if j <= 0 {
        assert(counts[0] * k == 0) by (nonlinear_arith)
            requires
                counts[0] == 0,
        ;
    } else {
        lemma_concat_rows_len(rows, counts, k, j - 1);
        assert(counts[j - 1] * k + (counts[j] - counts[j - 1]) * k == counts[j] * k)
            by (nonlinear_arith);
    }
}

proof fn lemma_concat_rows_sub<T>(
    rows: Seq<Seq<T>>,
    counts: Seq<usize>,
    k: int,
    r: int,
    a: int,
    b: int,
    j: int,
)
    requires
        counts.len() == rows.len() + 1,
        counts[0] == 0,
        array_tools::is_non_decreasing(counts),
        k >= 0,
        forall|r2: int|
            0 <= r2 < rows.len() ==> (#[trigger] rows[r2]).len() == (counts[r2 + 1] - counts[r2])
                * k,
        0 <= r < j <= rows.len(),
        counts[r] * k <= a <= b <= counts[r + 1] * k,
    ensures
        exchange::concat_rows(rows, j).subrange(a, b) == rows[r].subrange(
            a - counts[r] * k,
            b - counts[r] * k,
        ),
    decreases j,
{
    lemma_concat_rows_len(rows, counts, k, j - 1);
    if r == j - 1 {
        assert(counts[r] * k + (counts[r + 1] - counts[r]) * k == counts[r + 1] * k)
            by (nonlinear_arith);
        assert(exchange::concat_rows(rows, j).subrange(a, b) =~= rows[r].subrange(
            a - counts[r] * k,
            b - counts[r] * k,
        ));
    } else {
        vstd::arithmetic::mul::lemma_mul_inequality(counts[r + 1] as int, counts[j - 1] as int, k);
        lemma_concat_rows_sub(rows, counts, k, r, a, b, j - 1);
        assert(exchange::concat_rows(rows, j).subrange(a, b) =~= exchange::concat_rows(
            rows,
            j - 1,
        ).subrange(a, b));
    }
}

/// The chunk of one global index within the concatenation of the per-rank
/// data rows is the corresponding chunk of the owner's row.
pub proof fn lemma_global_chunk<T>(rows: Seq<Seq<T>>, counts: Seq<usize>, k: int, g: int)
    requires
        counts.len() >= 2,
        counts[0] == 0,
        array_tools::is_non_decreasing(counts),
        rows.len() == counts.len() - 1,
        k >= 1,
        forall|r: int|
            0 <= r < rows.len() ==> (#[trigger] rows[r]).len() == (counts[r + 1] - counts[r]) * k,
        0 <= g < total_of(counts),
    ensures
        ({
            let o = owner_of(counts, g);
            exchange::concat_rows(rows, rows.len() as int).subrange(g * k, g * k + k) == rows[o]
                .subrange((g - counts[o]) * k, (g - counts[o]) * k + k)
        }),
{
    lemma_owner_of_bounds(counts, g);
    let o = owner_of(counts, g);
    vstd::arithmetic::mul::lemma_mul_inequality(counts[o] as int, g, k);
    vstd::arithmetic::mul::lemma_mul_inequality(g + 1, counts[o + 1] as int, k);
    assert((g + 1) * k == g * k + k) by (nonlinear_arith);
    assert((g - counts[o]) * k == g * k - counts[o] * k) by (nonlinear_arith);
    lemma_concat_rows_sub(rows, counts, k, o, g * k, g * k + k, rows.len() as int);
}

/// The integers of `[a, b)` as a sequence.
pub open spec fn range_seq(a: int, b: int) -> Seq<usize> {
    Seq::new(if b >= a {
        (b - a) as nat
    } else {
        0
    }, |i: int| (a + i) as usize)
}

/// The length of the intersection of `[a, b)` and `[c, d)`.
pub open spec fn overlap_len(a: int, b: int, c: int, d: int) -> int {
    let lo = if a >= c {
        a
    } else {
        c
    };
    let hi = if b <= d {
        b
    } else {
        d
    };
    if hi >= lo {
        hi - lo
    } else {
        0
    }
}

/// Binning a key against the lower boundaries of a layout finds the key's
/// owner.
pub proof fn lemma_bin_of_is_owner(counts: Seq<usize>, p: int, key: usize)
    requires
        counts.len() == p + 1,
        p >= 1,
        counts[0] == 0,
        array_tools::is_non_decreasing(counts),
        0 <= key < counts[p],
    ensures
        array_tools::bin_of(counts.subrange(0, p), key) == owner_of(counts, key as int),
{
    lemma_owner_of_bounds(counts, key as int);
    let o = owner_of(counts, key as int);
    let bins = counts.subrange(0, p);
    assert(array_tools::is_non_decreasing(bins));
    array_tools::lemma_bin_of_exact(bins, key, o);
}

/// How many keys of the contiguous range `[a, b)` fall into the bin of rank
/// `r`: the overlap of the range with `r`'s owned interval.
pub proof fn lemma_range_bin_count(counts: Seq<usize>, p: int, a: int, b: int, r: int)
    requires
        counts.len() == p + 1,
        p >= 1,
        counts[0] == 0,
        array_tools::is_non_decreasing(counts),
        0 <= a <= b <= counts[p],
        0 <= r < p,
    ensures
        array_tools::count_in_bin(range_seq(a, b), counts.subrange(0, p), r) == overlap_len(
            a,
            b,
            counts[r] as int,
            counts[r + 1] as int,
        ),
    decreases b - a,
{
    if a < b {
        lemma_range_bin_count(counts, p, a, b - 1, r);
        assert(range_seq(a, b).drop_last() =~= range_seq(a, b - 1));
        assert(range_seq(a, b).last() == (b - 1) as usize);
        lemma_bin_of_is_owner(counts, p, (b - 1) as usize);
        lemma_owner_of_bounds(counts, b - 1);
        if owner_of(counts, b - 1) == r {
        } else {
            lemma_owner_of_exact_converse(counts, b - 1, r);
        }
    }
}

/// An index outside rank `r`'s interval is not owned by `r`.
proof fn lemma_owner_of_exact_converse(counts: Seq<usize>, g: int, r: int)
    requires
        counts.len() >= 2,
        counts[0] == 0,
        array_tools::is_non_decreasing(counts),
        0 <= g < total_of(counts),
        0 <= r <= counts.len() - 2,
        owner_of(counts, g) != r,
    ensures
        !(counts[r] <= g < counts[r + 1]),
{
    if counts[r] <= g < counts[r + 1] {
        lemma_owner_of_exact(counts, g, r);
    }
}

/// The number of keys of `[a, b)` owned by ranks before `r` is the overlap
/// of the range with `[0, counts[r])`.
pub proof fn lemma_range_bin_prefix(
    counts: Seq<usize>,
    p: int,
    a: int,
    b: int,
    r: int,
    bcounts: Seq<usize>,
)
    requires
        counts.len() == p + 1,
        p >= 1,
        counts[0] == 0,
        array_tools::is_non_decreasing(counts),
        0 <= a <= b <= counts[p],
        0 <= r <= p,
        bcounts.len() == p,
        forall|r2: int|
            0 <= r2 < p ==> #[trigger] bcounts[r2] == array_tools::count_in_bin(
                range_seq(a, b),
                counts.subrange(0, p),
                r2,
            ),
    ensures
        exchange::prefix_total(bcounts, r) == overlap_len(a, b, 0, counts[r] as int),
    decreases r,
{
    if r > 0 {
        lemma_range_bin_prefix(counts, p, a, b, r - 1, bcounts);
        lemma_range_bin_count(counts, p, a, b, r - 1);
    }
}

/// An index layout: the cumulative boundaries of the owned ranges, together
/// with this process's rank and the size of the process group.
pub trait IndexLayout: Sized {
    /// The boundaries, for specifications.
    spec fn counts_seq(&self) -> Seq<usize>;

    /// This process's rank, for specifications.
    spec fn rank_spec(&self) -> int;

    /// The process-group size, for specifications.
    spec fn size_spec(&self) -> int;

    /// The cumulative sum of owned counts over the ranks.  The number of
    /// indices on rank `r` is `counts[r+1] - counts[r]`; the last entry is
    /// the total number of indices.
    fn counts(&self) -> (r: &Vec<usize>)
        ensures
            r@ == self.counts_seq(),
    ;

    /// This process's rank.
    fn rank(&self) -> (r: usize)
        ensures
            r as int == self.rank_spec(),
    ;

    /// The number of processes in the group.
    fn size(&self) -> (r: usize)
        ensures
            r as int == self.size_spec(),
    ;

    /// The local index range; the bounds coincide when this process owns no
    /// index.
    fn local_range(&self) -> (r: (usize, usize))
        requires
            layout_wf(self.counts_seq(), self.rank_spec(), self.size_spec()),
        ensures
            r.0 == self.counts_seq()[self.rank_spec()],
            r.1 == self.counts_seq()[self.rank_spec() + 1],
    ;

    /// The total number of global indices.
    fn number_of_global_indices(&self) -> (n: usize)
        requires
            layout_wf(self.counts_seq(), self.rank_spec(), self.size_spec()),
        ensures
            n == total_of(self.counts_seq()),
    ;

    /// The number of indices owned by this process.
    fn number_of_local_indices(&self) -> (n: usize)
        requires
            layout_wf(self.counts_seq(), self.rank_spec(), self.size_spec()),
        ensures
            n == self.counts_seq()[self.rank_spec() + 1] - self.counts_seq()[self.rank_spec()],
    ;

    /// The index range owned by the given rank, or nothing for a rank outside
    /// the group.
    fn index_range(&self, rank: usize) -> (r: Option<(usize, usize)>)
        requires
            layout_wf(self.counts_seq(), self.rank_spec(), self.size_spec()),
        ensures
            (match r {
                Some(t) => rank < self.size_spec() && t.0 == self.counts_seq()[rank as int]
                    && t.1 == self.counts_seq()[rank as int + 1],
                None => rank >= self.size_spec(),
            }),
    ;

    /// The global index of the given local index, or nothing when the local
    /// index is out of bounds.
    fn local2global(&self, index: usize) -> (r: Option<usize>)
        requires
            layout_wf(self.counts_seq(), self.rank_spec(), self.size_spec()),
        ensures
            (match r {
                Some(g) => index < self.counts_seq()[self.rank_spec() + 1]
                    - self.counts_seq()[self.rank_spec()] && g
                    == self.counts_seq()[self.rank_spec()] + index,
                None => index >= self.counts_seq()[self.rank_spec() + 1]
                    - self.counts_seq()[self.rank_spec()],
            }),
    ;

    /// The local offset of a global index within the range owned by the given
    /// rank, or nothing when the index does not live on that rank.
    fn global2local(&self, rank: usize, index: usize) -> (r: Option<usize>)
        requires
            layout_wf(self.counts_seq(), self.rank_spec(), self.size_spec()),
        ensures
            (match r {
                Some(l) => rank < self.size_spec() && self.counts_seq()[rank as int] <= index
                    && index < self.counts_seq()[rank as int + 1] && l == index
                    - self.counts_seq()[rank as int],
                None => rank >= self.size_spec() || index < self.counts_seq()[rank as int]
                    || index >= self.counts_seq()[rank as int + 1],
            }),
    ;

    /// The rank owning the given global index, or nothing when the index lies
    /// beyond the global range.
    fn rank_from_index(&self, index: usize) -> (r: Option<usize>)
        requires
            layout_wf(self.counts_seq(), self.rank_spec(), self.size_spec()),
        ensures
            (match r {
                Some(rk) => index < total_of(self.counts_seq()) && rk as int == owner_of(
                    self.counts_seq(),
                    index as int,
                ),
                None => index >= total_of(self.counts_seq()),
            }),
    ;
}

proof fn lemma_overlap_split(a: int, b: int, c: int, d: int, m: int)
    requires
        a <= m <= b,
    ensures
        overlap_len(a, b, c, d) == overlap_len(a, m, c, d) + overlap_len(m, b, c, d),
{
}

proof fn lemma_remap_gathered<T>(
    rows: Seq<Seq<T>>,
    cm: Seq<Seq<usize>>,
    c1: Seq<usize>,
    c2: Seq<usize>,
    p: int,
    r: int,
    s: int,
)
    requires
        c1.len() == p + 1,
        c2.len() == p + 1,
        p >= 1,
        c1[0] == 0,
        c2[0] == 0,
        array_tools::is_non_decreasing(c1),
        array_tools::is_non_decreasing(c2),
        c1[p] == c2[p],
        rows.len() == p,
        cm.len() == p,
        forall|t: int| 0 <= t < p ==> (#[trigger] rows[t]).len() == c1[t + 1] - c1[t],
        forall|t: int| 0 <= t < p ==> (#[trigger] cm[t]).len() == p,
        forall|t: int, b: int|
            0 <= t < p && 0 <= b < p ==> (#[trigger] cm[t][b]) == array_tools::count_in_bin(
                range_seq(c1[t] as int, c1[t + 1] as int),
                c2.subrange(0, p),
                b,
            ),
        0 <= r < p,
        0 <= s <= p,
    ensures
        exchange::gathered_at(rows, cm, r, s) == exchange::concat_rows(rows, p).subrange(
            c2[r] as int,
            c2[r] + overlap_len(0, c1[s] as int, c2[r] as int, c2[r + 1] as int),
        ),
    decreases s,
{
    let g = exchange::concat_rows(rows, p);
    lemma_concat_rows_len(rows, c1, 1, p);
    assert(forall|t: int| 0 <= t < p ==> (#[trigger] rows[t]).len() == (c1[t + 1] - c1[t]) * 1);
    if s <= 0 {
        assert(exchange::gathered_at(rows, cm, r, s) =~= g.subrange(
            c2[r] as int,
            c2[r] + overlap_len(0, c1[s] as int, c2[r] as int, c2[r + 1] as int),
        ));
    } else {
        lemma_remap_gathered(rows, cm, c1, c2, p, r, s - 1);
        let a = c1[s - 1] as int;
        let b = c1[s] as int;
        let c = c2[r] as int;
        let d = c2[r + 1] as int;
        lemma_range_bin_prefix(c2, p, a, b, r, cm[s - 1]);
        lemma_range_bin_prefix(c2, p, a, b, r + 1, cm[s - 1]);
        lemma_range_bin_prefix(c2, p, a, b, p, cm[s - 1]);
        lemma_range_bin_count(c2, p, a, b, r);
        lemma_overlap_split(0, b, c, d, a);
        let prefv = exchange::prefix_total(cm[s - 1], r);
        let cnt = cm[s - 1][r] as int;
        assert(exchange::prefix_total(cm[s - 1], r + 1) == prefv + cnt);
        let x0 = c + overlap_len(0, a, c, d);
        let x1 = c + overlap_len(0, b, c, d);
        assert(x1 - x0 == cnt);
        if cnt > 0 {
            assert(a + prefv == x0);
            lemma_concat_rows_sub(rows, c1, 1, s - 1, a + prefv, a + prefv + cnt, p);
            assert(exchange::block_of(rows[s - 1], cm[s - 1], r) =~= g.subrange(x0, x1));
            assert(exchange::gathered_at(rows, cm, r, s) =~= g.subrange(c2[r] as int, x1));
        } else {
            assert(exchange::block_of(rows[s - 1], cm[s - 1], r) =~= Seq::<T>::empty());
            assert(exchange::gathered_at(rows, cm, r, s) =~= g.subrange(c2[r] as int, x1));
        }
    }
}

/// Redistribute a data vector laid out by one layout into the layout of
/// another with the same global size.  Rank `r` of the result holds exactly
/// the slice of the concatenated global data that the second layout assigns
/// to it; order is preserved.
pub fn remap<LA: IndexLayout, LB: IndexLayout, T: Copy>(
    selfs: &Vec<LA>,
    others: &Vec<LB>,
    all_data: &Vec<Vec<T>>,
) -> (out: Vec<Vec<T>>)
    requires
        selfs@.len() >= 1,
        others@.len() == selfs@.len(),
        all_data@.len() == selfs@.len(),
        forall|r: int|
            0 <= r < selfs@.len() ==> layout_wf(
                (#[trigger] selfs@[r]).counts_seq(),
                r,
                selfs@.len() as int,
            ),
        forall|r: int|
            0 <= r < selfs@.len() ==> (#[trigger] selfs@[r]).counts_seq()
                == selfs@[0].counts_seq(),
        forall|r: int|
            0 <= r < selfs@.len() ==> layout_wf(
                (#[trigger] others@[r]).counts_seq(),
                r,
                selfs@.len() as int,
            ),
        forall|r: int|
            0 <= r < selfs@.len() ==> (#[trigger] others@[r]).counts_seq()
                == others@[0].counts_seq(),
        total_of(selfs@[0].counts_seq()) == total_of(others@[0].counts_seq()),
        forall|r: int|
            0 <= r < selfs@.len() ==> (#[trigger] all_data@[r]@).len() == selfs@[0].counts_seq()[r
                + 1] - selfs@[0].counts_seq()[r],
    ensures
        out@.len() == selfs@.len(),
        forall|r: int|
            0 <= r < out@.len() ==> (#[trigger] out@[r]@) == exchange::concat_rows(
                exchange::rows_view(all_data@),
                all_data@.len() as int,
            ).subrange(
                others@[0].counts_seq()[r] as int,
                others@[0].counts_seq()[r + 1] as int,
            ),
{
    let p = selfs.len();
    let ghost c1 = selfs@[0].counts_seq();
    let ghost c2 = others@[0].counts_seq();
    // The lower boundaries of the target layout are the bins.
    let other_counts = others[0].counts();
    let mut bins: Vec<usize> = Vec::new();
    let mut t: usize = 0;
    while t < p
        invariant
            t <= p,
            p == selfs@.len(),
            c2 == others@[0].counts_seq(),
            other_counts@ == c2,
            c2.len() == p + 1,
            bins@.len() == t,
            forall|t2: int| 0 <= t2 < t ==> #[trigger] bins@[t2] == c2[t2],
        decreases p - t,
    {
        bins.push(other_counts[t]);
        t = t + 1;
    }
    proof {
        assert(bins@ =~= c2.subrange(0, p as int));
    }
    // Each rank bins its own contiguous range against the target boundaries.
    let mut counts_mtx: Vec<Vec<usize>> = Vec::new();
    let mut r: usize = 0;
    while r < p
        invariant
            r <= p,
            p == selfs@.len(),
            all_data@.len() == p,
            c1 == selfs@[0].counts_seq(),
            c2 == others@[0].counts_seq(),
            layout_wf(c1, 0, p as int),
            layout_wf(c2, 0, p as int),
            total_of(c1) == total_of(c2),
            forall|r2: int|
                0 <= r2 < p ==> (#[trigger] all_data@[r2]@).len() == c1[r2 + 1] - c1[r2],
            forall|r2: int|
                0 <= r2 < p ==> layout_wf((#[trigger] selfs@[r2]).counts_seq(), r2, p as int),
            forall|r2: int|
                0 <= r2 < p ==> (#[trigger] selfs@[r2]).counts_seq() == c1,
            bins@ == c2.subrange(0, p as int),
            counts_mtx@.len() == r,
            forall|r2: int| 0 <= r2 < r ==> (#[trigger] counts_mtx@[r2]@).len() == p,
            forall|r2: int, b: int|
                0 <= r2 < r && 0 <= b < p ==> (#[trigger] counts_mtx@[r2]@[b])
                    == array_tools::count_in_bin(
                    range_seq(c1[r2] as int, c1[r2 + 1] as int),
                    c2.subrange(0, p as int),
                    b,
                ),
            forall|r2: int|
                0 <= r2 < r ==> exchange::seq_total(#[trigger] counts_mtx@[r2]@)
                    == all_data@[r2]@.len(),
        decreases p - r,
    {
        let counts = selfs[r].counts();
        let lo = counts[r];
        let hi = counts[r + 1];
        let mut sorted_keys: Vec<usize> = Vec::new();
        let mut gidx: usize = lo;
        while gidx < hi
            invariant
                lo <= gidx <= hi || (lo > hi && gidx == lo),
                lo == c1[r as int],
                hi == c1[r as int + 1],
                lo <= hi,
                sorted_keys@ =~= range_seq(lo as int, gidx as int),
            decreases hi - gidx,
        {
            sorted_keys.push(gidx);
            proof {
                assert(sorted_keys@ =~= range_seq(lo as int, gidx + 1));
            }
            gidx = gidx + 1;
        }
        proof {
            assert(sorted_keys@ =~= range_seq(lo as int, hi as int));
            assert forall|i: int, j: int|
                0 <= i <= j < sorted_keys@.len() implies sorted_keys@[i] <= sorted_keys@[j] by {}
            assert forall|j: int| 0 <= j < sorted_keys@.len() implies bins@[0]
                <= #[trigger] sorted_keys@[j] by {}
        }
        let row = crate::array_tools::sort_to_bins(&sorted_keys, &bins);
        proof {
            lemma_range_bin_prefix(c2, p as int, lo as int, hi as int, p as int, row@);
            assert(exchange::seq_total(row@) == overlap_len(
                lo as int,
                hi as int,
                0,
                c2[p as int] as int,
            ));
        }
        counts_mtx.push(row);
        r = r + 1;
    }
    let out = crate::array_tools::redistribute(all_data, &counts_mtx);
    proof {
        assert forall|r2: int| 0 <= r2 < p implies (#[trigger] out@[r2]@)
            == exchange::concat_rows(exchange::rows_view(all_data@), p as int).subrange(
            c2[r2] as int,
            c2[r2 + 1] as int,
        ) by {
            lemma_remap_gathered(
                exchange::rows_view(all_data@),
                exchange::rows_view(counts_mtx@),
                c1,
                c2,
                p as int,
                r2,
                p as int,
            );
            assert(overlap_len(0, c1[p as int] as int, c2[r2] as int, c2[r2 + 1] as int) == c2[r2
                + 1] - c2[r2]);
        }
    }
    out
}

proof fn lemma_concat_of_subranges<T>(g: Seq<T>, c: Seq<usize>, p: int, y: Seq<Seq<T>>, j: int)
    requires
        c.len() == p + 1,
        p >= 1,
        c[0] == 0,
        array_tools::is_non_decreasing(c),
        g.len() == c[p],
        y.len() == p,
        forall|r: int|
            0 <= r < p ==> (#[trigger] y[r]) == g.subrange(c[r] as int, c[r + 1] as int),
        0 <= j <= p,
    ensures
        exchange::concat_rows(y, j) == g.subrange(0, c[j] as int),
    decreases j,
{
    if j <= 0 {
        assert(exchange::concat_rows(y, j) =~= g.subrange(0, 0));
    } else {
        lemma_concat_of_subranges(g, c, p, y, j - 1);
        assert(exchange::concat_rows(y, j) =~= g.subrange(0, c[j] as int));
    }
}

/// Law: remapping a distributed vector from one layout to another and back
/// restores every rank's data elementwise.
pub proof fn lemma_remap_round_trip<T>(
    c1: Seq<usize>,
    c2: Seq<usize>,
    p: int,
    x: Seq<Seq<T>>,
    y: Seq<Seq<T>>,
    z: Seq<Seq<T>>,
)
    requires
        c1.len() == p + 1,
        c2.len() == p + 1,
        p >= 1,
        c1[0] == 0,
        c2[0] == 0,
        array_tools::is_non_decreasing(c1),
        array_tools::is_non_decreasing(c2),
        c1[p] == c2[p],
        x.len() == p,
        y.len() == p,
        z.len() == p,
        forall|r: int| 0 <= r < p ==> (#[trigger] x[r]).len() == c1[r + 1] - c1[r],
        forall|r: int|
            0 <= r < p ==> (#[trigger] y[r]) == exchange::concat_rows(x, p).subrange(
                c2[r] as int,
                c2[r + 1] as int,
            ),
        forall|r: int|
            0 <= r < p ==> (#[trigger] z[r]) == exchange::concat_rows(y, p).subrange(
                c1[r] as int,
                c1[r + 1] as int,
            ),
    ensures
        forall|r: int| 0 <= r < p ==> (#[trigger] z[r]) == x[r],
{
    let g = exchange::concat_rows(x, p);
    lemma_concat_rows_len(x, c1, 1, p);
    assert(forall|t: int| 0 <= t < p ==> (#[trigger] x[t]).len() == (c1[t + 1] - c1[t]) * 1);
    lemma_concat_of_subranges(g, c2, p, y, p);
    assert(exchange::concat_rows(y, p) == g.subrange(0, c2[p] as int));
    assert(g.subrange(0, c2[p] as int) =~= g);
    assert forall|r: int| 0 <= r < p implies (#[trigger] z[r]) == x[r] by {
        lemma_concat_rows_sub(x, c1, 1, r, c1[r] as int, c1[r + 1] as int, p);
        assert(x[r].subrange(0, x[r].len() as int) =~= x[r]);
    }
}

/// Scan for the rank owning `index`: the first rank whose upper boundary
/// lies above it.
pub(crate) fn rank_from_index_search(counts: &Vec<usize>, size: usize, index: usize) -> (r: Option<
    usize,
>)
    requires
        counts@.len() == size + 1,
        size >= 1,
        counts@[0] == 0,
        array_tools::is_non_decreasing(counts@),
    ensures
        (match r {
            Some(rk) => index < total_of(counts@) && rk as int == owner_of(counts@, index as int),
            None => index >= total_of(counts@),
        }),
{
    let mut r: usize = 0;
    while r < size
        invariant
            r <= size,
            counts@.len() == size + 1,
            size >= 1,
            counts@[0] == 0,
            array_tools::is_non_decreasing(counts@),
            forall|r2: int| 0 <= r2 < r ==> index >= #[trigger] counts@[r2 + 1],
        decreases size - r,
    {
        if index < counts[r + 1] {
            proof {
                if r > 0 {
                    assert(index >= counts@[r - 1 + 1]);
                }
                lemma_owner_of_exact(counts@, index as int, r as int);
            }
            return Some(r);
        }
        r = r + 1;
    }
    proof {
        assert(index >= counts@[size - 1 + 1]);
    }
    None
}

} // verus!
