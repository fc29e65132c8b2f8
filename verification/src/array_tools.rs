//! Tools for working with distributed arrays: binning a sorted key list
//! against sorted bin boundaries, exclusive prefix-sum displacements, and
//! variable-count redistribution of per-rank arrays.

use crate::exchange;
use vstd::prelude::*;

verus! {

/// A non-decreasing sequence.
pub open spec fn is_non_decreasing(s: Seq<usize>) -> bool {
    forall|i: int, j: int| 0 <= i <= j < s.len() ==> s[i] <= s[j]
}

/// The bin of `key` for bin boundaries `bins`: bin `i < |bins| - 1` is the
/// half-open interval `[bins[i], bins[i+1])`, and the last bin is
/// `[bins[|bins|-1], +infinity)`.  For a key below `bins[0]` this yields bin
/// `0`; callers require keys to lie in `[bins[0], +infinity)`.
pub open spec fn bin_of(bins: Seq<usize>, key: usize) -> int
    decreases bins.len(),
{
    if bins.len() <= 1 {
        0
    } else if bins.last() <= key {
        bins.len() - 1
    } else {
        bin_of(bins.drop_last(), key)
    }
}

/// How many of `keys` fall into bin `b`.
pub open spec fn count_in_bin(keys: Seq<usize>, bins: Seq<usize>, b: int) -> int
    decreases keys.len(),
{
    if keys.len() == 0 {
        0
    } else {
        count_in_bin(keys.drop_last(), bins, b) + if bin_of(bins, keys.last()) == b {
            1int
        } else {
            0int
        }
    }
}

pub proof fn lemma_bin_of_in_range(bins: Seq<usize>, key: usize)
    requires
        bins.len() >= 1,
    ensures
        0 <= bin_of(bins, key) < bins.len(),
    decreases bins.len(),
{
    if bins.len() > 1 && key < bins.last() {
        lemma_bin_of_in_range(bins.drop_last(), key);
    }
}

/// A boundary at or below the key puts the key in that bin or a later one.
pub proof fn lemma_bin_of_at_least(bins: Seq<usize>, key: usize, c: int)
    requires
        is_non_decreasing(bins),
        0 <= c < bins.len(),
        bins[c] <= key,
    ensures
        bin_of(bins, key) >= c,
    decreases bins.len(),
{
    if bins.len() <= 1 {
    } else if bins.last() <= key {
    } else {
        assert(c < bins.len() - 1);
        assert(is_non_decreasing(bins.drop_last())) by {
            assert(forall|i: int, j: int|
                0 <= i <= j < bins.len() - 1 ==> bins.drop_last()[i] <= bins.drop_last()[j]);
        }
        lemma_bin_of_at_least(bins.drop_last(), key, c);
    }
}

/// A boundary above the key puts the key in an earlier bin.
pub proof fn lemma_bin_of_below(bins: Seq<usize>, key: usize, c: int)
    requires
        is_non_decreasing(bins),
        1 <= c < bins.len(),
        key < bins[c],
    ensures
        bin_of(bins, key) < c,
    decreases bins.len(),
{
    if bins.len() <= 1 {
    } else if bins.last() <= key {
        assert(bins[c] <= bins[bins.len() - 1]);
    } else {
        assert(is_non_decreasing(bins.drop_last())) by {
            assert(forall|i: int, j: int|
                0 <= i <= j < bins.len() - 1 ==> bins.drop_last()[i] <= bins.drop_last()[j]);
        }
        if c < bins.len() - 1 {
            lemma_bin_of_below(bins.drop_last(), key, c);
        } else {
            lemma_bin_of_in_range(bins.drop_last(), key);
        }
    }
}

/// A key between two adjacent boundaries lies in exactly that bin.
pub proof fn lemma_bin_of_exact(bins: Seq<usize>, key: usize, c: int)
    requires
        is_non_decreasing(bins),
        0 <= c < bins.len(),
        bins[c] <= key,
        c + 1 < bins.len() ==> key < bins[c + 1],
    ensures
        bin_of(bins, key) == c,
{
    lemma_bin_of_at_least(bins, key, c);
    if c + 1 < bins.len() {
        lemma_bin_of_below(bins, key, c + 1);
    } else {
        lemma_bin_of_in_range(bins, key);
    }
}

/// A larger key never lands in an earlier bin.
pub proof fn lemma_bin_of_monotone(bins: Seq<usize>, k1: usize, k2: usize)
    requires
        is_non_decreasing(bins),
        bins.len() >= 1,
        k1 <= k2,
    ensures
        bin_of(bins, k1) <= bin_of(bins, k2),
    decreases bins.len(),
{
    if bins.len() <= 1 {
    } else if bins.last() <= k1 {
    } else if bins.last() <= k2 {
        lemma_bin_of_in_range(bins.drop_last(), k1);
    } else {
        assert(is_non_decreasing(bins.drop_last())) by {
            assert(forall|i: int, j: int|
                0 <= i <= j < bins.len() - 1 ==> bins.drop_last()[i] <= bins.drop_last()[j]);
        }
        lemma_bin_of_monotone(bins.drop_last(), k1, k2);
    }
}

/// Distribute a sorted key sequence into bins.
///
/// `bins` holds at least one non-decreasing boundary; bin `i < |bins| - 1` is
/// the half-open interval `[bins[i], bins[i+1])` and the last bin is
/// `[bins[|bins|-1], +infinity)`.  Every key must be sorted and lie at or
/// above the first boundary.  The result holds, for every bin, the number of
/// keys that fall into it.
pub fn sort_to_bins(sorted_keys: &Vec<usize>, bins: &Vec<usize>) -> (counts: Vec<usize>)
    requires
        bins@.len() >= 1,
        is_non_decreasing(bins@),
        is_non_decreasing(sorted_keys@),
        forall|j: int| 0 <= j < sorted_keys@.len() ==> bins@[0] <= #[trigger] sorted_keys@[j],
    ensures
        counts@.len() == bins@.len(),
        forall|b: int|
            0 <= b < bins@.len() ==> #[trigger] counts@[b] == count_in_bin(sorted_keys@, bins@, b),
{
    let nbins = bins.len();
    let nkeys = sorted_keys.len();
    let mut counts: Vec<usize> = Vec::new();
    let mut z: usize = 0;
    while z < nbins
        invariant
            z <= nbins,
            counts@.len() == z,
            forall|b: int| 0 <= b < z ==> #[trigger] counts@[b] == 0,
        decreases nbins - z,
    {
        counts.push(0);
        z = z + 1;
    }
    let mut cur: usize = 0;
    let mut j: usize = 0;
    proof {
        assert(forall|b: int|
            0 <= b < nbins ==> count_in_bin(sorted_keys@.subrange(0, 0), bins@, b) == 0);
    }
    while j < nkeys
        invariant
            j <= nkeys,
            nkeys == sorted_keys@.len(),
            nbins == bins@.len(),
            1 <= nbins,
            is_non_decreasing(bins@),
            is_non_decreasing(sorted_keys@),
            forall|j2: int| 0 <= j2 < nkeys ==> bins@[0] <= #[trigger] sorted_keys@[j2],
            counts@.len() == nbins,
            cur < nbins,
            j > 0 ==> cur == bin_of(bins@, sorted_keys@[j - 1]),
            j == 0 ==> cur == 0,
            forall|b: int|
                0 <= b < nbins ==> #[trigger] counts@[b] == count_in_bin(
                    sorted_keys@.subrange(0, j as int),
                    bins@,
                    b,
                ),
            forall|b: int| 0 <= b < nbins ==> #[trigger] counts@[b] <= j,
        decreases nkeys - j,
    {
        let key = sorted_keys[j];
        proof {
            if j > 0 {
                lemma_bin_of_monotone(bins@, sorted_keys@[j - 1], key);
            }
            lemma_bin_of_in_range(bins@, key);
            if cur > 0 || j == 0 {
            }
        }
        while cur + 1 < nbins && bins[cur + 1] <= key
            invariant
                cur < nbins,
                nbins == bins@.len(),
                is_non_decreasing(bins@),
                cur <= bin_of(bins@, key),
            decreases nbins - cur,
        {
            proof {
                lemma_bin_of_at_least(bins@, key, cur + 1);
            }
            cur = cur + 1;
        }
        proof {
            if cur + 1 < nbins {
                lemma_bin_of_below(bins@, key, cur + 1);
            } else {
                lemma_bin_of_in_range(bins@, key);
            }
            assert(cur == bin_of(bins@, key));
        }
        let c = counts[cur];
        counts.set(cur, c + 1);
        proof {
            assert(sorted_keys@.subrange(0, j + 1).drop_last() =~= sorted_keys@.subrange(
                0,
                j as int,
            ));
            assert(sorted_keys@.subrange(0, j + 1).last() == key);
        }
        j = j + 1;
    }
    proof {
        assert(sorted_keys@.subrange(0, nkeys as int) =~= sorted_keys@);
    }
    counts
}

/// `prefix_total(a, i) == prefix_total(b, i)` except one entry of `a` is one
/// larger, which shifts every later prefix sum by one.
proof fn lemma_prefix_total_bump(a: Seq<usize>, b: Seq<usize>, k: int, i: int)
    requires
        a.len() == b.len(),
        0 <= k < a.len(),
        a[k] == b[k] + 1,
        forall|m: int| 0 <= m < a.len() && m != k ==> a[m] == b[m],
        0 <= i <= a.len(),
    ensures
        exchange::prefix_total(a, i) == exchange::prefix_total(b, i) + if k < i {
            1int
        } else {
            0int
        },
    decreases i,
{
    if i > 0 {
        lemma_prefix_total_bump(a, b, k, i - 1);
    }
}

/// Law: the bin counts of a key list sum to the number of keys.
pub proof fn lemma_bin_counts_sum_to_key_count(
    keys: Seq<usize>,
    bins: Seq<usize>,
    counts: Seq<usize>,
)
    requires
        bins.len() >= 1,
        counts.len() == bins.len(),
        forall|b: int| 0 <= b < bins.len() ==> #[trigger] counts[b] == count_in_bin(keys, bins, b),
    ensures
        exchange::seq_total(counts) == keys.len(),
    decreases keys.len(),
{
    if keys.len() == 0 {
        assert forall|i: int| 0 <= i <= counts.len() implies exchange::prefix_total(counts, i)
            == 0 by {
            lemma_prefix_total_zero(counts, i);
        }
    } else {
        let prev = keys.drop_last();
        let hit = bin_of(bins, keys.last());
        lemma_bin_of_in_range(bins, keys.last());
        let prev_counts = Seq::new(counts.len(), |b: int| (counts[b] - if b == hit {
            1int
        } else {
            0int
        }) as usize);
        assert forall|b: int| 0 <= b < bins.len() implies #[trigger] prev_counts[b]
            == count_in_bin(prev, bins, b) by {
            lemma_count_in_bin_non_negative(prev, bins, b);
        }
        lemma_bin_counts_sum_to_key_count(prev, bins, prev_counts);
        lemma_prefix_total_bump(counts, prev_counts, hit, counts.len() as int);
    }
}

proof fn lemma_prefix_total_zero(counts: Seq<usize>, i: int)
    requires
        0 <= i <= counts.len(),
        forall|b: int| 0 <= b < counts.len() ==> #[trigger] counts[b] == 0,
    ensures
        exchange::prefix_total(counts, i) == 0,
    decreases i,
{
    if i > 0 {
        lemma_prefix_total_zero(counts, i - 1);
    }
}

pub proof fn lemma_count_in_bin_non_negative(keys: Seq<usize>, bins: Seq<usize>, b: int)
    ensures
        count_in_bin(keys, bins, b) >= 0,
    decreases keys.len(),
{
    if keys.len() > 0 {
        lemma_count_in_bin_non_negative(keys.drop_last(), bins, b);
    }
}

/// Sum of the first `i` entries of a sequence of signed counts.
pub open spec fn prefix_total_i32(counts: Seq<i32>, i: int) -> int
    decreases i,
{
    if i <= 0 {
        0
    } else {
        prefix_total_i32(counts, i - 1) + counts[i - 1]
    }
}

proof fn lemma_prefix_total_i32_monotone(counts: Seq<i32>, i: int, j: int)
    requires
        0 <= i <= j <= counts.len(),
        forall|m: int| 0 <= m < counts.len() ==> #[trigger] counts[m] >= 0,
    ensures
        prefix_total_i32(counts, i) <= prefix_total_i32(counts, j),
    decreases j,
{
    if i < j {
        lemma_prefix_total_i32_monotone(counts, i, j - 1);
    }
}

/// Compute exclusive prefix-sum displacements from a vector of counts: entry
/// `i` of the result is the sum of the first `i` counts, so each displacement
/// plus its count gives the next displacement.
pub fn displacements(counts: &Vec<i32>) -> (displ: Vec<i32>)
    requires
        forall|i: int| 0 <= i < counts@.len() ==> #[trigger] counts@[i] >= 0,
        prefix_total_i32(counts@, counts@.len() as int) <= i32::MAX,
    ensures
        displ@.len() == counts@.len(),
        forall|i: int|
            0 <= i < counts@.len() ==> #[trigger] displ@[i] == prefix_total_i32(counts@, i),
        forall|i: int|
            0 <= i && i + 1 < counts@.len() ==> #[trigger] displ@[i] + counts@[i] == displ@[i + 1],
{
    let n = counts.len();
    let mut displ: Vec<i32> = Vec::new();
    let mut acc: i32 = 0;
    let mut i: usize = 0;
    while i < n
        invariant
            i <= n,
            n == counts@.len(),
            displ@.len() == i,
            acc == prefix_total_i32(counts@, i as int),
            forall|m: int| 0 <= m < counts@.len() ==> #[trigger] counts@[m] >= 0,
            prefix_total_i32(counts@, counts@.len() as int) <= i32::MAX,
            forall|m: int| 0 <= m < i ==> #[trigger] displ@[m] == prefix_total_i32(counts@, m),
        decreases n - i,
    {
        displ.push(acc);
        proof {
            lemma_prefix_total_i32_monotone(counts@, 0, i as int);
            lemma_prefix_total_i32_monotone(counts@, i + 1, n as int);
            assert(prefix_total_i32(counts@, i + 1) == acc + counts@[i as int]);
        }
        acc = acc + counts[i];
        i = i + 1;
    }
    displ
}

/// Redistribute per-rank arrays with a variable-count exchange: rank `s`
/// sends `all_counts[s][r]` consecutive elements of its array to rank `r`,
/// and every rank receives the blocks destined to it in source-rank order,
/// each block keeping its element order.
pub fn redistribute<T: Copy>(all_data: &Vec<Vec<T>>, all_counts: &Vec<Vec<usize>>) -> (out: Vec<
    Vec<T>,
>)
    requires
        all_counts@.len() == all_data@.len(),
        forall|s: int|
            0 <= s < all_data@.len() ==> (#[trigger] all_counts@[s]@).len() == all_data@.len(),
        forall|s: int|
            0 <= s < all_data@.len() ==> exchange::seq_total(#[trigger] all_counts@[s]@)
                == all_data@[s]@.len(),
    ensures
        out@.len() == all_data@.len(),
        forall|r: int|
            0 <= r < out@.len() ==> (#[trigger] out@[r]@) == exchange::gathered_at(
                exchange::rows_view(all_data@),
                exchange::rows_view(all_counts@),
                r,
                all_data@.len() as int,
            ),
{
    exchange::all_to_all_varcount(all_data, all_counts)
}

} // verus!
