//! The semantics of the collective exchanges.
//!
//! A collective operation is modelled as a function over the contributions of
//! every rank at once: rank `s`'s contribution is entry `s` of the argument,
//! and entry `r` of the result is what rank `r` receives.  The two operations
//! here are the fixed-count all-to-all (one element per peer) and the
//! variable-count all-to-all (one counted block per peer).

use vstd::prelude::*;

verus! {

/// Sum of the first `i` entries of `counts`.
pub open spec fn prefix_total(counts: Seq<usize>, i: int) -> int
    decreases i,
{
    if i <= 0 {
        0
    } else {
        prefix_total(counts, i - 1) + counts[i - 1]
    }
}

/// Sum of all entries of `counts`.
pub open spec fn seq_total(counts: Seq<usize>) -> int {
    prefix_total(counts, counts.len() as int)
}

/// The view of each row of a vector of vectors.
pub open spec fn rows_view<T>(rows: Seq<Vec<T>>) -> Seq<Seq<T>> {
    Seq::new(rows.len(), |i: int| rows[i]@)
}

/// The `j`-th block of `data`, where `data` is divided into consecutive
/// blocks whose lengths are the entries of `counts`.
pub open spec fn block_of<T>(data: Seq<T>, counts: Seq<usize>, j: int) -> Seq<T> {
    data.subrange(prefix_total(counts, j), prefix_total(counts, j + 1))
}

/// What rank `dest` receives from the first `p` ranks of a variable-count
/// all-to-all: the concatenation of each source's block for `dest`.
pub open spec fn gathered_at<T>(
    all_data: Seq<Seq<T>>,
    all_counts: Seq<Seq<usize>>,
    dest: int,
    p: int,
) -> Seq<T>
    decreases p,
{
    if p <= 0 {
        Seq::empty()
    } else {
        gathered_at(all_data, all_counts, dest, p - 1) + block_of(
            all_data[p - 1],
            all_counts[p - 1],
            dest,
        )
    }
}

/// Chunk `i` of a buffer of `k`-element chunks.
pub open spec fn chunk_at<T>(s: Seq<T>, i: int, k: int) -> Seq<T> {
    s.subrange(i * k, i * k + k)
}

/// The first `p` rows concatenated in rank order.
pub open spec fn concat_rows<T>(rows: Seq<Seq<T>>, p: int) -> Seq<T>
    decreases p,
{
    if p <= 0 {
        Seq::empty()
    } else {
        concat_rows(rows, p - 1) + rows[p - 1]
    }
}

/// Append `k` elements of `src` starting at `start` to `dst`.
pub(crate) fn push_chunk<T: Copy>(dst: &mut Vec<T>, src: &Vec<T>, start: usize, k: usize)
    requires
        start + k <= src@.len(),
    ensures
        final(dst)@ == old(dst)@ + src@.subrange(start as int, start as int + k),
{
    proof {
        assert(dst@ =~= dst@ + src@.subrange(start as int, start as int));
    }
    let n = src.len();
    let mut e: usize = 0;
    while e < k
        invariant
            e <= k,
            n == src@.len(),
            start + k <= src@.len(),
            dst@ == old(dst)@ + src@.subrange(start as int, start as int + e),
        decreases k - e,
    {
        dst.push(src[start + e]);
        proof {
            assert(src@.subrange(start as int, start as int + e + 1) =~= src@.subrange(
                start as int,
                start as int + e,
            ).push(src@[start + e]));
            assert(dst@ =~= old(dst)@ + src@.subrange(start as int, start as int + e + 1));
        }
        e = e + 1;
    }
}

/// Overwrite `k` elements of `dst` starting at `start` with the elements of
/// `src` starting at `sstart`.
pub(crate) fn set_chunk<T: Copy>(
    dst: &mut Vec<T>,
    start: usize,
    src: &Vec<T>,
    sstart: usize,
    k: usize,
)
    requires
        start + k <= old(dst)@.len(),
        sstart + k <= src@.len(),
    ensures
        final(dst)@.len() == old(dst)@.len(),
        final(dst)@.subrange(start as int, start as int + k) == src@.subrange(
            sstart as int,
            sstart as int + k,
        ),
        forall|e: int|
            0 <= e < old(dst)@.len() && !(start <= e < start + k) ==> (#[trigger] old(dst)@[e])
                == final(dst)@[e],
{
    let n = dst.len();
    let ns = src.len();
    let mut e: usize = 0;
    while e < k
        invariant
            e <= k,
            n == dst@.len(),
            n == old(dst)@.len(),
            ns == src@.len(),
            start + k <= n,
            sstart + k <= ns,
            forall|e2: int|
                0 <= e2 < n && !(start <= e2 < start + e) ==> (#[trigger] dst@[e2]) == old(
                    dst,
                )@[e2],
            forall|e2: int|
                start <= e2 < start + e ==> (#[trigger] dst@[e2]) == src@[sstart + (e2 - start)],
        decreases k - e,
    {
        dst.set(start + e, src[sstart + e]);
        e = e + 1;
    }
    proof {
        assert(dst@.subrange(start as int, start as int + k) =~= src@.subrange(
            sstart as int,
            sstart as int + k,
        ));
    }
}

pub proof fn lemma_prefix_total_monotone(counts: Seq<usize>, i: int, j: int)
    requires
        0 <= i <= j,
    ensures
        prefix_total(counts, i) <= prefix_total(counts, j),
    decreases j,
{
    if i < j {
        lemma_prefix_total_monotone(counts, i, j - 1);
    }
}

/// Exchange one element per peer: rank `r` receives, from every rank `s`,
/// the element `all_send[s][r]`.
pub fn all_to_all<T: Copy>(all_send: &Vec<Vec<T>>) -> (out: Vec<Vec<T>>)
    requires
        forall|s: int|
            0 <= s < all_send@.len() ==> (#[trigger] all_send@[s]@).len() == all_send@.len(),
    ensures
        out@.len() == all_send@.len(),
        forall|r: int| 0 <= r < out@.len() ==> (#[trigger] out@[r]@).len() == all_send@.len(),
        forall|r: int, s: int|
            0 <= r < out@.len() && 0 <= s < out@.len() ==> out@[r]@[s] == all_send@[s]@[r],
{
    let p = all_send.len();
    let mut out: Vec<Vec<T>> = Vec::new();
    let mut r: usize = 0;
    while r < p
        invariant
            r <= p,
            p == all_send@.len(),
            out@.len() == r,
            forall|s: int| 0 <= s < p ==> (#[trigger] all_send@[s]@).len() == p,
            forall|r2: int| 0 <= r2 < r ==> (#[trigger] out@[r2]@).len() == p,
            forall|r2: int, s: int|
                0 <= r2 < r && 0 <= s < p ==> out@[r2]@[s] == all_send@[s]@[r2],
        decreases p - r,
    {
        let mut row: Vec<T> = Vec::new();
        let mut s: usize = 0;
        while s < p
            invariant
                s <= p,
                r < p,
                p == all_send@.len(),
                row@.len() == s,
                forall|s2: int| 0 <= s2 < p ==> (#[trigger] all_send@[s2]@).len() == p,
                forall|s2: int| 0 <= s2 < s ==> row@[s2] == all_send@[s2]@[r as int],
            decreases p - s,
        {
            row.push(all_send[s][r]);
            s = s + 1;
        }
        out.push(row);
        r = r + 1;
    }
    out
}

/// Exchange one counted block per peer: rank `s` contributes `all_data[s]`
/// divided into consecutive blocks of lengths `all_counts[s]`, and rank `r`
/// receives the concatenation of the blocks destined to it, in rank order.
pub fn all_to_all_varcount<T: Copy>(all_data: &Vec<Vec<T>>, all_counts: &Vec<Vec<usize>>) -> (out:
    Vec<Vec<T>>)
    requires
        all_counts@.len() == all_data@.len(),
        forall|s: int|
            0 <= s < all_data@.len() ==> (#[trigger] all_counts@[s]@).len() == all_data@.len(),
        forall|s: int|
            0 <= s < all_data@.len() ==> seq_total(#[trigger] all_counts@[s]@)
                == all_data@[s]@.len(),
    ensures
        out@.len() == all_data@.len(),
        forall|r: int|
            0 <= r < out@.len() ==> (#[trigger] out@[r]@) == gathered_at(
                rows_view(all_data@),
                rows_view(all_counts@),
                r,
                all_data@.len() as int,
            ),
{
    let p = all_data.len();
    let mut out: Vec<Vec<T>> = Vec::new();
    let mut r: usize = 0;
    while r < p
        invariant
            r <= p,
            p == all_data@.len(),
            all_counts@.len() == p,
            forall|s: int| 0 <= s < p ==> (#[trigger] all_counts@[s]@).len() == p,
            forall|s: int| 0 <= s < p ==> seq_total(#[trigger] all_counts@[s]@) == all_data@[s]@.len(),
            out@.len() == r,
            forall|r2: int|
                0 <= r2 < r ==> (#[trigger] out@[r2]@) == gathered_at(
                    rows_view(all_data@),
                    rows_view(all_counts@),
                    r2,
                    p as int,
                ),
        decreases p - r,
    {
        let mut row: Vec<T> = Vec::new();
        let mut s: usize = 0;
        while s < p
            invariant
                s <= p,
                r < p,
                p == all_data@.len(),
                all_counts@.len() == p,
                forall|s2: int| 0 <= s2 < p ==> (#[trigger] all_counts@[s2]@).len() == p,
                forall|s2: int|
                    0 <= s2 < p ==> seq_total(#[trigger] all_counts@[s2]@) == all_data@[s2]@.len(),
                row@ == gathered_at(rows_view(all_data@), rows_view(all_counts@), r as int, s as int),
            decreases p - s,
        {
            // Start offset of the block for `r` inside `all_data[s]`.
            let n_s = all_data[s].len();
            let mut start: usize = 0;
            let mut t: usize = 0;
            while t < r
                invariant
                    t <= r,
                    r < p,
                    s < p,
                    p == all_data@.len(),
                    all_counts@.len() == p,
                    (all_counts@[s as int]@).len() == p,
                    seq_total(all_counts@[s as int]@) == all_data@[s as int]@.len(),
                    n_s == all_data@[s as int]@.len(),
                    start == prefix_total(all_counts@[s as int]@, t as int),
                decreases r - t,
            {
                proof {
                    assert(prefix_total(all_counts@[s as int]@, t + 1) == start
                        + all_counts@[s as int]@[t as int]);
                    lemma_prefix_total_monotone(all_counts@[s as int]@, t + 1, p as int);
                }
                start = start + all_counts[s][t];
                t = t + 1;
            }
            let cnt = all_counts[s][r];
            proof {
                lemma_prefix_total_monotone(all_counts@[s as int]@, r + 1, p as int);
                assert(start + cnt == prefix_total(all_counts@[s as int]@, r + 1));
            }
            proof {
                assert(row@ =~= row@ + all_data@[s as int]@.subrange(
                    start as int,
                    start as int,
                ));
            }
            let mut u: usize = 0;
            while u < cnt
                invariant
                    u <= cnt,
                    r < p,
                    s < p,
                    p == all_data@.len(),
                    n_s == all_data@[s as int]@.len(),
                    start + cnt <= n_s,
                    row@ == gathered_at(
                        rows_view(all_data@),
                        rows_view(all_counts@),
                        r as int,
                        s as int,
                    ) + all_data@[s as int]@.subrange(start as int, start + u),
                decreases cnt - u,
            {
                row.push(all_data[s][start + u]);
                proof {
                    assert(all_data@[s as int]@.subrange(start as int, start + u + 1)
                        =~= all_data@[s as int]@.subrange(start as int, start + u).push(
                        all_data@[s as int]@[start + u],
                    ));
                }
                u = u + 1;
            }
            proof {
                assert(all_data@[s as int]@.subrange(start as int, start + cnt) =~= block_of(
                    rows_view(all_data@)[s as int],
                    rows_view(all_counts@)[s as int],
                    r as int,
                ));
                assert(row@ =~= gathered_at(
                    rows_view(all_data@),
                    rows_view(all_counts@),
                    r as int,
                    s + 1,
                ));
            }
            s = s + 1;
        }
        out.push(row);
        r = r + 1;
    }
    out
}

} // verus!
