//! Reorders distributed data between a layout's canonical ordering and a
//! user-supplied global permutation partitioned by the same layout.
//!
//! Every rank supplies a list of custom global indices, as many as it owns
//! canonically.  Together the lists must name every global index exactly
//! once.  The forward permutation carries data from canonical order to the
//! custom order; the backward permutation is its inverse.

use crate::data_mapper;
use crate::data_mapper::Global2LocalDataMapper;
use crate::exchange;
use crate::exchange::{chunk_at, concat_rows, rows_view, seq_total};
use crate::ghost_communicator;
use crate::ghost_communicator::{chunk_indices_valid, chunks_of};
use crate::index_layout;
use crate::index_layout::{layout_wf, owner_of, total_of, IndexLayout};
use vstd::prelude::*;

verus! {

broadcast use vstd::std_specs::hash::group_hash_axioms;

/// Every custom index lies below the global total.
pub open spec fn all_in_range(customs: Seq<Seq<usize>>, n: int) -> bool {
    forall|r: int, i: int|
        0 <= r < customs.len() && 0 <= i < customs[r].len() ==> (#[trigger] customs[r][i]) < n
}

/// No global index is named twice across the custom lists.
pub open spec fn pairwise_distinct(customs: Seq<Seq<usize>>) -> bool {
    forall|r1: int, i1: int, r2: int, i2: int|
        #![trigger customs[r1][i1], customs[r2][i2]]
        0 <= r1 < customs.len() && 0 <= i1 < customs[r1].len() && 0 <= r2 < customs.len() && 0
            <= i2 < customs[r2].len() && customs[r1][i1] == customs[r2][i2] ==> r1 == r2 && i1
            == i2
}

/// Some custom list holds the global index `g`.
pub open spec fn is_held(customs: Seq<Seq<usize>>, g: int) -> bool {
    exists|r: int, i: int|
        0 <= r < customs.len() && 0 <= i < customs[r].len() && (#[trigger] customs[r][i]) == g
}

/// Every global index below `n` is held somewhere.
pub open spec fn covers(customs: Seq<Seq<usize>>, n: int) -> bool {
    forall|g: int| 0 <= g < n ==> #[trigger] is_held(customs, g)
}

/// The rank and position holding the global index `g`.
pub open spec fn holder_of(customs: Seq<Seq<usize>>, g: int) -> (int, int) {
    choose|r: int, i: int|
        0 <= r < customs.len() && 0 <= i < customs[r].len() && (#[trigger] customs[r][i]) == g
}

/// The data distributed per the custom lists, read back in global-index
/// order: chunk `g` is the chunk stored wherever `g` is held.
pub open spec fn custom_global<T>(
    all_dst: Seq<Seq<T>>,
    customs: Seq<Seq<usize>>,
    n: int,
    k: int,
) -> Seq<T> {
    Seq::new(
        (n * k) as nat,
        |e: int|
            {
                let h = holder_of(customs, e / k);
                all_dst[h.0][h.1 * k + (e % k)]
            },
    )
}

/// The chunk of the custom-distributed data at a held global index is the
/// holder's chunk.
pub proof fn lemma_custom_global_chunk<T>(
    all_dst: Seq<Seq<T>>,
    customs: Seq<Seq<usize>>,
    n: int,
    k: int,
    g: int,
    hr: int,
    hi: int,
)
    requires
        k >= 1,
        0 <= g < n,
        customs.len() == all_dst.len(),
        pairwise_distinct(customs),
        0 <= hr < customs.len(),
        0 <= hi < customs[hr].len(),
        customs[hr][hi] == g,
        forall|r: int|
            0 <= r < all_dst.len() ==> (#[trigger] all_dst[r]).len() == customs[r].len() * k,
    ensures
        custom_global(all_dst, customs, n, k).subrange(g * k, g * k + k) == all_dst[hr].subrange(
            hi * k,
            hi * k + k,
        ),
{
    let g2 = custom_global(all_dst, customs, n, k);
    vstd::arithmetic::mul::lemma_mul_inequality(g + 1, n, k);
    assert((g + 1) * k == g * k + k) by (nonlinear_arith);
    vstd::arithmetic::mul::lemma_mul_nonnegative(g, k);
    vstd::arithmetic::mul::lemma_mul_inequality(hi + 1, customs[hr].len() as int, k);
    assert((hi + 1) * k == hi * k + k) by (nonlinear_arith);
    vstd::arithmetic::mul::lemma_mul_nonnegative(hi, k);
    assert forall|e: int| g * k <= e < g * k + k implies (#[trigger] g2[e]) == all_dst[hr][hi * k
        + (e - g * k)] by {
        let off = e - g * k;
        vstd::arithmetic::div_mod::lemma_fundamental_div_mod_converse(e, k, g, off);
        assert(e / k == g);
        assert(e % k == off);
        let h = holder_of(customs, g);
        assert(0 <= h.0 < customs.len() && 0 <= h.1 < customs[h.0].len() && customs[h.0][h.1]
            == g) by {
            assert(0 <= hr < customs.len() && 0 <= hi < customs[hr].len() && customs[hr][hi] == g);
        }
        assert(h.0 == hr && h.1 == hi);
    }
    assert(g2.subrange(g * k, g * k + k) =~= all_dst[hr].subrange(hi * k, hi * k + k));
}

/// Some entry strictly before position `i` of rank `r`'s list, or in an
/// earlier rank's list, names the global index `g`.
spec fn marked(customs: Seq<Seq<usize>>, r: int, i: int, g: int) -> bool {
    exists|r2: int, i2: int|
        0 <= r2 < customs.len() && 0 <= i2 < customs[r2].len() && (r2 < r || (r2 == r && i2 < i))
            && (#[trigger] customs[r2][i2]) == g
}

spec fn prefix_distinct(customs: Seq<Seq<usize>>, r: int, i: int) -> bool {
    forall|r1: int, i1: int, r2: int, i2: int|
        #![trigger customs[r1][i1], customs[r2][i2]]
        0 <= r1 < customs.len() && 0 <= i1 < customs[r1].len() && (r1 < r || (r1 == r && i1 < i))
            && 0 <= r2 < customs.len() && 0 <= i2 < customs[r2].len() && (r2 < r || (r2 == r && i2
            < i)) && customs[r1][i1] == customs[r2][i2] ==> r1 == r2 && i1 == i2
}

/// A data permutation across the whole process group: one exchange plan per
/// rank, built from the custom lists with the owning layout.
#[verifier::reject_recursive_types(L)]
pub struct DataPermutation<L: IndexLayout> {
    mappers: Vec<Global2LocalDataMapper<L>>,
}

impl<L: IndexLayout> DataPermutation<L> {
    /// The per-rank mappers, for specifications.
    pub closed spec fn mappers_spec(&self) -> Seq<Global2LocalDataMapper<L>> {
        self.mappers@
    }

    /// The custom index lists, for specifications.
    pub open spec fn customs(&self) -> Seq<Seq<usize>> {
        Seq::new(self.mappers_spec().len(), |r: int| self.mappers_spec()[r].required_spec())
    }

    /// The layout boundaries, for specifications.
    pub open spec fn counts_of(&self) -> Seq<usize> {
        self.mappers_spec()[0].counts_of()
    }

    /// Consistency: the mappers form a consistent family, each rank holds as
    /// many custom indices as it owns canonical ones, and the custom lists
    /// name every global index exactly once.
    pub open spec fn wf(&self) -> bool {
        let p = self.mappers_spec().len() as int;
        let counts = self.counts_of();
        &&& data_mapper::mapper_family_wf(self.mappers_spec())
        &&& forall|r: int|
            0 <= r < p ==> (#[trigger] self.customs()[r]).len() == counts[r + 1] - counts[r]
        &&& all_in_range(self.customs(), total_of(counts))
        &&& pairwise_distinct(self.customs())
        &&& covers(self.customs(), total_of(counts))
    }

    /// Build the permutation collectively from every rank's custom index
    /// list.  Succeeds exactly when the lists are in range, name no index
    /// twice, and together name every global index.
    pub fn new(index_layouts: Vec<L>, all_custom: &Vec<Vec<usize>>) -> (result: Option<
        DataPermutation<L>,
    >)
        requires
            index_layouts@.len() >= 1,
            all_custom@.len() == index_layouts@.len(),
            forall|r: int|
                0 <= r < index_layouts@.len() ==> layout_wf(
                    (#[trigger] index_layouts@[r]).counts_seq(),
                    r,
                    index_layouts@.len() as int,
                ),
            forall|r: int|
                0 <= r < index_layouts@.len() ==> (#[trigger] index_layouts@[r]).counts_seq()
                    == index_layouts@[0].counts_seq(),
            forall|r: int|
                0 <= r < index_layouts@.len() ==> (#[trigger] all_custom@[r]@).len()
                    == index_layouts@[0].counts_seq()[r + 1] - index_layouts@[0].counts_seq()[r],
        ensures
            (match result {
                Some(perm) => perm.wf() && perm.customs() == rows_view(all_custom@)
                    && perm.counts_of() == index_layouts@[0].counts_seq(),
                None => !(all_in_range(
                    rows_view(all_custom@),
                    total_of(index_layouts@[0].counts_seq()),
                ) && pairwise_distinct(rows_view(all_custom@)) && covers(
                    rows_view(all_custom@),
                    total_of(index_layouts@[0].counts_seq()),
                )),
            }),
    {
        let p = index_layouts.len();
        let ghost counts0 = index_layouts@[0].counts_seq();
        let ghost customs = rows_view(all_custom@);
        let first_counts = index_layouts[0].counts();
        let n = first_counts[p];
        // Mark every named index; fail on an out-of-range or repeated one.
        let mut seen: Vec<bool> = Vec::new();
        let mut z: usize = 0;
        while z < n
            invariant
                z <= n,
                seen@.len() == z,
                forall|g: int| 0 <= g < z ==> !(#[trigger] seen@[g]),
            decreases n - z,
        {
            seen.push(false);
            z = z + 1;
        }
        let mut r: usize = 0;
        while r < p
            invariant
                r <= p,
                p == all_custom@.len(),
                customs == rows_view(all_custom@),
                counts0 == index_layouts@[0].counts_seq(),
                n == total_of(counts0),
                seen@.len() == n,
                forall|g: int| 0 <= g < n ==> ((#[trigger] seen@[g]) <==> marked(
                    customs,
                    r as int,
                    0,
                    g,
                )),
                prefix_distinct(customs, r as int, 0),
                forall|r1: int, i1: int|
                    0 <= r1 < r && 0 <= i1 < customs[r1].len() ==> (#[trigger] customs[r1][i1])
                        < n,
            decreases p - r,
        {
            let row = &all_custom[r];
            let ni = row.len();
            let mut i: usize = 0;
            while i < ni
                invariant
                    i <= ni,
                    r < p,
                    p == all_custom@.len(),
                    customs == rows_view(all_custom@),
                    counts0 == index_layouts@[0].counts_seq(),
                    row@ == customs[r as int],
                    ni == row@.len(),
                    n == total_of(counts0),
                    seen@.len() == n,
                    forall|g: int| 0 <= g < n ==> ((#[trigger] seen@[g]) <==> marked(
                        customs,
                        r as int,
                        i as int,
                        g,
                    )),
                    prefix_distinct(customs, r as int, i as int),
                    forall|r1: int, i1: int|
                        0 <= r1 < customs.len() && 0 <= i1 < customs[r1].len() && (r1 < r || (r1
                            == r && i1 < i)) ==> (#[trigger] customs[r1][i1]) < n,
                decreases ni - i,
            {
                let g = row[i];
                if g >= n {
                    proof {
                        assert(!all_in_range(customs, n as int)) by {
                            assert(customs[r as int][i as int] >= n);
                        }
                    }
                    return None;
                }
                if seen[g] {
                    proof {
                        assert(marked(customs, r as int, i as int, g as int));
                        let (r2, i2) = choose|r2: int, i2: int|
                            0 <= r2 < customs.len() && 0 <= i2 < customs[r2].len() && (r2
                                < r as int || (r2 == r as int && i2 < i as int)) && (
                            #[trigger] customs[r2][i2]) == g as int;
                        assert(0 <= r2 < customs.len() && 0 <= i2 < customs[r2].len() && (r2
                            < r as int || (r2 == r as int && i2 < i as int)) && customs[r2][i2]
                            == g as int);
                        assert(customs[r as int][i as int] == g as int);
                        assert(0 <= (i as int) < customs[r as int].len());
                        assert(!(r2 == r as int && i2 == i as int));
                        assert(!pairwise_distinct(customs));
                    }
                    return None;
                }
                let ghost seen_prev = seen@;
                seen.set(g, true);
                proof {
                    assert forall|g2: int| 0 <= g2 < n implies ((#[trigger] seen@[g2]) <==> marked(
                        customs,
                        r as int,
                        i + 1,
                        g2,
                    )) by {
                        if g2 == g as int {
                            assert(customs[r as int][i as int] == g2);
                            assert(marked(customs, r as int, i + 1, g2));
                        } else {
                            if seen@[g2] {
                                assert(seen_prev[g2]);
                                let (r2, i2) = choose|r2: int, i2: int|
                                    0 <= r2 < customs.len() && 0 <= i2 < customs[r2].len() && (r2
                                        < r as int || (r2 == r as int && i2 < i as int)) && (
                                    #[trigger] customs[r2][i2]) == g2;
                                assert(marked(customs, r as int, i + 1, g2));
                            }
                            if marked(customs, r as int, i + 1, g2) {
                                let (r2, i2) = choose|r2: int, i2: int|
                                    0 <= r2 < customs.len() && 0 <= i2 < customs[r2].len() && (r2
                                        < r as int || (r2 == r as int && i2 < i + 1)) && (
                                    #[trigger] customs[r2][i2]) == g2;
                                assert(!(r2 == r as int && i2 == i as int));
                                assert(marked(customs, r as int, i as int, g2));
                            }
                        }
                    }
                    assert(prefix_distinct(customs, r as int, i + 1)) by {
                        assert forall|r1: int, i1: int, r2: int, i2: int|
                            #![trigger customs[r1][i1], customs[r2][i2]]
                            0 <= r1 < customs.len() && 0 <= i1 < customs[r1].len() && (r1
                                < r as int || (r1 == r as int && i1 < i + 1)) && 0 <= r2
                                < customs.len() && 0 <= i2 < customs[r2].len() && (r2 < r as int
                                || (r2 == r as int && i2 < i + 1)) && customs[r1][i1]
                                == customs[r2][i2] implies r1 == r2 && i1 == i2 by {
                            if r1 == r as int && i1 == i as int {
                                if !(r2 == r as int && i2 == i as int) {
                                    assert(marked(customs, r as int, i as int, g as int));
                                    assert(seen_prev[g as int]);
                                }
                            } else if r2 == r as int && i2 == i as int {
                                assert(marked(customs, r as int, i as int, g as int));
                                assert(seen_prev[g as int]);
                            }
                        }
                    }
                }
                i = i + 1;
            }
            proof {
                assert forall|g2: int| 0 <= g2 < n implies (marked(customs, r as int, ni as int, g2)
                    <==> marked(customs, r + 1, 0, g2)) by {
                    if marked(customs, r as int, ni as int, g2) {
                        let (r2, i2) = choose|r2: int, i2: int|
                            0 <= r2 < customs.len() && 0 <= i2 < customs[r2].len() && (r2
                                < r as int || (r2 == r as int && i2 < ni as int)) && (
                            #[trigger] customs[r2][i2]) == g2;
                        assert(r2 < r + 1);
                        assert(marked(customs, r + 1, 0, g2));
                    }
                    if marked(customs, r + 1, 0, g2) {
                        let (r2, i2) = choose|r2: int, i2: int|
                            0 <= r2 < customs.len() && 0 <= i2 < customs[r2].len() && (r2 < r + 1
                                || (r2 == r + 1 && i2 < 0)) && (#[trigger] customs[r2][i2]) == g2;
                        assert(marked(customs, r as int, ni as int, g2));
                    }
                }
                assert(prefix_distinct(customs, r + 1, 0)) by {
                    assert forall|r1: int, i1: int, r2: int, i2: int|
                        #![trigger customs[r1][i1], customs[r2][i2]]
                        0 <= r1 < customs.len() && 0 <= i1 < customs[r1].len() && (r1 < r + 1 || (
                        r1 == r + 1 && i1 < 0)) && 0 <= r2 < customs.len() && 0 <= i2
                            < customs[r2].len() && (r2 < r + 1 || (r2 == r + 1 && i2 < 0))
                            && customs[r1][i1] == customs[r2][i2] implies r1 == r2 && i1 == i2 by {
                        assert(r1 < r + 1 && r2 < r + 1);
                        assert(r1 < r as int || (r1 == r as int && i1 < ni as int));
                        assert(r2 < r as int || (r2 == r as int && i2 < ni as int));
                    }
                }
            }
            r = r + 1;
        }
        // Every index must have been marked: the lists cover the range.
        let mut g: usize = 0;
        while g < n
            invariant
                g <= n,
                p == all_custom@.len(),
                customs == rows_view(all_custom@),
                counts0 == index_layouts@[0].counts_seq(),
                n == total_of(counts0),
                seen@.len() == n,
                forall|g2: int| 0 <= g2 < n ==> ((#[trigger] seen@[g2]) <==> marked(
                    customs,
                    p as int,
                    0,
                    g2,
                )),
                forall|g2: int| 0 <= g2 < g ==> #[trigger] is_held(customs, g2),
            decreases n - g,
        {
            if !seen[g] {
                proof {
                    assert(!covers(customs, n as int)) by {
                        if is_held(customs, g as int) {
                            let (r2, i2) = choose|r2: int, i2: int|
                                0 <= r2 < customs.len() && 0 <= i2 < customs[r2].len() && (
                                #[trigger] customs[r2][i2]) == g as int;
                            assert(r2 < p as int);
                            assert(marked(customs, p as int, 0, g as int));
                        }
                    }
                }
                return None;
            }
            proof {
                let (r2, i2) = choose|r2: int, i2: int|
                    0 <= r2 < customs.len() && 0 <= i2 < customs[r2].len() && (r2 < p as int || (
                    r2 == p as int && i2 < 0)) && (#[trigger] customs[r2][i2]) == g as int;
                assert(is_held(customs, g as int));
            }
            g = g + 1;
        }
        proof {
            assert(all_in_range(customs, n as int)) by {
                assert forall|r1: int, i1: int|
                    0 <= r1 < customs.len() && 0 <= i1 < customs[r1].len() implies (
                #[trigger] customs[r1][i1]) < n by {
                    assert(r1 < p as int || (r1 == p as int && i1 < 0));
                }
            }
            assert(pairwise_distinct(customs)) by {
                assert forall|r1: int, i1: int, r2: int, i2: int|
                    #![trigger customs[r1][i1], customs[r2][i2]]
                    0 <= r1 < customs.len() && 0 <= i1 < customs[r1].len() && 0 <= r2
                        < customs.len() && 0 <= i2 < customs[r2].len() && customs[r1][i1]
                        == customs[r2][i2] implies r1 == r2 && i1 == i2 by {
                    assert(r1 < p as int || (r1 == p as int && i1 < 0));
                    assert(r2 < p as int || (r2 == p as int && i2 < 0));
                }
            }
        }
        proof {
            assert forall|r2: int, i2: int|
                0 <= r2 < all_custom@.len() && 0 <= i2 < all_custom@[r2]@.len() implies (
            #[trigger] all_custom@[r2]@[i2]) < total_of(counts0) by {
                assert(customs[r2][i2] == all_custom@[r2]@[i2]);
                assert(customs[r2][i2] < n);
            }
        }
        let mappers = Global2LocalDataMapper::new(index_layouts, all_custom);
        let perm = DataPermutation { mappers };
        proof {
            assert(perm.customs() =~= customs);
        }
        Some(perm)
    }

    /// Carry data from the layout's canonical order to the custom order:
    /// position `i` of rank `r`'s result receives the chunk of the
    /// concatenated source data at the custom index `customs[r][i]`.
    pub fn forward_permute<T: Copy>(&self, all_src: &Vec<Vec<T>>, chunk_size: usize) -> (out: Vec<
        Vec<T>,
    >)
        requires
            self.wf(),
            chunk_size >= 1,
            all_src@.len() == self.mappers_spec().len(),
            forall|r: int|
                0 <= r < all_src@.len() ==> (#[trigger] all_src@[r]@).len() == (self.counts_of()[r
                    + 1] - self.counts_of()[r]) * chunk_size,
        ensures
            out@.len() == self.mappers_spec().len(),
            forall|r: int|
                0 <= r < out@.len() ==> (#[trigger] out@[r]@).len() == self.customs()[r].len()
                    * chunk_size,
            forall|r: int, i: int|
                0 <= r < out@.len() && 0 <= i < self.customs()[r].len() ==> (#[trigger] chunk_at(
                    out@[r]@,
                    i,
                    chunk_size as int,
                )) == chunk_at(
                    concat_rows(rows_view(all_src@), all_src@.len() as int),
                    self.customs()[r][i] as int,
                    chunk_size as int,
                ),
    {
        let out = Global2LocalDataMapper::map_data(&self.mappers, all_src, chunk_size);
        proof {
            assert forall|r: int| 0 <= r < out@.len() implies (#[trigger] out@[r]@).len()
                == self.customs()[r].len() * chunk_size by {
                assert(self.customs()[r] == self.mappers@[r].required_spec());
            }
            assert forall|r: int, i: int|
                0 <= r < out@.len() && 0 <= i < self.customs()[r].len() implies (
            #[trigger] chunk_at(out@[r]@, i, chunk_size as int)) == chunk_at(
                concat_rows(rows_view(all_src@), all_src@.len() as int),
                self.customs()[r][i] as int,
                chunk_size as int,
            ) by {
                assert(self.customs()[r] == self.mappers@[r].required_spec());
            }
        }
        out
    }

    /// Carry data in the custom order back to the layout's canonical order.
    /// For every global index, its owner's result receives the chunk stored
    /// at the rank and position holding that index; the buffer passed in
    /// supplies nothing when the custom lists cover the whole range.
    pub fn backward_permute<T: Copy>(
        &self,
        all_dst: &Vec<Vec<T>>,
        all_src: Vec<Vec<T>>,
        chunk_size: usize,
    ) -> (out: Vec<Vec<T>>)
        requires
            self.wf(),
            chunk_size >= 1,
            all_dst@.len() == self.mappers_spec().len(),
            all_src@.len() == self.mappers_spec().len(),
            forall|r: int|
                0 <= r < all_dst@.len() ==> (#[trigger] all_dst@[r]@).len() == self.customs()[
                    r
                ].len() * chunk_size,
            forall|r: int|
                0 <= r < all_src@.len() ==> (#[trigger] all_src@[r]@).len() == (self.counts_of()[r
                    + 1] - self.counts_of()[r]) * chunk_size,
        ensures
            out@.len() == self.mappers_spec().len(),
            forall|r: int|
                0 <= r < out@.len() ==> (#[trigger] out@[r]@).len() == all_src@[r]@.len(),
            forall|r: int, j: int|
                0 <= r < out@.len() && 0 <= j < self.counts_of()[r + 1] - self.counts_of()[r] ==> (
                #[trigger] chunk_at(out@[r]@, j, chunk_size as int)) == chunk_at(
                    custom_global(
                        rows_view(all_dst@),
                        self.customs(),
                        total_of(self.counts_of()),
                        chunk_size as int,
                    ),
                    self.counts_of()[r] + j,
                    chunk_size as int,
                ),
    {
        let p = self.mappers.len();
        let ghost k = chunk_size as int;
        let ghost counts0 = self.counts_of();
        let ghost customs = self.customs();
        let ghost nn = total_of(counts0);
        let ghost g2 = custom_global(rows_view(all_dst@), customs, nn, k);
        let ghost cfam = data_mapper::comms_of(self.mappers@);
        proof {
            lemma_g2_len(rows_view(all_dst@), customs, nn, k);
            assert forall|r2: int| 0 <= r2 < p implies chunk_indices_valid(
                g2.len() as int,
                (#[trigger] cfam[r2]).recv_idx(),
                k,
            ) by {
                assert(cfam[r2] == self.mappers@[r2].comm_spec());
                let ridx2 = cfam[r2].recv_idx();
                assert forall|i2: int| 0 <= i2 < ridx2.len() implies (#[trigger] ridx2[i2]) * k + k
                    <= g2.len() as int by {
                    assert(ridx2[i2] < nn);
                    vstd::arithmetic::mul::lemma_mul_inequality(ridx2[i2] + 1, nn, k);
                    assert((ridx2[i2] + 1) * k == ridx2[i2] * k + k) by (nonlinear_arith);
                }
            }
        }
        // Pack every rank's import-ordered buffer from its custom-ordered
        // data.
        let mut rbufs: Vec<Vec<T>> = Vec::new();
        let mut r: usize = 0;
        while r < p
            invariant
                r <= p,
                p == self.mappers@.len(),
                all_dst@.len() == p,
                chunk_size >= 1,
                k == chunk_size as int,
                self.wf(),
                counts0 == self.counts_of(),
                customs == self.customs(),
                nn == total_of(counts0),
                g2 == custom_global(rows_view(all_dst@), customs, nn, k),
                g2.len() == nn * k,
                cfam == data_mapper::comms_of(self.mappers@),
                forall|r2: int|
                    0 <= r2 < p ==> (#[trigger] all_dst@[r2]@).len() == customs[r2].len()
                        * chunk_size,
                rbufs@.len() == r,
                forall|r2: int|
                    0 <= r2 < r ==> (#[trigger] rbufs@[r2]@) == chunks_of(
                        g2,
                        cfam[r2].recv_idx(),
                        k,
                    ),
                forall|r2: int|
                    0 <= r2 < p ==> chunk_indices_valid(
                        g2.len() as int,
                        (#[trigger] cfam[r2]).recv_idx(),
                        k,
                    ),
                forall|r2: int|
                    0 <= r2 < r ==> (#[trigger] rbufs@[r2]@).len() == cfam[r2].total_recv() * k,
                forall|r2: int|
                    0 <= r2 < r ==> (#[trigger] cfam[r2]).total_recv() * k <= usize::MAX,
            decreases p - r,
        {
            let m = &self.mappers[r];
            let ridx = m.ghost_communicator().receive_indices();
            let posmap = m.dof_to_position_map();
            let nrecv = ridx.len();
            let nd = all_dst[r].len();
            let mut rbuf: Vec<T> = Vec::new();
            let mut t: usize = 0;
            proof {
                assert(cfam[r as int] == m.comm_spec());
                assert(rbuf@ =~= chunks_of(g2, ridx@.subrange(0, 0), k));
            }
            while t < nrecv
                invariant
                    t <= nrecv,
                    r < p,
                    p == self.mappers@.len(),
                    all_dst@.len() == p,
                    chunk_size >= 1,
                    k == chunk_size as int,
                    self.wf(),
                    counts0 == self.counts_of(),
                    customs == self.customs(),
                    nn == total_of(counts0),
                    g2 == custom_global(rows_view(all_dst@), customs, nn, k),
                    g2.len() == nn * k,
                    cfam == data_mapper::comms_of(self.mappers@),
                    *m == self.mappers@[r as int],
                    posmap@ == self.mappers@[r as int].pos_map_spec(),
                    ridx@ == cfam[r as int].recv_idx(),
                    nrecv == ridx@.len(),
                    nd == all_dst@[r as int]@.len(),
                    forall|r2: int|
                        0 <= r2 < p ==> (#[trigger] all_dst@[r2]@).len() == customs[r2].len()
                            * chunk_size,
                    rbuf@ == chunks_of(g2, ridx@.subrange(0, t as int), k),
                decreases nrecv - t,
            {
                let d = ridx[t];
                proof {
                    assert(self.mappers@[r as int].pos_map_spec().contains_key(ridx@[t as int]));
                    assert(posmap@.contains_key(d));
                }
                let pos = *posmap.get(&d).unwrap();
                proof {
                    assert(pos == self.mappers@[r as int].pos_map_spec()[d]);
                    assert(pos < customs[r as int].len());
                    assert(customs[r as int][pos as int] == d);
                    vstd::arithmetic::mul::lemma_mul_inequality(
                        pos + 1,
                        customs[r as int].len() as int,
                        k,
                    );
                    assert((pos + 1) * k == pos * k + k) by (nonlinear_arith);
                    vstd::arithmetic::mul::lemma_mul_nonnegative(pos as int, k);
                }
                exchange::push_chunk(&mut rbuf, &all_dst[r], pos * chunk_size, chunk_size);
                proof {
                    assert(d < nn);
                    lemma_custom_global_chunk(
                        rows_view(all_dst@),
                        customs,
                        nn,
                        k,
                        d as int,
                        r as int,
                        pos as int,
                    );
                    assert(ridx@.subrange(0, t + 1).drop_last() =~= ridx@.subrange(0, t as int));
                    assert(ridx@.subrange(0, t + 1).last() == d);
                    assert(rbuf@ == chunks_of(g2, ridx@.subrange(0, t as int), k) + g2.subrange(
                        d * k,
                        d * k + k,
                    ));
                }
                t = t + 1;
            }
            proof {
                assert(ridx@.subrange(0, nrecv as int) =~= ridx@);
                assert(cfam[r as int].wf());
                ghost_communicator::lemma_chunks_len(g2, cfam[r as int].recv_idx(), k);
                ghost_communicator::lemma_vec_len_bound(rbuf);
            }
            rbufs.push(rbuf);
            r = r + 1;
        }
        // Send the imported data back along the reverse arrows.
        let mut wire: Vec<Vec<usize>> = Vec::new();
        let mut r: usize = 0;
        while r < p
            invariant
                r <= p,
                p == self.mappers@.len(),
                chunk_size >= 1,
                k == chunk_size as int,
                self.wf(),
                cfam == data_mapper::comms_of(self.mappers@),
                rbufs@.len() == p,
                forall|r2: int|
                    0 <= r2 < p ==> (#[trigger] rbufs@[r2]@).len() == cfam[r2].total_recv() * k,
                forall|r2: int|
                    0 <= r2 < p ==> (#[trigger] cfam[r2]).total_recv() * k <= usize::MAX,
                wire@.len() == r,
                forall|r2: int|
                    0 <= r2 < r ==> (#[trigger] wire@[r2]@) == ghost_communicator::scaled(
                        cfam[r2].recv_counts_all(),
                        k,
                    ),
                forall|r2: int|
                    0 <= r2 < r ==> seq_total(#[trigger] wire@[r2]@) == rbufs@[r2]@.len(),
            decreases p - r,
        {
            proof {
                assert(cfam[r as int] == self.mappers@[r as int].comm_spec());
                assert(cfam[r as int].wf());
            }
            let row = self.mappers[r].ghost_communicator().backward_wire_counts_vec(chunk_size);
            wire.push(row);
            r = r + 1;
        }
        let sbufs = exchange::all_to_all_varcount(&rbufs, &wire);
        proof {
            assert(rows_view(wire@) =~~= ghost_communicator::backward_wire_counts(cfam, k));
            assert forall|r2: int| 0 <= r2 < p implies (#[trigger] rows_view(sbufs@)[r2])
                == exchange::gathered_at(
                rows_view(rbufs@),
                ghost_communicator::backward_wire_counts(cfam, k),
                r2,
                p as int,
            ) by {
                assert(rows_view(sbufs@)[r2] == sbufs@[r2]@);
            }
            assert forall|r2: int| 0 <= r2 < p implies (#[trigger] rows_view(rbufs@)[r2])
                == chunks_of(g2, cfam[r2].recv_idx(), k) by {
                assert(rows_view(rbufs@)[r2] == rbufs@[r2]@);
            }
            ghost_communicator::lemma_backward_carries_chunks(
                cfam,
                k,
                g2,
                rows_view(rbufs@),
                rows_view(sbufs@),
            );
            assert forall|r2: int| 0 <= r2 < p implies (#[trigger] sbufs@[r2]@) == chunks_of(
                g2,
                cfam[r2].send_idx(),
                k,
            ) by {
                assert(rows_view(sbufs@)[r2] == sbufs@[r2]@);
            }
            assert forall|r2: int| 0 <= r2 < p implies (#[trigger] sbufs@[r2]@).len() == cfam[
                r2
            ].send_idx().len() * k by {
                assert(cfam[r2].wf());
                lemma_send_valid(self.mappers@, r2, k);
                ghost_communicator::lemma_chunks_len(g2, cfam[r2].send_idx(), k);
            }
        }
        // Scatter each rank's returned data into its canonical positions,
        // then place the entries the rank itself holds.
        let mut out: Vec<Vec<T>> = Vec::new();
        let mut src_v = all_src;
        let ghost src0 = src_v@;
        let mut r: usize = 0;
        while r < p
            invariant
                r <= p,
                p == self.mappers@.len(),
                all_dst@.len() == p,
                src0.len() == p,
                chunk_size >= 1,
                k == chunk_size as int,
                self.wf(),
                counts0 == self.counts_of(),
                customs == self.customs(),
                nn == total_of(counts0),
                g2 == custom_global(rows_view(all_dst@), customs, nn, k),
                g2.len() == nn * k,
                cfam == data_mapper::comms_of(self.mappers@),
                forall|r2: int|
                    0 <= r2 < p ==> (#[trigger] all_dst@[r2]@).len() == customs[r2].len()
                        * chunk_size,
                forall|r2: int|
                    0 <= r2 < p ==> (#[trigger] src0[r2]@).len() == (counts0[r2 + 1] - counts0[r2])
                        * chunk_size,
                src_v@ =~= src0.subrange(r as int, p as int),
                sbufs@.len() == p,
                forall|r2: int|
                    0 <= r2 < p ==> (#[trigger] sbufs@[r2]@) == chunks_of(
                        g2,
                        cfam[r2].send_idx(),
                        k,
                    ),
                forall|r2: int|
                    0 <= r2 < p ==> (#[trigger] sbufs@[r2]@).len() == cfam[r2].send_idx().len()
                        * k,
                out@.len() == r,
                forall|r2: int|
                    0 <= r2 < r ==> (#[trigger] out@[r2]@).len() == src0[r2]@.len(),
                forall|r2: int, j2: int|
                    0 <= r2 < r && 0 <= j2 < cfam[r2].send_idx().len() ==> chunk_at(
                        out@[r2]@,
                        (#[trigger] cfam[r2].send_idx()[j2]) - counts0[r2],
                        k,
                    ) == chunk_at(g2, cfam[r2].send_idx()[j2] as int, k),
                forall|r2: int, i2: int|
                    0 <= r2 < r && 0 <= i2 < customs[r2].len() && counts0[r2] <= (
                    #[trigger] customs[r2][i2]) < counts0[r2 + 1] ==> chunk_at(
                        out@[r2]@,
                        customs[r2][i2] - counts0[r2],
                        k,
                    ) == chunk_at(g2, customs[r2][i2] as int, k),
            decreases p - r,
        {
            let mut srow = src_v.remove(0);
            let ghost srow0 = srow@;
            let m = &self.mappers[r];
            let lc = m.index_layout().counts();
            proof {
                assert(lc@ == self.mappers@[r as int].counts_of());
                assert(self.mappers@[r as int].counts_of() == counts0);
            }
            let lo = lc[r];
            let hi = lc[r + 1];
            let nloc = hi - lo;
            let ns = srow.len();
            let sidx = m.ghost_communicator().send_indices();
            let nsend = sidx.len();
            proof {
                assert(cfam[r as int] == m.comm_spec());
                lemma_send_valid(self.mappers@, r as int, k);
                ghost_communicator::lemma_vec_len_bound(sbufs@[r as int]);
            }
            let mut j: usize = 0;
            while j < nsend
                invariant
                    j <= nsend,
                    r < p,
                    p == self.mappers@.len(),
                    chunk_size >= 1,
                    k == chunk_size as int,
                    self.wf(),
                    counts0 == self.counts_of(),
                    customs == self.customs(),
                    nn == total_of(counts0),
                    g2.len() == nn * k,
                    cfam == data_mapper::comms_of(self.mappers@),
                    sidx@ == cfam[r as int].send_idx(),
                    nsend == sidx@.len(),
                    lo == counts0[r as int],
                    hi == counts0[r as int + 1],
                    lo <= hi,
                    nloc == hi - lo,
                    sbufs@.len() == p,
                    sbufs@[r as int]@ == chunks_of(g2, cfam[r as int].send_idx(), k),
                    sbufs@[r as int]@.len() == nsend * k,
                    nsend * k <= usize::MAX,
                    chunk_indices_valid(g2.len() as int, cfam[r as int].send_idx(), k),
                    srow@.len() == nloc * chunk_size,
                    ns == nloc * chunk_size,
                    srow0.len() == srow@.len(),
                    forall|j2: int|
                        0 <= j2 < j ==> chunk_at(srow@, (#[trigger] sidx@[j2]) - lo, k)
                            == chunk_at(g2, sidx@[j2] as int, k),
                    forall|jj: int|
                        0 <= jj < nloc && (forall|j2: int|
                            0 <= j2 < j ==> (#[trigger] sidx@[j2]) != lo + jj) ==> (
                        #[trigger] chunk_at(srow@, jj, k)) == chunk_at(srow0, jj, k),
                decreases nsend - j,
            {
                let g = sidx[j];
                let ghost prev = srow@;
                proof {
                    assert(cfam[r as int] == self.mappers@[r as int].comm_spec());
                    assert(counts0[r as int] <= sidx@[j as int] < counts0[r as int + 1]);
                    vstd::arithmetic::mul::lemma_mul_inequality(g - lo + 1, nloc as int, k);
                    assert((g - lo + 1) * k == (g - lo) * k + k) by (nonlinear_arith);
                    vstd::arithmetic::mul::lemma_mul_nonnegative(g - lo, k);
                    vstd::arithmetic::mul::lemma_mul_inequality(j + 1, nsend as int, k);
                    assert((j + 1) * k == j * k + k) by (nonlinear_arith);
                    vstd::arithmetic::mul::lemma_mul_nonnegative(j as int, k);
                }
                exchange::set_chunk(
                    &mut srow,
                    (g - lo) * chunk_size,
                    &sbufs[r],
                    j * chunk_size,
                    chunk_size,
                );
                proof {
                    ghost_communicator::lemma_chunks_of_chunk(
                        g2,
                        cfam[r as int].send_idx(),
                        k,
                        j as int,
                    );
                    assert(chunk_at(srow@, (g - lo) as int, k) =~= chunk_at(g2, g as int, k));
                    lemma_scatter_frame(prev, srow@, nloc as int, k, (g - lo) as int);
                }
                j = j + 1;
            }
            // Entries this rank holds itself.
            let creq = m.required_dofs();
            let ncust = creq.len();
            let nd = all_dst[r].len();
            let mut i: usize = 0;
            while i < ncust
                invariant
                    i <= ncust,
                    r < p,
                    p == self.mappers@.len(),
                    all_dst@.len() == p,
                    chunk_size >= 1,
                    k == chunk_size as int,
                    self.wf(),
                    counts0 == self.counts_of(),
                    customs == self.customs(),
                    nn == total_of(counts0),
                    g2 == custom_global(rows_view(all_dst@), customs, nn, k),
                    g2.len() == nn * k,
                    cfam == data_mapper::comms_of(self.mappers@),
                    sidx@ == cfam[r as int].send_idx(),
                    creq@ == customs[r as int],
                    ncust == creq@.len(),
                    nd == all_dst@[r as int]@.len(),
                    nd == ncust * chunk_size,
                    forall|r2: int|
                        0 <= r2 < p ==> (#[trigger] all_dst@[r2]@).len() == customs[r2].len()
                            * chunk_size,
                    lo == counts0[r as int],
                    hi == counts0[r as int + 1],
                    lo <= hi,
                    nloc == hi - lo,
                    srow@.len() == nloc * chunk_size,
                    srow0.len() == srow@.len(),
                    forall|j2: int|
                        0 <= j2 < sidx@.len() ==> chunk_at(srow@, (#[trigger] sidx@[j2]) - lo, k)
                            == chunk_at(g2, sidx@[j2] as int, k),
                    forall|i2: int|
                        0 <= i2 < i && lo <= (#[trigger] creq@[i2]) < hi ==> chunk_at(
                            srow@,
                            creq@[i2] - lo,
                            k,
                        ) == chunk_at(g2, creq@[i2] as int, k),
                decreases ncust - i,
            {
                let g = creq[i];
                if lo <= g && g < hi {
                    let ghost prev = srow@;
                    proof {
                        vstd::arithmetic::mul::lemma_mul_inequality(g - lo + 1, nloc as int, k);
                        assert((g - lo + 1) * k == (g - lo) * k + k) by (nonlinear_arith);
                        vstd::arithmetic::mul::lemma_mul_nonnegative(g - lo, k);
                        vstd::arithmetic::mul::lemma_mul_inequality(i + 1, ncust as int, k);
                        assert((i + 1) * k == i * k + k) by (nonlinear_arith);
                        vstd::arithmetic::mul::lemma_mul_nonnegative(i as int, k);
                    }
                    exchange::set_chunk(
                        &mut srow,
                        (g - lo) * chunk_size,
                        &all_dst[r],
                        i * chunk_size,
                        chunk_size,
                    );
                    proof {
                        assert(g < nn);
                        lemma_custom_global_chunk(
                            rows_view(all_dst@),
                            customs,
                            nn,
                            k,
                            g as int,
                            r as int,
                            i as int,
                        );
                        assert(chunk_at(srow@, (g - lo) as int, k) =~= chunk_at(g2, g as int, k));
                        lemma_scatter_frame(prev, srow@, nloc as int, k, (g - lo) as int);
                    }
                }
                i = i + 1;
            }
            out.push(srow);
            r = r + 1;
        }
        // Every canonical position is covered: a held index is either held
        // locally or was requested by its holder, so it came back on the
        // reverse arrows.
        proof {
            assert forall|r2: int, j2: int|
                0 <= r2 < p && 0 <= j2 < counts0[r2 + 1] - counts0[r2] implies (
            #[trigger] chunk_at(out@[r2]@, j2, k)) == chunk_at(g2, counts0[r2] + j2, k) by {
                let g = counts0[r2] + j2;
                assert(0 <= g < nn) by {
                    assert(counts0[r2 + 1] <= counts0[p as int]);
                }
                assert(is_held(customs, g));
                let (hr, hi2) = choose|hr: int, hi2: int|
                    0 <= hr < customs.len() && 0 <= hi2 < customs[hr].len() && (
                    #[trigger] customs[hr][hi2]) == g;
                index_layout::lemma_owner_of_exact(counts0, g, r2);
                if hr == r2 {
                    assert(counts0[r2] <= customs[r2][hi2] < counts0[r2 + 1]);
                } else {
                    lemma_held_elsewhere_in_send(self.mappers@, r2, hr, hi2, g);
                    let j3 = choose|j3: int|
                        0 <= j3 < cfam[r2].send_idx().len() && (#[trigger] cfam[r2].send_idx()[j3])
                            == g;
                    assert(chunk_at(out@[r2]@, cfam[r2].send_idx()[j3] - counts0[r2], k)
                        == chunk_at(g2, cfam[r2].send_idx()[j3] as int, k));
                }
            }
        }
        out
    }
}

/// The export lists select valid chunks of the custom-ordered global data.
proof fn lemma_send_valid<L: IndexLayout>(
    mappers: Seq<Global2LocalDataMapper<L>>,
    r: int,
    k: int,
)
    requires
        data_mapper::mapper_family_wf(mappers),
        k >= 1,
        0 <= r < mappers.len(),
    ensures
        chunk_indices_valid(
            total_of(mappers[0].counts_of()) * k,
            data_mapper::comms_of(mappers)[r].send_idx(),
            k,
        ),
{
    let counts0 = mappers[0].counts_of();
    let nn = total_of(counts0);
    let p = mappers.len() as int;
    let sidx = data_mapper::comms_of(mappers)[r].send_idx();
    assert forall|i: int| 0 <= i < sidx.len() implies #[trigger] sidx[i] * k + k <= nn * k by {
        assert(counts0[r] <= sidx[i] < counts0[r + 1]);
        assert(counts0[r + 1] <= counts0[p]);
        vstd::arithmetic::mul::lemma_mul_inequality(sidx[i] + 1, nn, k);
        assert((sidx[i] + 1) * k == sidx[i] * k + k) by (nonlinear_arith);
    }
}

/// The custom-ordered global data has one chunk per global index.
proof fn lemma_g2_len<T>(all_dst: Seq<Seq<T>>, customs: Seq<Seq<usize>>, n: int, k: int)
    requires
        n >= 0,
        k >= 0,
    ensures
        custom_global(all_dst, customs, n, k).len() == n * k,
{
    vstd::arithmetic::mul::lemma_mul_nonnegative(n, k);
}

/// Writing one chunk leaves the facts about the other chunks standing.
proof fn lemma_scatter_frame<T>(
    prev: Seq<T>,
    cur: Seq<T>,
    nloc: int,
    k: int,
    written: int,
)
    requires
        k >= 1,
        prev.len() == nloc * k,
        cur.len() == prev.len(),
        0 <= written < nloc,
        forall|e: int|
            0 <= e < prev.len() && !(written * k <= e < written * k + k) ==> (#[trigger] prev[e])
                == cur[e],
    ensures
        forall|jj: int|
            0 <= jj < nloc && jj != written ==> (#[trigger] chunk_at(cur, jj, k)) == chunk_at(
                prev,
                jj,
                k,
            ),
{
    assert forall|jj: int| 0 <= jj < nloc && jj != written implies (#[trigger] chunk_at(
        cur,
        jj,
        k,
    )) == chunk_at(prev, jj, k) by {
        vstd::arithmetic::mul::lemma_mul_nonnegative(jj, k);
        vstd::arithmetic::mul::lemma_mul_inequality(jj + 1, nloc, k);
        assert((jj + 1) * k == jj * k + k) by (nonlinear_arith);
        if jj < written {
            vstd::arithmetic::mul::lemma_mul_inequality(jj + 1, written, k);
            assert(written * k == written * k);
        } else {
            vstd::arithmetic::mul::lemma_mul_inequality(written + 1, jj, k);
            assert((written + 1) * k == written * k + k) by (nonlinear_arith);
        }
        assert(chunk_at(cur, jj, k) =~= chunk_at(prev, jj, k));
    }
}

/// Two buffers of equal chunks are equal.
proof fn lemma_chunkwise_eq<T>(a: Seq<T>, b: Seq<T>, nchunks: int, k: int)
    requires
        k >= 1,
        nchunks >= 0,
        a.len() == nchunks * k,
        b.len() == a.len(),
        forall|j: int| 0 <= j < nchunks ==> #[trigger] chunk_at(a, j, k) == chunk_at(b, j, k),
    ensures
        a == b,
{
    assert forall|e: int| 0 <= e < a.len() implies a[e] == b[e] by {
        let j = e / k;
        let off = e % k;
        vstd::arithmetic::div_mod::lemma_fundamental_div_mod(e, k);
        vstd::arithmetic::div_mod::lemma_mod_bound(e, k);
        vstd::arithmetic::div_mod::lemma_div_pos_is_pos(e, k);
        if j >= nchunks {
            vstd::arithmetic::mul::lemma_mul_inequality(nchunks, j, k);
            assert(k * j == j * k) by (nonlinear_arith);
            assert(false);
        }
        vstd::arithmetic::mul::lemma_mul_inequality(j + 1, nchunks, k);
        assert((j + 1) * k == j * k + k) by (nonlinear_arith);
        assert(k * j == j * k) by (nonlinear_arith);
        vstd::arithmetic::mul::lemma_mul_nonnegative(j, k);
        assert(chunk_at(a, j, k)[off] == a[e]);
        assert(chunk_at(b, j, k)[off] == b[e]);
    }
    assert(a =~= b);
}

/// Law: for a permutation built from a bijection, permuting canonical data
/// forward into the custom order and then backward restores every rank's
/// data elementwise.  The hypotheses are exactly the contracts of the
/// forward and backward permutations.
pub proof fn lemma_permutation_round_trip<L: IndexLayout, T>(
    perm: DataPermutation<L>,
    k: int,
    x: Seq<Seq<T>>,
    y: Seq<Seq<T>>,
    z: Seq<Seq<T>>,
)
    requires
        perm.wf(),
        k >= 1,
        x.len() == perm.mappers_spec().len(),
        y.len() == perm.mappers_spec().len(),
        z.len() == perm.mappers_spec().len(),
        forall|r: int|
            0 <= r < x.len() ==> (#[trigger] x[r]).len() == (perm.counts_of()[r + 1]
                - perm.counts_of()[r]) * k,
        forall|r: int|
            0 <= r < y.len() ==> (#[trigger] y[r]).len() == perm.customs()[r].len() * k,
        forall|r: int| 0 <= r < z.len() ==> (#[trigger] z[r]).len() == x[r].len(),
        forall|r: int, i: int|
            0 <= r < y.len() && 0 <= i < perm.customs()[r].len() ==> (#[trigger] chunk_at(
                y[r],
                i,
                k,
            )) == chunk_at(
                concat_rows(x, x.len() as int),
                perm.customs()[r][i] as int,
                k,
            ),
        forall|r: int, j: int|
            0 <= r < z.len() && 0 <= j < perm.counts_of()[r + 1] - perm.counts_of()[r] ==> (
            #[trigger] chunk_at(z[r], j, k)) == chunk_at(
                custom_global(y, perm.customs(), total_of(perm.counts_of()), k),
                perm.counts_of()[r] + j,
                k,
            ),
    ensures
        forall|r: int| 0 <= r < z.len() ==> (#[trigger] z[r]) == x[r],
{
    let p = perm.mappers_spec().len() as int;
    let counts = perm.counts_of();
    let customs = perm.customs();
    let nn = total_of(counts);
    let gx = concat_rows(x, p);
    assert forall|r: int| 0 <= r < p implies (#[trigger] z[r]) == x[r] by {
        let nloc = counts[r + 1] - counts[r];
        assert forall|j: int| 0 <= j < nloc implies #[trigger] chunk_at(z[r], j, k) == chunk_at(
            x[r],
            j,
            k,
        ) by {
            let g = counts[r] + j;
            assert(0 <= g < nn) by {
                assert(counts[r + 1] <= counts[p]);
            }
            assert(is_held(customs, g));
            let (hr, hi2) = choose|hr: int, hi2: int|
                0 <= hr < customs.len() && 0 <= hi2 < customs[hr].len() && (
                #[trigger] customs[hr][hi2]) == g;
            lemma_custom_global_chunk(y, customs, nn, k, g, hr, hi2);
            assert(chunk_at(y[hr], hi2, k) == chunk_at(gx, g, k));
            assert(chunk_at(z[r], j, k) == chunk_at(gx, g, k));
            index_layout::lemma_owner_of_exact(counts, g, r);
            index_layout::lemma_global_chunk(x, counts, k, g);
            assert(gx.subrange(g * k, g * k + k) == x[r].subrange((g - counts[r]) * k, (g
                - counts[r]) * k + k));
            assert(g - counts[r] == j);
        }
        lemma_chunkwise_eq(z[r], x[r], nloc, k);
    }
}

/// A global index held by a rank other than its owner appears in the
/// owner's export list.
proof fn lemma_held_elsewhere_in_send<L: IndexLayout>(
    mappers: Seq<Global2LocalDataMapper<L>>,
    owner: int,
    hr: int,
    hi2: int,
    g: int,
)
    requires
        data_mapper::mapper_family_wf(mappers),
        0 <= owner < mappers.len(),
        0 <= hr < mappers.len(),
        hr != owner,
        0 <= hi2 < mappers[hr].required_spec().len(),
        mappers[hr].required_spec()[hi2] == g,
        owner_of(mappers[0].counts_of(), g) == owner,
    ensures
        data_mapper::comms_of(mappers)[owner].send_idx().contains((g as usize)),
{
    let p = mappers.len() as int;
    let counts0 = mappers[0].counts_of();
    let cfam = data_mapper::comms_of(mappers);
    let gu = g as usize;
    assert(cfam[hr] == mappers[hr].comm_spec());
    assert(cfam[owner] == mappers[owner].comm_spec());
    assert(mappers[hr].slot_map_spec().contains_key(gu));
    let t = mappers[hr].slot_map_spec()[gu] as int;
    assert(0 <= t < cfam[hr].recv_idx().len());
    assert(cfam[hr].recv_idx()[t] == gu);
    assert(cfam[hr].wf());
    assert(exchange::prefix_total(cfam[hr].recv_counts_all(), p) == seq_total(
        cfam[hr].recv_counts_all(),
    ));
    assert(cfam[hr].recv_counts_all().len() == p);
    let s = ghost_communicator::lemma_counts_locate(cfam[hr].recv_counts_all(), p, t);
    exchange::lemma_prefix_total_monotone(cfam[hr].recv_counts_all(), 0, s);
    exchange::lemma_prefix_total_monotone(cfam[hr].recv_counts_all(), s + 1, p);
    let pref = exchange::prefix_total(cfam[hr].recv_counts_all(), s);
    let blk = exchange::block_of(cfam[hr].recv_idx(), cfam[hr].recv_counts_all(), s);
    assert(blk.len() == exchange::prefix_total(cfam[hr].recv_counts_all(), s + 1) - pref);
    assert(blk[t - pref] == gu);
    assert(exchange::block_of(
        mappers[hr].comm_spec().recv_idx(),
        mappers[hr].comm_spec().recv_counts_all(),
        s,
    )[t - pref] == gu);
    assert(owner_of(counts0, gu as int) == s);
    assert(s == owner);
    let rows = Seq::new(p as nat, |s2: int| cfam[s2].recv_idx());
    let crows = Seq::new(p as nat, |s2: int| cfam[s2].recv_counts_all());
    ghost_communicator::lemma_gathered_contains(rows, crows, owner, p, hr);
    assert(exchange::block_of(rows[hr], crows[hr], owner) == blk);
    assert(exchange::gathered_at(rows, crows, owner, p).contains(gu));
}

} // verus!
