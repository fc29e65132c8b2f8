//! The ghost communicator: a static bidirectional exchange plan.
//!
//! Each rank names the global indices it wants to import together with the
//! owner rank of each.  Construction is collective: the per-rank want lists
//! are grouped by owner, the per-owner want counts are exchanged so that
//! every rank learns who wants its data, and the wanted index values are
//! exchanged so that every rank knows, grouped by requester, which of its
//! indices to export.  The plan is immutable afterwards and drives the
//! forward (owner to importer) and backward (importer to owner) transfers.

use crate::exchange;
use crate::exchange::{block_of, gathered_at, prefix_total, rows_view, seq_total};
use vstd::prelude::*;

verus! {

/// The indices of `req` whose owner is `s`, in their original order.
pub open spec fn wanted_from(req: Seq<usize>, owners: Seq<usize>, s: int) -> Seq<usize>
    decreases req.len(),
{
    if req.len() == 0 {
        Seq::empty()
    } else {
        let init = wanted_from(req.drop_last(), owners.drop_last(), s);
        if owners.last() == s {
            init.push(req.last())
        } else {
            init
        }
    }
}

/// All indices of `req`, grouped by owner rank: the indices owned by rank 0
/// first, then those owned by rank 1, and so on up to rank `p - 1`.
pub open spec fn grouped_by_owner(req: Seq<usize>, owners: Seq<usize>, p: int) -> Seq<usize>
    decreases p,
{
    if p <= 0 {
        Seq::empty()
    } else {
        grouped_by_owner(req, owners, p - 1) + wanted_from(req, owners, p - 1)
    }
}

proof fn lemma_grouped_drop_last_len(req: Seq<usize>, owners: Seq<usize>, p: int)
    requires
        req.len() > 0,
        owners.len() == req.len(),
    ensures
        grouped_by_owner(req, owners, p).len() == grouped_by_owner(
            req.drop_last(),
            owners.drop_last(),
            p,
        ).len() + if 0 <= owners.last() < p {
            1int
        } else {
            0int
        },
    decreases p,
{
    if p > 0 {
        lemma_grouped_drop_last_len(req, owners, p - 1);
        assert(wanted_from(req, owners, p - 1).len() == wanted_from(
            req.drop_last(),
            owners.drop_last(),
            p - 1,
        ).len() + if owners.last() == p - 1 {
            1int
        } else {
            0int
        });
    }
}

/// Grouping a want list by owner keeps every entry exactly once, as long as
/// every owner rank is in the group.
pub proof fn lemma_grouped_by_owner_len(req: Seq<usize>, owners: Seq<usize>, p: int)
    requires
        owners.len() == req.len(),
        forall|i: int| 0 <= i < req.len() ==> 0 <= #[trigger] owners[i] < p,
    ensures
        grouped_by_owner(req, owners, p).len() == req.len(),
    decreases req.len(),
{
    if req.len() > 0 {
        assert(forall|i: int|
            0 <= i < req.len() - 1 ==> 0 <= #[trigger] owners.drop_last()[i] < p);
        lemma_grouped_by_owner_len(req.drop_last(), owners.drop_last(), p);
        lemma_grouped_drop_last_len(req, owners, p);
        assert(0 <= owners[req.len() - 1] < p);
    } else {
        lemma_grouped_empty_len(req, owners, p);
    }
}

proof fn lemma_grouped_empty_len(req: Seq<usize>, owners: Seq<usize>, p: int)
    requires
        req.len() == 0,
    ensures
        grouped_by_owner(req, owners, p).len() == 0,
    decreases p,
{
    if p > 0 {
        lemma_grouped_empty_len(req, owners, p - 1);
    }
}

/// The ranks in `0..p` whose entry in `counts` is non-zero, in ascending
/// order.
pub open spec fn nonzero_positions(counts: Seq<usize>, p: int) -> Seq<usize>
    decreases p,
{
    if p <= 0 {
        Seq::empty()
    } else {
        let init = nonzero_positions(counts, p - 1);
        if counts[p - 1] > 0 {
            init.push((p - 1) as usize)
        } else {
            init
        }
    }
}

/// Each count scaled by the chunk size `k`.
pub open spec fn scaled(counts: Seq<usize>, k: int) -> Seq<usize> {
    Seq::new(counts.len(), |i: int| (counts[i] * k) as usize)
}

proof fn lemma_grouped_len(req: Seq<usize>, owners: Seq<usize>, counts: Seq<usize>, p: int)
    requires
        0 <= p <= counts.len(),
        forall|j: int| 0 <= j < p ==> #[trigger] counts[j] == wanted_from(req, owners, j).len(),
    ensures
        grouped_by_owner(req, owners, p).len() == prefix_total(counts, p),
    decreases p,
{
    if p > 0 {
        lemma_grouped_len(req, owners, counts, p - 1);
    }
}

proof fn lemma_gathered_len<T>(
    rows: Seq<Seq<T>>,
    counts: Seq<Seq<usize>>,
    dest: int,
    p: int,
    col: Seq<usize>,
)
    requires
        0 <= p <= counts.len(),
        p <= rows.len(),
        p <= col.len(),
        0 <= dest,
        forall|s: int| 0 <= s < p ==> (#[trigger] counts[s]).len() > dest,
        forall|s: int| 0 <= s < p ==> seq_total(#[trigger] counts[s]) == rows[s].len(),
        forall|s: int| 0 <= s < p ==> #[trigger] col[s] == counts[s][dest],
    ensures
        gathered_at(rows, counts, dest, p).len() == prefix_total(col, p),
    decreases p,
{
    if p > 0 {
        lemma_gathered_len(rows, counts, dest, p - 1, col);
        exchange::lemma_prefix_total_monotone(counts[p - 1], 0, dest);
        exchange::lemma_prefix_total_monotone(counts[p - 1], dest + 1, counts[p - 1].len() as int);
        assert(prefix_total(counts[p - 1], dest + 1) == prefix_total(counts[p - 1], dest) + counts[p
            - 1][dest]);
    }
}

/// A static bidirectional exchange plan for one rank.
///
/// `receive_indices` are the imported global indices grouped by source rank;
/// `send_indices` are the exported indices grouped by destination rank.  The
/// by-rank count vectors have one entry per rank of the group; `in_ranks` and
/// `out_ranks` list the ranks with non-zero counts, with `receive_counts` and
/// `send_counts` aligned to them.
pub struct GhostCommunicator {
    rank: usize,
    size: usize,
    chunk_size: usize,
    receive_indices: Vec<usize>,
    send_indices: Vec<usize>,
    receive_counts_by_rank: Vec<usize>,
    send_counts_by_rank: Vec<usize>,
    in_ranks: Vec<usize>,
    out_ranks: Vec<usize>,
    receive_counts: Vec<usize>,
    send_counts: Vec<usize>,
    total_receive_count: usize,
    total_send_count: usize,
}

impl GhostCommunicator {
    /// This rank, for specifications.
    pub closed spec fn rank_spec(&self) -> int {
        self.rank as int
    }

    /// The group size, for specifications.
    pub closed spec fn size_spec(&self) -> int {
        self.size as int
    }

    /// The chunk size the plan was built with, for specifications.
    pub closed spec fn chunk_spec(&self) -> int {
        self.chunk_size as int
    }

    /// The imported indices, for specifications.
    pub closed spec fn recv_idx(&self) -> Seq<usize> {
        self.receive_indices@
    }

    /// The exported indices, for specifications.
    pub closed spec fn send_idx(&self) -> Seq<usize> {
        self.send_indices@
    }

    /// Per-rank import counts, for specifications.
    pub closed spec fn recv_counts_all(&self) -> Seq<usize> {
        self.receive_counts_by_rank@
    }

    /// Per-rank export counts, for specifications.
    pub closed spec fn send_counts_all(&self) -> Seq<usize> {
        self.send_counts_by_rank@
    }

    /// Total number of imported indices, for specifications.
    pub closed spec fn total_recv(&self) -> int {
        self.total_receive_count as int
    }

    /// Total number of exported indices, for specifications.
    pub closed spec fn total_send(&self) -> int {
        self.total_send_count as int
    }

    /// The source ranks, for specifications.
    pub closed spec fn in_ranks_spec(&self) -> Seq<usize> {
        self.in_ranks@
    }

    /// The destination ranks, for specifications.
    pub closed spec fn out_ranks_spec(&self) -> Seq<usize> {
        self.out_ranks@
    }

    /// The per-source counts aligned with the source ranks, for
    /// specifications.
    pub closed spec fn receive_counts_spec(&self) -> Seq<usize> {
        self.receive_counts@
    }

    /// The per-destination counts aligned with the destination ranks, for
    /// specifications.
    pub closed spec fn send_counts_spec(&self) -> Seq<usize> {
        self.send_counts@
    }

    /// Internal consistency of one plan.
    pub open spec fn wf(&self) -> bool {
        &&& self.size_spec() >= 1
        &&& 0 <= self.rank_spec() < self.size_spec()
        &&& self.chunk_spec() >= 1
        &&& self.recv_counts_all().len() == self.size_spec()
        &&& self.send_counts_all().len() == self.size_spec()
        &&& self.recv_idx().len() == self.total_recv()
        &&& self.send_idx().len() == self.total_send()
        &&& self.total_recv() == seq_total(self.recv_counts_all())
        &&& self.total_send() == seq_total(self.send_counts_all())
        &&& self.in_ranks_spec() == nonzero_positions(self.recv_counts_all(), self.size_spec())
        &&& self.out_ranks_spec() == nonzero_positions(self.send_counts_all(), self.size_spec())
        &&& self.receive_counts_spec().len() == self.in_ranks_spec().len()
        &&& forall|i: int|
            0 <= i < self.in_ranks_spec().len() ==> #[trigger] self.receive_counts_spec()[i]
                == self.recv_counts_all()[self.in_ranks_spec()[i] as int]
        &&& self.send_counts_spec().len() == self.out_ranks_spec().len()
        &&& forall|i: int|
            0 <= i < self.out_ranks_spec().len() ==> #[trigger] self.send_counts_spec()[i]
                == self.send_counts_all()[self.out_ranks_spec()[i] as int]
    }

    /// The imported global indices, grouped by source rank.
    pub fn receive_indices(&self) -> (r: &Vec<usize>)
        ensures
            r@ == self.recv_idx(),
    {
        &self.receive_indices
    }

    /// The exported global indices, grouped by destination rank.
    pub fn send_indices(&self) -> (r: &Vec<usize>)
        ensures
            r@ == self.send_idx(),
    {
        &self.send_indices
    }

    /// The source ranks, ascending.
    pub fn in_ranks(&self) -> (r: &Vec<usize>)
        ensures
            r@ == self.in_ranks_spec(),
    {
        &self.in_ranks
    }

    /// The destination ranks, ascending.
    pub fn out_ranks(&self) -> (r: &Vec<usize>)
        ensures
            r@ == self.out_ranks_spec(),
    {
        &self.out_ranks
    }

    /// Import counts aligned with the source ranks.
    pub fn receive_counts(&self) -> (r: &Vec<usize>)
        ensures
            r@ == self.receive_counts_spec(),
    {
        &self.receive_counts
    }

    /// Export counts aligned with the destination ranks.
    pub fn send_counts(&self) -> (r: &Vec<usize>)
        ensures
            r@ == self.send_counts_spec(),
    {
        &self.send_counts
    }

    /// The total number of imported indices.
    pub fn total_receive_count(&self) -> (n: usize)
        ensures
            n == self.total_recv(),
    {
        self.total_receive_count
    }

    /// The total number of exported indices.
    pub fn total_send_count(&self) -> (n: usize)
        ensures
            n == self.total_send(),
    {
        self.total_send_count
    }
}

/// Consistency of the whole family of plans, one per rank: the counts agree
/// crosswise (what `r` exports to `s` is what `s` imports from `r`) and each
/// rank's export list is the concatenation of the blocks its peers want from
/// it.
pub open spec fn family_wf(comms: Seq<GhostCommunicator>) -> bool {
    let p = comms.len() as int;
    &&& p >= 1
    &&& forall|r: int| 0 <= r < p ==> (#[trigger] comms[r]).wf()
    &&& forall|r: int| 0 <= r < p ==> (#[trigger] comms[r]).size_spec() == p
    &&& forall|r: int| 0 <= r < p ==> (#[trigger] comms[r]).rank_spec() == r
    &&& forall|r: int| 0 <= r < p ==> (#[trigger] comms[r]).chunk_spec() == comms[0].chunk_spec()
    &&& forall|r: int, s: int|
        0 <= r < p && 0 <= s < p ==> (#[trigger] comms[r].send_counts_all()[s])
            == comms[s].recv_counts_all()[r]
    &&& forall|r: int|
        0 <= r < p ==> (#[trigger] comms[r].send_idx()) == gathered_at(
            Seq::new(p as nat, |s: int| comms[s].recv_idx()),
            Seq::new(p as nat, |s: int| comms[s].recv_counts_all()),
            r,
            p,
        )
}

impl GhostCommunicator {
    /// Build the exchange plans of all ranks collectively, with a chunk size.
    ///
    /// `all_required[r]` are the global indices rank `r` imports and
    /// `all_owners[r]` the owner rank of each, in any order and possibly with
    /// duplicates.
    pub fn new_with_chunk_size(
        all_required: &Vec<Vec<usize>>,
        all_owners: &Vec<Vec<usize>>,
        chunk_size: usize,
    ) -> (comms: Vec<GhostCommunicator>)
        requires
            all_required@.len() >= 1,
            all_owners@.len() == all_required@.len(),
            forall|r: int|
                0 <= r < all_required@.len() ==> (#[trigger] all_owners@[r]@).len()
                    == all_required@[r]@.len(),
            forall|r: int, i: int|
                0 <= r < all_required@.len() && 0 <= i < all_owners@[r]@.len()
                    ==> (#[trigger] all_owners@[r]@[i]) < all_required@.len(),
            chunk_size >= 1,
        ensures
            comms@.len() == all_required@.len(),
            family_wf(comms@),
            forall|r: int|
                0 <= r < comms@.len() ==> (#[trigger] comms@[r].recv_idx()) == grouped_by_owner(
                    all_required@[r]@,
                    all_owners@[r]@,
                    all_required@.len() as int,
                ),
            forall|r: int, s: int|
                0 <= r < comms@.len() && 0 <= s < comms@.len() ==> (#[trigger] comms@[r]
                    .recv_counts_all()[s]) == wanted_from(
                    all_required@[r]@,
                    all_owners@[r]@,
                    s,
                ).len(),
            forall|r: int| 0 <= r < comms@.len() ==> (#[trigger] comms@[r].chunk_spec())
                == chunk_size,
    {
        let p = all_required.len();
        // Group each rank's want list by owner and count the per-owner runs.
        let mut all_recv_idx: Vec<Vec<usize>> = Vec::new();
        let mut all_recv_counts: Vec<Vec<usize>> = Vec::new();
        let mut r: usize = 0;
        while r < p
            invariant
                r <= p,
                p == all_required@.len(),
                all_owners@.len() == p,
                forall|r2: int|
                    0 <= r2 < p ==> (#[trigger] all_owners@[r2]@).len() == all_required@[r2]@.len(),
                all_recv_idx@.len() == r,
                all_recv_counts@.len() == r,
                forall|r2: int|
                    0 <= r2 < r ==> (#[trigger] all_recv_idx@[r2]@) == grouped_by_owner(
                        all_required@[r2]@,
                        all_owners@[r2]@,
                        p as int,
                    ),
                forall|r2: int| 0 <= r2 < r ==> (#[trigger] all_recv_counts@[r2]@).len() == p,
                forall|r2: int, s: int|
                    0 <= r2 < r && 0 <= s < p ==> (#[trigger] all_recv_counts@[r2]@[s])
                        == wanted_from(all_required@[r2]@, all_owners@[r2]@, s).len(),
            decreases p - r,
        {
            let req = &all_required[r];
            let own = &all_owners[r];
            let nreq = req.len();
            let mut ridx: Vec<usize> = Vec::new();
            let mut rcounts: Vec<usize> = Vec::new();
            let mut s: usize = 0;
            while s < p
                invariant
                    s <= p,
                    nreq == req@.len(),
                    own@.len() == nreq,
                    ridx@ == grouped_by_owner(req@, own@, s as int),
                    rcounts@.len() == s,
                    forall|s2: int|
                        0 <= s2 < s ==> (#[trigger] rcounts@[s2]) == wanted_from(
                            req@,
                            own@,
                            s2,
                        ).len(),
                decreases p - s,
            {
                let before = ridx.len();
                let mut i: usize = 0;
                while i < nreq
                    invariant
                        i <= nreq,
                        nreq == req@.len(),
                        own@.len() == nreq,
                        ridx@ == grouped_by_owner(req@, own@, s as int) + wanted_from(
                            req@.subrange(0, i as int),
                            own@.subrange(0, i as int),
                            s as int,
                        ),
                        before == grouped_by_owner(req@, own@, s as int).len(),
                    decreases nreq - i,
                {
                    proof {
                        assert(req@.subrange(0, i + 1).drop_last() =~= req@.subrange(0, i as int));
                        assert(own@.subrange(0, i + 1).drop_last() =~= own@.subrange(0, i as int));
                        assert(req@.subrange(0, i + 1).last() == req@[i as int]);
                        assert(own@.subrange(0, i + 1).last() == own@[i as int]);
                    }
                    if own[i] == s {
                        ridx.push(req[i]);
                    }
                    i = i + 1;
                }
                proof {
                    assert(req@.subrange(0, nreq as int) =~= req@);
                    assert(own@.subrange(0, nreq as int) =~= own@);
                }
                rcounts.push(ridx.len() - before);
                s = s + 1;
            }
            all_recv_idx.push(ridx);
            all_recv_counts.push(rcounts);
            r = r + 1;
        }
        proof {
            assert forall|r2: int| 0 <= r2 < p implies seq_total(#[trigger] all_recv_counts@[r2]@)
                == all_recv_idx@[r2]@.len() by {
                lemma_grouped_len(
                    all_required@[r2]@,
                    all_owners@[r2]@,
                    all_recv_counts@[r2]@,
                    p as int,
                );
            }
        }
        // Every rank learns how many indices each peer wants from it, then
        // receives the wanted index values themselves, grouped by requester.
        let all_send_counts = exchange::all_to_all(&all_recv_counts);
        let all_send_idx = exchange::all_to_all_varcount(&all_recv_idx, &all_recv_counts);
        // Assemble the per-rank plans.
        let mut comms: Vec<GhostCommunicator> = Vec::new();
        let mut r: usize = 0;
        while r < p
            invariant
                r <= p,
                p == all_required@.len(),
                all_owners@.len() == p,
                all_recv_idx@.len() == p,
                all_recv_counts@.len() == p,
                all_send_counts@.len() == p,
                all_send_idx@.len() == p,
                chunk_size >= 1,
                forall|r2: int|
                    0 <= r2 < p ==> (#[trigger] all_recv_idx@[r2]@) == grouped_by_owner(
                        all_required@[r2]@,
                        all_owners@[r2]@,
                        p as int,
                    ),
                forall|r2: int| 0 <= r2 < p ==> (#[trigger] all_recv_counts@[r2]@).len() == p,
                forall|r2: int, s: int|
                    0 <= r2 < p && 0 <= s < p ==> (#[trigger] all_recv_counts@[r2]@[s])
                        == wanted_from(all_required@[r2]@, all_owners@[r2]@, s).len(),
                forall|r2: int|
                    0 <= r2 < p ==> seq_total(#[trigger] all_recv_counts@[r2]@)
                        == all_recv_idx@[r2]@.len(),
                forall|r2: int| 0 <= r2 < p ==> (#[trigger] all_send_counts@[r2]@).len() == p,
                forall|r2: int, s: int|
                    0 <= r2 < p && 0 <= s < p ==> (#[trigger] all_send_counts@[r2]@[s])
                        == all_recv_counts@[s]@[r2],
                forall|r2: int|
                    0 <= r2 < p ==> (#[trigger] all_send_idx@[r2]@) == gathered_at(
                        rows_view(all_recv_idx@),
                        rows_view(all_recv_counts@),
                        r2,
                        p as int,
                    ),
                comms@.len() == r,
                forall|r2: int| 0 <= r2 < r ==> (#[trigger] comms@[r2]).wf(),
                forall|r2: int| 0 <= r2 < r ==> (#[trigger] comms@[r2]).size_spec() == p,
                forall|r2: int| 0 <= r2 < r ==> (#[trigger] comms@[r2]).rank_spec() == r2,
                forall|r2: int| 0 <= r2 < r ==> (#[trigger] comms@[r2]).chunk_spec() == chunk_size,
                forall|r2: int|
                    0 <= r2 < r ==> (#[trigger] comms@[r2].recv_idx()) == all_recv_idx@[r2]@,
                forall|r2: int|
                    0 <= r2 < r ==> (#[trigger] comms@[r2].recv_counts_all())
                        == all_recv_counts@[r2]@,
                forall|r2: int|
                    0 <= r2 < r ==> (#[trigger] comms@[r2].send_counts_all())
                        == all_send_counts@[r2]@,
                forall|r2: int|
                    0 <= r2 < r ==> (#[trigger] comms@[r2].send_idx()) == all_send_idx@[r2]@,
            decreases p - r,
        {
            let receive_indices = all_recv_idx[r].clone();
            let send_indices = all_send_idx[r].clone();
            let receive_counts_by_rank = all_recv_counts[r].clone();
            let send_counts_by_rank = all_send_counts[r].clone();
            let total_receive_count = receive_indices.len();
            let total_send_count = send_indices.len();
            proof {
                let col = all_send_counts@[r as int]@;
                lemma_gathered_len(
                    rows_view(all_recv_idx@),
                    rows_view(all_recv_counts@),
                    r as int,
                    p as int,
                    col,
                );
            }
            // Compress the by-rank counts into peer lists.
            let mut in_ranks: Vec<usize> = Vec::new();
            let mut receive_counts: Vec<usize> = Vec::new();
            let mut out_ranks: Vec<usize> = Vec::new();
            let mut send_counts: Vec<usize> = Vec::new();
            let mut s: usize = 0;
            while s < p
                invariant
                    s <= p,
                    p == receive_counts_by_rank@.len(),
                    p == send_counts_by_rank@.len(),
                    in_ranks@ == nonzero_positions(receive_counts_by_rank@, s as int),
                    out_ranks@ == nonzero_positions(send_counts_by_rank@, s as int),
                    receive_counts@.len() == in_ranks@.len(),
                    forall|i: int|
                        0 <= i < in_ranks@.len() ==> (#[trigger] in_ranks@[i]) < p,
                    forall|i: int|
                        0 <= i < in_ranks@.len() ==> (#[trigger] receive_counts@[i])
                            == receive_counts_by_rank@[in_ranks@[i] as int],
                    send_counts@.len() == out_ranks@.len(),
                    forall|i: int|
                        0 <= i < out_ranks@.len() ==> (#[trigger] out_ranks@[i]) < p,
                    forall|i: int|
                        0 <= i < out_ranks@.len() ==> (#[trigger] send_counts@[i])
                            == send_counts_by_rank@[out_ranks@[i] as int],
                decreases p - s,
            {
                if receive_counts_by_rank[s] > 0 {
                    in_ranks.push(s);
                    receive_counts.push(receive_counts_by_rank[s]);
                }
                if send_counts_by_rank[s] > 0 {
                    out_ranks.push(s);
                    send_counts.push(send_counts_by_rank[s]);
                }
                s = s + 1;
            }
            let comm = GhostCommunicator {
                rank: r,
                size: p,
                chunk_size,
                receive_indices,
                send_indices,
                receive_counts_by_rank,
                send_counts_by_rank,
                in_ranks,
                out_ranks,
                receive_counts,
                send_counts,
                total_receive_count,
                total_send_count,
            };
            comms.push(comm);
            r = r + 1;
        }
        proof {
            assert forall|r2: int| 0 <= r2 < p implies (#[trigger] comms@[r2].send_idx())
                == gathered_at(
                Seq::new(p as nat, |s: int| comms@[s].recv_idx()),
                Seq::new(p as nat, |s: int| comms@[s].recv_counts_all()),
                r2,
                p as int,
            ) by {
                assert(Seq::new(p as nat, |s: int| comms@[s].recv_idx()) =~= rows_view(
                    all_recv_idx@,
                ));
                assert(Seq::new(p as nat, |s: int| comms@[s].recv_counts_all()) =~= rows_view(
                    all_recv_counts@,
                ));
            }
        }
        comms
    }

    /// Build the exchange plans of all ranks collectively with chunk size
    /// one.
    pub fn new(all_required: &Vec<Vec<usize>>, all_owners: &Vec<Vec<usize>>) -> (comms: Vec<
        GhostCommunicator,
    >)
        requires
            all_required@.len() >= 1,
            all_owners@.len() == all_required@.len(),
            forall|r: int|
                0 <= r < all_required@.len() ==> (#[trigger] all_owners@[r]@).len()
                    == all_required@[r]@.len(),
            forall|r: int, i: int|
                0 <= r < all_required@.len() && 0 <= i < all_owners@[r]@.len()
                    ==> (#[trigger] all_owners@[r]@[i]) < all_required@.len(),
        ensures
            comms@.len() == all_required@.len(),
            family_wf(comms@),
            forall|r: int|
                0 <= r < comms@.len() ==> (#[trigger] comms@[r].recv_idx()) == grouped_by_owner(
                    all_required@[r]@,
                    all_owners@[r]@,
                    all_required@.len() as int,
                ),
            forall|r: int, s: int|
                0 <= r < comms@.len() && 0 <= s < comms@.len() ==> (#[trigger] comms@[r]
                    .recv_counts_all()[s]) == wanted_from(
                    all_required@[r]@,
                    all_owners@[r]@,
                    s,
                ).len(),
            forall|r: int| 0 <= r < comms@.len() ==> (#[trigger] comms@[r].chunk_spec()) == 1,
    {
        Self::new_with_chunk_size(all_required, all_owners, 1)
    }
}

/// The per-destination element counts each rank uses on the wire during a
/// forward transfer with chunk size `k`: its export counts, scaled.
pub open spec fn forward_wire_counts(comms: Seq<GhostCommunicator>, k: int) -> Seq<Seq<usize>> {
    Seq::new(comms.len(), |s: int| scaled(comms[s].send_counts_all(), k))
}

/// The per-destination element counts each rank uses on the wire during a
/// backward transfer with chunk size `k`: its import counts, scaled.
pub open spec fn backward_wire_counts(comms: Seq<GhostCommunicator>, k: int) -> Seq<Seq<usize>> {
    Seq::new(comms.len(), |s: int| scaled(comms[s].recv_counts_all(), k))
}

proof fn lemma_entry_le_total(counts: Seq<usize>, i: int)
    requires
        0 <= i < counts.len(),
    ensures
        counts[i] <= seq_total(counts),
{
    exchange::lemma_prefix_total_monotone(counts, 0, i);
    assert(prefix_total(counts, i + 1) == prefix_total(counts, i) + counts[i]);
    exchange::lemma_prefix_total_monotone(counts, i + 1, counts.len() as int);
}

proof fn lemma_scaled_prefix(counts: Seq<usize>, k: int, i: int)
    requires
        k >= 0,
        0 <= i <= counts.len(),
        forall|j: int| 0 <= j < counts.len() ==> #[trigger] counts[j] * k <= usize::MAX,
    ensures
        prefix_total(scaled(counts, k), i) == k * prefix_total(counts, i),
    decreases i,
{
    if i <= 0 {
        assert(k * 0 == 0) by (nonlinear_arith);
    } else {
        lemma_scaled_prefix(counts, k, i - 1);
        assert(k * (prefix_total(counts, i - 1) + counts[i - 1]) == k * prefix_total(counts, i - 1)
            + k * counts[i - 1]) by (nonlinear_arith);
        assert(k * counts[i - 1] == counts[i - 1] * k) by (nonlinear_arith);
    }
}

/// Build the wire count vector for one rank: each by-rank count scaled by
/// the chunk size.
fn scale_counts(counts: &Vec<usize>, chunk_size: usize, total: usize) -> (out: Vec<usize>)
    requires
        seq_total(counts@) == total,
        total * chunk_size <= usize::MAX,
        chunk_size >= 1,
    ensures
        out@ == scaled(counts@, chunk_size as int),
        seq_total(out@) == total * chunk_size,
{
    let p = counts.len();
    let mut out: Vec<usize> = Vec::new();
    let mut i: usize = 0;
    while i < p
        invariant
            i <= p,
            p == counts@.len(),
            seq_total(counts@) == total,
            total * chunk_size <= usize::MAX,
            out@.len() == i,
            forall|j: int| 0 <= j < i ==> #[trigger] out@[j] == counts@[j] * chunk_size,
        decreases p - i,
    {
        proof {
            lemma_entry_le_total(counts@, i as int);
            vstd::arithmetic::mul::lemma_mul_inequality(
                counts@[i as int] as int,
                total as int,
                chunk_size as int,
            );
        }
        out.push(counts[i] * chunk_size);
        i = i + 1;
    }
    proof {
        assert(out@ =~= scaled(counts@, chunk_size as int));
        assert forall|j: int| 0 <= j < p implies #[trigger] counts@[j] * chunk_size
            <= usize::MAX by {
            lemma_entry_le_total(counts@, j);
            vstd::arithmetic::mul::lemma_mul_inequality(
                counts@[j] as int,
                total as int,
                chunk_size as int,
            );
        }
        lemma_scaled_prefix(counts@, chunk_size as int, p as int);
        assert(chunk_size * seq_total(counts@) == total * chunk_size) by (nonlinear_arith)
            requires
                seq_total(counts@) == total,
        ;
    }
    out
}

/// Send owned data to the importers: rank `s` contributes its export buffer,
/// `comms[s].total_send() * chunk_size` elements ordered as its export
/// indices, and every rank receives its import buffer, ordered as its import
/// indices.
pub fn forward_send_values_by_chunks<T: Copy>(
    comms: &Vec<GhostCommunicator>,
    all_data: &Vec<Vec<T>>,
    chunk_size: usize,
) -> (out: Vec<Vec<T>>)
    requires
        family_wf(comms@),
        all_data@.len() == comms@.len(),
        chunk_size >= 1,
        forall|r: int|
            0 <= r < comms@.len() ==> (#[trigger] all_data@[r]@).len() == comms@[r].total_send()
                * chunk_size,
    ensures
        out@.len() == comms@.len(),
        forall|r: int|
            0 <= r < out@.len() ==> (#[trigger] out@[r]@) == gathered_at(
                rows_view(all_data@),
                forward_wire_counts(comms@, chunk_size as int),
                r,
                comms@.len() as int,
            ),
        forall|r: int|
            0 <= r < out@.len() ==> (#[trigger] out@[r]@).len() == comms@[r].total_recv()
                * chunk_size,
{
    let p = comms.len();
    let mut wire_counts: Vec<Vec<usize>> = Vec::new();
    let mut s: usize = 0;
    while s < p
        invariant
            s <= p,
            p == comms@.len(),
            all_data@.len() == p,
            chunk_size >= 1,
            family_wf(comms@),
            forall|r: int|
                0 <= r < p ==> (#[trigger] all_data@[r]@).len() == comms@[r].total_send()
                    * chunk_size,
            wire_counts@.len() == s,
            forall|s2: int|
                0 <= s2 < s ==> (#[trigger] wire_counts@[s2]@) == scaled(
                    comms@[s2].send_counts_all(),
                    chunk_size as int,
                ),
            forall|s2: int|
                0 <= s2 < s ==> seq_total(#[trigger] wire_counts@[s2]@) == all_data@[s2]@.len(),
        decreases p - s,
    {
        let n_s = all_data[s].len();
        let total = comms[s].total_send_count;
        proof {
            assert(comms@[s as int].wf());
            assert(n_s == total * chunk_size);
        }
        let row = scale_counts(&comms[s].send_counts_by_rank, chunk_size, total);
        wire_counts.push(row);
        s = s + 1;
    }
    let out = exchange::all_to_all_varcount(all_data, &wire_counts);
    proof {
        assert(rows_view(wire_counts@) =~~= forward_wire_counts(comms@, chunk_size as int));
        assert forall|r: int| 0 <= r < p implies (#[trigger] out@[r]@).len() == comms@[r]
            .total_recv() * chunk_size by {
            let col = scaled(comms@[r].recv_counts_all(), chunk_size as int);
            assert(comms@[r].wf());
            lemma_gathered_len(
                rows_view(all_data@),
                forward_wire_counts(comms@, chunk_size as int),
                r,
                p as int,
                col,
            );
            assert forall|j: int| 0 <= j < p implies #[trigger] comms@[r].recv_counts_all()[j]
                * chunk_size <= usize::MAX by {
                assert(comms@[j].wf());
                assert(comms@[r].recv_counts_all()[j] == comms@[j].send_counts_all()[r]);
                lemma_entry_le_total(comms@[j].send_counts_all(), r);
                assert(all_data@[j]@.len() == comms@[j].total_send() * chunk_size);
                vstd::arithmetic::mul::lemma_mul_inequality(
                    comms@[j].send_counts_all()[r] as int,
                    comms@[j].total_send(),
                    chunk_size as int,
                );
                lemma_vec_len_bound(all_data@[j]);
            }
            lemma_scaled_prefix(comms@[r].recv_counts_all(), chunk_size as int, p as int);
            assert(chunk_size as int * seq_total(comms@[r].recv_counts_all()) == comms@[r]
                .total_recv() * chunk_size) by (nonlinear_arith)
                requires
                    seq_total(comms@[r].recv_counts_all()) == comms@[r].total_recv(),
            ;
        }
    }
    out
}

pub proof fn lemma_vec_len_bound<T>(v: Vec<T>)
    ensures
        v@.len() <= usize::MAX,
{
    vstd::std_specs::vec::axiom_spec_len(&v);
}

/// Send imported data back to the owners: rank `r` contributes its import
/// buffer, ordered as its import indices, and every rank receives its export
/// buffer back, ordered as its export indices.
pub fn backward_send_values_by_chunks<T: Copy>(
    comms: &Vec<GhostCommunicator>,
    all_data: &Vec<Vec<T>>,
    chunk_size: usize,
) -> (out: Vec<Vec<T>>)
    requires
        family_wf(comms@),
        all_data@.len() == comms@.len(),
        chunk_size >= 1,
        forall|r: int|
            0 <= r < comms@.len() ==> (#[trigger] all_data@[r]@).len() == comms@[r].total_recv()
                * chunk_size,
    ensures
        out@.len() == comms@.len(),
        forall|r: int|
            0 <= r < out@.len() ==> (#[trigger] out@[r]@) == gathered_at(
                rows_view(all_data@),
                backward_wire_counts(comms@, chunk_size as int),
                r,
                comms@.len() as int,
            ),
        forall|r: int|
            0 <= r < out@.len() ==> (#[trigger] out@[r]@).len() == comms@[r].total_send()
                * chunk_size,
{
    let p = comms.len();
    let mut wire_counts: Vec<Vec<usize>> = Vec::new();
    let mut s: usize = 0;
    while s < p
        invariant
            s <= p,
            p == comms@.len(),
            all_data@.len() == p,
            chunk_size >= 1,
            family_wf(comms@),
            forall|r: int|
                0 <= r < p ==> (#[trigger] all_data@[r]@).len() == comms@[r].total_recv()
                    * chunk_size,
            wire_counts@.len() == s,
            forall|s2: int|
                0 <= s2 < s ==> (#[trigger] wire_counts@[s2]@) == scaled(
                    comms@[s2].recv_counts_all(),
                    chunk_size as int,
                ),
            forall|s2: int|
                0 <= s2 < s ==> seq_total(#[trigger] wire_counts@[s2]@) == all_data@[s2]@.len(),
        decreases p - s,
    {
        let n_s = all_data[s].len();
        let total = comms[s].total_receive_count;
        proof {
            assert(comms@[s as int].wf());
            assert(n_s == total * chunk_size);
        }
        let row = scale_counts(&comms[s].receive_counts_by_rank, chunk_size, total);
        wire_counts.push(row);
        s = s + 1;
    }
    let out = exchange::all_to_all_varcount(all_data, &wire_counts);
    proof {
        assert(rows_view(wire_counts@) =~~= backward_wire_counts(comms@, chunk_size as int));
        assert forall|r: int| 0 <= r < p implies (#[trigger] out@[r]@).len() == comms@[r]
            .total_send() * chunk_size by {
            let col = scaled(comms@[r].send_counts_all(), chunk_size as int);
            assert(comms@[r].wf());
            lemma_gathered_len(
                rows_view(all_data@),
                backward_wire_counts(comms@, chunk_size as int),
                r,
                p as int,
                col,
            );
            assert forall|j: int| 0 <= j < p implies #[trigger] comms@[r].send_counts_all()[j]
                * chunk_size <= usize::MAX by {
                assert(comms@[j].wf());
                assert(comms@[r].send_counts_all()[j] == comms@[j].recv_counts_all()[r]);
                lemma_entry_le_total(comms@[j].recv_counts_all(), r);
                assert(all_data@[j]@.len() == comms@[j].total_recv() * chunk_size);
                vstd::arithmetic::mul::lemma_mul_inequality(
                    comms@[j].recv_counts_all()[r] as int,
                    comms@[j].total_recv(),
                    chunk_size as int,
                );
                lemma_vec_len_bound(all_data@[j]);
            }
            lemma_scaled_prefix(comms@[r].send_counts_all(), chunk_size as int, p as int);
            assert(chunk_size as int * seq_total(comms@[r].send_counts_all()) == comms@[r]
                .total_send() * chunk_size) by (nonlinear_arith)
                requires
                    seq_total(comms@[r].send_counts_all()) == comms@[r].total_send(),
            ;
        }
    }
    out
}

/// Send owned data to the importers with the chunk size the plans were built
/// with.
pub fn forward_send_values<T: Copy>(comms: &Vec<GhostCommunicator>, all_data: &Vec<Vec<T>>) -> (out:
    Vec<Vec<T>>)
    requires
        family_wf(comms@),
        all_data@.len() == comms@.len(),
        forall|r: int|
            0 <= r < comms@.len() ==> (#[trigger] all_data@[r]@).len() == comms@[r].total_send()
                * comms@[0].chunk_spec(),
    ensures
        out@.len() == comms@.len(),
        forall|r: int|
            0 <= r < out@.len() ==> (#[trigger] out@[r]@) == gathered_at(
                rows_view(all_data@),
                forward_wire_counts(comms@, comms@[0].chunk_spec()),
                r,
                comms@.len() as int,
            ),
        forall|r: int|
            0 <= r < out@.len() ==> (#[trigger] out@[r]@).len() == comms@[r].total_recv()
                * comms@[0].chunk_spec(),
{
    proof {
        assert(comms@[0].wf());
    }
    let chunk_size = comms[0].chunk_size;
    forward_send_values_by_chunks(comms, all_data, chunk_size)
}

/// Send imported data back to the owners with the chunk size the plans were
/// built with.
pub fn backward_send_values<T: Copy>(comms: &Vec<GhostCommunicator>, all_data: &Vec<Vec<T>>) -> (
    out: Vec<Vec<T>>)
    requires
        family_wf(comms@),
        all_data@.len() == comms@.len(),
        forall|r: int|
            0 <= r < comms@.len() ==> (#[trigger] all_data@[r]@).len() == comms@[r].total_recv()
                * comms@[0].chunk_spec(),
    ensures
        out@.len() == comms@.len(),
        forall|r: int|
            0 <= r < out@.len() ==> (#[trigger] out@[r]@) == gathered_at(
                rows_view(all_data@),
                backward_wire_counts(comms@, comms@[0].chunk_spec()),
                r,
                comms@.len() as int,
            ),
        forall|r: int|
            0 <= r < out@.len() ==> (#[trigger] out@[r]@).len() == comms@[r].total_send()
                * comms@[0].chunk_spec(),
{
    proof {
        assert(comms@[0].wf());
    }
    let chunk_size = comms[0].chunk_size;
    backward_send_values_by_chunks(comms, all_data, chunk_size)
}

impl GhostCommunicator {
    /// The per-destination element counts this rank places on the wire in a
    /// forward transfer with the given chunk size.
    pub fn forward_wire_counts_vec(&self, chunk_size: usize) -> (out: Vec<usize>)
        requires
            self.wf(),
            chunk_size >= 1,
            self.total_send() * chunk_size <= usize::MAX,
        ensures
            out@ == scaled(self.send_counts_all(), chunk_size as int),
            seq_total(out@) == self.total_send() * chunk_size,
    {
        scale_counts(&self.send_counts_by_rank, chunk_size, self.total_send_count)
    }

    /// The per-destination element counts this rank places on the wire in a
    /// backward transfer with the given chunk size.
    pub fn backward_wire_counts_vec(&self, chunk_size: usize) -> (out: Vec<usize>)
        requires
            self.wf(),
            chunk_size >= 1,
            self.total_recv() * chunk_size <= usize::MAX,
        ensures
            out@ == scaled(self.recv_counts_all(), chunk_size as int),
            seq_total(out@) == self.total_recv() * chunk_size,
    {
        scale_counts(&self.receive_counts_by_rank, chunk_size, self.total_receive_count)
    }
}

/// Every index that `req` wants from rank `s` satisfies what all indices
/// wanted from `s` satisfy.
pub proof fn lemma_wanted_from_entries(
    req: Seq<usize>,
    owners: Seq<usize>,
    s: int,
    pred: spec_fn(usize) -> bool,
)
    requires
        owners.len() == req.len(),
        forall|i: int| 0 <= i < req.len() && owners[i] == s ==> pred(#[trigger] req[i]),
    ensures
        forall|j: int|
            0 <= j < wanted_from(req, owners, s).len() ==> pred(
                #[trigger] wanted_from(req, owners, s)[j],
            ),
    decreases req.len(),
{
    if req.len() > 0 {
        assert(forall|i: int|
            0 <= i < req.len() - 1 && owners.drop_last()[i] == s ==> pred(
                #[trigger] req.drop_last()[i],
            ));
        lemma_wanted_from_entries(req.drop_last(), owners.drop_last(), s, pred);
        let init = wanted_from(req.drop_last(), owners.drop_last(), s);
        let whole = wanted_from(req, owners, s);
        assert forall|j: int| 0 <= j < whole.len() implies pred(whole[j]) by {
            if owners.last() == s {
                if j < init.len() {
                    assert(whole[j] == init[j]);
                } else {
                    assert(whole[j] == req.last());
                    assert(pred(req[req.len() - 1]));
                }
            } else {
                assert(whole[j] == init[j]);
            }
        }
    }
}

/// Every entry of a grouped want list is an entry of the want list.
pub proof fn lemma_grouped_contains(req: Seq<usize>, owners: Seq<usize>, p: int, i: int)
    requires
        owners.len() == req.len(),
        0 <= i < req.len(),
        0 <= owners[i] < p,
    ensures
        grouped_by_owner(req, owners, p).contains(req[i]),
{
    lemma_wanted_contains(req, owners, owners[i] as int, i);
    lemma_grouped_contains_wanted(req, owners, p, owners[i] as int);
}

proof fn lemma_wanted_contains(req: Seq<usize>, owners: Seq<usize>, s: int, i: int)
    requires
        owners.len() == req.len(),
        0 <= i < req.len(),
        owners[i] == s,
    ensures
        wanted_from(req, owners, s).contains(req[i]),
    decreases req.len(),
{
    if i == req.len() - 1 {
        assert(wanted_from(req, owners, s).last() == req[i]);
    } else {
        lemma_wanted_contains(req.drop_last(), owners.drop_last(), s, i);
        let w = wanted_from(req.drop_last(), owners.drop_last(), s);
        let j = choose|j: int| 0 <= j < w.len() && w[j] == req[i];
        assert(wanted_from(req, owners, s)[j] == req[i]);
    }
}

proof fn lemma_grouped_contains_wanted(req: Seq<usize>, owners: Seq<usize>, p: int, s: int)
    requires
        0 <= s < p,
    ensures
        forall|j: int|
            0 <= j < wanted_from(req, owners, s).len() ==> grouped_by_owner(
                req,
                owners,
                p,
            ).contains(#[trigger] wanted_from(req, owners, s)[j]),
    decreases p,
{
    if s == p - 1 {
        assert forall|j: int| 0 <= j < wanted_from(req, owners, s).len() implies grouped_by_owner(
            req,
            owners,
            p,
        ).contains(#[trigger] wanted_from(req, owners, s)[j]) by {
            let base = grouped_by_owner(req, owners, p - 1).len();
            assert(grouped_by_owner(req, owners, p)[base + j] == wanted_from(req, owners, s)[j]);
        }
    } else {
        lemma_grouped_contains_wanted(req, owners, p - 1, s);
        assert forall|j: int| 0 <= j < wanted_from(req, owners, s).len() implies grouped_by_owner(
            req,
            owners,
            p,
        ).contains(#[trigger] wanted_from(req, owners, s)[j]) by {
            let w = grouped_by_owner(req, owners, p - 1);
            let e = wanted_from(req, owners, s)[j];
            assert(w.contains(e));
            let j2 = choose|j2: int| 0 <= j2 < w.len() && w[j2] == e;
            assert(grouped_by_owner(req, owners, p)[j2] == e);
        }
    }
}

/// Block `s` of a grouped want list is exactly the indices wanted from rank
/// `s`.
pub proof fn lemma_block_of_grouped(
    req: Seq<usize>,
    owners: Seq<usize>,
    counts: Seq<usize>,
    p: int,
    s: int,
)
    requires
        0 <= s < p <= counts.len(),
        forall|j: int| 0 <= j < p ==> #[trigger] counts[j] == wanted_from(req, owners, j).len(),
    ensures
        block_of(grouped_by_owner(req, owners, p), counts, s) == wanted_from(req, owners, s),
    decreases p,
{
    lemma_grouped_len(req, owners, counts, s);
    exchange::lemma_prefix_total_monotone(counts, 0, s);
    assert(prefix_total(counts, s + 1) == prefix_total(counts, s) + counts[s]);
    if p == s + 1 {
        assert(block_of(grouped_by_owner(req, owners, p), counts, s) =~= wanted_from(
            req,
            owners,
            s,
        ));
    } else {
        lemma_block_of_grouped(req, owners, counts, p - 1, s);
        lemma_grouped_len(req, owners, counts, p - 1);
        exchange::lemma_prefix_total_monotone(counts, s + 1, p - 1);
        assert(block_of(grouped_by_owner(req, owners, p), counts, s) =~= block_of(
            grouped_by_owner(req, owners, p - 1),
            counts,
            s,
        ));
    }
}

/// When, for every source, the block destined to `dest` satisfies a
/// predicate entrywise, the whole gathered result does.
pub proof fn lemma_gathered_entries<T>(
    rows: Seq<Seq<T>>,
    counts: Seq<Seq<usize>>,
    dest: int,
    p: int,
    pred: spec_fn(T) -> bool,
)
    requires
        forall|s: int, j: int|
            0 <= s < p && 0 <= j < block_of(#[trigger] rows[s], counts[s], dest).len() ==> pred(
                #[trigger] block_of(rows[s], counts[s], dest)[j],
            ),
    ensures
        forall|j: int|
            0 <= j < gathered_at(rows, counts, dest, p).len() ==> pred(
                #[trigger] gathered_at(rows, counts, dest, p)[j],
            ),
    decreases p,
{
    if p > 0 {
        lemma_gathered_entries(rows, counts, dest, p - 1, pred);
        let init = gathered_at(rows, counts, dest, p - 1);
        let blk = block_of(rows[p - 1], counts[p - 1], dest);
        let whole = gathered_at(rows, counts, dest, p);
        assert forall|j: int| 0 <= j < whole.len() implies pred(whole[j]) by {
            if j < init.len() {
                assert(whole[j] == init[j]);
            } else {
                assert(whole[j] == blk[j - init.len()]);
            }
        }
    }
}

/// Locate the block that position `t` of a counted concatenation falls in.
pub proof fn lemma_counts_locate(counts: Seq<usize>, p: int, t: int) -> (s: int)
    requires
        0 <= p <= counts.len(),
        0 <= t < prefix_total(counts, p),
    ensures
        0 <= s < p,
        prefix_total(counts, s) <= t < prefix_total(counts, s + 1),
    decreases p,
{
    if t < prefix_total(counts, p - 1) {
        lemma_counts_locate(counts, p - 1, t)
    } else {
        p - 1
    }
}

/// An element of one source's block for the destination is an element of
/// the gathered result.
pub proof fn lemma_gathered_contains<T>(
    rows: Seq<Seq<T>>,
    counts: Seq<Seq<usize>>,
    dest: int,
    p: int,
    s: int,
)
    requires
        0 <= s < p,
    ensures
        forall|j: int|
            0 <= j < block_of(rows[s], counts[s], dest).len() ==> gathered_at(
                rows,
                counts,
                dest,
                p,
            ).contains(#[trigger] block_of(rows[s], counts[s], dest)[j]),
    decreases p,
{
    if s == p - 1 {
        assert forall|j: int|
            0 <= j < block_of(rows[s], counts[s], dest).len() implies gathered_at(
            rows,
            counts,
            dest,
            p,
        ).contains(#[trigger] block_of(rows[s], counts[s], dest)[j]) by {
            let base = gathered_at(rows, counts, dest, p - 1).len();
            assert(gathered_at(rows, counts, dest, p)[base + j] == block_of(
                rows[s],
                counts[s],
                dest,
            )[j]);
        }
    } else {
        lemma_gathered_contains(rows, counts, dest, p - 1, s);
        assert forall|j: int|
            0 <= j < block_of(rows[s], counts[s], dest).len() implies gathered_at(
            rows,
            counts,
            dest,
            p,
        ).contains(#[trigger] block_of(rows[s], counts[s], dest)[j]) by {
            let e = block_of(rows[s], counts[s], dest)[j];
            let w = gathered_at(rows, counts, dest, p - 1);
            assert(w.contains(e));
            let j2 = choose|j2: int| 0 <= j2 < w.len() && w[j2] == e;
            assert(gathered_at(rows, counts, dest, p)[j2] == e);
        }
    }
}

/// Chunk `j` of a chunked selection is the chunk of the `j`-th selected
/// index.
pub proof fn lemma_chunks_of_chunk<T>(g: Seq<T>, idxs: Seq<usize>, k: int, j: int)
    requires
        k >= 0,
        chunk_indices_valid(g.len() as int, idxs, k),
        0 <= j < idxs.len(),
    ensures
        chunks_of(g, idxs, k).subrange(j * k, j * k + k) == g.subrange(
            idxs[j] * k,
            idxs[j] * k + k,
        ),
    decreases idxs.len(),
{
    assert(chunk_indices_valid(g.len() as int, idxs.drop_last(), k));
    lemma_chunks_len(g, idxs.drop_last(), k);
    vstd::arithmetic::mul::lemma_mul_nonnegative(j, k);
    if j == idxs.len() - 1 {
        assert(j * k == (idxs.len() - 1) * k);
        assert(chunks_of(g, idxs, k).subrange(j * k, j * k + k) =~= g.subrange(
            idxs[j] * k,
            idxs[j] * k + k,
        ));
    } else {
        lemma_chunks_of_chunk(g, idxs.drop_last(), k, j);
        vstd::arithmetic::mul::lemma_mul_inequality(j + 1, idxs.len() - 1, k);
        assert((j + 1) * k == j * k + k) by (nonlinear_arith);
        assert(chunks_of(g, idxs, k).subrange(j * k, j * k + k) =~= chunks_of(
            g,
            idxs.drop_last(),
            k,
        ).subrange(j * k, j * k + k));
    }
}

proof fn lemma_prefix_total_of_zeros(counts: Seq<usize>, i: int)
    requires
        0 <= i <= counts.len(),
        forall|j: int| 0 <= j < counts.len() ==> #[trigger] counts[j] == 0,
    ensures
        prefix_total(counts, i) == 0,
    decreases i,
{
    if i > 0 {
        lemma_prefix_total_of_zeros(counts, i - 1);
    }
}

proof fn lemma_nonzero_positions_of_zeros(counts: Seq<usize>, p: int)
    requires
        0 <= p <= counts.len(),
        forall|j: int| 0 <= j < counts.len() ==> #[trigger] counts[j] == 0,
    ensures
        nonzero_positions(counts, p).len() == 0,
    decreases p,
{
    if p > 0 {
        lemma_nonzero_positions_of_zeros(counts, p - 1);
    }
}

/// Law: in a consistent family, a rank set that imports nothing exchanges
/// nothing at all — every plan's exports, imports and peer lists are empty.
pub proof fn lemma_empty_family(comms: Seq<GhostCommunicator>)
    requires
        family_wf(comms),
        forall|r: int| 0 <= r < comms.len() ==> (#[trigger] comms[r]).total_recv() == 0,
    ensures
        forall|r: int|
            0 <= r < comms.len() ==> (#[trigger] comms[r]).total_send() == 0 && comms[
                r
            ].recv_idx().len() == 0 && comms[r].send_idx().len() == 0 && comms[
                r
            ].in_ranks_spec().len() == 0 && comms[r].out_ranks_spec().len() == 0,
{
    let p = comms.len() as int;
    assert forall|r: int, s: int|
        0 <= r < p && 0 <= s < p implies #[trigger] comms[r].recv_counts_all()[s] == 0 by {
        assert(comms[r].wf());
        lemma_entry_le_total(comms[r].recv_counts_all(), s);
    }
    assert forall|r: int| 0 <= r < p implies (#[trigger] comms[r]).total_send() == 0 && comms[
        r
    ].recv_idx().len() == 0 && comms[r].send_idx().len() == 0 && comms[r].in_ranks_spec().len()
        == 0 && comms[r].out_ranks_spec().len() == 0 by {
        assert(comms[r].wf());
        assert(forall|s: int|
            0 <= s < p ==> #[trigger] comms[r].send_counts_all()[s] == comms[
                s
            ].recv_counts_all()[r]);
        lemma_prefix_total_of_zeros(comms[r].send_counts_all(), p);
        lemma_nonzero_positions_of_zeros(comms[r].recv_counts_all(), p);
        lemma_nonzero_positions_of_zeros(comms[r].send_counts_all(), p);
    }
}

/// Block `s` of a gathered result is exactly source `s`'s block for the
/// destination.
pub proof fn lemma_block_of_gathered<T>(
    rows: Seq<Seq<T>>,
    counts: Seq<Seq<usize>>,
    dest: int,
    p: int,
    col: Seq<usize>,
    s: int,
)
    requires
        0 <= s < p,
        p <= rows.len(),
        p <= counts.len(),
        p <= col.len(),
        0 <= dest,
        forall|t: int| 0 <= t < p ==> (#[trigger] counts[t]).len() > dest,
        forall|t: int| 0 <= t < p ==> seq_total(#[trigger] counts[t]) == rows[t].len(),
        forall|t: int| 0 <= t < p ==> #[trigger] col[t] == counts[t][dest],
    ensures
        block_of(gathered_at(rows, counts, dest, p), col, s) == block_of(rows[s], counts[s], dest),
    decreases p,
{
    exchange::lemma_prefix_total_monotone(counts[s], 0, dest);
    assert(prefix_total(counts[s], dest + 1) == prefix_total(counts[s], dest) + counts[s][dest]);
    exchange::lemma_prefix_total_monotone(counts[s], dest + 1, counts[s].len() as int);
    exchange::lemma_prefix_total_monotone(col, 0, s);
    assert(prefix_total(col, s + 1) == prefix_total(col, s) + col[s]);
    lemma_gathered_len(rows, counts, dest, s, col);
    if p == s + 1 {
        assert(block_of(gathered_at(rows, counts, dest, p), col, s) =~= block_of(
            rows[s],
            counts[s],
            dest,
        ));
    } else {
        lemma_block_of_gathered(rows, counts, dest, p - 1, col, s);
        lemma_gathered_len(rows, counts, dest, p - 1, col);
        exchange::lemma_prefix_total_monotone(col, s + 1, p - 1);
        assert(block_of(gathered_at(rows, counts, dest, p), col, s) =~= block_of(
            gathered_at(rows, counts, dest, p - 1),
            col,
            s,
        ));
    }
}

/// The first `p` blocks of `x`, concatenated back together.
pub open spec fn concat_blocks<T>(x: Seq<T>, counts: Seq<usize>, p: int) -> Seq<T>
    decreases p,
{
    if p <= 0 {
        Seq::empty()
    } else {
        concat_blocks(x, counts, p - 1) + block_of(x, counts, p - 1)
    }
}

proof fn lemma_concat_blocks_prefix<T>(x: Seq<T>, counts: Seq<usize>, j: int)
    requires
        0 <= j <= counts.len(),
        seq_total(counts) == x.len(),
    ensures
        concat_blocks(x, counts, j) == x.subrange(0, prefix_total(counts, j)),
    decreases j,
{
    exchange::lemma_prefix_total_monotone(counts, 0, j);
    exchange::lemma_prefix_total_monotone(counts, j, counts.len() as int);
    if j <= 0 {
        assert(concat_blocks(x, counts, j) =~= x.subrange(0, prefix_total(counts, j)));
    } else {
        lemma_concat_blocks_prefix(x, counts, j - 1);
        exchange::lemma_prefix_total_monotone(counts, 0, j - 1);
        assert(prefix_total(counts, j) == prefix_total(counts, j - 1) + counts[j - 1]);
        assert(concat_blocks(x, counts, j) =~= x.subrange(0, prefix_total(counts, j)));
    }
}

/// Concatenating all the blocks of `x` gives back `x`.
pub proof fn lemma_concat_blocks_id<T>(x: Seq<T>, counts: Seq<usize>)
    requires
        seq_total(counts) == x.len(),
    ensures
        concat_blocks(x, counts, counts.len() as int) == x,
{
    lemma_concat_blocks_prefix(x, counts, counts.len() as int);
    assert(x.subrange(0, x.len() as int) =~= x);
}

proof fn lemma_forward_wire_totals(comms: Seq<GhostCommunicator>, k: int)
    requires
        family_wf(comms),
        k >= 1,
        forall|r: int|
            0 <= r < comms.len() ==> (#[trigger] comms[r].total_send()) * k <= usize::MAX,
    ensures
        forall|t: int|
            0 <= t < comms.len() ==> seq_total(#[trigger] forward_wire_counts(comms, k)[t])
                == comms[t].total_send() * k,
{
    let p = comms.len() as int;
    assert forall|t: int| 0 <= t < p implies seq_total(#[trigger] forward_wire_counts(comms, k)[t])
        == comms[t].total_send() * k by {
        assert(comms[t].wf());
        assert forall|j: int| 0 <= j < p implies #[trigger] comms[t].send_counts_all()[j] * k
            <= usize::MAX by {
            lemma_entry_le_total(comms[t].send_counts_all(), j);
            vstd::arithmetic::mul::lemma_mul_inequality(
                comms[t].send_counts_all()[j] as int,
                comms[t].total_send(),
                k,
            );
        }
        lemma_scaled_prefix(comms[t].send_counts_all(), k, p);
        assert(k * seq_total(comms[t].send_counts_all()) == comms[t].total_send() * k)
            by (nonlinear_arith)
            requires
                seq_total(comms[t].send_counts_all()) == comms[t].total_send(),
        ;
    }
}

proof fn lemma_backward_wire_totals(comms: Seq<GhostCommunicator>, k: int)
    requires
        family_wf(comms),
        k >= 1,
        forall|r: int|
            0 <= r < comms.len() ==> (#[trigger] comms[r].total_recv()) * k <= usize::MAX,
    ensures
        forall|t: int|
            0 <= t < comms.len() ==> seq_total(#[trigger] backward_wire_counts(comms, k)[t])
                == comms[t].total_recv() * k,
{
    let p = comms.len() as int;
    assert forall|t: int| 0 <= t < p implies seq_total(#[trigger] backward_wire_counts(comms, k)[t])
        == comms[t].total_recv() * k by {
        assert(comms[t].wf());
        assert forall|j: int| 0 <= j < p implies #[trigger] comms[t].recv_counts_all()[j] * k
            <= usize::MAX by {
            lemma_entry_le_total(comms[t].recv_counts_all(), j);
            vstd::arithmetic::mul::lemma_mul_inequality(
                comms[t].recv_counts_all()[j] as int,
                comms[t].total_recv(),
                k,
            );
        }
        lemma_scaled_prefix(comms[t].recv_counts_all(), k, p);
        assert(k * seq_total(comms[t].recv_counts_all()) == comms[t].total_recv() * k)
            by (nonlinear_arith)
            requires
                seq_total(comms[t].recv_counts_all()) == comms[t].total_recv(),
        ;
    }
}

proof fn lemma_backward_terms<T>(
    comms: Seq<GhostCommunicator>,
    k: int,
    data: Seq<Seq<T>>,
    fwd: Seq<Seq<T>>,
    r: int,
    j: int,
)
    requires
        family_wf(comms),
        k >= 1,
        data.len() == comms.len(),
        fwd.len() == comms.len(),
        0 <= r < comms.len(),
        0 <= j <= comms.len(),
        forall|t: int|
            0 <= t < comms.len() ==> (#[trigger] data[t]).len() == comms[t].total_send() * k,
        forall|t: int|
            0 <= t < comms.len() ==> (#[trigger] comms[t].total_send()) * k <= usize::MAX,
        forall|t: int|
            0 <= t < comms.len() ==> (#[trigger] fwd[t]) == gathered_at(
                data,
                forward_wire_counts(comms, k),
                t,
                comms.len() as int,
            ),
    ensures
        gathered_at(fwd, backward_wire_counts(comms, k), r, j) == concat_blocks(
            data[r],
            forward_wire_counts(comms, k)[r],
            j,
        ),
    decreases j,
{
    let p = comms.len() as int;
    if j > 0 {
        lemma_backward_terms(comms, k, data, fwd, r, j - 1);
        let t = j - 1;
        lemma_forward_wire_totals(comms, k);
        assert(comms[t].wf());
        assert(comms[r].wf());
        assert forall|t2: int| 0 <= t2 < p implies #[trigger] backward_wire_counts(comms, k)[t][t2]
            == forward_wire_counts(comms, k)[t2][t] by {
            assert(comms[t2].wf());
            assert(comms[t2].send_counts_all()[t] == comms[t].recv_counts_all()[t2]);
        }
        lemma_block_of_gathered(
            data,
            forward_wire_counts(comms, k),
            t,
            p,
            backward_wire_counts(comms, k)[t],
            r,
        );
    }
}

/// Law: a backward transfer undoes a forward transfer.  Whatever each rank
/// contributed as its export buffer comes back to it unchanged after the
/// imported data is sent back along the reverse arrows.
pub proof fn lemma_backward_undoes_forward<T>(
    comms: Seq<GhostCommunicator>,
    k: int,
    data: Seq<Seq<T>>,
    fwd: Seq<Seq<T>>,
    back: Seq<Seq<T>>,
)
    requires
        family_wf(comms),
        k >= 1,
        data.len() == comms.len(),
        fwd.len() == comms.len(),
        back.len() == comms.len(),
        forall|r: int|
            0 <= r < comms.len() ==> (#[trigger] data[r]).len() == comms[r].total_send() * k,
        forall|r: int|
            0 <= r < comms.len() ==> (#[trigger] comms[r].total_send()) * k <= usize::MAX,
        forall|r: int|
            0 <= r < comms.len() ==> (#[trigger] fwd[r]) == gathered_at(
                data,
                forward_wire_counts(comms, k),
                r,
                comms.len() as int,
            ),
        forall|r: int|
            0 <= r < comms.len() ==> (#[trigger] back[r]) == gathered_at(
                fwd,
                backward_wire_counts(comms, k),
                r,
                comms.len() as int,
            ),
    ensures
        forall|r: int| 0 <= r < comms.len() ==> (#[trigger] back[r]) == data[r],
{
    let p = comms.len() as int;
    assert forall|r: int| 0 <= r < p implies (#[trigger] back[r]) == data[r] by {
        lemma_backward_terms(comms, k, data, fwd, r, p);
        lemma_forward_wire_totals(comms, k);
        lemma_concat_blocks_id(data[r], forward_wire_counts(comms, k)[r]);
        assert(comms[r].wf());
    }
}

/// The chunks of the global array `g` selected by `idxs`, `k` elements per
/// index, concatenated in order.
pub open spec fn chunks_of<T>(g: Seq<T>, idxs: Seq<usize>, k: int) -> Seq<T>
    decreases idxs.len(),
{
    if idxs.len() == 0 {
        Seq::empty()
    } else {
        chunks_of(g, idxs.drop_last(), k) + g.subrange(
            idxs.last() * k,
            idxs.last() * k + k,
        )
    }
}

/// Every chunk selected by `idxs` lies inside an array of `g_len` elements.
pub open spec fn chunk_indices_valid(g_len: int, idxs: Seq<usize>, k: int) -> bool {
    forall|i: int| 0 <= i < idxs.len() ==> #[trigger] idxs[i] * k + k <= g_len
}

pub proof fn lemma_chunks_len<T>(g: Seq<T>, idxs: Seq<usize>, k: int)
    requires
        k >= 0,
        chunk_indices_valid(g.len() as int, idxs, k),
    ensures
        chunks_of(g, idxs, k).len() == idxs.len() * k,
    decreases idxs.len(),
{
    if idxs.len() == 0 {
        assert(0 * k == 0) by (nonlinear_arith);
    } else {
        assert(chunk_indices_valid(g.len() as int, idxs.drop_last(), k));
        lemma_chunks_len(g, idxs.drop_last(), k);
        vstd::arithmetic::mul::lemma_mul_nonnegative(idxs.last() as int, k);
        assert(idxs.len() * k == (idxs.len() - 1) * k + k) by (nonlinear_arith);
    }
}

proof fn lemma_chunks_concat<T>(g: Seq<T>, a: Seq<usize>, b: Seq<usize>, k: int)
    ensures
        chunks_of(g, a + b, k) == chunks_of(g, a, k) + chunks_of(g, b, k),
    decreases b.len(),
{
    if b.len() == 0 {
        assert(a + b =~= a);
        assert(chunks_of(g, a, k) + chunks_of(g, b, k) =~= chunks_of(g, a, k));
    } else {
        assert((a + b).drop_last() =~= a + b.drop_last());
        lemma_chunks_concat(g, a, b.drop_last(), k);
        assert((a + b).last() == b.last());
        assert(chunks_of(g, a, k) + chunks_of(g, b.drop_last(), k) + g.subrange(
            b.last() * k,
            b.last() * k + k,
        ) =~= chunks_of(g, a, k) + (chunks_of(g, b.drop_last(), k) + g.subrange(
            b.last() * k,
            b.last() * k + k,
        )));
    }
}

/// A block of a chunked selection is the chunked selection of the block.
proof fn lemma_block_of_chunks<T>(g: Seq<T>, idxs: Seq<usize>, counts: Seq<usize>, k: int, r: int)
    requires
        k >= 0,
        chunk_indices_valid(g.len() as int, idxs, k),
        0 <= r < counts.len(),
        seq_total(counts) == idxs.len(),
        forall|j: int| 0 <= j < counts.len() ==> #[trigger] counts[j] * k <= usize::MAX,
    ensures
        block_of(chunks_of(g, idxs, k), scaled(counts, k), r) == chunks_of(
            g,
            block_of(idxs, counts, r),
            k,
        ),
{
    let lo = prefix_total(counts, r);
    let hi = prefix_total(counts, r + 1);
    exchange::lemma_prefix_total_monotone(counts, 0, r);
    assert(hi == lo + counts[r]);
    exchange::lemma_prefix_total_monotone(counts, r + 1, counts.len() as int);
    let a = idxs.subrange(0, lo);
    let b = idxs.subrange(lo, hi);
    let c = idxs.subrange(hi, idxs.len() as int);
    assert(idxs =~= (a + b) + c);
    lemma_chunks_concat(g, a + b, c, k);
    lemma_chunks_concat(g, a, b, k);
    assert(chunk_indices_valid(g.len() as int, a, k));
    assert(chunk_indices_valid(g.len() as int, b, k));
    lemma_chunks_len(g, a, k);
    lemma_chunks_len(g, b, k);
    lemma_scaled_prefix(counts, k, r);
    lemma_scaled_prefix(counts, k, r + 1);
    assert(chunks_of(g, idxs, k) == chunks_of(g, a, k) + chunks_of(g, b, k) + chunks_of(g, c, k));
    assert(block_of(chunks_of(g, idxs, k), scaled(counts, k), r) =~= chunks_of(g, b, k)) by {
        assert(chunks_of(g, a, k).len() == lo * k);
        assert(chunks_of(g, b, k).len() == (hi - lo) * k);
        assert(lo * k == k * lo) by (nonlinear_arith);
        assert((hi - lo) * k + lo * k == hi * k) by (nonlinear_arith);
        assert(hi * k == k * hi) by (nonlinear_arith);
    }
    assert(block_of(idxs, counts, r) == b);
}

/// Law: when every rank's export buffer holds, for each of its export
/// indices in order, the chunk of one global array `g` at that index, then a
/// forward transfer delivers to every rank, for each of its import indices
/// in order, the chunk of `g` at that index.
pub proof fn lemma_forward_carries_chunks<T>(
    comms: Seq<GhostCommunicator>,
    k: int,
    g: Seq<T>,
    data: Seq<Seq<T>>,
    fwd: Seq<Seq<T>>,
)
    requires
        family_wf(comms),
        k >= 1,
        data.len() == comms.len(),
        fwd.len() == comms.len(),
        forall|r: int|
            0 <= r < comms.len() ==> chunk_indices_valid(
                g.len() as int,
                (#[trigger] comms[r]).send_idx(),
                k,
            ),
        forall|r: int|
            0 <= r < comms.len() ==> (#[trigger] data[r]) == chunks_of(g, comms[r].send_idx(), k),
        forall|r: int|
            0 <= r < comms.len() ==> (#[trigger] comms[r].total_send()) * k <= usize::MAX,
        forall|r: int|
            0 <= r < comms.len() ==> (#[trigger] fwd[r]) == gathered_at(
                data,
                forward_wire_counts(comms, k),
                r,
                comms.len() as int,
            ),
    ensures
        forall|r: int|
            0 <= r < comms.len() ==> (#[trigger] fwd[r]) == chunks_of(g, comms[r].recv_idx(), k),
{
    let p = comms.len() as int;
    assert forall|r: int| 0 <= r < p implies (#[trigger] fwd[r]) == chunks_of(
        g,
        comms[r].recv_idx(),
        k,
    ) by {
        lemma_forward_terms(comms, k, g, data, r, p);
        assert(comms[r].wf());
        lemma_concat_blocks_id(comms[r].recv_idx(), comms[r].recv_counts_all());
    }
}

proof fn lemma_forward_terms<T>(
    comms: Seq<GhostCommunicator>,
    k: int,
    g: Seq<T>,
    data: Seq<Seq<T>>,
    r: int,
    j: int,
)
    requires
        family_wf(comms),
        k >= 1,
        data.len() == comms.len(),
        0 <= r < comms.len(),
        0 <= j <= comms.len(),
        forall|t: int|
            0 <= t < comms.len() ==> chunk_indices_valid(
                g.len() as int,
                (#[trigger] comms[t]).send_idx(),
                k,
            ),
        forall|t: int|
            0 <= t < comms.len() ==> (#[trigger] data[t]) == chunks_of(g, comms[t].send_idx(), k),
        forall|t: int|
            0 <= t < comms.len() ==> (#[trigger] comms[t].total_send()) * k <= usize::MAX,
    ensures
        gathered_at(data, forward_wire_counts(comms, k), r, j) == chunks_of(
            g,
            concat_blocks(comms[r].recv_idx(), comms[r].recv_counts_all(), j),
            k,
        ),
    decreases j,
{
    let p = comms.len() as int;
    if j <= 0 {
    } else {
        lemma_forward_terms(comms, k, g, data, r, j - 1);
        let t = j - 1;
        assert(comms[t].wf());
        assert(comms[r].wf());
        assert forall|j2: int| 0 <= j2 < p implies #[trigger] comms[t].send_counts_all()[j2] * k
            <= usize::MAX by {
            lemma_entry_le_total(comms[t].send_counts_all(), j2);
            vstd::arithmetic::mul::lemma_mul_inequality(
                comms[t].send_counts_all()[j2] as int,
                comms[t].total_send(),
                k,
            );
        }
        lemma_block_of_chunks(g, comms[t].send_idx(), comms[t].send_counts_all(), k, r);
        assert(forward_wire_counts(comms, k)[t] == scaled(comms[t].send_counts_all(), k));
        // The block of `t`'s export list destined to `r` is the block of
        // `r`'s import list sourced from `t`.
        assert forall|t2: int| 0 <= t2 < p implies (#[trigger] comms[t2].recv_counts_all()).len()
            > t && seq_total(comms[t2].recv_counts_all()) == comms[t2].recv_idx().len()
            && comms[t].send_counts_all()[t2] == comms[t2].recv_counts_all()[t] by {
            assert(comms[t2].wf());
            assert(comms[t].send_counts_all()[t2] == comms[t2].recv_counts_all()[t]);
        }
        lemma_block_of_gathered(
            Seq::new(p as nat, |s: int| comms[s].recv_idx()),
            Seq::new(p as nat, |s: int| comms[s].recv_counts_all()),
            t,
            p,
            comms[t].send_counts_all(),
            r,
        );
        lemma_chunks_concat(
            g,
            concat_blocks(comms[r].recv_idx(), comms[r].recv_counts_all(), j - 1),
            block_of(comms[r].recv_idx(), comms[r].recv_counts_all(), t),
            k,
        );
    }
}

/// Law: when every rank's import buffer holds, for each of its import
/// indices in order, the chunk of one global array `g` at that index, then a
/// backward transfer delivers to every rank, for each of its export indices
/// in order, the chunk of `g` at that index.
pub proof fn lemma_backward_carries_chunks<T>(
    comms: Seq<GhostCommunicator>,
    k: int,
    g: Seq<T>,
    data: Seq<Seq<T>>,
    back: Seq<Seq<T>>,
)
    requires
        family_wf(comms),
        k >= 1,
        data.len() == comms.len(),
        back.len() == comms.len(),
        forall|r: int|
            0 <= r < comms.len() ==> chunk_indices_valid(
                g.len() as int,
                (#[trigger] comms[r]).recv_idx(),
                k,
            ),
        forall|r: int|
            0 <= r < comms.len() ==> (#[trigger] data[r]) == chunks_of(g, comms[r].recv_idx(), k),
        forall|r: int|
            0 <= r < comms.len() ==> (#[trigger] comms[r].total_recv()) * k <= usize::MAX,
        forall|r: int|
            0 <= r < comms.len() ==> (#[trigger] back[r]) == gathered_at(
                data,
                backward_wire_counts(comms, k),
                r,
                comms.len() as int,
            ),
    ensures
        forall|r: int|
            0 <= r < comms.len() ==> (#[trigger] back[r]) == chunks_of(g, comms[r].send_idx(), k),
{
    let p = comms.len() as int;
    assert forall|r: int| 0 <= r < p implies (#[trigger] back[r]) == chunks_of(
        g,
        comms[r].send_idx(),
        k,
    ) by {
        lemma_backward_chunk_terms(comms, k, g, data, r, p);
        assert(comms[r].wf());
    }
}

proof fn lemma_backward_chunk_terms<T>(
    comms: Seq<GhostCommunicator>,
    k: int,
    g: Seq<T>,
    data: Seq<Seq<T>>,
    r: int,
    j: int,
)
    requires
        family_wf(comms),
        k >= 1,
        data.len() == comms.len(),
        0 <= r < comms.len(),
        0 <= j <= comms.len(),
        forall|t: int|
            0 <= t < comms.len() ==> chunk_indices_valid(
                g.len() as int,
                (#[trigger] comms[t]).recv_idx(),
                k,
            ),
        forall|t: int|
            0 <= t < comms.len() ==> (#[trigger] data[t]) == chunks_of(g, comms[t].recv_idx(), k),
        forall|t: int|
            0 <= t < comms.len() ==> (#[trigger] comms[t].total_recv()) * k <= usize::MAX,
    ensures
        gathered_at(data, backward_wire_counts(comms, k), r, j) == chunks_of(
            g,
            gathered_at(
                Seq::new(comms.len(), |s: int| comms[s].recv_idx()),
                Seq::new(comms.len(), |s: int| comms[s].recv_counts_all()),
                r,
                j,
            ),
            k,
        ),
    decreases j,
{
    let p = comms.len() as int;
    if j <= 0 {
    } else {
        lemma_backward_chunk_terms(comms, k, g, data, r, j - 1);
        let t = j - 1;
        assert(comms[t].wf());
        assert forall|j2: int| 0 <= j2 < p implies #[trigger] comms[t].recv_counts_all()[j2] * k
            <= usize::MAX by {
            lemma_entry_le_total(comms[t].recv_counts_all(), j2);
            vstd::arithmetic::mul::lemma_mul_inequality(
                comms[t].recv_counts_all()[j2] as int,
                comms[t].total_recv(),
                k,
            );
        }
        lemma_block_of_chunks(g, comms[t].recv_idx(), comms[t].recv_counts_all(), k, r);
        assert(backward_wire_counts(comms, k)[t] == scaled(comms[t].recv_counts_all(), k));
        lemma_chunks_concat(
            g,
            gathered_at(
                Seq::new(comms.len(), |s: int| comms[s].recv_idx()),
                Seq::new(comms.len(), |s: int| comms[s].recv_counts_all()),
                r,
                j - 1,
            ),
            block_of(comms[t].recv_idx(), comms[t].recv_counts_all(), r),
            k,
        );
    }
}

} // verus!
