//! Maps global data to the local data each process requires.
//!
//! Every process names the global indices it needs — in any order, possibly
//! with duplicates, possibly including its own.  The mapper partitions that
//! list into owned and ghost entries, builds a ghost-communicator exchange
//! plan for the ghosts, and then materialises, for any distributed data
//! vector, the requested values in the order of the request list.

use crate::exchange;
use crate::exchange::{chunk_at, concat_rows, rows_view, seq_total};
use crate::ghost_communicator;
use crate::ghost_communicator::{
    chunk_indices_valid, chunks_of, grouped_by_owner, wanted_from, GhostCommunicator,
};
use crate::index_layout;
use crate::index_layout::{layout_wf, owner_of, total_of, IndexLayout};
use std::collections::HashMap;
use vstd::prelude::*;

verus! {

broadcast use vstd::std_specs::hash::group_hash_axioms;

/// Maps global data to local data for one rank.
#[verifier::reject_recursive_types(L)]
pub struct Global2LocalDataMapper<L: IndexLayout> {
    index_layout: L,
    ghost_communicator: GhostCommunicator,
    owned_dofs: Vec<usize>,
    ghost_dofs: Vec<usize>,
    dof_to_position: HashMap<usize, usize>,
    required_dofs: Vec<usize>,
    receive_slot: HashMap<usize, usize>,
}

impl<L: IndexLayout> Global2LocalDataMapper<L> {
    /// The layout, for specifications.
    pub closed spec fn layout_spec(&self) -> L {
        self.index_layout
    }

    /// The layout's boundaries, for specifications.
    pub open spec fn counts_of(&self) -> Seq<usize> {
        self.layout_spec().counts_seq()
    }

    /// The exchange plan, for specifications.
    pub closed spec fn comm_spec(&self) -> GhostCommunicator {
        self.ghost_communicator
    }

    /// The required index list, for specifications.
    pub closed spec fn required_spec(&self) -> Seq<usize> {
        self.required_dofs@
    }

    /// The position map, for specifications.
    pub closed spec fn pos_map_spec(&self) -> Map<usize, usize> {
        self.dof_to_position@
    }

    /// The map from ghost index to its slot in the import buffer, for
    /// specifications.
    pub closed spec fn slot_map_spec(&self) -> Map<usize, usize> {
        self.receive_slot@
    }

    /// The index layout the mapper was built over.
    pub fn index_layout(&self) -> (r: &L)
        ensures
            *r == self.layout_spec(),
    {
        &self.index_layout
    }

    /// The ghost communicator used for the exchange.
    pub fn ghost_communicator(&self) -> (r: &GhostCommunicator)
        ensures
            *r == self.comm_spec(),
    {
        &self.ghost_communicator
    }

    /// The required index list the mapper was built from.
    pub fn required_dofs(&self) -> (r: &Vec<usize>)
        ensures
            r@ == self.required_spec(),
    {
        &self.required_dofs
    }

    /// The map from each distinct required index to its first position in
    /// the required list.
    pub fn dof_to_position_map(&self) -> (r: &HashMap<usize, usize>)
        ensures
            r@ == self.pos_map_spec(),
    {
        &self.dof_to_position
    }
}

/// The exchange plans of a family of mappers, one per rank.
pub open spec fn comms_of<L: IndexLayout>(
    mappers: Seq<Global2LocalDataMapper<L>>,
) -> Seq<GhostCommunicator> {
    Seq::new(mappers.len(), |r: int| mappers[r].comm_spec())
}

/// The ghost entries of a required list: the subsequence of `req` whose
/// entries rank `r` does not own under the boundaries `counts`, in their
/// original order.
pub open spec fn ghost_dofs_of(req: Seq<usize>, counts: Seq<usize>, r: int) -> Seq<usize>
    decreases req.len(),
{
    if req.len() == 0 {
        Seq::empty()
    } else {
        let init = ghost_dofs_of(req.drop_last(), counts, r);
        if owner_of(counts, req.last() as int) != r {
            init.push(req.last())
        } else {
            init
        }
    }
}

/// Law: a rank that owns every index it requires has no ghost entries, so
/// its exchange plan imports nothing.
pub proof fn lemma_no_ghosts_when_all_owned(req: Seq<usize>, counts: Seq<usize>, r: int)
    requires
        forall|i: int|
            0 <= i < req.len() ==> owner_of(counts, (#[trigger] req[i]) as int) == r,
    ensures
        ghost_dofs_of(req, counts, r).len() == 0,
    decreases req.len(),
{
    if req.len() > 0 {
        assert(forall|i: int|
            0 <= i < req.len() - 1 ==> owner_of(counts, (#[trigger] req.drop_last()[i]) as int)
                == r);
        lemma_no_ghosts_when_all_owned(req.drop_last(), counts, r);
        assert(owner_of(counts, req[req.len() - 1] as int) == r);
    }
}

/// The owner rank of each ghost entry, aligned with `ghost_dofs_of`.
pub open spec fn ghost_owners_of(req: Seq<usize>, counts: Seq<usize>, r: int) -> Seq<usize>
    decreases req.len(),
{
    if req.len() == 0 {
        Seq::empty()
    } else {
        let init = ghost_owners_of(req.drop_last(), counts, r);
        if owner_of(counts, req.last() as int) != r {
            init.push(owner_of(counts, req.last() as int) as usize)
        } else {
            init
        }
    }
}

/// Consistency of a family of mappers, one per rank: all ranks share the
/// boundaries, the exchange plans form a consistent family, every export
/// index is owned by its exporter, every import index is a valid global
/// index, and the position and slot maps describe the required list and the
/// import buffer.
pub open spec fn mapper_family_wf<L: IndexLayout>(
    mappers: Seq<Global2LocalDataMapper<L>>,
) -> bool {
    let p = mappers.len() as int;
    let counts = mappers[0].counts_of();
    &&& p >= 1
    &&& ghost_communicator::family_wf(comms_of(mappers))
    &&& forall|r: int| 0 <= r < p ==> (#[trigger] mappers[r].counts_of()) == counts
    &&& counts.len() == p + 1
    &&& counts[0] == 0
    &&& crate::array_tools::is_non_decreasing(counts)
    &&& forall|r: int, i: int|
        0 <= r < p && 0 <= i < mappers[r].required_spec().len() ==> (
        #[trigger] mappers[r].required_spec()[i]) < total_of(counts)
    &&& forall|r: int, i: int|
        0 <= r < p && 0 <= i < mappers[r].required_spec().len() && owner_of(
            counts,
            #[trigger] mappers[r].required_spec()[i] as int,
        ) != r ==> mappers[r].slot_map_spec().contains_key(mappers[r].required_spec()[i])
    &&& forall|r: int, d: usize|
        0 <= r < p && (#[trigger] mappers[r].slot_map_spec().contains_key(d)) ==> mappers[r]
            .slot_map_spec()[d] < mappers[r].comm_spec().recv_idx().len() && mappers[r]
            .comm_spec().recv_idx()[mappers[r].slot_map_spec()[d] as int] == d
    &&& forall|r: int, j: int|
        0 <= r < p && 0 <= j < mappers[r].comm_spec().send_idx().len() ==> counts[r] <= (
        #[trigger] mappers[r].comm_spec().send_idx()[j]) < counts[r + 1]
    &&& forall|r: int, j: int|
        0 <= r < p && 0 <= j < mappers[r].comm_spec().recv_idx().len() ==> (
        #[trigger] mappers[r].comm_spec().recv_idx()[j]) < total_of(counts)
    &&& forall|r: int, d: usize|
        0 <= r < p && (#[trigger] mappers[r].pos_map_spec().contains_key(d)) ==> mappers[r]
            .pos_map_spec()[d] < mappers[r].required_spec().len() && mappers[r].required_spec()[
            mappers[r].pos_map_spec()[d] as int
        ] == d
    &&& forall|r: int, i: int|
        0 <= r < p && 0 <= i < mappers[r].required_spec().len() ==> mappers[r]
            .pos_map_spec().contains_key(#[trigger] mappers[r].required_spec()[i])
    &&& forall|r: int, t: int|
        0 <= r < p && 0 <= t < mappers[r].comm_spec().recv_idx().len() ==> mappers[r]
            .pos_map_spec().contains_key(#[trigger] mappers[r].comm_spec().recv_idx()[t])
    &&& forall|r: int, s: int, j: int|
        0 <= r < p && 0 <= s < p && 0 <= j < exchange::block_of(
            mappers[r].comm_spec().recv_idx(),
            mappers[r].comm_spec().recv_counts_all(),
            s,
        ).len() ==> owner_of(
            counts,
            (#[trigger] exchange::block_of(
                mappers[r].comm_spec().recv_idx(),
                mappers[r].comm_spec().recv_counts_all(),
                s,
            )[j]) as int,
        ) == s
}

proof fn lemma_grouped_entries_pred(
    req: Seq<usize>,
    owners: Seq<usize>,
    p: int,
    pred: spec_fn(usize) -> bool,
)
    requires
        owners.len() == req.len(),
        forall|i: int| 0 <= i < req.len() ==> pred(#[trigger] req[i]),
    ensures
        forall|j: int|
            0 <= j < grouped_by_owner(req, owners, p).len() ==> pred(
                #[trigger] grouped_by_owner(req, owners, p)[j],
            ),
    decreases p,
{
    if p > 0 {
        lemma_grouped_entries_pred(req, owners, p - 1, pred);
        ghost_communicator::lemma_wanted_from_entries(req, owners, p - 1, pred);
        let init = grouped_by_owner(req, owners, p - 1);
        let tail = wanted_from(req, owners, p - 1);
        let whole = grouped_by_owner(req, owners, p);
        assert forall|j: int| 0 <= j < whole.len() implies pred(whole[j]) by {
            if j < init.len() {
                assert(whole[j] == init[j]);
            } else {
                assert(whole[j] == tail[j - init.len()]);
            }
        }
    }
}

impl<L: IndexLayout> Global2LocalDataMapper<L> {
    /// Build the mappers of all ranks collectively.
    ///
    /// `index_layouts[r]` is rank `r`'s view of one common layout and
    /// `all_required[r]` the global indices rank `r` requires, in any order
    /// and possibly with duplicates.
    pub fn new(index_layouts: Vec<L>, all_required: &Vec<Vec<usize>>) -> (mappers: Vec<
        Global2LocalDataMapper<L>,
    >)
        requires
            index_layouts@.len() >= 1,
            all_required@.len() == index_layouts@.len(),
            forall|r: int|
                0 <= r < index_layouts@.len() ==> layout_wf(
                    (#[trigger] index_layouts@[r]).counts_seq(),
                    r,
                    index_layouts@.len() as int,
                ),
            forall|r: int|
                0 <= r < index_layouts@.len() ==> (#[trigger] index_layouts@[r]).counts_seq()
                    == index_layouts@[0].counts_seq(),
            forall|r: int, i: int|
                0 <= r < all_required@.len() && 0 <= i < all_required@[r]@.len() ==> (
                #[trigger] all_required@[r]@[i]) < total_of(index_layouts@[0].counts_seq()),
        ensures
            mappers@.len() == index_layouts@.len(),
            mapper_family_wf(mappers@),
            forall|r: int|
                0 <= r < mappers@.len() ==> (#[trigger] mappers@[r].required_spec())
                    == all_required@[r]@,
            forall|r: int|
                0 <= r < mappers@.len() ==> (#[trigger] mappers@[r].counts_of())
                    == index_layouts@[0].counts_seq(),
            forall|r: int|
                0 <= r < mappers@.len() ==> (#[trigger] mappers@[r].layout_spec())
                    == index_layouts@[r],
            // The exchange plan is the one built from the ghost entries of
            // the required list: the imports are exactly those entries
            // grouped by owner rank, in stable order.
            forall|r: int|
                0 <= r < mappers@.len() ==> (#[trigger] mappers@[r].comm_spec().recv_idx())
                    == grouped_by_owner(
                    ghost_dofs_of(all_required@[r]@, index_layouts@[0].counts_seq(), r),
                    ghost_owners_of(all_required@[r]@, index_layouts@[0].counts_seq(), r),
                    all_required@.len() as int,
                ),
            forall|r: int, s: int|
                0 <= r < mappers@.len() && 0 <= s < mappers@.len() ==> (#[trigger] mappers@[
                    r
                ].comm_spec().recv_counts_all()[s]) == wanted_from(
                    ghost_dofs_of(all_required@[r]@, index_layouts@[0].counts_seq(), r),
                    ghost_owners_of(all_required@[r]@, index_layouts@[0].counts_seq(), r),
                    s,
                ).len(),
            forall|r: int|
                0 <= r < mappers@.len() ==> (#[trigger] mappers@[r].comm_spec().total_recv())
                    == ghost_dofs_of(
                    all_required@[r]@,
                    index_layouts@[0].counts_seq(),
                    r,
                ).len(),
    {
        let p = index_layouts.len();
        let ghost counts0 = index_layouts@[0].counts_seq();
        // Partition every rank's required list into owned and ghost entries.
        let mut all_ghost: Vec<Vec<usize>> = Vec::new();
        let mut all_owner: Vec<Vec<usize>> = Vec::new();
        let mut all_owned: Vec<Vec<usize>> = Vec::new();
        let mut all_posmap: Vec<HashMap<usize, usize>> = Vec::new();
        let mut r: usize = 0;
        while r < p
            invariant
                r <= p,
                p == index_layouts@.len(),
                all_required@.len() == p,
                counts0 == index_layouts@[0].counts_seq(),
                forall|r2: int|
                    0 <= r2 < p ==> layout_wf(
                        (#[trigger] index_layouts@[r2]).counts_seq(),
                        r2,
                        p as int,
                    ),
                forall|r2: int|
                    0 <= r2 < p ==> (#[trigger] index_layouts@[r2]).counts_seq() == counts0,
                forall|r2: int, i: int|
                    0 <= r2 < p && 0 <= i < all_required@[r2]@.len() ==> (
                    #[trigger] all_required@[r2]@[i]) < total_of(counts0),
                all_ghost@.len() == r,
                all_owner@.len() == r,
                all_owned@.len() == r,
                all_posmap@.len() == r,
                forall|r2: int|
                    0 <= r2 < r ==> (#[trigger] all_owner@[r2]@).len() == all_ghost@[r2]@.len(),
                forall|r2: int, j: int|
                    0 <= r2 < r && 0 <= j < all_ghost@[r2]@.len() ==> (
                    #[trigger] all_owner@[r2]@[j]) == owner_of(
                        counts0,
                        all_ghost@[r2]@[j] as int,
                    ) && all_owner@[r2]@[j] != r2 && all_owner@[r2]@[j] < p
                        && all_ghost@[r2]@[j] < total_of(counts0),
                forall|r2: int|
                    0 <= r2 < r ==> (#[trigger] all_ghost@[r2]@) == ghost_dofs_of(
                        all_required@[r2]@,
                        counts0,
                        r2,
                    ),
                forall|r2: int|
                    0 <= r2 < r ==> (#[trigger] all_owner@[r2]@) == ghost_owners_of(
                        all_required@[r2]@,
                        counts0,
                        r2,
                    ),
                forall|r2: int, i: int|
                    0 <= r2 < r && 0 <= i < all_required@[r2]@.len() && owner_of(
                        counts0,
                        #[trigger] all_required@[r2]@[i] as int,
                    ) != r2 ==> all_ghost@[r2]@.contains(all_required@[r2]@[i]),
                forall|r2: int, d: usize|
                    0 <= r2 < r && (#[trigger] all_posmap@[r2]@.contains_key(d))
                        ==> all_posmap@[r2]@[d] < all_required@[r2]@.len()
                        && all_required@[r2]@[all_posmap@[r2]@[d] as int] == d,
                forall|r2: int, i: int|
                    0 <= r2 < r && 0 <= i < all_required@[r2]@.len() ==> all_posmap@[
                        r2
                    ]@.contains_key(#[trigger] all_required@[r2]@[i]),
                forall|r2: int, j: int|
                    0 <= r2 < r && 0 <= j < all_ghost@[r2]@.len() ==> all_posmap@[
                        r2
                    ]@.contains_key(#[trigger] all_ghost@[r2]@[j]),
            decreases p - r,
        {
            let layout = &index_layouts[r];
            let counts = layout.counts();
            let req = &all_required[r];
            let nreq = req.len();
            let mut owned: Vec<usize> = Vec::new();
            let mut ghosts: Vec<usize> = Vec::new();
            let mut owners: Vec<usize> = Vec::new();
            let mut posmap: HashMap<usize, usize> = HashMap::new();
            proof {
                assert(ghosts@ =~= ghost_dofs_of(req@.subrange(0, 0), counts0, r as int));
                assert(owners@ =~= ghost_owners_of(req@.subrange(0, 0), counts0, r as int));
            }
            let mut i: usize = 0;
            while i < nreq
                invariant
                    i <= nreq,
                    r < p,
                    p == index_layouts@.len(),
                    all_required@.len() == p,
                    nreq == req@.len(),
                    req@ == all_required@[r as int]@,
                    counts@ == counts0,
                    layout_wf(counts0, r as int, p as int),
                    forall|i2: int| 0 <= i2 < nreq ==> (#[trigger] req@[i2]) < total_of(counts0),
                    owners@.len() == ghosts@.len(),
                    ghosts@ == ghost_dofs_of(req@.subrange(0, i as int), counts0, r as int),
                    owners@ == ghost_owners_of(req@.subrange(0, i as int), counts0, r as int),
                    forall|j: int|
                        0 <= j < ghosts@.len() ==> (#[trigger] owners@[j]) == owner_of(
                            counts0,
                            ghosts@[j] as int,
                        ) && owners@[j] != r && owners@[j] < p && ghosts@[j] < total_of(counts0),
                    forall|i2: int|
                        0 <= i2 < i && owner_of(counts0, #[trigger] req@[i2] as int) != r
                            ==> ghosts@.contains(req@[i2]),
                    forall|d: usize|
                        (#[trigger] posmap@.contains_key(d)) ==> posmap@[d] < i && req@[posmap@[
                            d
                        ] as int] == d,
                    forall|i2: int|
                        0 <= i2 < i ==> posmap@.contains_key(#[trigger] req@[i2]),
                    forall|j: int|
                        0 <= j < ghosts@.len() ==> posmap@.contains_key(#[trigger] ghosts@[j]),
                decreases nreq - i,
            {
                let dof = req[i];
                if !posmap.contains_key(&dof) {
                    posmap.insert(dof, i);
                }
                proof {
                    index_layout::lemma_owner_of_bounds(counts0, dof as int);
                }
                let owner = index_layout::rank_from_index_search(counts, p, dof).unwrap();
                let ghost ghosts_prev = ghosts@;
                if owner == r {
                    owned.push(dof);
                } else {
                    ghosts.push(dof);
                    owners.push(owner);
                }
                proof {
                    assert(req@.subrange(0, i + 1).drop_last() =~= req@.subrange(0, i as int));
                    assert(req@.subrange(0, i + 1).last() == req@[i as int]);
                }
                proof {
                    assert forall|i2: int|
                        0 <= i2 < i + 1 && owner_of(counts0, #[trigger] req@[i2] as int)
                            != r implies ghosts@.contains(req@[i2]) by {
                        if i2 < i {
                            let j = choose|j: int|
                                0 <= j < ghosts_prev.len() && ghosts_prev[j] == req@[i2];
                            assert(ghosts@[j] == req@[i2]);
                        } else {
                            assert(ghosts@[ghosts@.len() - 1] == req@[i2]);
                        }
                    }
                }
                i = i + 1;
            }
            proof {
                assert(req@.subrange(0, nreq as int) =~= req@);
            }
            all_ghost.push(ghosts);
            all_owner.push(owners);
            all_owned.push(owned);
            all_posmap.push(posmap);
            r = r + 1;
        }
        // Build the exchange plans for the ghost entries collectively.
        let comms = GhostCommunicator::new(&all_ghost, &all_owner);
        let ghost comms0 = comms@;
        proof {
            // Every import index is a valid global index.
            assert forall|r2: int, j: int|
                0 <= r2 < p && 0 <= j < comms0[r2].recv_idx().len() implies (
            #[trigger] comms0[r2].recv_idx()[j]) < total_of(counts0) by {
                let pred = |d: usize| (d as int) < total_of(counts0);
                assert forall|i2: int| 0 <= i2 < all_ghost@[r2]@.len() implies pred(
                    #[trigger] all_ghost@[r2]@[i2],
                ) by {
                    assert(all_owner@[r2]@[i2] == owner_of(counts0, all_ghost@[r2]@[i2] as int));
                }
                lemma_grouped_entries_pred(all_ghost@[r2]@, all_owner@[r2]@, p as int, pred);
            }
            // Every import index is a required index, so the position map
            // knows it.
            assert forall|r2: int, t: int|
                0 <= r2 < p && 0 <= t < comms0[r2].recv_idx().len() implies all_posmap@[
                r2
            ]@.contains_key(#[trigger] comms0[r2].recv_idx()[t]) by {
                let pred = |d: usize| all_posmap@[r2]@.contains_key(d);
                assert(forall|j: int|
                    0 <= j < all_ghost@[r2]@.len() ==> pred(#[trigger] all_ghost@[r2]@[j]));
                lemma_grouped_entries_pred(all_ghost@[r2]@, all_owner@[r2]@, p as int, pred);
            }
            // Each import block holds indices owned by its source rank.
            assert forall|r2: int, s: int, j: int|
                0 <= r2 < p && 0 <= s < p && 0 <= j < exchange::block_of(
                    comms0[r2].recv_idx(),
                    comms0[r2].recv_counts_all(),
                    s,
                ).len() implies owner_of(
                counts0,
                (#[trigger] exchange::block_of(
                    comms0[r2].recv_idx(),
                    comms0[r2].recv_counts_all(),
                    s,
                )[j]) as int,
            ) == s by {
                assert(comms0[r2].wf());
                ghost_communicator::lemma_block_of_grouped(
                    all_ghost@[r2]@,
                    all_owner@[r2]@,
                    comms0[r2].recv_counts_all(),
                    p as int,
                    s,
                );
                let pred = |d: usize| owner_of(counts0, d as int) == s;
                assert forall|i2: int|
                    0 <= i2 < all_ghost@[r2]@.len() && all_owner@[r2]@[i2] == s implies pred(
                    #[trigger] all_ghost@[r2]@[i2],
                ) by {
                    assert(all_owner@[r2]@[i2] == owner_of(counts0, all_ghost@[r2]@[i2] as int));
                }
                ghost_communicator::lemma_wanted_from_entries(
                    all_ghost@[r2]@,
                    all_owner@[r2]@,
                    s,
                    pred,
                );
            }
            // Every export index of rank `r` is owned by rank `r`.
            assert forall|r2: int, j: int|
                0 <= r2 < p && 0 <= j < comms0[r2].send_idx().len() implies counts0[r2] <= (
            #[trigger] comms0[r2].send_idx()[j]) < counts0[r2 + 1] by {
                let pred = |d: usize| counts0[r2] <= d < counts0[r2 + 1];
                let rows = Seq::new(p as nat, |s: int| comms0[s].recv_idx());
                let crows = Seq::new(p as nat, |s: int| comms0[s].recv_counts_all());
                assert forall|s: int, j2: int|
                    0 <= s < p && 0 <= j2 < exchange::block_of(
                        #[trigger] rows[s],
                        crows[s],
                        r2,
                    ).len() implies pred(
                    #[trigger] exchange::block_of(rows[s], crows[s], r2)[j2],
                ) by {
                    assert(comms0[s].wf());
                    ghost_communicator::lemma_block_of_grouped(
                        all_ghost@[s]@,
                        all_owner@[s]@,
                        comms0[s].recv_counts_all(),
                        p as int,
                        r2,
                    );
                    assert forall|i2: int|
                        0 <= i2 < all_ghost@[s]@.len() && all_owner@[s]@[i2] == r2 implies pred(
                        #[trigger] all_ghost@[s]@[i2],
                    ) by {
                        index_layout::lemma_owner_of_bounds(counts0, all_ghost@[s]@[i2] as int);
                    }
                    ghost_communicator::lemma_wanted_from_entries(
                        all_ghost@[s]@,
                        all_owner@[s]@,
                        r2,
                        pred,
                    );
                }
                ghost_communicator::lemma_gathered_entries(rows, crows, r2, p as int, pred);
            }
        }
        // Remember, for each ghost index, one slot of the import buffer that
        // will carry its value.
        let mut all_slotmap: Vec<HashMap<usize, usize>> = Vec::new();
        let mut r: usize = 0;
        while r < p
            invariant
                r <= p,
                p == comms@.len(),
                comms0 == comms@,
                all_slotmap@.len() == r,
                forall|r2: int, d: usize|
                    0 <= r2 < r && (#[trigger] all_slotmap@[r2]@.contains_key(d))
                        ==> all_slotmap@[r2]@[d] < comms0[r2].recv_idx().len() && comms0[
                        r2
                    ].recv_idx()[all_slotmap@[r2]@[d] as int] == d,
                forall|r2: int, t: int|
                    0 <= r2 < r && 0 <= t < comms0[r2].recv_idx().len() ==> all_slotmap@[
                        r2
                    ]@.contains_key(#[trigger] comms0[r2].recv_idx()[t]),
            decreases p - r,
        {
            let rim = comms[r].receive_indices();
            let nrim = rim.len();
            let mut slotmap: HashMap<usize, usize> = HashMap::new();
            let mut t: usize = 0;
            while t < nrim
                invariant
                    t <= nrim,
                    r < p,
                    p == comms@.len(),
                    comms0 == comms@,
                    nrim == comms0[r as int].recv_idx().len(),
                    rim@ == comms0[r as int].recv_idx(),
                    forall|d: usize|
                        (#[trigger] slotmap@.contains_key(d)) ==> slotmap@[d] < nrim && rim@[
                            slotmap@[d] as int
                        ] == d,
                    forall|t2: int|
                        0 <= t2 < t ==> slotmap@.contains_key(#[trigger] rim@[t2]),
                decreases nrim - t,
            {
                slotmap.insert(rim[t], t);
                t = t + 1;
            }
            all_slotmap.push(slotmap);
            r = r + 1;
        }
        // Assemble the per-rank mappers.
        let mut layouts = index_layouts;
        let mut comms_v = comms;
        let mut ghosts_v = all_ghost;
        let mut owned_v = all_owned;
        let mut posmap_v = all_posmap;
        let mut slotmap_v = all_slotmap;
        let ghost layouts0 = layouts@;
        let ghost ghosts0 = ghosts_v@;
        let ghost posmap0 = posmap_v@;
        let ghost slotmap0 = slotmap_v@;
        let mut mappers: Vec<Global2LocalDataMapper<L>> = Vec::new();
        let mut r: usize = 0;
        while r < p
            invariant
                r <= p,
                p == layouts0.len(),
                comms0.len() == p,
                ghosts0.len() == p,
                posmap0.len() == p,
                slotmap0.len() == p,
                all_required@.len() == p,
                layouts@ =~= layouts0.subrange(r as int, p as int),
                comms_v@ =~= comms0.subrange(r as int, p as int),
                ghosts_v@ =~= ghosts0.subrange(r as int, p as int),
                owned_v@.len() == p - r,
                posmap_v@ =~= posmap0.subrange(r as int, p as int),
                slotmap_v@ =~= slotmap0.subrange(r as int, p as int),
                mappers@.len() == r,
                forall|r2: int|
                    0 <= r2 < r ==> (#[trigger] mappers@[r2].layout_spec()) == layouts0[r2],
                forall|r2: int|
                    0 <= r2 < r ==> (#[trigger] mappers@[r2].comm_spec()) == comms0[r2],
                forall|r2: int|
                    0 <= r2 < r ==> (#[trigger] mappers@[r2].required_spec())
                        == all_required@[r2]@,
                forall|r2: int|
                    0 <= r2 < r ==> (#[trigger] mappers@[r2].pos_map_spec()) == posmap0[r2]@,
                forall|r2: int|
                    0 <= r2 < r ==> (#[trigger] mappers@[r2].slot_map_spec()) == slotmap0[r2]@,
            decreases p - r,
        {
            let index_layout = layouts.remove(0);
            let ghost_communicator = comms_v.remove(0);
            let ghost_dofs = ghosts_v.remove(0);
            let owned_dofs = owned_v.remove(0);
            let dof_to_position = posmap_v.remove(0);
            let receive_slot = slotmap_v.remove(0);
            let required_dofs = all_required[r].clone();
            let mapper = Global2LocalDataMapper {
                index_layout,
                ghost_communicator,
                owned_dofs,
                ghost_dofs,
                dof_to_position,
                required_dofs,
                receive_slot,
            };
            mappers.push(mapper);
            proof {
                assert(layouts@ =~= layouts0.subrange(r + 1, p as int));
                assert(comms_v@ =~= comms0.subrange(r + 1, p as int));
                assert(ghosts_v@ =~= ghosts0.subrange(r + 1, p as int));
                assert(posmap_v@ =~= posmap0.subrange(r + 1, p as int));
                assert(slotmap_v@ =~= slotmap0.subrange(r + 1, p as int));
            }
            r = r + 1;
        }
        proof {
            assert(comms_of(mappers@) =~= comms0);
            // Ghost coverage: a required index not owned by its rank has a
            // slot in the import buffer.
            assert forall|r2: int, i: int|
                0 <= r2 < p && 0 <= i < mappers@[r2].required_spec().len() && owner_of(
                    counts0,
                    #[trigger] mappers@[r2].required_spec()[i] as int,
                ) != r2 implies mappers@[r2].slot_map_spec().contains_key(
                mappers@[r2].required_spec()[i],
            ) by {
                let d = mappers@[r2].required_spec()[i];
                assert(all_ghost@[r2]@.contains(d));
                let j = choose|j: int| 0 <= j < ghosts0[r2]@.len() && ghosts0[r2]@[j] == d;
                ghost_communicator::lemma_grouped_contains(
                    ghosts0[r2]@,
                    all_owner@[r2]@,
                    p as int,
                    j,
                );
                let t = choose|t: int|
                    0 <= t < comms0[r2].recv_idx().len() && comms0[r2].recv_idx()[t] == d;
                assert(slotmap0[r2]@.contains_key(comms0[r2].recv_idx()[t]));
            }
            // The stored plan is the one built from the ghost entries: its
            // imports are those entries grouped by owner, one slot each.
            assert forall|r2: int| 0 <= r2 < p implies (#[trigger] mappers@[r2]
                .comm_spec().recv_idx()) == grouped_by_owner(
                ghost_dofs_of(all_required@[r2]@, counts0, r2),
                ghost_owners_of(all_required@[r2]@, counts0, r2),
                p as int,
            ) by {
                assert(mappers@[r2].comm_spec() == comms0[r2]);
                assert(comms0[r2].recv_idx() == grouped_by_owner(
                    all_ghost@[r2]@,
                    all_owner@[r2]@,
                    p as int,
                ));
            }
            assert forall|r2: int, s: int|
                0 <= r2 < p && 0 <= s < p implies (#[trigger] mappers@[r2]
                .comm_spec().recv_counts_all()[s]) == wanted_from(
                ghost_dofs_of(all_required@[r2]@, counts0, r2),
                ghost_owners_of(all_required@[r2]@, counts0, r2),
                s,
            ).len() by {
                assert(mappers@[r2].comm_spec() == comms0[r2]);
                assert(comms0[r2].recv_counts_all()[s] == wanted_from(
                    all_ghost@[r2]@,
                    all_owner@[r2]@,
                    s,
                ).len());
            }
            assert forall|r2: int| 0 <= r2 < p implies (#[trigger] mappers@[r2]
                .comm_spec().total_recv()) == ghost_dofs_of(
                all_required@[r2]@,
                counts0,
                r2,
            ).len() by {
                assert(mappers@[r2].comm_spec() == comms0[r2]);
                assert(comms0[r2].wf());
                assert forall|j: int| 0 <= j < all_owner@[r2]@.len() implies 0 <= (
                #[trigger] all_owner@[r2]@[j]) < p by {
                    assert(all_owner@[r2]@[j] == owner_of(counts0, all_ghost@[r2]@[j] as int));
                }
                ghost_communicator::lemma_grouped_by_owner_len(
                    all_ghost@[r2]@,
                    all_owner@[r2]@,
                    p as int,
                );
            }
        }
        mappers
    }

    /// Map distributed global data to the locally required data.
    ///
    /// `all_data[r]` holds rank `r`'s owned chunk values in layout order,
    /// `chunk_size` elements per index.  The result holds, for every rank
    /// and every position of its required list, the chunk of the global
    /// data at the required index — duplicates included.
    pub fn map_data<T: Copy>(
        mappers: &Vec<Global2LocalDataMapper<L>>,
        all_data: &Vec<Vec<T>>,
        chunk_size: usize,
    ) -> (out: Vec<Vec<T>>)
        requires
            mapper_family_wf(mappers@),
            chunk_size >= 1,
            all_data@.len() == mappers@.len(),
            forall|r: int|
                0 <= r < mappers@.len() ==> (#[trigger] all_data@[r]@).len() == (mappers@[
                    0
                ].counts_of()[r + 1] - mappers@[0].counts_of()[r]) * chunk_size,
        ensures
            out@.len() == mappers@.len(),
            forall|r: int|
                0 <= r < out@.len() ==> (#[trigger] out@[r]@).len() == mappers@[
                    r
                ].required_spec().len() * chunk_size,
            forall|r: int, i: int|
                0 <= r < out@.len() && 0 <= i < mappers@[r].required_spec().len() ==> (
                #[trigger] chunk_at(out@[r]@, i, chunk_size as int)) == chunk_at(
                    concat_rows(rows_view(all_data@), all_data@.len() as int),
                    mappers@[r].required_spec()[i] as int,
                    chunk_size as int,
                ),
    {
        let p = mappers.len();
        let ghost k = chunk_size as int;
        let ghost counts0 = mappers@[0].counts_of();
        let ghost gdata = concat_rows(rows_view(all_data@), p as int);
        let ghost cfam = comms_of(mappers@);
        proof {
            lemma_family_send_valid(mappers@, all_data@, k);
        }
        // Pack each rank's export buffer from its owned data.
        let mut send_bufs: Vec<Vec<T>> = Vec::new();
        let mut r: usize = 0;
        while r < p
            invariant
                r <= p,
                p == mappers@.len(),
                all_data@.len() == p,
                chunk_size >= 1,
                k == chunk_size as int,
                mapper_family_wf(mappers@),
                counts0 == mappers@[0].counts_of(),
                gdata == concat_rows(rows_view(all_data@), p as int),
                cfam == comms_of(mappers@),
                forall|r2: int|
                    0 <= r2 < p ==> (#[trigger] all_data@[r2]@).len() == (counts0[r2 + 1]
                        - counts0[r2]) * chunk_size,
                forall|r2: int|
                    0 <= r2 < p ==> chunk_indices_valid(
                        gdata.len() as int,
                        (#[trigger] cfam[r2]).send_idx(),
                        k,
                    ),
                send_bufs@.len() == r,
                forall|r2: int|
                    0 <= r2 < r ==> (#[trigger] send_bufs@[r2]@) == chunks_of(
                        gdata,
                        cfam[r2].send_idx(),
                        k,
                    ),
                forall|r2: int|
                    0 <= r2 < r ==> (#[trigger] send_bufs@[r2]@).len() == cfam[r2].total_send()
                        * k,
                forall|r2: int|
                    0 <= r2 < r ==> (#[trigger] cfam[r2]).total_send() * k <= usize::MAX,
            decreases p - r,
        {
            let m = &mappers[r];
            let counts = m.index_layout.counts();
            proof {
                assert(counts@ == mappers@[r as int].counts_of());
                assert(mappers@[r as int].counts_of() == counts0);
            }
            let lo = counts[r];
            let sidx = m.ghost_communicator.send_indices();
            let nsend = sidx.len();
            let n_r = all_data[r].len();
            let mut sbuf: Vec<T> = Vec::new();
            let mut j: usize = 0;
            proof {
                assert(cfam[r as int] == m.comm_spec());
                assert(sbuf@ =~= chunks_of(gdata, sidx@.subrange(0, 0), k));
            }
            while j < nsend
                invariant
                    j <= nsend,
                    r < p,
                    p == mappers@.len(),
                    all_data@.len() == p,
                    chunk_size >= 1,
                    k == chunk_size as int,
                    mapper_family_wf(mappers@),
                    counts0 == mappers@[0].counts_of(),
                    gdata == concat_rows(rows_view(all_data@), p as int),
                    cfam == comms_of(mappers@),
                    forall|r2: int|
                        0 <= r2 < p ==> (#[trigger] all_data@[r2]@).len() == (counts0[r2 + 1]
                            - counts0[r2]) * chunk_size,
                    sidx@ == cfam[r as int].send_idx(),
                    nsend == sidx@.len(),
                    lo == counts0[r as int],
                    n_r == all_data@[r as int]@.len(),
                    sbuf@ == chunks_of(gdata, sidx@.subrange(0, j as int), k),
                decreases nsend - j,
            {
                let g = sidx[j];
                proof {
                    assert(counts0[r as int] <= sidx@[j as int] < counts0[r as int + 1]);
                    vstd::arithmetic::mul::lemma_mul_inequality(
                        g - lo + 1,
                        counts0[r as int + 1] - counts0[r as int],
                        k,
                    );
                    assert((g - lo + 1) * k == (g - lo) * k + k) by (nonlinear_arith);
                    vstd::arithmetic::mul::lemma_mul_nonnegative(g - lo, k);
                }
                exchange::push_chunk(&mut sbuf, &all_data[r], (g - lo) * chunk_size, chunk_size);
                proof {
                    index_layout::lemma_owner_of_exact(counts0, g as int, r as int);
                    index_layout::lemma_global_chunk(rows_view(all_data@), counts0, k, g as int);
                    assert(sidx@.subrange(0, j + 1).drop_last() =~= sidx@.subrange(0, j as int));
                    assert(sidx@.subrange(0, j + 1).last() == g);
                    assert(sbuf@ == chunks_of(gdata, sidx@.subrange(0, j as int), k) + gdata
                        .subrange(g * k, g * k + k));
                }
                j = j + 1;
            }
            proof {
                assert(sidx@.subrange(0, nsend as int) =~= sidx@);
                assert(cfam[r as int].wf());
                ghost_communicator::lemma_chunks_len(gdata, cfam[r as int].send_idx(), k);
                ghost_communicator::lemma_vec_len_bound(sbuf);
            }
            send_bufs.push(sbuf);
            r = r + 1;
        }
        // Exchange: every rank receives, for each of its import indices, the
        // owner's chunk.
        let mut wire: Vec<Vec<usize>> = Vec::new();
        let mut r: usize = 0;
        while r < p
            invariant
                r <= p,
                p == mappers@.len(),
                all_data@.len() == p,
                chunk_size >= 1,
                k == chunk_size as int,
                mapper_family_wf(mappers@),
                gdata == concat_rows(rows_view(all_data@), p as int),
                cfam == comms_of(mappers@),
                send_bufs@.len() == p,
                forall|r2: int|
                    0 <= r2 < p ==> (#[trigger] send_bufs@[r2]@) == chunks_of(
                        gdata,
                        cfam[r2].send_idx(),
                        k,
                    ),
                forall|r2: int|
                    0 <= r2 < p ==> chunk_indices_valid(
                        gdata.len() as int,
                        (#[trigger] cfam[r2]).send_idx(),
                        k,
                    ),
                forall|r2: int|
                    0 <= r2 < p ==> (#[trigger] cfam[r2]).total_send() * k <= usize::MAX,
                forall|r2: int|
                    0 <= r2 < p ==> (#[trigger] send_bufs@[r2]@).len() == cfam[r2].total_send()
                        * k,
                wire@.len() == r,
                forall|r2: int|
                    0 <= r2 < r ==> (#[trigger] wire@[r2]@) == ghost_communicator::scaled(
                        cfam[r2].send_counts_all(),
                        k,
                    ),
                forall|r2: int|
                    0 <= r2 < r ==> seq_total(#[trigger] wire@[r2]@) == send_bufs@[r2]@.len(),
            decreases p - r,
        {
            proof {
                assert(cfam[r as int] == mappers@[r as int].comm_spec());
                assert(cfam[r as int].wf());
            }
            let row = mappers[r].ghost_communicator.forward_wire_counts_vec(chunk_size);
            wire.push(row);
            r = r + 1;
        }
        let recv_bufs = exchange::all_to_all_varcount(&send_bufs, &wire);
        proof {
            assert(rows_view(wire@) =~~= ghost_communicator::forward_wire_counts(cfam, k));
            assert forall|r2: int| 0 <= r2 < p implies chunk_indices_valid(
                gdata.len() as int,
                (#[trigger] cfam[r2]).recv_idx(),
                k,
            ) by {
                lemma_recv_valid(mappers@, gdata.len() as int, r2, k);
            }
            assert forall|r2: int| 0 <= r2 < p implies (#[trigger] rows_view(recv_bufs@)[r2])
                == exchange::gathered_at(
                rows_view(send_bufs@),
                ghost_communicator::forward_wire_counts(cfam, k),
                r2,
                p as int,
            ) by {
                assert(rows_view(recv_bufs@)[r2] == recv_bufs@[r2]@);
            }
            ghost_communicator::lemma_forward_carries_chunks(
                cfam,
                k,
                gdata,
                rows_view(send_bufs@),
                rows_view(recv_bufs@),
            );
            assert forall|r2: int| 0 <= r2 < p implies (#[trigger] recv_bufs@[r2]@) == chunks_of(
                gdata,
                cfam[r2].recv_idx(),
                k,
            ) by {
                assert(rows_view(recv_bufs@)[r2] == recv_bufs@[r2]@);
            }
        }
        // Scatter: walk the required list and copy each chunk from the owned
        // data or from the import buffer.
        let mut out: Vec<Vec<T>> = Vec::new();
        let mut r: usize = 0;
        while r < p
            invariant
                r <= p,
                p == mappers@.len(),
                all_data@.len() == p,
                chunk_size >= 1,
                k == chunk_size as int,
                mapper_family_wf(mappers@),
                counts0 == mappers@[0].counts_of(),
                gdata == concat_rows(rows_view(all_data@), p as int),
                cfam == comms_of(mappers@),
                forall|r2: int|
                    0 <= r2 < p ==> (#[trigger] all_data@[r2]@).len() == (counts0[r2 + 1]
                        - counts0[r2]) * chunk_size,
                recv_bufs@.len() == p,
                forall|r2: int|
                    0 <= r2 < p ==> (#[trigger] recv_bufs@[r2]@) == chunks_of(
                        gdata,
                        cfam[r2].recv_idx(),
                        k,
                    ),
                forall|r2: int|
                    0 <= r2 < p ==> chunk_indices_valid(
                        gdata.len() as int,
                        (#[trigger] cfam[r2]).recv_idx(),
                        k,
                    ),
                out@.len() == r,
                forall|r2: int|
                    0 <= r2 < r ==> (#[trigger] out@[r2]@).len() == mappers@[
                        r2
                    ].required_spec().len() * k,
                forall|r2: int, i: int|
                    0 <= r2 < r && 0 <= i < mappers@[r2].required_spec().len() ==> (
                    #[trigger] chunk_at(out@[r2]@, i, k)) == chunk_at(
                        gdata,
                        mappers@[r2].required_spec()[i] as int,
                        k,
                    ),
            decreases p - r,
        {
            let m = &mappers[r];
            let counts = m.index_layout.counts();
            proof {
                assert(counts@ == mappers@[r as int].counts_of());
                assert(mappers@[r as int].counts_of() == counts0);
            }
            let lo = counts[r];
            let hi = counts[r + 1];
            let req = &m.required_dofs;
            let nreq = req.len();
            let n_r = all_data[r].len();
            let nrecv = recv_bufs[r].len();
            let mut orow: Vec<T> = Vec::new();
            let mut i: usize = 0;
            proof {
                assert(cfam[r as int] == m.comm_spec());
                ghost_communicator::lemma_chunks_len(gdata, cfam[r as int].recv_idx(), k);
            }
            while i < nreq
                invariant
                    i <= nreq,
                    r < p,
                    p == mappers@.len(),
                    all_data@.len() == p,
                    chunk_size >= 1,
                    k == chunk_size as int,
                    mapper_family_wf(mappers@),
                    counts0 == mappers@[0].counts_of(),
                    gdata == concat_rows(rows_view(all_data@), p as int),
                    cfam == comms_of(mappers@),
                    forall|r2: int|
                        0 <= r2 < p ==> (#[trigger] all_data@[r2]@).len() == (counts0[r2 + 1]
                            - counts0[r2]) * chunk_size,
                    *m == mappers@[r as int],
                    req@ == mappers@[r as int].required_spec(),
                    nreq == req@.len(),
                    lo == counts0[r as int],
                    hi == counts0[r as int + 1],
                    n_r == all_data@[r as int]@.len(),
                    recv_bufs@.len() == p,
                    nrecv == recv_bufs@[r as int]@.len(),
                    recv_bufs@[r as int]@ == chunks_of(gdata, cfam[r as int].recv_idx(), k),
                    nrecv == cfam[r as int].recv_idx().len() * k,
                    chunk_indices_valid(gdata.len() as int, cfam[r as int].recv_idx(), k),
                    orow@.len() == i * k,
                    forall|i2: int|
                        0 <= i2 < i ==> (#[trigger] chunk_at(orow@, i2, k)) == chunk_at(
                            gdata,
                            req@[i2] as int,
                            k,
                        ),
                decreases nreq - i,
            {
                let g = req[i];
                let ghost prev = orow@;
                proof {
                    assert(req@[i as int] < total_of(counts0));
                    index_layout::lemma_owner_of_bounds(counts0, g as int);
                }
                if lo <= g && g < hi {
                    proof {
                        vstd::arithmetic::mul::lemma_mul_inequality(g - lo + 1, hi - lo, k);
                        assert((g - lo + 1) * k == (g - lo) * k + k) by (nonlinear_arith);
                        vstd::arithmetic::mul::lemma_mul_nonnegative(g - lo, k);
                    }
                    exchange::push_chunk(&mut orow, &all_data[r], (g - lo) * chunk_size, chunk_size);
                    proof {
                        index_layout::lemma_owner_of_exact(counts0, g as int, r as int);
                        index_layout::lemma_global_chunk(
                            rows_view(all_data@),
                            counts0,
                            k,
                            g as int,
                        );
                        assert(orow@ == prev + gdata.subrange(g * k, g * k + k));
                    }
                } else {
                    proof {
                        if owner_of(counts0, g as int) == r as int {
                            assert(counts0[r as int] <= g < counts0[r as int + 1]);
                            assert(false);
                        }
                        assert(owner_of(counts0, g as int) != r as int);
                        assert(g == mappers@[r as int].required_spec()[i as int]);
                        assert(mappers@[r as int].slot_map_spec().contains_key(g));
                        assert(m.receive_slot@.contains_key(g));
                    }
                    let found = m.receive_slot.get(&g);
                    proof {
                        assert(found.is_some());
                    }
                    let slot = *found.unwrap();
                    proof {
                        assert(m.receive_slot@[g] == slot);
                        assert(mappers@[r as int].slot_map_spec()[g] < cfam[
                            r as int
                        ].recv_idx().len());
                        vstd::arithmetic::mul::lemma_mul_inequality(
                            slot + 1,
                            cfam[r as int].recv_idx().len() as int,
                            k,
                        );
                        assert((slot + 1) * k == slot * k + k) by (nonlinear_arith);
                        vstd::arithmetic::mul::lemma_mul_nonnegative(slot as int, k);
                    }
                    exchange::push_chunk(&mut orow, &recv_bufs[r], slot * chunk_size, chunk_size);
                    proof {
                        ghost_communicator::lemma_chunks_of_chunk(
                            gdata,
                            cfam[r as int].recv_idx(),
                            k,
                            slot as int,
                        );
                        assert(cfam[r as int].recv_idx()[slot as int] == g);
                        assert(orow@ == prev + gdata.subrange(g * k, g * k + k));
                    }
                }
                proof {
                    assert((i + 1) * k == i * k + k) by (nonlinear_arith);
                    assert forall|i2: int| 0 <= i2 < i + 1 implies (#[trigger] chunk_at(
                        orow@,
                        i2,
                        k,
                    )) == chunk_at(gdata, req@[i2] as int, k) by {
                        vstd::arithmetic::mul::lemma_mul_nonnegative(i2, k);
                        if i2 < i {
                            vstd::arithmetic::mul::lemma_mul_inequality(i2 + 1, i as int, k);
                            assert((i2 + 1) * k == i2 * k + k) by (nonlinear_arith);
                            assert(chunk_at(orow@, i2, k) =~= chunk_at(prev, i2, k));
                        } else {
                            assert(chunk_at(orow@, i2, k) =~= gdata.subrange(
                                req@[i2] * k,
                                req@[i2] * k + k,
                            ));
                        }
                    }
                }
                i = i + 1;
            }
            out.push(orow);
            r = r + 1;
        }
        out
    }
}

/// Every export list selects valid chunks of the concatenated data, and the
/// packed export buffers have the right sizes.
proof fn lemma_family_send_valid<L: IndexLayout, T>(
    mappers: Seq<Global2LocalDataMapper<L>>,
    all_data: Seq<Vec<T>>,
    k: int,
)
    requires
        mapper_family_wf(mappers),
        k >= 1,
        all_data.len() == mappers.len(),
        forall|r: int|
            0 <= r < mappers.len() ==> (#[trigger] all_data[r]@).len() == (mappers[0].counts_of()[
                r + 1
            ] - mappers[0].counts_of()[r]) * k,
    ensures
        concat_rows(rows_view(all_data), all_data.len() as int).len() == total_of(
            mappers[0].counts_of(),
        ) * k,
        forall|r: int|
            0 <= r < mappers.len() ==> chunk_indices_valid(
                total_of(mappers[0].counts_of()) * k,
                (#[trigger] comms_of(mappers)[r]).send_idx(),
                k,
            ),
{
    let p = mappers.len() as int;
    let counts0 = mappers[0].counts_of();
    let nn = total_of(counts0);
    index_layout::lemma_concat_rows_len(rows_view(all_data), counts0, k, p);
    assert forall|r: int| 0 <= r < p implies chunk_indices_valid(
        nn * k,
        (#[trigger] comms_of(mappers)[r]).send_idx(),
        k,
    ) by {
        let sidx = comms_of(mappers)[r].send_idx();
        assert forall|i: int| 0 <= i < sidx.len() implies #[trigger] sidx[i] * k + k <= nn
            * k by {
            assert(counts0[r] <= sidx[i] < counts0[r + 1]);
            assert(counts0[r + 1] <= counts0[p]);
            vstd::arithmetic::mul::lemma_mul_inequality(sidx[i] + 1, nn, k);
            assert((sidx[i] + 1) * k == sidx[i] * k + k) by (nonlinear_arith);
        }
    }
}

/// Every import list selects valid chunks of the concatenated data.
proof fn lemma_recv_valid<L: IndexLayout>(
    mappers: Seq<Global2LocalDataMapper<L>>,
    glen: int,
    r: int,
    k: int,
)
    requires
        mapper_family_wf(mappers),
        k >= 1,
        0 <= r < mappers.len(),
        glen == total_of(mappers[0].counts_of()) * k,
    ensures
        chunk_indices_valid(glen, comms_of(mappers)[r].recv_idx(), k),
{
    let counts0 = mappers[0].counts_of();
    let nn = total_of(counts0);
    let ridx = comms_of(mappers)[r].recv_idx();
    assert forall|i: int| 0 <= i < ridx.len() implies #[trigger] ridx[i] * k + k <= glen by {
        assert(ridx[i] < nn);
        vstd::arithmetic::mul::lemma_mul_inequality(ridx[i] + 1, nn, k);
        assert((ridx[i] + 1) * k == ridx[i] * k + k) by (nonlinear_arith);
    }
}

} // verus!
