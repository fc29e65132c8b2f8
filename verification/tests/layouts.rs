use bempp_distributed_tools::index_layout::{
    EquiDistributedIndexLayout, IndexLayoutFromLocalCounts, SingleProcessIndexLayout,
};
use bempp_distributed_tools::IndexLayout;

#[test]
fn equidistributed_more_chunks_than_ranks() {
    // 12 chunks of one index over 5 ranks: 12 / 5 = 2 each, remainder 2 to
    // the first two ranks.
    let expected = [(0, 3), (3, 6), (6, 8), (8, 10), (10, 12)];
    for rank in 0..5 {
        let layout = EquiDistributedIndexLayout::new(12, 1, rank, 5);
        assert_eq!(layout.local_range(), expected[rank]);
        assert_eq!(layout.number_of_global_indices(), 12);
        assert_eq!(
            layout.number_of_local_indices(),
            expected[rank].1 - expected[rank].0
        );
    }
}

#[test]
fn equidistributed_fewer_chunks_than_ranks() {
    // 3 chunks of 2 indices over 5 ranks: one chunk each for the first
    // three ranks, nothing for the rest.
    let layout = EquiDistributedIndexLayout::new(3, 2, 0, 5);
    assert_eq!(layout.counts(), &vec![0, 2, 4, 6, 6, 6]);
    let last = EquiDistributedIndexLayout::new(3, 2, 4, 5);
    assert_eq!(last.number_of_local_indices(), 0);
    let (lo, hi) = last.local_range();
    assert_eq!(lo, hi);
}

#[test]
fn equidistributed_chunk_multiplier() {
    // 12 chunks of 3 indices over 5 ranks: the chunk boundaries scale.
    let layout = EquiDistributedIndexLayout::new(12, 3, 0, 5);
    assert_eq!(layout.counts(), &vec![0, 9, 18, 24, 30, 36]);
}

#[test]
fn from_local_counts_prefix_sums() {
    let layout = IndexLayoutFromLocalCounts::new(&vec![5, 17, 8], 1);
    assert_eq!(layout.counts(), &vec![0, 5, 22, 30]);
    assert_eq!(layout.local_range(), (5, 22));
    assert_eq!(layout.number_of_global_indices(), 30);
}

#[test]
fn single_process_holds_everything() {
    let layout = SingleProcessIndexLayout::new(1, 7, 0, 3);
    assert_eq!(layout.counts(), &vec![0, 0, 7, 7]);
    assert_eq!(layout.index_range(1), Some((0, 7)));
    assert_eq!(layout.index_range(0), Some((0, 0)));
    assert_eq!(layout.index_range(3), None);
}

#[test]
fn index_queries() {
    let layout = EquiDistributedIndexLayout::new(10, 1, 1, 2);
    // Rank 1 owns [5, 10).
    assert_eq!(layout.local_range(), (5, 10));
    assert_eq!(layout.local2global(0), Some(5));
    assert_eq!(layout.local2global(4), Some(9));
    assert_eq!(layout.local2global(5), None);
    assert_eq!(layout.global2local(1, 7), Some(2));
    assert_eq!(layout.global2local(1, 4), None);
    assert_eq!(layout.global2local(0, 4), Some(4));
    assert_eq!(layout.global2local(2, 4), None);
}

#[test]
fn rank_from_index_scans_boundaries() {
    let layout = IndexLayoutFromLocalCounts::new(&vec![5, 0, 5], 0);
    assert_eq!(layout.rank_from_index(0), Some(0));
    assert_eq!(layout.rank_from_index(4), Some(0));
    assert_eq!(layout.rank_from_index(5), Some(2));
    assert_eq!(layout.rank_from_index(9), Some(2));
    // The index equal to the total is out of range.
    assert_eq!(layout.rank_from_index(10), None);
}

#[test]
fn local_to_global_round_trip_owner() {
    // Every local index maps to a global index this rank owns.
    for rank in 0..4 {
        let layout = EquiDistributedIndexLayout::new(11, 1, rank, 4);
        for i in 0..layout.number_of_local_indices() {
            let g = layout.local2global(i).unwrap();
            assert_eq!(layout.rank_from_index(g), Some(rank));
        }
    }
}
