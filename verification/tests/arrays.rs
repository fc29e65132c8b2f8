use bempp_distributed_tools::array_tools::{displacements, redistribute, sort_to_bins};
use bempp_distributed_tools::index_layout::{
    remap, EquiDistributedIndexLayout, IndexLayoutFromLocalCounts,
};

#[test]
fn bin_sorted_counts() {
    let keys: Vec<usize> = vec![0, 1, 1, 4, 7, 9];
    let bins: Vec<usize> = vec![0, 2, 5, 8];
    assert_eq!(sort_to_bins(&keys, &bins), vec![3, 1, 1, 1]);
}

#[test]
fn bin_sorted_single_bin() {
    let keys: Vec<usize> = vec![3, 4, 5];
    let bins: Vec<usize> = vec![0];
    assert_eq!(sort_to_bins(&keys, &bins), vec![3]);
}

#[test]
fn bin_sorted_empty_keys() {
    let keys: Vec<usize> = vec![];
    let bins: Vec<usize> = vec![0, 4, 8];
    assert_eq!(sort_to_bins(&keys, &bins), vec![0, 0, 0]);
}

#[test]
fn bin_sorted_duplicates_share_a_bin() {
    let keys: Vec<usize> = vec![2, 2, 2, 2];
    let bins: Vec<usize> = vec![0, 2, 5];
    assert_eq!(sort_to_bins(&keys, &bins), vec![0, 4, 0]);
}

#[test]
fn bin_sorted_output_sums_to_key_count() {
    let keys: Vec<usize> = vec![1, 2, 2, 3, 8, 9, 20, 21, 21];
    let bins: Vec<usize> = vec![0, 3, 9, 15];
    let counts = sort_to_bins(&keys, &bins);
    assert_eq!(counts.iter().sum::<usize>(), keys.len());
}

#[test]
fn displacements_exclusive_prefix_sum() {
    let counts: Vec<i32> = vec![3, 4, 5];
    assert_eq!(displacements(&counts), vec![0, 3, 7]);
}

#[test]
fn displacements_step_law() {
    let counts: Vec<i32> = vec![2, 0, 7, 1, 4];
    let displ = displacements(&counts);
    assert_eq!(displ.len(), counts.len());
    assert_eq!(displ[0], 0);
    for i in 0..counts.len() - 1 {
        assert_eq!(displ[i] + counts[i], displ[i + 1]);
    }
}

#[test]
fn redistribute_moves_counted_blocks() {
    // Two ranks swap their second halves.
    let all_data = vec![vec![1, 2, 3, 4], vec![5, 6, 7, 8]];
    let all_counts: Vec<Vec<usize>> = vec![vec![2, 2], vec![2, 2]];
    let out = redistribute(&all_data, &all_counts);
    assert_eq!(out[0], vec![1, 2, 5, 6]);
    assert_eq!(out[1], vec![3, 4, 7, 8]);
}

#[test]
fn remap_between_layouts() {
    // Three ranks of ten indices each move to ranges of 5, 17 and 8.
    let layouts1: Vec<_> = (0..3)
        .map(|r| EquiDistributedIndexLayout::new(30, 1, r, 3))
        .collect();
    let layouts2: Vec<_> = (0..3)
        .map(|r| IndexLayoutFromLocalCounts::new(&vec![5, 17, 8], r))
        .collect();
    let all_data: Vec<Vec<usize>> = (0..3).map(|r| (10 * r..10 * (r + 1)).collect()).collect();
    let mapped = remap(&layouts1, &layouts2, &all_data);
    assert_eq!(mapped[0], (0..5).collect::<Vec<usize>>());
    assert_eq!(mapped[1], (5..22).collect::<Vec<usize>>());
    assert_eq!(mapped[2], (22..30).collect::<Vec<usize>>());
    // Remapping back restores the original data.
    let back = remap(&layouts2, &layouts1, &mapped);
    assert_eq!(back, all_data);
}
