use bempp_distributed_tools::index_layout::EquiDistributedIndexLayout;
use bempp_distributed_tools::IndexLayout;
use bempp_distributed_tools::{DataPermutation, Global2LocalDataMapper};

fn equi_layouts(nchunks: usize, chunk_size: usize, size: usize) -> Vec<EquiDistributedIndexLayout> {
    (0..size)
        .map(|r| EquiDistributedIndexLayout::new(nchunks, chunk_size, r, size))
        .collect()
}

#[test]
fn data_mapper_two_ranks() {
    // Rank 0 owns [0, 5), rank 1 owns [5, 10); each holds the values equal
    // to its global indices.  Every rank receives exactly the values of its
    // required list, duplicates included.
    let layouts = equi_layouts(10, 1, 2);
    let required: Vec<Vec<usize>> = vec![
        vec![0, 1, 2, 3, 6, 9, 5, 2, 1],
        vec![0, 1, 2, 0, 6, 9, 2, 0],
    ];
    let mappers = Global2LocalDataMapper::new(layouts, &required);
    let all_data: Vec<Vec<usize>> = (0..2)
        .map(|r| (0..5).map(|i| 5 * r + i).collect())
        .collect();
    let out = Global2LocalDataMapper::map_data(&mappers, &all_data, 1);
    assert_eq!(out[0], required[0]);
    assert_eq!(out[1], required[1]);
}

#[test]
fn data_mapper_position_map() {
    let layouts = equi_layouts(4, 1, 2);
    let required: Vec<Vec<usize>> = vec![vec![3, 0], vec![1, 2]];
    let mappers = Global2LocalDataMapper::new(layouts, &required);
    let posmap = mappers[0].dof_to_position_map();
    assert_eq!(posmap.get(&3), Some(&0));
    assert_eq!(posmap.get(&0), Some(&1));
    assert_eq!(posmap.get(&1), None);
    assert_eq!(mappers[0].ghost_communicator().total_receive_count(), 1);
}

#[test]
fn data_mapper_all_owned_imports_nothing() {
    // Every rank requires only indices it owns: the exchange plans are
    // empty and mapping is a purely local gather.
    let layouts = equi_layouts(6, 1, 2);
    let required: Vec<Vec<usize>> = vec![vec![2, 0, 2], vec![5, 3]];
    let mappers = Global2LocalDataMapper::new(layouts, &required);
    for m in &mappers {
        assert_eq!(m.ghost_communicator().total_receive_count(), 0);
        assert_eq!(m.ghost_communicator().total_send_count(), 0);
        assert_eq!(m.ghost_communicator().in_ranks(), &Vec::<usize>::new());
        assert_eq!(m.ghost_communicator().out_ranks(), &Vec::<usize>::new());
    }
    let all_data = vec![vec![10, 11, 12], vec![13, 14, 15]];
    let out = Global2LocalDataMapper::map_data(&mappers, &all_data, 1);
    assert_eq!(out[0], vec![12, 10, 12]);
    assert_eq!(out[1], vec![15, 13]);
}

#[test]
fn data_mapper_ghost_plan_structure() {
    // The plan's imports are exactly the non-owned entries of the required
    // list, grouped by owner rank in stable order.
    let layouts = equi_layouts(9, 1, 3);
    let required: Vec<Vec<usize>> = vec![vec![7, 0, 3, 8, 1], vec![], vec![]];
    let mappers = Global2LocalDataMapper::new(layouts, &required);
    let comm = mappers[0].ghost_communicator();
    assert_eq!(comm.receive_indices(), &vec![3, 7, 8]);
    assert_eq!(comm.total_receive_count(), 3);
    assert_eq!(comm.in_ranks(), &vec![1, 2]);
    assert_eq!(comm.receive_counts(), &vec![1, 2]);
}

#[test]
fn data_mapper_with_chunks() {
    // Two indices per rank, two elements per chunk.
    let layouts = equi_layouts(4, 1, 2);
    let required: Vec<Vec<usize>> = vec![vec![2, 0], vec![1, 3]];
    let mappers = Global2LocalDataMapper::new(layouts, &required);
    let all_data = vec![vec![10, 11, 20, 21], vec![30, 31, 40, 41]];
    let out = Global2LocalDataMapper::map_data(&mappers, &all_data, 2);
    assert_eq!(out[0], vec![30, 31, 10, 11]);
    assert_eq!(out[1], vec![20, 21, 40, 41]);
}

#[test]
fn permutation_forward_reorders() {
    // Four indices over two ranks; the custom order reverses the range.
    let layouts = equi_layouts(4, 1, 2);
    let customs: Vec<Vec<usize>> = vec![vec![3, 2], vec![1, 0]];
    let perm = DataPermutation::new(layouts, &customs).unwrap();
    let all_src = vec![vec![100, 101], vec![102, 103]];
    let dst = perm.forward_permute(&all_src, 1);
    assert_eq!(dst[0], vec![103, 102]);
    assert_eq!(dst[1], vec![101, 100]);
}

#[test]
fn permutation_round_trip() {
    // A deterministic permutation of 1537 indices over three ranks:
    // multiply by 5 modulo 1537, which is coprime to it.
    let n: usize = 1537;
    let size = 3;
    let layouts = equi_layouts(n, 1, size);
    let shuffled: Vec<usize> = (0..n).map(|i| (i * 5) % n).collect();
    let mut customs: Vec<Vec<usize>> = Vec::new();
    let mut all_src: Vec<Vec<usize>> = Vec::new();
    for r in 0..size {
        let (lo, hi) = EquiDistributedIndexLayout::new(n, 1, r, size).local_range();
        customs.push(shuffled[lo..hi].to_vec());
        all_src.push((lo..hi).collect());
    }
    let perm = DataPermutation::new(layouts, &customs).unwrap();
    let dst = perm.forward_permute(&all_src, 1);
    // The source value at a global index is the index itself, so every
    // custom position must now hold its custom index.
    for r in 0..size {
        assert_eq!(dst[r], customs[r]);
    }
    let zeros: Vec<Vec<usize>> = all_src.iter().map(|v| vec![0; v.len()]).collect();
    let back = perm.backward_permute(&dst, zeros, 1);
    assert_eq!(back, all_src);
}

#[test]
fn permutation_round_trip_with_chunks() {
    let n: usize = 6;
    let size = 2;
    let chunk_size = 3;
    let layouts = equi_layouts(n, 1, size);
    let customs: Vec<Vec<usize>> = vec![vec![4, 1, 5], vec![0, 3, 2]];
    let perm = DataPermutation::new(layouts, &customs).unwrap();
    let all_src: Vec<Vec<usize>> = vec![
        (0..3 * chunk_size).collect(),
        (3 * chunk_size..6 * chunk_size).collect(),
    ];
    let dst = perm.forward_permute(&all_src, chunk_size);
    // Position 0 of rank 0 holds the chunk of global index 4.
    assert_eq!(dst[0][0..3], [12, 13, 14]);
    let zeros: Vec<Vec<usize>> = all_src.iter().map(|v| vec![0; v.len()]).collect();
    let back = perm.backward_permute(&dst, zeros, chunk_size);
    assert_eq!(back, all_src);
}

#[test]
fn permutation_rejects_duplicates() {
    let layouts = equi_layouts(4, 1, 2);
    let customs: Vec<Vec<usize>> = vec![vec![0, 0], vec![1, 2]];
    assert!(DataPermutation::new(layouts, &customs).is_none());
}

#[test]
fn permutation_rejects_out_of_range() {
    let layouts = equi_layouts(4, 1, 2);
    let customs: Vec<Vec<usize>> = vec![vec![0, 4], vec![1, 2]];
    assert!(DataPermutation::new(layouts, &customs).is_none());
}
