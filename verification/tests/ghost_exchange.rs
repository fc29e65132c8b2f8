use bempp_distributed_tools::ghost_communicator::{
    backward_send_values, forward_send_values, GhostCommunicator,
};

fn repeat_chunks(values: &[usize], chunk_size: usize) -> Vec<usize> {
    let mut out = Vec::new();
    for &v in values {
        for _ in 0..chunk_size {
            out.push(v);
        }
    }
    out
}

#[test]
fn ghost_plan_metadata() {
    // Rank 0 owns [0, 5), rank 1 owns [5, 10), rank 2 owns [10, 15).
    // Rank 0 imports 5 and 6 from rank 1, rank 1 imports 10 from rank 2,
    // rank 2 imports 5 from rank 1 and 0, 1, 2 from rank 0.
    let all_required: Vec<Vec<usize>> = vec![vec![5, 6], vec![10], vec![5, 0, 1, 2]];
    let all_owners: Vec<Vec<usize>> = vec![vec![1, 1], vec![2], vec![1, 0, 0, 0]];
    let comms = GhostCommunicator::new_with_chunk_size(&all_required, &all_owners, 5);

    assert_eq!(comms[0].receive_indices(), &vec![5, 6]);
    assert_eq!(comms[1].receive_indices(), &vec![10]);
    assert_eq!(comms[2].receive_indices(), &vec![0, 1, 2, 5]);

    assert_eq!(comms[0].send_indices(), &vec![0, 1, 2]);
    assert_eq!(comms[1].send_indices(), &vec![5, 6, 5]);
    assert_eq!(comms[2].send_indices(), &vec![10]);

    assert_eq!(comms[0].in_ranks(), &vec![1]);
    assert_eq!(comms[2].in_ranks(), &vec![0, 1]);
    assert_eq!(comms[2].receive_counts(), &vec![3, 1]);
    assert_eq!(comms[1].out_ranks(), &vec![0, 2]);
    assert_eq!(comms[1].send_counts(), &vec![2, 1]);

    assert_eq!(comms[0].total_receive_count(), 2);
    assert_eq!(comms[0].total_send_count(), 3);
    assert_eq!(comms[1].total_receive_count(), 1);
    assert_eq!(comms[1].total_send_count(), 3);
    assert_eq!(comms[2].total_receive_count(), 4);
    assert_eq!(comms[2].total_send_count(), 1);
}

#[test]
fn ghost_forward_and_backward_with_chunks() {
    let chunk_size = 5;
    let all_required: Vec<Vec<usize>> = vec![vec![5, 6], vec![10], vec![5, 0, 1, 2]];
    let all_owners: Vec<Vec<usize>> = vec![vec![1, 1], vec![2], vec![1, 0, 0, 0]];
    let comms = GhostCommunicator::new_with_chunk_size(&all_required, &all_owners, chunk_size);

    // Each rank pushes one five-wide chunk per export index.
    let send_data = vec![
        repeat_chunks(&[10, 11, 12], chunk_size),
        repeat_chunks(&[13, 14, 13], chunk_size),
        repeat_chunks(&[15], chunk_size),
    ];
    let received = forward_send_values(&comms, &send_data);
    assert_eq!(received[0], repeat_chunks(&[13, 14], chunk_size));
    assert_eq!(received[1], repeat_chunks(&[15], chunk_size));
    assert_eq!(received[2], repeat_chunks(&[10, 11, 12, 13], chunk_size));

    // Sending the received data back restores every original send buffer.
    let returned = backward_send_values(&comms, &received);
    assert_eq!(returned, send_data);
}

#[test]
fn ghost_empty_rank_participates() {
    // Rank 0 imports nothing and owns nothing anyone wants; rank 1 imports
    // one index from rank 2.
    let all_required: Vec<Vec<usize>> = vec![vec![], vec![9], vec![]];
    let all_owners: Vec<Vec<usize>> = vec![vec![], vec![2], vec![]];
    let comms = GhostCommunicator::new(&all_required, &all_owners);
    assert_eq!(comms[0].total_receive_count(), 0);
    assert_eq!(comms[0].total_send_count(), 0);
    assert_eq!(comms[0].in_ranks(), &Vec::<usize>::new());
    assert_eq!(comms[0].out_ranks(), &Vec::<usize>::new());
    assert_eq!(comms[1].total_receive_count(), 1);
    assert_eq!(comms[2].total_send_count(), 1);

    // Forward and backward transfers are no-ops for the empty rank.
    let send_data: Vec<Vec<u64>> = vec![vec![], vec![], vec![77]];
    let received = forward_send_values(&comms, &send_data);
    assert_eq!(received[0], Vec::<u64>::new());
    assert_eq!(received[1], vec![77]);
    let returned = backward_send_values(&comms, &received);
    assert_eq!(returned, send_data);
}

#[test]
fn ghost_duplicate_imports_each_get_a_slot() {
    // Rank 1 asks twice for index 0; both slots receive the owner's value.
    let all_required: Vec<Vec<usize>> = vec![vec![], vec![0, 0]];
    let all_owners: Vec<Vec<usize>> = vec![vec![], vec![0, 0]];
    let comms = GhostCommunicator::new(&all_required, &all_owners);
    assert_eq!(comms[1].receive_indices(), &vec![0, 0]);
    assert_eq!(comms[0].send_indices(), &vec![0, 0]);
    let send_data: Vec<Vec<i64>> = vec![vec![42, 42], vec![]];
    let received = forward_send_values(&comms, &send_data);
    assert_eq!(received[1], vec![42, 42]);
}
