use routed_turboquant::search::routed_candidates;
use routed_turboquant::partition::PartitionTable;
use routed_turboquant::routing::{boundary_assignment, top_partitions};
use routed_turboquant::sizing::{check_build, index_memory_bytes, vector_count, vectors_scanned_per_query, BuildError};

#[test]
fn partition_table_inverts_assignment() {
    let assignments = vec![vec![0usize, 2], vec![1], vec![2, 0]];
    let t = PartitionTable::build(3, &assignments);
    assert_eq!(t.n_partitions(), 3);
    assert_eq!(t.n_vectors(), 3);
    assert_eq!(t.total_stored(), 5);
    assert_eq!(t.members(0), &vec![0, 2]);
    assert_eq!(t.members(1), &vec![1]);
    assert_eq!(t.members(2), &vec![0, 2]);
    assert_eq!(t.probed_entries(&vec![0, 1]), 3);
    assert_eq!(t.collect_unique(&vec![2, 1, 0]), vec![0, 2, 1]);
    assert_eq!(t.collect_unique(&vec![1]), vec![1]);
}

#[test]
fn fixed_assignment_stores_m_copies() {
    let keys_per_vector = vec![vec![1u32, 5, 3, 2], vec![9, 1, 1, 4], vec![2, 2, 8, 8]];
    for m in 1..=4 {
        let assignments: Vec<Vec<usize>> = keys_per_vector.iter().map(|k| top_partitions(k, m)).collect();
        let t = PartitionTable::build(4, &assignments);
        assert_eq!(t.total_stored(), 3 * m);
    }
}

#[test]
fn full_probe_collects_every_vector() {
    let assignments = vec![vec![3usize], vec![0], vec![2, 1], vec![1]];
    let t = PartitionTable::build(4, &assignments);
    let mut all = t.collect_unique(&vec![0, 1, 2, 3]);
    all.sort();
    assert_eq!(all, vec![0, 1, 2, 3]);
}

#[test]
fn gather_maps_local_positions_to_global_ids() {
    let assignments = vec![vec![1usize], vec![0], vec![1], vec![1]];
    let t = PartitionTable::build(2, &assignments);
    assert_eq!(t.members(1), &vec![0, 2, 3]);
    let mut out = vec![(1u32, 1usize)];
    let mut slots = Vec::new();
    t.gather_candidates(1, &vec![2, -1, 0], &vec![40, 30, 20], &mut out, &mut slots);
    assert_eq!(out, vec![(1, 1), (40, 3), (20, 0)]);
    assert_eq!(slots, vec![0, 2]);
    t.gather_candidates(1, &vec![1, 1, 1], &vec![7], &mut out, &mut slots);
    assert_eq!(out, vec![(1, 1), (40, 3), (20, 0), (7, 2)]);
    assert_eq!(slots, vec![0, 2, 0]);
}

#[test]
fn memory_estimate_matches_breakdown() {
    // 100 vectors * 384 * 4/8 codes + 100 * 4 norms + 4 * 384 * 4 centroids + 100 * 8 ids
    assert_eq!(index_memory_bytes(100, 384, 4, 4), 19200 + 400 + 6144 + 800);
    assert_eq!(index_memory_bytes(0, 16, 4, 2), 128);
}

#[test]
fn scanned_per_query_is_probed_fraction() {
    assert_eq!(vectors_scanned_per_query(200, 4, 16), 50);
    assert_eq!(vectors_scanned_per_query(0, 4, 0), 0);
    assert_eq!(vectors_scanned_per_query(10, 3, 4), 7);
}

#[test]
fn build_checks_report_each_error() {
    assert_eq!(vector_count(96, 32), Ok(3));
    assert_eq!(vector_count(95, 32), Err(BuildError::RaggedLength));
    assert_eq!(vector_count(0, 32), Err(BuildError::NoVectors));
    assert_eq!(check_build(64, 32, 1, 8), Ok(2));
    assert_eq!(check_build(65, 32, 1, 8), Err(BuildError::RaggedLength));
    assert_eq!(check_build(0, 32, 0, 8), Err(BuildError::NoVectors));
    assert_eq!(check_build(64, 32, 0, 8), Err(BuildError::MultiAssignZero));
    assert_eq!(check_build(64, 32, 9, 8), Err(BuildError::MultiAssignTooLarge));
}

#[test]
fn boundary_assignment_storage_between_one_and_cap() {
    let keys_per_vector = vec![vec![10u32, 9, 3, 8], vec![5, 50, 1, 2], vec![7, 7, 7, 7]];
    let cutoffs = [8u32, 45, 7];
    let assignments: Vec<Vec<usize>> =
        keys_per_vector.iter().zip(cutoffs.iter()).map(|(k, &c)| boundary_assignment(k, c, 3)).collect();
    assert_eq!(assignments, vec![vec![0, 1, 3], vec![1], vec![0, 1, 2]]);
    let t = PartitionTable::build(4, &assignments);
    assert_eq!(t.total_stored(), 7);
    assert!(t.total_stored() >= 3 && t.total_stored() <= 9);
}

#[test]
fn more_assignments_keep_candidates() {
    let keys_per_vector = vec![vec![1u32, 5, 3, 2], vec![9, 1, 1, 4], vec![2, 3, 8, 8], vec![6, 5, 4, 3]];
    let one: Vec<Vec<usize>> = keys_per_vector.iter().map(|k| top_partitions(k, 1)).collect();
    let three: Vec<Vec<usize>> = keys_per_vector.iter().map(|k| top_partitions(k, 3)).collect();
    let t1 = PartitionTable::build(4, &one);
    let t3 = PartitionTable::build(4, &three);
    for probes in [vec![0usize], vec![1], vec![2, 3], vec![3, 1]] {
        let c1 = t1.collect_unique(&probes);
        let c3 = t3.collect_unique(&probes);
        assert!(c1.iter().all(|v| c3.contains(v)), "{:?} vs {:?}", c1, c3);
    }
}

#[test]
fn fixed_build_places_vectors_in_best_partitions() {
    let keys = vec![vec![1u32, 5, 3, 2], vec![9, 1, 1, 4], vec![2, 2, 8, 8]];
    let t = PartitionTable::build_fixed(4, &keys, 2).unwrap();
    assert_eq!(t.total_stored(), 6);
    assert_eq!(t.members(0), &vec![1]);
    assert_eq!(t.members(1), &vec![0]);
    assert_eq!(t.members(2), &vec![0, 2]);
    assert_eq!(t.members(3), &vec![1, 2]);
}

#[test]
fn boundary_build_follows_cutoffs() {
    let keys = vec![vec![10u32, 9, 3, 8], vec![5, 50, 1, 2], vec![7, 7, 7, 7]];
    let t = PartitionTable::build_boundary(4, &keys, &vec![8, 45, 7], 3).unwrap();
    assert_eq!(t.total_stored(), 7);
    assert_eq!(t.members(0), &vec![0, 2]);
    assert_eq!(t.members(1), &vec![0, 1, 2]);
    assert_eq!(t.members(2), &vec![2]);
    assert_eq!(t.members(3), &vec![0]);
    // a lower cutoff never stores fewer copies
    let lower = PartitionTable::build_boundary(4, &keys, &vec![2, 1, 0], 3).unwrap();
    assert!(lower.total_stored() >= t.total_stored());
    assert_eq!(lower.total_stored(), 9);
}

#[test]
fn single_boundary_matches_single_assignment() {
    let keys = vec![vec![3u32, 9, 9, 1], vec![6, 2, 6, 6]];
    let b = PartitionTable::build_boundary(4, &keys, &vec![0, 0], 1).unwrap();
    let f = PartitionTable::build_fixed(4, &keys, 1).unwrap();
    for p in 0..4 {
        assert_eq!(b.members(p), f.members(p));
    }
    assert_eq!(b.total_stored(), 2);
}

#[test]
fn try_build_matches_build() {
    let assignments = vec![vec![0usize, 2], vec![1], vec![2, 0]];
    let t = PartitionTable::try_build(3, &assignments).unwrap();
    assert_eq!(t.total_stored(), 5);
    assert_eq!(t.members(2), &vec![0, 2]);
}

#[test]
fn full_probe_scans_every_copy() {
    let assignments = vec![vec![0usize, 2], vec![1], vec![2, 0], vec![1, 2]];
    let t = PartitionTable::build(3, &assignments);
    assert_eq!(t.probed_entries(&vec![2, 0, 1]), t.total_stored());
    assert_eq!(t.collect_unique(&vec![1, 2, 0]).len(), t.n_vectors());
    assert!(t.probed_entries(&vec![2]) <= t.total_stored());
}

#[test]
fn builds_are_determined_by_their_keys() {
    let keys = vec![vec![5u32, 5, 1, 5], vec![0, 9, 9, 2], vec![3, 3, 3, 3]];
    let a = PartitionTable::build_fixed(4, &keys, 2).unwrap();
    let b = PartitionTable::build_fixed(4, &keys, 2).unwrap();
    let c = PartitionTable::build_boundary(4, &keys, &vec![5, 9, 3], 4).unwrap();
    let d = PartitionTable::build_boundary(4, &keys, &vec![5, 9, 3], 4).unwrap();
    for p in 0..4 {
        assert_eq!(a.members(p), b.members(p));
        assert_eq!(c.members(p), d.members(p));
    }
    assert_eq!(a.members(0), &vec![0, 2]);
    assert_eq!(a.members(1), &vec![0, 1, 2]);
    assert_eq!(a.members(2), &vec![1]);
    assert_eq!(c.total_stored(), 3 + 2 + 4);
}

#[test]
fn probe_request_skips_empty_and_caps() {
    let t = PartitionTable::build(3, &vec![vec![0usize], vec![0], vec![2]]);
    assert_eq!(t.probe_request(0, 5), Some(2));
    assert_eq!(t.probe_request(0, 1), Some(1));
    assert_eq!(t.probe_request(1, 5), None);
    assert_eq!(t.probe_request(2, 0), Some(0));
}

#[test]
fn routed_candidates_gathers_merges_and_counts() {
    // partition 0 holds 0, 1, 3; partition 1 holds 1, 2; partition 2 holds 3
    let assignments = vec![vec![0usize], vec![0, 1], vec![1], vec![0, 2]];
    let t = PartitionTable::build(3, &assignments);
    let probes = vec![1usize, 0];
    let ids = vec![vec![1i64, 0], vec![2, -1, 1]];
    let keys = vec![vec![50u32, 20], vec![60, 99, 30]];
    let (kept, pos, origins, st) = routed_candidates(&t, &probes, &ids, &keys, 2);
    // gathered: (50, 2), (20, 1), (60, 3), (30, 1)
    assert_eq!(origins, vec![(0, 0), (0, 1), (1, 0), (1, 2)]);
    assert_eq!(kept, vec![(60, 3), (50, 2)]);
    assert_eq!(pos, vec![2, 0]);
    assert_eq!((st.raw_partition_entries, st.tq_results_collected, st.unique_ids, st.rerank_k), (5, 4, 3, 2));
    let (kept, _, _, st) = routed_candidates(&t, &probes, &ids, &keys, 10);
    assert_eq!(kept, vec![(60, 3), (50, 2), (30, 1)]);
    assert_eq!(st.rerank_k, 3);
    // a full probe whose scorer returns every position returns every vector
    let all = vec![0usize, 1, 2];
    let ids = vec![vec![0i64, 1, 2], vec![1, 0], vec![0]];
    let keys = vec![vec![1u32, 2, 3], vec![4, 5], vec![6]];
    let (kept, _, _, st) = routed_candidates(&t, &all, &ids, &keys, 10);
    let mut got: Vec<usize> = kept.iter().map(|e| e.1).collect();
    got.sort();
    assert_eq!(got, vec![0, 1, 2, 3]);
    assert_eq!(st.raw_partition_entries, t.total_stored());
}
