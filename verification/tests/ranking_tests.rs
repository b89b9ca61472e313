use routed_turboquant::search::rank_distinct;
use routed_turboquant::order_key::{order_key, similarity_key, NEG_INFINITY_KEY};
use routed_turboquant::ranking::top_unique;
use routed_turboquant::routing::{boundary_assignment, select_probes, top_partitions};
use routed_turboquant::search::{collect_count, finish_search, merge_candidates, prerank_budget, SearchStats, V2SearchStats};

fn key(x: f32) -> u32 {
    order_key(x.to_bits())
}

#[test]
fn order_key_follows_float_order() {
    let xs = [f32::NEG_INFINITY, -3.5, -1.0, -1e-30, 0.0, 1e-30, 0.25, 1.0, 7.0, f32::INFINITY];
    for w in xs.windows(2) {
        assert!(key(w[0]) < key(w[1]), "{} vs {}", w[0], w[1]);
    }
    assert_eq!(key(0.0), key(-0.0));
    assert_eq!(key(0.0), 0x8000_0000);
    assert_eq!(key(f32::NEG_INFINITY), NEG_INFINITY_KEY);
}

#[test]
fn similarity_key_sinks_nan() {
    assert_eq!(similarity_key(f32::NAN.to_bits()), 0);
    assert_eq!(similarity_key((-f32::NAN).to_bits()), 0);
    assert_eq!(similarity_key(1.5f32.to_bits()), key(1.5));
    assert!(similarity_key(f32::NEG_INFINITY.to_bits()) >= NEG_INFINITY_KEY);
}

#[test]
fn top_unique_keeps_best_entry_per_id() {
    let cands = vec![(5u32, 1usize), (9, 2), (7, 1), (9, 3), (1, 4)];
    let (r, pos) = top_unique(&cands, 3, 5);
    assert_eq!(r, vec![(9, 2), (9, 3), (7, 1)]);
    assert_eq!(pos, vec![1, 3, 2]);
    let (all, pos) = top_unique(&cands, 10, 5);
    assert_eq!(all, vec![(9, 2), (9, 3), (7, 1), (1, 4)]);
    assert_eq!(pos, vec![1, 3, 2, 4]);
    let (none, pos) = top_unique(&cands, 0, 5);
    assert!(none.is_empty() && pos.is_empty());
}

#[test]
fn merge_counts_unique_ids() {
    let cands = vec![(5u32, 1usize), (9, 2), (7, 1), (9, 3), (1, 4), (3, 2)];
    let (kept, pos, unique) = merge_candidates(&cands, 2, 5);
    assert_eq!(unique, 4);
    assert_eq!(kept, vec![(9, 2), (9, 3)]);
    assert_eq!(pos, vec![1, 3]);
    let (kept, _, unique) = merge_candidates(&cands, 25, 5);
    assert_eq!(unique, 4);
    assert_eq!(kept.len(), 4);
    let ids: std::collections::HashSet<usize> = kept.iter().map(|e| e.1).collect();
    assert_eq!(ids.len(), kept.len());
    for w in kept.windows(2) {
        assert!(w[0].0 >= w[1].0);
    }
    let (kept, _, unique) = merge_candidates(&Vec::new(), 3, 5);
    assert!(kept.is_empty());
    assert_eq!(unique, 0);
}

#[test]
fn top_partitions_picks_highest_keys() {
    let keys = vec![3u32, 7, 5, 7];
    assert_eq!(top_partitions(&keys, 2), vec![1, 3]);
    assert_eq!(top_partitions(&keys, 4), vec![1, 3, 2, 0]);
    assert!(top_partitions(&keys, 0).is_empty());
}

#[test]
fn select_probes_caps_at_partition_count() {
    let keys = vec![key(0.1), key(-0.4), key(0.9)];
    assert_eq!(select_probes(&keys, 1), vec![2]);
    assert_eq!(select_probes(&keys, 8), vec![2, 0, 1]);
}

#[test]
fn boundary_assignment_respects_cutoff_and_cap() {
    let keys = vec![10u32, 9, 3, 8];
    assert_eq!(boundary_assignment(&keys, 8, 4), vec![0, 1, 3]);
    assert_eq!(boundary_assignment(&keys, 8, 2), vec![0, 1]);
    assert_eq!(boundary_assignment(&keys, 100, 4), vec![0]);
    assert_eq!(boundary_assignment(&keys, 0, 9), vec![0, 1, 3, 2]);
}

#[test]
fn collect_count_prefers_rerank_budget() {
    assert_eq!(collect_count(25, 10), 25);
    assert_eq!(collect_count(0, 10), 10);
}

#[test]
fn prerank_budget_only_when_over_budget() {
    assert_eq!(prerank_budget(1000, 500, 16), Some(500));
    assert_eq!(prerank_budget(400, 500, 16), None);
    assert_eq!(prerank_budget(1000, 500, 0), None);
    assert_eq!(prerank_budget(1000, 0, 16), None);
}

#[test]
fn stats_default_to_zero() {
    let s = SearchStats::default();
    assert_eq!((s.raw_partition_entries, s.tq_results_collected, s.unique_ids, s.rerank_k), (0, 0, 0, 0));
    let v = V2SearchStats::default();
    assert_eq!((v.unique_candidates, v.candidates_scored), (0, 0));
}

#[test]
fn positions_report_the_original_scores() {
    // The merge works on keys; the positions it returns let a caller report
    // the scores themselves, negative zero included.
    let scores = [0.5f32, -0.0, 0.75, 0.25];
    let ids = [2usize, 0, 1, 2];
    let cands: Vec<(u32, usize)> = scores.iter().zip(ids.iter()).map(|(&s, &i)| (key(s), i)).collect();
    let (kept, pos, unique) = merge_candidates(&cands, 3, 3);
    assert_eq!(unique, 3);
    let reported: Vec<u32> = pos.iter().map(|&p| scores[p].to_bits()).collect();
    assert_eq!(reported, vec![0.75f32.to_bits(), 0.5f32.to_bits(), (-0.0f32).to_bits()]);
    assert_eq!(kept.iter().map(|e| e.1).collect::<Vec<_>>(), vec![1, 2, 0]);
}

#[test]
fn equal_keys_keep_position_order() {
    let cands = vec![(5u32, 3usize), (5, 1), (5, 2), (6, 0)];
    let (kept, pos, _) = merge_candidates(&cands, 4, 4);
    assert_eq!(kept, vec![(6, 0), (5, 3), (5, 1), (5, 2)]);
    assert_eq!(pos, vec![3, 0, 1, 2]);
    assert_eq!(top_partitions(&vec![4u32, 4, 4], 2), vec![0, 1]);
}

#[test]
fn finish_search_reports_stats() {
    let cands = vec![(5u32, 1usize), (9, 2), (7, 1), (9, 3), (1, 4), (3, 2)];
    let (kept, pos, st) = finish_search(&cands, 40, 2, 5);
    assert_eq!(kept, vec![(9, 2), (9, 3)]);
    assert_eq!(pos, vec![1, 3]);
    assert_eq!((st.raw_partition_entries, st.tq_results_collected, st.unique_ids, st.rerank_k), (40, 6, 4, 2));
    let (kept, _, st) = finish_search(&cands, 40, 10, 5);
    assert_eq!(kept.len(), 4);
    assert_eq!((st.tq_results_collected, st.unique_ids, st.rerank_k), (6, 4, 4));
    let (kept, pos, st) = finish_search(&Vec::new(), 7, 3, 5);
    assert!(kept.is_empty() && pos.is_empty());
    assert_eq!((st.raw_partition_entries, st.tq_results_collected, st.unique_ids, st.rerank_k), (7, 0, 0, 0));
}

#[test]
fn distinct_candidates_are_kept_as_they_are() {
    let cands = vec![(4u32, 0usize), (8, 3), (6, 1)];
    let (kept, _, unique) = merge_candidates(&cands, 2, 4);
    assert_eq!(unique, 3);
    assert_eq!(kept, vec![(8, 3), (6, 1)]);
    let (kept, _, _) = merge_candidates(&cands, 5, 4);
    assert_eq!(kept, vec![(8, 3), (6, 1), (4, 0)]);
}

#[test]
fn rank_distinct_keeps_k_best() {
    let ids = vec![7usize, 2, 9, 4];
    let keys = vec![10u32, 40, 40, 5];
    let (top, pos) = rank_distinct(&ids, &keys, 3, 10);
    assert_eq!(top, vec![(40, 2), (40, 9), (10, 7)]);
    assert_eq!(pos, vec![1, 2, 0]);
    let (all, _) = rank_distinct(&ids, &keys, 10, 10);
    assert_eq!(all.len(), 4);
    let (none, _) = rank_distinct(&ids, &keys, 0, 10);
    assert!(none.is_empty());
}
