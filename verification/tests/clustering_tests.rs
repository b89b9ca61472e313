use routed_turboquant::clustering::kmeans_args_ok;
use rand::rngs::StdRng;
use rand::SeedableRng;
use routed_turboquant::clustering::{assign_step, cluster_sizes, nearest_centroid, reseed_empty_clusters};
use routed_turboquant::order_key::{similarity_key, NEG_INFINITY_KEY};

fn key(x: f32) -> u32 {
    similarity_key(x.to_bits())
}

#[test]
fn nearest_centroid_takes_first_maximum() {
    assert_eq!(nearest_centroid(&vec![key(0.2), key(0.9), key(0.9), key(-0.5)]), 1);
    assert_eq!(nearest_centroid(&vec![key(f32::NAN), key(-0.1)]), 1);
    assert_eq!(nearest_centroid(&vec![NEG_INFINITY_KEY, key(f32::NAN)]), 0);
    assert_eq!(nearest_centroid(&vec![key(0.3)]), 0);
}

#[test]
fn assign_step_reports_changes() {
    let sims = vec![vec![key(0.1), key(0.8)], vec![key(0.7), key(0.2)], vec![key(0.0), key(0.5)]];
    let mut a = vec![0u32; 3];
    assert!(assign_step(&sims, &mut a));
    assert_eq!(a, vec![1, 0, 1]);
    assert!(!assign_step(&sims, &mut a));
    assert_eq!(a, vec![1, 0, 1]);
}

#[test]
fn single_cluster_assigns_everything_to_zero() {
    let sims: Vec<Vec<u32>> = (0..50).map(|_| vec![key(1.0)]).collect();
    let mut a = vec![0u32; 50];
    assert!(!assign_step(&sims, &mut a));
    assert!(a.iter().all(|&c| c == 0));
}

#[test]
fn cluster_sizes_count_members() {
    let counts = cluster_sizes(&vec![2u32, 0, 2, 2, 1], 4);
    assert_eq!(counts, vec![1, 1, 3, 0]);
    assert_eq!(counts.iter().sum::<usize>(), 5);
}

#[test]
fn reseed_draws_only_for_empty_clusters() {
    let mut rng = StdRng::seed_from_u64(42);
    let r = reseed_empty_clusters(&mut rng, &vec![3, 0, 5, 0], 7);
    assert_eq!(r.len(), 4);
    assert!(r[0].is_none() && r[2].is_none());
    assert!(r[1].unwrap() < 7);
    assert!(r[3].unwrap() < 7);
    let mut rng2 = StdRng::seed_from_u64(42);
    let r2 = reseed_empty_clusters(&mut rng2, &vec![3, 0, 5, 0], 7);
    assert_eq!(r, r2);
    let mut rng3 = StdRng::seed_from_u64(1);
    let one = reseed_empty_clusters(&mut rng3, &vec![0], 1);
    assert_eq!(one, vec![Some(0)]);
}

#[test]
fn kmeans_argument_checks() {
    assert!(kmeans_args_ok(3, 4, 2, 12));
    assert!(!kmeans_args_ok(3, 4, 2, 11));
    assert!(!kmeans_args_ok(0, 4, 2, 0));
    assert!(!kmeans_args_ok(3, 0, 2, 0));
    assert!(!kmeans_args_ok(3, 4, 0, 12));
    assert!(!kmeans_args_ok(usize::MAX, 2, 1, 0));
}
