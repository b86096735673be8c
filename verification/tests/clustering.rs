use std::collections::{HashSet, VecDeque};

use rand::{Rng, SeedableRng};

use ymir_core::clustering::{assign_continental_clusters, ClusterPlan};
use ymir_core::grid::PlateType;

fn complete_adjacency(n: usize) -> Vec<Vec<u16>> {
    (0..n).map(|i| (0..n).filter(|j| *j != i).map(|j| j as u16).collect()).collect()
}

fn ring_adjacency(n: usize) -> Vec<Vec<u16>> {
    (0..n)
        .map(|i| {
            let prev = ((i + n - 1) % n) as u16;
            let next = ((i + 1) % n) as u16;
            vec![prev.min(next), prev.max(next)]
        })
        .collect()
}

fn disconnected_adjacency() -> Vec<Vec<u16>> {
    vec![vec![1], vec![0], vec![3], vec![2]]
}

/// The plan for `num_plates` plates and a continental fraction: the target
/// count is `round(num_plates * fraction)`.
fn plan(num_plates: usize, fraction: f64, seed_cluster_count: usize, seed: u64) -> ClusterPlan {
    ClusterPlan {
        enabled: true,
        target_continental: (num_plates as f64 * fraction).round() as usize,
        seed_cluster_count,
        seed,
    }
}

fn continental_count(types: &[PlateType]) -> usize {
    types.iter().filter(|t| matches!(t, PlateType::Continental)).count()
}

#[test]
fn clustering_deterministic_given_seed() {
    let adj = complete_adjacency(8);
    let mut a = vec![PlateType::Continental; 8];
    let mut b = vec![PlateType::Continental; 8];
    let params = plan(8, 0.29, 1, 0);
    assign_continental_clusters(&mut a, &adj, &params);
    assign_continental_clusters(&mut b, &adj, &params);
    for i in 0..8 {
        assert_eq!(a[i], b[i], "same (adj, params) must produce identical output at plate {i}");
    }
}

#[test]
fn clustering_continental_fraction_within_target() {
    let num_plates = 8;
    let adj = complete_adjacency(num_plates);
    let mut types = vec![PlateType::Oceanic; num_plates];
    let fraction = 0.29;
    assign_continental_clusters(&mut types, &adj, &plan(num_plates, fraction, 1, 0));
    let count = continental_count(&types);
    let actual_fraction = count as f64 / num_plates as f64;
    let tolerance = (1.0 / num_plates as f64).max(0.05);
    let diff = (actual_fraction - fraction).abs();
    assert!(diff <= tolerance, "fraction {actual_fraction} too far from {fraction}");
}

#[test]
fn clustering_single_contiguous_component() {
    let num_plates = 8;
    let adj = ring_adjacency(num_plates);
    let mut types = vec![PlateType::Oceanic; num_plates];
    assign_continental_clusters(&mut types, &adj, &plan(num_plates, 0.5, 1, 42));
    let continental: Vec<u16> = types
        .iter()
        .enumerate()
        .filter(|(_, t)| matches!(t, PlateType::Continental))
        .map(|(i, _)| i as u16)
        .collect();
    assert!(!continental.is_empty());
    let mut reached: HashSet<u16> = HashSet::new();
    let mut queue: VecDeque<u16> = VecDeque::new();
    reached.insert(continental[0]);
    queue.push_back(continental[0]);
    while let Some(p) = queue.pop_front() {
        for &n in adj[p as usize].iter() {
            if continental.contains(&n) && !reached.contains(&n) {
                reached.insert(n);
                queue.push_back(n);
            }
        }
    }
    assert_eq!(reached.len(), continental.len());
}

#[test]
fn clustering_disabled_no_op() {
    let adj = complete_adjacency(8);
    let initial = vec![
        PlateType::Continental,
        PlateType::Oceanic,
        PlateType::Continental,
        PlateType::Oceanic,
        PlateType::Oceanic,
        PlateType::Continental,
        PlateType::Oceanic,
        PlateType::Oceanic,
    ];
    let mut types = initial.clone();
    let mut params = plan(8, 0.99, 1, 0);
    params.enabled = false;
    assign_continental_clusters(&mut types, &adj, &params);
    for i in 0..8 {
        assert_eq!(types[i], initial[i], "`enabled = false` must not touch plate {i}");
    }
}

#[test]
fn clustering_handles_disconnected_voronoi() {
    let adj = disconnected_adjacency();
    let mut types = vec![PlateType::Oceanic; 4];
    assign_continental_clusters(&mut types, &adj, &plan(4, 0.75, 1, 0));
    assert_eq!(continental_count(&types), 2);
}

#[test]
fn clustering_hits_target_exactly_on_connected_graph() {
    let adj = ring_adjacency(10);
    let mut types = vec![PlateType::Oceanic; 10];
    assign_continental_clusters(&mut types, &adj, &plan(10, 0.3, 1, 7));
    assert_eq!(continental_count(&types), 3);
}

#[test]
fn clustering_clamps_target_to_at_least_one() {
    let adj = complete_adjacency(5);
    let mut types = vec![PlateType::Continental; 5];
    let params = ClusterPlan { enabled: true, target_continental: 0, seed_cluster_count: 0, seed: 3 };
    assign_continental_clusters(&mut types, &adj, &params);
    assert_eq!(continental_count(&types), 1);
}

#[test]
fn clustering_seed_is_the_generators_first_draw() {
    // One continental plate out of 64 isolated plates: that plate is the drawn
    // seed, `draw mod 64` of the first ChaCha8 draw for the plan's seed.
    let adj: Vec<Vec<u16>> = vec![Vec::new(); 64];
    for seed in [0u64, 1, 42, 12345] {
        let mut types = vec![PlateType::Oceanic; 64];
        let params = ClusterPlan { enabled: true, target_continental: 1, seed_cluster_count: 1, seed };
        assign_continental_clusters(&mut types, &adj, &params);
        let mut rng = rand_chacha::ChaCha8Rng::seed_from_u64(seed);
        let draw: u64 = rng.random::<u64>();
        let expected = (draw % 64) as usize;
        assert_eq!(continental_count(&types), 1);
        assert_eq!(types.iter().position(|t| matches!(t, PlateType::Continental)), Some(expected));
    }
}
