use ymir_core::grid::{PlateIdField, PlateType, PlateTypeField};
use ymir_core::plate_ops::{
    assign_cells, count_distinct_plates, find_rift_strip, pairs_at_threshold, reassign_plate,
    AccretionParams, AccretionStats, RiftingSplitStats, VelocityMergeMethod,
};
use ymir_core::plate_pairs::{ConvergenceTracker, DivergenceTracker, RelativeMotion};

/// Sign tables of plate velocities along x (`vx`) and y (`vy`): entry
/// `a * n + b` is the sign of `v_a - v_b`.
fn motion(vx: &[i32], vy: &[i32]) -> RelativeMotion {
    let n = vx.len();
    let sign = |d: i32| if d > 0 { 1i8 } else if d < 0 { -1 } else { 0 };
    let mut sx = Vec::new();
    let mut sy = Vec::new();
    for a in 0..n {
        for b in 0..n {
            sx.push(sign(vx[a] - vx[b]));
            sy.push(sign(vy[a] - vy[b]));
        }
    }
    RelativeMotion::new(n, sx, sy)
}

/// Three plates in a row on a 3 x 1 ring: 0 | 1 | 2.
fn ring3() -> PlateIdField {
    PlateIdField::from_vec(3, 1, vec![0, 1, 2])
}

#[test]
fn convergence_counts_consecutive_steps() {
    let g = ring3();
    // Plate 0 moves +x into plate 1 (moving -x); plate 2 is still.
    let m = motion(&[1, -1, 0], &[0, 0, 0]);
    let mut t = ConvergenceTracker::new();
    for _ in 0..3 {
        t.update(&g, &m);
    }
    assert_eq!(t.get(0, 1), 3);
    assert_eq!(t.get(1, 0), 3, "counts are per unordered pair");
    assert_eq!(t.get(1, 2), 0, "plates 1 and 2 separate");
    assert_eq!(t.get(0, 2), 0, "plates 0 and 2 separate across the seam");
    assert_eq!(pairs_at_threshold(&t.convergence_counts, 3), vec![(0, 1)]);
    assert!(pairs_at_threshold(&t.convergence_counts, 4).is_empty());
}

#[test]
fn convergence_resets_on_non_convergent_step() {
    let g = ring3();
    let closing = motion(&[1, -1, 0], &[0, 0, 0]);
    let still = motion(&[0, 0, 0], &[0, 0, 0]);
    let mut t = ConvergenceTracker::new();
    t.update(&g, &closing);
    t.update(&g, &closing);
    assert_eq!(t.get(0, 1), 2);
    t.update(&g, &still);
    assert_eq!(t.get(0, 1), 0, "a transform step resets the counter");
    t.update(&g, &closing);
    assert_eq!(t.get(0, 1), 1);
}

#[test]
fn divergence_tracker_mirrors_convergence() {
    let g = ring3();
    let m = motion(&[1, -1, 0], &[0, 0, 0]);
    let mut d = DivergenceTracker::new();
    d.update(&g, &m);
    d.update(&g, &m);
    assert_eq!(d.get(1, 2), 2);
    assert_eq!(d.get(2, 0), 2);
    assert_eq!(d.get(0, 1), 0);
}

#[test]
fn merge_reassigns_loser_cells() {
    let mut g = PlateIdField::from_vec(4, 1, vec![0, 1, 1, 2]);
    assert_eq!(count_distinct_plates(&g), 3);
    reassign_plate(&mut g, 1, 0);
    assert_eq!(g.data(), &[0, 0, 0, 2]);
    assert_eq!(count_distinct_plates(&g), 2);
    reassign_plate(&mut g, 1, 0);
    assert_eq!(g.data(), &[0, 0, 0, 2], "reassigning again changes nothing");
}

#[test]
fn rift_strip_and_cell_assignment() {
    // Continental plates 0 (left) and 1 (right) on a 4 x 2 torus.
    let g = PlateIdField::from_vec(4, 2, vec![0, 0, 1, 1, 0, 0, 1, 1]);
    let types = PlateTypeField::filled(4, 2, PlateType::Continental);
    let strip = find_rift_strip(&g, &types, 0, 1);
    assert!(!strip.is_empty());
    let mut g2 = g.clone();
    assign_cells(&mut g2, &strip, 7);
    for &(i, j) in &strip {
        assert_eq!(g2.get(i, j), 7);
    }
}

#[test]
fn stats_and_params_defaults() {
    let s = AccretionStats::zero();
    assert_eq!((s.merges_count, s.plates_remaining), (0, 0));
    let p = AccretionParams::default();
    assert_eq!(p.merge_time_threshold, 50);
    assert!(matches!(p.velocity_merge_method, VelocityMergeMethod::MassWeightedAverage));
    let r = RiftingSplitStats::zero();
    assert_eq!(r.splits_count, 0);
    assert!(r.new_plate_ids_created.is_empty());
}

#[test]
fn half_split_torus_is_never_net_convergent() {
    // 6 x 2 torus: columns 0..3 plate 0, columns 3..6 plate 1.
    let ids: Vec<u16> = (0..12).map(|k| if k % 6 < 3 { 0 } else { 1 }).collect();
    let g = PlateIdField::from_vec(6, 2, ids);
    for (vx, vy) in [([1, -1], [0, 0]), ([-1, 1], [1, 0]), ([0, 0], [0, 0])] {
        let m = motion(&vx, &vy);
        let mut c = ConvergenceTracker::new();
        let mut d = DivergenceTracker::new();
        c.update(&g, &m);
        d.update(&g, &m);
        assert_eq!(c.get(0, 1), 0);
        assert_eq!(d.get(0, 1), 0);
    }
}

#[test]
fn divergence_tracker_mirrors_convergence_under_negated_motion() {
    let g = ring3();
    let m = motion(&[1, -1, 0], &[0, 0, 0]);
    let neg = motion(&[-1, 1, 0], &[0, 0, 0]);
    let mut c = ConvergenceTracker::new();
    let mut d = DivergenceTracker::new();
    for _ in 0..2 {
        c.update(&g, &neg);
        d.update(&g, &m);
    }
    for (a, b) in [(0, 1), (1, 2), (0, 2)] {
        assert_eq!(c.get(a, b), d.get(a, b));
    }
    assert_eq!(d.get(1, 2), 2, "plates 1 and 2 separate under the original motion");
}

/// Three plates in column thirds of a 9 x 4 torus: 0 | 1 | 2.
fn three_plates() -> PlateIdField {
    let ids: Vec<u16> = (0..36).map(|k| ((k % 9) / 3) as u16).collect();
    PlateIdField::from_vec(9, 4, ids)
}

#[test]
fn accretion_does_not_merge_below_time_threshold() {
    let g = three_plates();
    let m = motion(&[1, -1, 0], &[0, 0, 0]);
    let mut t = ConvergenceTracker::new();
    t.update(&g, &m);
    assert_eq!(t.get(0, 1), 1, "after one update the convergent (0, 1) pair should have count = 1");
    assert!(pairs_at_threshold(&t.convergence_counts, 50).is_empty(), "no merge expected below threshold");
    assert_eq!(count_distinct_plates(&g), 3);
}

#[test]
fn accretion_merges_at_time_threshold() {
    let mut g = three_plates();
    let m = motion(&[1, -1, 0], &[0, 0, 0]);
    let mut t = ConvergenceTracker::new();
    for _ in 0..50 {
        t.update(&g, &m);
    }
    let due = pairs_at_threshold(&t.convergence_counts, 50);
    assert_eq!(due, vec![(0, 1)]);
    reassign_plate(&mut g, 1, 0);
    assert_eq!(count_distinct_plates(&g), 2);
    assert_eq!(g.get(3, 0), 0, "plate 1's cells now belong to plate 0");
}

#[test]
fn accretion_resets_counter_on_non_convergent() {
    let g = three_plates();
    let closing = motion(&[1, -1, 0], &[0, 0, 0]);
    let opening = motion(&[-1, 1, 0], &[0, 0, 0]);
    let mut t = ConvergenceTracker::new();
    for _ in 0..3 {
        t.update(&g, &closing);
    }
    assert_eq!(t.get(0, 1), 3);
    t.update(&g, &opening);
    assert_eq!(t.get(0, 1), 0);
}
