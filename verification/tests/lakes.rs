use ymir_core::lakes::{
    default_true, exorheic_lakes_missing_outlet, majority_lake_id, outlet_reaches_sea, overlay_below_sea_lakes,
    periodic_receivers, trace_spillway, LakeType,
};
use ymir_core::river_clip::{clip_reaches_to_lakes, Reach};

/// One reach crossing a two-cell lake (id 7) on a 10 x 1 strip.
fn one_reach_crossing_lake() -> (Vec<Reach>, Vec<u32>) {
    let w = 10usize;
    let mut lake_map = vec![0u32; w];
    lake_map[4] = 7;
    lake_map[5] = 7;
    let reach = Reach { points: (0..w as u32).map(|x| (x, 0u32)).collect(), upstream: vec![], downstream: None };
    (vec![reach], lake_map)
}

#[test]
fn clip_rivers_terminate_at_lake_sinks() {
    let w = 10usize;
    // Exorheic: inflow reach (x0..3) + outlet reach (x6..9) both survive.
    let (reaches, lake_map) = one_reach_crossing_lake();
    let ex = clip_reaches_to_lakes(&reaches, &lake_map, w, &[]);
    assert_eq!(ex.len(), 2, "exorheic: inflow + outlet reaches");
    for s in &ex {
        assert!(s.points.iter().all(|&(x, y)| lake_map[y as usize * w + x as usize] == 0));
        assert_eq!(s.points.len(), s.end - s.start, "points parallel to the parent slice");
    }
    // Endorheic: the closed basin has no outflow -> only the inflow reach survives.
    let en = clip_reaches_to_lakes(&reaches, &lake_map, w, &[7]);
    assert_eq!(en.len(), 1, "endorheic: phantom outlet dropped");
    assert!(en[0].points.iter().all(|&(x, _)| x < 4));
}

#[test]
fn clip_drops_outlet_of_below_sea_basin_and_short_runs() {
    let w = 8usize;
    let mut lake_map = vec![0u32; w];
    lake_map[2] = 1_000_001; // below-sea basin
    lake_map[6] = 3; // ordinary lake leaving a one-point run at x = 7
    let reach = Reach { points: (0..w as u32).map(|x| (x, 0u32)).collect(), upstream: vec![], downstream: None };
    let out = clip_reaches_to_lakes(&vec![reach], &lake_map, w, &[]);
    assert_eq!(out.len(), 1);
    assert_eq!((out[0].start, out[0].end), (0, 2));
    assert_eq!(out[0].downstream, None, "ends at the basin shore");
}

#[test]
fn clip_remaps_links_through_heads_and_tails() {
    // Reach 0 (x 0..3, dry) flows into reach 1 (x 3..9) which crosses a lake at x 5.
    let w = 10usize;
    let mut lake_map = vec![0u32; w];
    lake_map[5] = 4;
    let r0 = Reach { points: (0..3u32).map(|x| (x, 0)).collect(), upstream: vec![], downstream: Some(1) };
    let r1 = Reach { points: (3..10u32).map(|x| (x, 0)).collect(), upstream: vec![0], downstream: None };
    let out = clip_reaches_to_lakes(&vec![r0, r1], &lake_map, w, &[]);
    assert_eq!(out.len(), 3);
    assert_eq!((out[0].parent, out[0].downstream), (0, Some(1)));
    assert_eq!((out[1].parent, out[1].start, out[1].end), (1, 0, 2));
    assert_eq!(out[1].upstream, vec![0]);
    assert_eq!(out[1].downstream, None, "ends at the lake shore");
    assert_eq!((out[2].parent, out[2].start, out[2].end), (1, 3, 7));
    assert!(out[2].upstream.is_empty());
}

#[test]
fn every_exorheic_lake_needs_a_traced_outlet() {
    let (w, h) = (12usize, 1usize);
    let mut lake_map = vec![0u32; w * h];
    lake_map[4] = 7; // lake A (exorheic, WILL have an outlet reach)
    lake_map[5] = 7;
    lake_map[9] = 9; // lake B (exorheic, NO outlet reach)
    lake_map[1] = 11; // lake C (endorheic)
    let lakes = vec![(7u32, LakeType::Exorheic), (9, LakeType::Exorheic), (11, LakeType::Endorheic)];
    let outlet = |sx: u32| Reach { points: vec![(sx, 0), (sx + 1, 0)], upstream: vec![], downstream: None };
    let reaches = vec![outlet(6)];
    assert_eq!(exorheic_lakes_missing_outlet(&lakes, &reaches, &lake_map, w, h), vec![9]);
    let reaches = vec![outlet(6), outlet(8)];
    assert!(exorheic_lakes_missing_outlet(&lakes, &reaches, &lake_map, w, h).is_empty());
}

#[test]
fn outlet_bordering_counts_diagonals_and_skips_empty_reaches() {
    let (w, h) = (4usize, 4usize);
    let mut lake_map = vec![0u32; w * h];
    lake_map[0] = 5; // lake at (0, 0)
    let lakes = vec![(5u32, LakeType::Exorheic)];
    let diag = Reach { points: vec![(1, 1), (2, 2)], upstream: vec![], downstream: None };
    let empty = Reach { points: vec![], upstream: vec![], downstream: None };
    assert!(exorheic_lakes_missing_outlet(&lakes, &vec![empty.clone(), diag], &lake_map, w, h).is_empty());
    let far = Reach { points: vec![(2, 2), (3, 3)], upstream: vec![], downstream: None };
    assert_eq!(exorheic_lakes_missing_outlet(&lakes, &vec![empty, far], &lake_map, w, h), vec![5]);
}

const D8: [(i32, i32); 8] = [(1, 0), (1, 1), (0, 1), (-1, 1), (-1, 0), (-1, -1), (0, -1), (1, -1)];

#[test]
fn periodic_receivers_wrap_both_axes() {
    // 3 x 2 grid: cell 0 points west (wraps to x = 2), cell 5 points south-east
    // (wraps to (0, 0)), cell 1 has no direction.
    let dirs = vec![4u8, 255, 0, 2, 6, 1];
    let r = periodic_receivers(&dirs, 3, 2, &D8);
    assert_eq!(r, vec![Some(2), None, Some(0), Some(0), Some(1), Some(0)]);
}

#[test]
fn outlet_reaches_sea_follows_receivers() {
    // Chain 0 -> 1 -> 2 -> 3 (sea); 4 drains nowhere; 5 <-> 6 loop.
    let receiver = vec![Some(1), Some(2), Some(3), None, None, Some(6), Some(5)];
    let sea = vec![false, false, false, true, false, false, false];
    assert!(outlet_reaches_sea(0, &receiver, &sea));
    assert!(outlet_reaches_sea(3, &receiver, &sea));
    assert!(!outlet_reaches_sea(4, &receiver, &sea));
    assert!(!outlet_reaches_sea(5, &receiver, &sea), "a loop never reaches the sea");
}

#[test]
fn spillway_to_ocean_and_chain_and_loop() {
    // Cells 0..6 on a line; receivers point east; cell 5 is ocean.
    let receiver = vec![Some(1), Some(2), Some(3), Some(4), Some(5), None];
    let ocean = vec![false, false, false, false, false, true];
    let lake_map = vec![0u32; 6];
    let bowl = vec![true, false, false, false, false, false];
    let t = trace_spillway(0, 1, &receiver, &ocean, &lake_map, None, &bowl).unwrap();
    assert_eq!(t, (vec![0, 1, 2, 3, 4, 5], None));
    // A detected lake at cell 3 stops the walk there.
    let detected = vec![0u32, 0, 0, 9, 0, 0];
    let t = trace_spillway(0, 1, &receiver, &ocean, &lake_map, Some(&detected), &bowl).unwrap();
    assert_eq!(t, (vec![0, 1, 2, 3], Some(9)));
    // Below-sea ids take precedence over detected ids on the same cell.
    let mut lm = lake_map.clone();
    lm[3] = 1_000_002;
    let t = trace_spillway(0, 1, &receiver, &ocean, &lm, Some(&detected), &bowl).unwrap();
    assert_eq!(t.1, Some(1_000_002));
    // Re-entering its own bowl is a loop: no outlet.
    let back = vec![Some(1), Some(0), None, None, None, None];
    assert_eq!(trace_spillway(0, 1, &back, &ocean, &lake_map, None, &bowl), None);
}

#[test]
fn below_sea_overlay_absorbs_submerged_lakes() {
    let mut map = vec![3u32, 3, 0, 4, 4, 0];
    let below = vec![1_000_001u32, 1_000_001, 1_000_001, 0, 1_000_001, 0];
    let absorbed = overlay_below_sea_lakes(&mut map, &below);
    assert_eq!(map, vec![1_000_001, 1_000_001, 1_000_001, 4, 1_000_001, 0]);
    assert_eq!(absorbed, vec![3], "lake 3 is wholly submerged; lake 4 keeps a cell");
}

#[test]
fn drainage_thresholds_full_tree_defaults_on() {
    assert!(default_true());
}

#[test]
fn crater_lake_is_the_majority_id() {
    assert_eq!(majority_lake_id(&[0, 0, 0]), None);
    assert_eq!(majority_lake_id(&[]), None);
    assert_eq!(majority_lake_id(&[0, 4, 4, 9, 0, 4, 9]), Some(4));
    assert_eq!(majority_lake_id(&[9, 9, 4, 4, 0]), Some(4), "ties go to the smallest id");
}
