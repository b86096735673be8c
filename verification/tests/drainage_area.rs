use ymir_core::drainage_area::{compute_drainage_areas, DrainageMap};

#[test]
fn drainage_area_transitive_accumulation_linear_chain() {
    // 0 (A) -> 1 (B) -> 2 (C) -> 3 (D, sink).
    let map = DrainageMap { target_idx: vec![1, 2, 3, 3], path_length: vec![3, 2, 1, 0] };
    let areas = compute_drainage_areas(&map);
    assert_eq!(areas, vec![1, 2, 3, 4]);
}

#[test]
fn drainage_area_tree_sums_tributaries() {
    // Two branches join at 2, which drains into the sink 3.
    //   0 -> 2, 1 -> 2, 2 -> 3, 4 -> 3, 3 sink.
    let map = DrainageMap { target_idx: vec![2, 2, 3, 3, 3], path_length: vec![2, 2, 1, 0, 1] };
    let areas = compute_drainage_areas(&map);
    assert_eq!(areas, vec![1, 1, 3, 5, 1]);
}

#[test]
fn drainage_area_all_sinks_are_one() {
    let map = DrainageMap { target_idx: vec![0, 1, 2], path_length: vec![0, 0, 0] };
    assert_eq!(compute_drainage_areas(&map), vec![1, 1, 1]);
}

#[test]
fn drainage_area_grows_downstream_on_a_chain() {
    let map = DrainageMap {
        target_idx: vec![1, 2, 3, 4, 4],
        path_length: vec![4, 3, 2, 1, 0],
    };
    let areas = compute_drainage_areas(&map);
    for c in 0..4 {
        assert!(areas[map.target_idx[c]] > areas[c]);
    }
    assert_eq!(areas[4], 5);
}
