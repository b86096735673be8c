use ymir_core::basin_flood::basin_sill_and_bowl;

/// Ranks equal to the quantised heights themselves (no finer raw order).
fn rank(hq: &[i32]) -> Vec<u64> {
    hq.iter().map(|&v| (v as i64 + 1_000_000) as u64).collect()
}

#[test]
fn saddle_is_first_cell_with_a_lower_exterior_neighbour() {
    // 5 × 3 grid; the pit is cells 6 (floor, 1) and 7 (3); cell 8 (2) lies outside.
    let hq: Vec<i32> = vec![9, 9, 9, 9, 9, 9, 1, 3, 2, 0, 9, 9, 9, 9, 9];
    let r = basin_sill_and_bowl(&hq, &rank(&hq), 5, 3, &[6, 7], 6);
    assert_eq!(r.bowl, vec![6, 7]);
    assert_eq!(r.saddle, Some(7));
    assert_eq!(r.escape, Some(8));
    assert_eq!(r.sill, Some(3));
}

#[test]
fn own_component_cells_are_absorbed_not_escapes() {
    let hq: Vec<i32> = vec![9, 9, 9, 9, 9, 9, 1, 3, 2, 0, 9, 9, 9, 9, 9];
    let r = basin_sill_and_bowl(&hq, &rank(&hq), 5, 3, &[6, 7, 8], 6);
    assert_eq!(r.bowl, vec![6, 7, 8]);
    assert_eq!(r.saddle, Some(8));
    assert_eq!(r.escape, Some(9));
    assert_eq!(r.sill, Some(2));
}

#[test]
fn closed_bowl_without_escape_has_no_sill() {
    let hq: Vec<i32> = vec![5, 5, 5, 5, 0, 5, 5, 5, 5];
    let r = basin_sill_and_bowl(&hq, &rank(&hq), 3, 3, &[4], 4);
    assert_eq!(r.bowl.len(), 9);
    assert_eq!(r.bowl[0], 4);
    assert_eq!(r.bowl[1], 0, "equal heights pop lowest index first");
    assert_eq!(r.saddle, None);
    assert_eq!(r.escape, None);
    assert_eq!(r.sill, None);
}

#[test]
fn lowest_escape_neighbour_is_chosen() {
    let hq: Vec<i32> = vec![9, 9, 9, 2, 5, 3, 9, 1, 9];
    let r = basin_sill_and_bowl(&hq, &rank(&hq), 3, 3, &[3], 3);
    // Floor 3 (2): its neighbours 0, 1, 4, 6, 7 — 7 (1) is lower and exterior.
    assert_eq!(r.saddle, Some(3));
    assert_eq!(r.escape, Some(7));
    assert_eq!(r.bowl, vec![3]);
    let r2 = basin_sill_and_bowl(&hq, &rank(&hq), 3, 3, &[3, 7], 3);
    // With 7 in the pit, every lower neighbour is already in the bowl: no escape.
    assert_eq!(r2.bowl, vec![3, 7, 5, 4, 0, 1, 2, 6, 8]);
    assert_eq!(r2.saddle, None);
    assert_eq!(r2.sill, None);
}

#[test]
fn raw_height_breaks_ties_between_equally_quantised_escapes() {
    // Floor 4 (0) with two exterior neighbours of quantised height -1:
    // cell 5 (east, first in neighbour order) and cell 7 (south).
    let hq: Vec<i32> = vec![9, 9, 9, 9, 0, -1, 9, -1, 9];
    let mut rk = rank(&hq);
    let r = basin_sill_and_bowl(&hq, &rk, 3, 3, &[4], 4);
    assert_eq!(r.escape, Some(5), "equal raw heights: first in neighbour order");
    // The raw height of cell 7 is slightly lower than that of cell 5.
    rk[7] = rk[5] - 1;
    let r2 = basin_sill_and_bowl(&hq, &rk, 3, 3, &[4], 4);
    assert_eq!(r2.escape, Some(7), "the lower raw height wins");
    assert_eq!(r2.sill, Some(0));
}
