use ymir_core::coast::coast_distances;
use ymir_core::grid::BoolField;

#[test]
fn coast_distance_counts_steps_around_the_torus() {
    // One land cell at (0, 0) on a 5 x 4 torus.
    let mut f = BoolField::filled(5, 4, false);
    f.set(0, 0, true);
    let d = coast_distances(&f).unwrap();
    let at = |x: usize, y: usize| d[y * 5 + x];
    assert_eq!(at(0, 0), 0);
    assert_eq!(at(1, 0), 1);
    assert_eq!(at(4, 0), 1, "wraps west");
    assert_eq!(at(2, 2), 4);
    assert_eq!(at(3, 3), 3, "wraps both ways: 2 + 1");
}

#[test]
fn coast_distance_takes_the_nearest_land() {
    let mut f = BoolField::filled(8, 1, false);
    f.set(1, 0, true);
    f.set(5, 0, true);
    let d = coast_distances(&f).unwrap();
    assert_eq!(d, vec![1, 0, 1, 2, 1, 0, 1, 2]);
}

#[test]
fn coast_distance_none_without_land() {
    assert!(coast_distances(&BoolField::filled(3, 3, false)).is_none());
}

#[test]
fn uniform_deep_ocean_is_one_cell_from_the_coast() {
    // A centred block: the first ocean ring around it is at distance 1.
    let mut f = BoolField::filled(16, 16, false);
    for y in 6..10 {
        for x in 6..10 {
            f.set(x, y, true);
        }
    }
    let d = coast_distances(&f).unwrap();
    assert_eq!(d[7 * 16 + 5], 1);
    assert_eq!(d[5 * 16 + 5], 2);
    assert_eq!(d[0], 12);
}
