use ymir_core::basins::label_regions8;
use ymir_core::grid::BoolField;

#[test]
fn diagonal_cells_form_one_region() {
    let mut f = BoolField::filled(4, 4, false);
    f.set(0, 0, true);
    f.set(1, 1, true);
    f.set(2, 0, true); // touches (1, 1) diagonally
    f.set(3, 3, true); // isolated
    let labels = label_regions8(&f);
    assert_eq!(labels[0], labels[5]);
    assert_eq!(labels[0], labels[2]);
    assert_ne!(labels[0], labels[15]);
    assert_eq!(labels[15], 15);
    assert_eq!(labels[1], 1, "an unmasked cell labels itself");
}

#[test]
fn regions_do_not_wrap_around_the_edges() {
    let mut f = BoolField::filled(5, 3, false);
    f.set(0, 1, true);
    f.set(4, 1, true); // same row, opposite edges: not neighbours without wrap
    f.set(2, 0, true);
    f.set(2, 2, true); // same column, opposite edges
    let labels = label_regions8(&f);
    assert_ne!(labels[5], labels[9]);
    assert_ne!(labels[2], labels[12]);
}

#[test]
fn anti_diagonal_chain_is_connected() {
    let mut f = BoolField::filled(4, 4, false);
    for i in 0..4 {
        f.set(3 - i, i, true);
    }
    let labels = label_regions8(&f);
    let k = |x: usize, y: usize| y * 4 + x;
    for i in 0..4 {
        assert_eq!(labels[k(3 - i, i)], labels[k(3, 0)]);
    }
}
