use ymir_core::adjacency::build_plate_adjacency;
use ymir_core::grid::PlateIdField;

#[test]
fn build_adjacency_on_two_plate_field() {
    let nx = 16;
    let ny = 16;
    let mut p = PlateIdField::new(nx, ny);
    for j in 0..ny {
        for i in 0..nx {
            p.set(i, j, if i < nx / 2 { 0 } else { 1 });
        }
    }
    let adj = build_plate_adjacency(&p, 2);
    assert_eq!(adj.len(), 2);
    assert_eq!(adj[0], vec![1], "plate 0 should be adjacent to plate 1");
    assert_eq!(adj[1], vec![0], "plate 1 should be adjacent to plate 0");
}

#[test]
fn adjacency_is_symmetric_and_sorted_on_three_bands() {
    // Three vertical bands 0 | 1 | 2 on a periodic 6 x 2 grid: every pair touches
    // (2 wraps around to 0).
    let nx = 6;
    let ny = 2;
    let mut data = Vec::new();
    for _j in 0..ny {
        for i in 0..nx {
            data.push((i / 2) as u16);
        }
    }
    let p = PlateIdField::from_vec(nx, ny, data);
    let adj = build_plate_adjacency(&p, 3);
    assert_eq!(adj, vec![vec![1, 2], vec![0, 2], vec![0, 1]]);
    for a in 0..3usize {
        for &b in &adj[a] {
            assert!(adj[b as usize].contains(&(a as u16)));
        }
    }
}

#[test]
fn adjacency_lists_nothing_for_absent_plates() {
    let p = PlateIdField::new(4, 4);
    let adj = build_plate_adjacency(&p, 3);
    assert_eq!(adj, vec![Vec::<u16>::new(), Vec::new(), Vec::new()]);
}
