use ymir_core::window::window_ring_scan;
use ymir_core::grid::BoolField;
use ymir_core::land::{circular_extent, mass_extent};
use ymir_core::landmass::{
    count_masses_inside, label_land, land_masses, land_on_border, mass_occupancy, occupied_span,
    order_by_size_desc, representatives,
};
use ymir_core::verdict::{domain_verdict, DomainVerdict};

/// A `w x h` land mask with the rectangular block `[x0, x1) x [y0, y1)`.
fn field_with_block(w: usize, h: usize, x0: usize, x1: usize, y0: usize, y1: usize) -> BoolField {
    let mut d = vec![false; w * h];
    for y in y0..y1 {
        for x in x0..x1 {
            d[y * w + x] = true;
        }
    }
    BoolField::from_vec(w, h, d)
}

fn set_block(f: &mut BoolField, x0: usize, x1: usize, y0: usize, y1: usize) {
    for y in y0..y1 {
        for x in x0..x1 {
            f.set(x, y, true);
        }
    }
}

#[test]
fn compact_blob_is_one_nonwrapping_landmass() {
    let f = field_with_block(20, 20, 6, 12, 6, 12);
    let t = land_masses(&f);
    assert_eq!(t.num_landmasses, 1);
    assert!(!t.wraps_x && !t.wraps_y, "compact interior blob must not wrap");
    assert_eq!(t.largest_cells, 36);
    assert_eq!((t.bbox_min, t.bbox_max), ((6, 6), (11, 11)));
    // Emerged fraction 36 / 400.
    assert_eq!(t.land_cells, 36);
    assert!((t.land_cells as f32 / 400.0 - 36.0 / 400.0).abs() < 1e-6);
}

#[test]
fn seam_straddle_x_is_finite_not_a_band() {
    let mut f = field_with_block(20, 10, 0, 3, 3, 7);
    set_block(&mut f, 17, 20, 3, 7);
    let t = land_masses(&f);
    assert!(!t.wraps_x, "a finite seam-straddle is NOT a band");
    assert!(t.straddles_x, "it does straddle the x seam");
    assert!(!t.wraps_y && !t.straddles_y);
    assert_eq!(t.num_landmasses, 1, "the two edge strips are one mass via the seam");
    // extent_x = 6 columns (17, 18, 19, 0, 1, 2): 6 * (1024 / 20) km.
    let km_per_cell = 1024.0f32 / 20.0;
    assert!((t.extent.0 as f32 * km_per_cell - 6.0 * (1024.0 / 20.0)).abs() < 1e-3);
    assert_eq!(t.extent.0, 6);
    assert_eq!(t.roll_origin.0, 17);
}

#[test]
fn full_band_x_is_a_band() {
    let f = field_with_block(20, 10, 0, 20, 4, 6);
    let t = land_masses(&f);
    assert!(t.wraps_x, "a mass occupying every column IS a band");
    assert_eq!(t.extent.0, 20);
}

#[test]
fn seam_straddle_y_is_finite_not_a_band() {
    let mut f = field_with_block(12, 10, 3, 9, 0, 2);
    set_block(&mut f, 3, 9, 8, 10);
    let t = land_masses(&f);
    assert!(!t.wraps_y && t.straddles_y, "finite y-seam-straddle, not a band");
    assert!(!t.wraps_x);
}

#[test]
fn seam_straddle_matches_centred_blob() {
    let (w, h) = (32usize, 32usize);
    let block = |cx: i32, cy: i32| {
        let mut d = vec![false; w * h];
        for dy in -3..=3 {
            for dx in -3..=3 {
                let x = (cx + dx).rem_euclid(w as i32) as usize;
                let y = (cy + dy).rem_euclid(h as i32) as usize;
                d[y * w + x] = true;
            }
        }
        land_masses(&BoolField::from_vec(w, h, d))
    };
    let mid = block(16, 16);
    let seam = block(0, 0);
    assert_eq!(mid.largest_cells, seam.largest_cells, "same area");
    assert_eq!(mid.extent, seam.extent, "same circular extent");
    assert!(!seam.wraps_x && !seam.wraps_y, "a 7x7 blob is never a band");
    assert!(seam.straddles_x && seam.straddles_y, "the seam blob straddles both seams");
}

#[test]
fn all_ocean_reports_no_land() {
    let f = BoolField::filled(8, 8, false);
    let t = land_masses(&f);
    assert_eq!(t.num_landmasses, 0);
    assert_eq!(t.largest_cells, 0);
    assert_eq!(t.land_cells, 0);
    assert_eq!(t.largest_root, None);
}

#[test]
fn two_masses_count_and_largest_wins() {
    let mut f = field_with_block(16, 16, 1, 4, 1, 4); // 9 cells
    set_block(&mut f, 8, 12, 8, 12); // 16 cells
    let t = land_masses(&f);
    assert_eq!(t.num_landmasses, 2);
    assert_eq!(t.largest_cells, 16);
    assert_eq!(t.land_cells, 25);
    assert_eq!(t.bbox_min, (8, 8));
    assert_eq!(t.bbox_max, (11, 11));
    assert_eq!(t.center_cell, (10, 10));
}

#[test]
fn equal_masses_pick_smallest_representative() {
    let mut f = field_with_block(10, 10, 0, 1, 5, 6);
    set_block(&mut f, 5, 6, 0, 1);
    let t = land_masses(&f);
    assert_eq!(t.num_landmasses, 2);
    assert_eq!(t.largest_cells, 1);
    // Singleton masses represent themselves: cell (5, 0) has index 5 < 50.
    assert_eq!(t.largest_root, Some(5));
}

#[test]
fn labels_join_cells_across_both_seams() {
    let mut f = BoolField::filled(5, 4, false);
    f.set(0, 0, true);
    f.set(4, 0, true); // joined to (0, 0) across the x seam
    f.set(0, 3, true); // joined to (0, 0) across the y seam
    f.set(2, 2, true); // isolated
    let labels = label_land(&f);
    let k = |x: usize, y: usize| y * 5 + x;
    assert_eq!(labels[k(0, 0)], labels[k(4, 0)]);
    assert_eq!(labels[k(0, 0)], labels[k(0, 3)]);
    assert_ne!(labels[k(0, 0)], labels[k(2, 2)]);
    assert_eq!(labels[k(1, 1)], k(1, 1), "a sea cell labels itself");
    let reps = representatives(f.data(), &labels);
    assert_eq!(reps.len(), 2);
}

#[test]
fn diagonal_cells_are_separate_masses() {
    let mut f = BoolField::filled(4, 4, false);
    f.set(1, 1, true);
    f.set(2, 2, true);
    assert_eq!(land_masses(&f).num_landmasses, 2);
}

#[test]
fn map_frame_span_and_border() {
    let f = field_with_block(10, 8, 2, 5, 3, 6);
    let labels = label_land(&f);
    let t = land_masses(&f);
    let root = t.largest_root.unwrap();
    let (cols, rows) = mass_occupancy(&f, &labels, root);
    assert_eq!(occupied_span(&cols), Some((2, 4)));
    assert_eq!(occupied_span(&rows), Some((3, 5)));
    assert!(!land_on_border(&f));
    let g = field_with_block(10, 8, 0, 2, 3, 6);
    assert!(land_on_border(&g));
    assert_eq!(occupied_span(&[false, false]), None);
}

#[test]
fn satellites_inside_a_window() {
    // Main mass + one islet inside the window + one islet outside it.
    let mut f = field_with_block(20, 20, 8, 12, 8, 12);
    f.set(6, 6, true);
    f.set(0, 15, true);
    let labels = label_land(&f);
    let t = land_masses(&f);
    let root = t.largest_root.unwrap();
    let inside: Vec<bool> =
        (0..400).map(|k| { let (x, y) = (k % 20, k / 20); (4..16).contains(&x) && (4..16).contains(&y) }).collect();
    assert_eq!(count_masses_inside(f.data(), &labels, &inside, root), 1);
}

#[test]
fn circular_extent_examples() {
    assert_eq!(circular_extent(&[false, false, false]), (false, 0, 0));
    assert_eq!(circular_extent(&[true, true, true]), (true, 3, 0));
    // Occupied {0, 1, 7} on a ring of 8: longest empty run 2..=6 (5 slots).
    let occ = [true, true, false, false, false, false, false, true];
    assert_eq!(circular_extent(&occ), (false, 3, 7));
    let m = mass_extent(&occ, &[false, true, false]);
    assert_eq!((m.extent_x, m.roll_x, m.center_x), (3, 7, 0));
    assert!(m.straddles_x);
    assert_eq!((m.extent_y, m.roll_y, m.center_y), (1, 1, 1));
}

#[test]
fn circular_extent_picks_first_longest_gap() {
    // Two empty runs of length 2 ({1, 2} and {4, 5}); the scan from slot 0
    // completes {1, 2} first, so the arc starts at slot 3.
    let occ = [true, false, false, true, false, false];
    assert_eq!(circular_extent(&occ), (false, 4, 3));
}

#[test]
fn window_ring_scan_flags_ring_and_inside() {
    let mut m = BoolField::filled(10, 10, false);
    for y in 4..6 {
        for x in 4..6 {
            m.set(x, y, true);
        }
    }
    let (clean, inside) = window_ring_scan(&m, (4, 4), 6, 1);
    assert!(clean);
    assert!(inside[4 * 10 + 4]);
    assert!(inside[4 * 10 + 6], "offset 2: inside");
    assert!(!inside[4 * 10 + 7], "offset 3: on the ring");
    assert!(!inside[4 * 10 + 1], "offset 3 across the seam: on the ring");
    assert!(!inside[4 * 10 + 0], "offset 4: outside the window");
    m.set(8, 4, true);
    assert!(window_ring_scan(&m, (4, 4), 6, 1).0, "land outside the window is harmless");
    m.set(1, 4, true);
    assert!(!window_ring_scan(&m, (4, 4), 6, 1).0, "land on the ring across the seam");
}

/// A `w × h` mask with the cells of `xs × ys` set.
fn block(w: usize, h: usize, xs: std::ops::Range<usize>, ys: std::ops::Range<usize>) -> BoolField {
    let mut m = BoolField::filled(w, h, false);
    for y in ys {
        for x in xs.clone() {
            m.set(x, y, true);
        }
    }
    m
}

#[test]
fn border_clean_predicate() {
    // Centred 18-cell block on a 64² torus (16 km/cell): window 288 + 2·25 km
    // = 338 km → 21 cells, ring of 1 cell.
    let mut m = block(64, 64, 23..41, 23..41);
    let lm = land_masses(&m);
    assert_eq!(lm.center_cell, (32, 32));
    let (clean, inside) = window_ring_scan(&m, lm.center_cell, 21, 1);
    assert!(clean, "isolated centred block is border-clean");
    let root = lm.largest_root.unwrap();
    assert_eq!(count_masses_inside(m.data(), &lm.labels, &inside, root), 0);
    // A distinct landmass on the window ring breaks border-clean.
    m.set(42, 32, true);
    let (clean2, _) = window_ring_scan(&m, lm.center_cell, 21, 1);
    assert!(!clean2, "a mass touching the ring is not border-clean");
}

#[test]
fn domain_metrics_verdict_and_margins() {
    let m = block(64, 64, 24..40, 24..40);
    let lm = land_masses(&m);
    let on_border = land_on_border(&m);
    assert!(!on_border);
    assert_eq!(
        domain_verdict(lm.num_landmasses, lm.wraps_x, lm.wraps_y, on_border, false, false),
        DomainVerdict::Pass
    );
    // Same land split across the x seam → touches the map edge → rejected.
    let mut m2 = block(64, 64, 0..3, 28..36);
    for y in 28..36 {
        for x in 61..64 {
            m2.set(x, y, true);
        }
    }
    let lm2 = land_masses(&m2);
    let on_border2 = land_on_border(&m2);
    assert!(on_border2 && !lm2.wraps_x, "finite straddle on the edge");
    assert_eq!(
        domain_verdict(lm2.num_landmasses, lm2.wraps_x, lm2.wraps_y, on_border2, false, false),
        DomainVerdict::LandOnBorder
    );
}

#[test]
fn candidates_ordered_largest_first_stably() {
    assert_eq!(order_by_size_desc(&[3, 7, 3, 9, 7]), vec![3, 1, 4, 0, 2]);
    assert!(order_by_size_desc(&[]).is_empty());
}

#[test]
fn largest_mass_is_seam_invariant() {
    // An L-shaped mass plus a small island, then the same mask rolled by (5, 3)
    // so that the mass straddles both seams.
    let (w, h) = (12usize, 10usize);
    let mut m = block(w, h, 2..7, 2..4);
    for y in 4..7 {
        m.set(2, y, true);
    }
    m.set(10, 8, true);
    let mut rolled = BoolField::filled(w, h, false);
    for y in 0..h {
        for x in 0..w {
            if m.get((x + 5) % w, (y + 3) % h) {
                rolled.set(x, y, true);
            }
        }
    }
    let a = land_masses(&m);
    let b = land_masses(&rolled);
    assert_eq!(a.largest_cells, 13);
    assert_eq!(a.largest_cells, b.largest_cells);
    assert_eq!(a.extent, b.extent);
    assert_eq!((a.wraps_x, a.wraps_y), (b.wraps_x, b.wraps_y));
    assert_eq!(a.num_landmasses, b.num_landmasses);
}
