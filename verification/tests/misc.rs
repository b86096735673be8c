use ymir_core::verdict::{domain_verdict, DomainVerdict};
use ymir_core::displacement::{channel_seeds, u64_to_u32_seed, DY_CHANNEL_XOR_MAGIC};
use ymir_core::grid::{BoolField, PlateIdField, PlateType, PlateTypeField};
use ymir_core::tectonic_labels::cratonic_mask;
use ymir_core::tectonic_labels::{derive_tectonic_masks, BoundaryKind, LithoClass};
use ymir_core::union_find::DisjointSet;
use ymir_core::volcanism::{volcano_kind_for, VolcanoKind, VolcanoSetting};

#[test]
fn seed_fold_xors_halves() {
    assert_eq!(u64_to_u32_seed(0), 0);
    assert_eq!(u64_to_u32_seed(0x0000_0001_0000_0000), 1);
    assert_eq!(u64_to_u32_seed(0xFFFF_FFFF_0000_0000), 0xFFFF_FFFF);
    assert_eq!(u64_to_u32_seed(0x1234_5678_9ABC_DEF0), 0x1234_5678 ^ 0x9ABC_DEF0);
    let (x, y) = channel_seeds(42);
    assert_eq!(x, 42);
    assert_eq!(y, u64_to_u32_seed(42 ^ DY_CHANNEL_XOR_MAGIC));
    assert_ne!(x, y);
}

#[test]
fn volcano_kind_follows_setting() {
    assert_eq!(volcano_kind_for(VolcanoSetting::Arc), VolcanoKind::Stratocone);
    assert_eq!(volcano_kind_for(VolcanoSetting::Hotspot), VolcanoKind::Shield);
    assert_eq!(volcano_kind_for(VolcanoSetting::Rift), VolcanoKind::Shield);
}

#[test]
fn tectonic_masks_classify_cells() {
    let continental = vec![true, true, false, false];
    let craton = vec![true, false, false, false];
    let young = [false, true, true, false];
    let boundary = [BoundaryKind::Convergent, BoundaryKind::Convergent, BoundaryKind::Convergent, BoundaryKind::Divergent];
    let upper = [true, false, false, false];
    let m = derive_tectonic_masks(2, 2, &continental, &craton, &young, &boundary, &upper);
    assert_eq!(m.rift, vec![false, true, false, false]);
    assert_eq!(m.subduction_upper, vec![true, false, false, false]);
    assert_eq!(m.collision, vec![false, true, false, false]);
    assert_eq!(m.subduction_slab, vec![false, false, true, false]);
    assert_eq!(m.divergent, vec![false, false, false, true]);
    assert_eq!(m.litho_class(1, 0), LithoClass::RiftSoft);
    assert_eq!(m.litho_class(0, 0), LithoClass::Hard);
}

#[test]
fn union_find_merges_sets() {
    let mut ds = DisjointSet::new(5);
    ds.union(0, 1);
    ds.union(3, 4);
    assert_eq!(ds.find(0), ds.find(1));
    assert_eq!(ds.find(3), ds.find(4));
    assert_ne!(ds.find(0), ds.find(3));
    assert_eq!(ds.find(2), 2);
    ds.union(1, 4);
    assert_eq!(ds.find(0), ds.find(3));
    // The root of `a`'s set is linked under the root of `b`'s.
    let mut e = DisjointSet::new(2);
    e.union(0, 1);
    assert_eq!(e.find(0), 1);
}

#[test]
fn bool_field_get_set() {
    let mut f = BoolField::filled(3, 2, false);
    f.set(2, 1, true);
    assert!(f.get(2, 1));
    assert!(!f.get(1, 1));
    assert_eq!(f.nx(), 3);
    assert_eq!(f.ny(), 2);
    assert_eq!(f.data(), &[false, false, false, false, false, true]);
}

#[test]
fn domain_verdict_reports_first_failing_clause() {
    assert_eq!(domain_verdict(0, true, true, true, true, true), DomainVerdict::NoLand);
    assert_eq!(domain_verdict(1, false, true, true, false, false), DomainVerdict::WrapsY);
    assert_eq!(domain_verdict(2, false, false, true, true, false), DomainVerdict::LandOnBorder);
    assert_eq!(domain_verdict(1, false, false, false, false, true), DomainVerdict::TooTall);
    assert_eq!(domain_verdict(1, false, false, false, false, false), DomainVerdict::Pass);
}

#[test]
fn cratonic_mask_is_subset_of_continental_cells() {
    let ids = PlateIdField::from_vec(4, 1, vec![0, 1, 2, 1]);
    let types = PlateTypeField::from_vec(
        4,
        1,
        vec![PlateType::Continental, PlateType::Continental, PlateType::Continental, PlateType::Oceanic],
    );
    let m = cratonic_mask(&ids, &types, &[false, true]);
    assert!(!m.get(0, 0), "plate 0 is not cratonic");
    assert!(m.get(1, 0), "continental cell of a cratonic plate");
    assert!(!m.get(2, 0), "plate 2 lies beyond the table");
    assert!(!m.get(3, 0), "oceanic cell of a cratonic plate");
}
