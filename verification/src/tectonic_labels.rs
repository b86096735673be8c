//! Coarse per-cell tectonic masks (rift, subduction, collision, divergence)
//! and the lithology class read from them.

use vstd::prelude::*;
use crate::grid::{BoolField, PlateIdField, PlateType, PlateTypeField};

verus! {

/// Lithology class of a coarse cell.
#[derive(Clone, Copy, Debug, PartialEq, Eq, Structural)]
pub enum LithoClass {
    /// Hard basement (crystalline + metasediments).
    Hard,
    /// Rift-soft (young continental crust).
    RiftSoft,
}

/// Boundary class of a cell, as the boundary classification reports it.
#[derive(Clone, Copy, Debug, PartialEq, Eq, Structural)]
pub enum BoundaryKind {
    /// Divergent boundary (spreading / rift axis).
    Divergent,
    /// Convergent boundary.
    Convergent,
    /// Any other boundary class, or no boundary.
    Other,
}

/// Per-cell tectonic masks, all row-major `nx · ny`.
#[derive(Clone, Debug)]
pub struct TectonicMasks {
    pub nx: usize,
    pub ny: usize,
    /// Continental plate type.
    pub continental: Vec<bool>,
    /// Cratonic shield.
    pub craton: Vec<bool>,
    /// Young continental crust.
    pub rift: Vec<bool>,
    /// Overriding continental margin of an oceanic-continental convergence.
    pub subduction_upper: Vec<bool>,
    /// Subducting oceanic side of a convergence.
    pub subduction_slab: Vec<bool>,
    /// Continental side of a convergence that is not an overriding margin.
    pub collision: Vec<bool>,
    /// Divergent boundary cells.
    pub divergent: Vec<bool>,
}

/// The masks hold, cell by cell, the classification of the inputs.
pub open spec fn masks_hold(
    m: TectonicMasks,
    continental: Seq<bool>,
    craton: Seq<bool>,
    young: Seq<bool>,
    boundary: Seq<BoundaryKind>,
    upper: Seq<bool>,
) -> bool {
    let n = continental.len();
    &&& m.continental@ == continental
    &&& m.craton@ == craton
    &&& m.rift@.len() == n
    &&& m.subduction_upper@.len() == n
    &&& m.subduction_slab@.len() == n
    &&& m.collision@.len() == n
    &&& m.divergent@.len() == n
    &&& forall|k: int|
        0 <= k < n ==> {
            &&& #[trigger] m.rift@[k] == (continental[k] && young[k])
            &&& m.divergent@[k] == (boundary[k] == BoundaryKind::Divergent)
            &&& m.subduction_upper@[k] == (boundary[k] == BoundaryKind::Convergent && upper[k])
            &&& m.collision@[k] == (boundary[k] == BoundaryKind::Convergent && !upper[k] && continental[k])
            &&& m.subduction_slab@[k] == (boundary[k] == BoundaryKind::Convergent && !upper[k] && !continental[k])
        }
}

/// Classify every cell: rift = continental and young; a divergent boundary
/// is divergent; a convergent boundary is the overriding margin where
/// `upper` is set, else a collision on a continental cell and the
/// subducting slab on an oceanic one.
pub fn derive_tectonic_masks(
    nx: usize,
    ny: usize,
    continental: &Vec<bool>,
    craton: &Vec<bool>,
    young: &[bool],
    boundary: &[BoundaryKind],
    upper: &[bool],
) -> (m: TectonicMasks)
    requires
        continental@.len() == nx * ny,
        craton@.len() == nx * ny,
        young@.len() == nx * ny,
        boundary@.len() == nx * ny,
        upper@.len() == nx * ny,
    ensures
        m.nx == nx,
        m.ny == ny,
        masks_hold(m, continental@, craton@, young@, boundary@, upper@),
{
    let n = continental.len();
    let mut rift: Vec<bool> = Vec::new();
    let mut subduction_upper: Vec<bool> = Vec::new();
    let mut subduction_slab: Vec<bool> = Vec::new();
    let mut collision: Vec<bool> = Vec::new();
    let mut divergent: Vec<bool> = Vec::new();
    let mut k: usize = 0;
    while k < n
        invariant
            n == continental@.len(),
            young@.len() == n,
            boundary@.len() == n,
            upper@.len() == n,
            k <= n,
            rift@.len() == k,
            subduction_upper@.len() == k,
            subduction_slab@.len() == k,
            collision@.len() == k,
            divergent@.len() == k,
            forall|c: int| 0 <= c < k ==> #[trigger] rift@[c] == (continental@[c] && young@[c]),
            forall|c: int| 0 <= c < k ==> #[trigger] divergent@[c] == (boundary@[c] == BoundaryKind::Divergent),
            forall|c: int|
                0 <= c < k ==> #[trigger] subduction_upper@[c] == (boundary@[c] == BoundaryKind::Convergent && upper@[c]),
            forall|c: int|
                0 <= c < k ==> #[trigger] collision@[c] == (boundary@[c] == BoundaryKind::Convergent && !upper@[c]
                    && continental@[c]),
            forall|c: int|
                0 <= c < k ==> #[trigger] subduction_slab@[c] == (boundary@[c] == BoundaryKind::Convergent
                    && !upper@[c] && !continental@[c]),
        decreases n - k,
    {
        let cont = continental[k];
        rift.push(cont && young[k]);
        let b = boundary[k];
        let (div, up, col, slab) = match b {
            BoundaryKind::Divergent => (true, false, false, false),
            BoundaryKind::Convergent => {
                if upper[k] {
                    (false, true, false, false)
                } else if cont {
                    (false, false, true, false)
                } else {
                    (false, false, false, true)
                }
            },
            BoundaryKind::Other => (false, false, false, false),
        };
        divergent.push(div);
        subduction_upper.push(up);
        collision.push(col);
        subduction_slab.push(slab);
        k = k + 1;
    }
    TectonicMasks {
        nx,
        ny,
        continental: continental.clone(),
        craton: craton.clone(),
        rift,
        subduction_upper,
        subduction_slab,
        collision,
        divergent,
    }
}

impl TectonicMasks {
    /// Lithology class of cell `(i, j)`: rift-soft on the rift mask, hard
    /// elsewhere.
    pub fn litho_class(&self, i: usize, j: usize) -> (c: LithoClass)
        requires
            i < self.nx,
            j < self.ny,
            self.rift@.len() == self.nx * self.ny,
        ensures
            c == (if self.rift@[j * self.nx + i] {
                LithoClass::RiftSoft
            } else {
                LithoClass::Hard
            }),
    {
        proof {
            crate::grid::lemma_flat_in_bounds(self.nx as int, self.ny as int, i as int, j as int);
        }
        let _len = self.rift.len();
        if self.rift[j * self.nx + i] {
            LithoClass::RiftSoft
        } else {
            LithoClass::Hard
        }
    }
}

/// Cratonic mask: a cell is cratonic exactly when it is continental and its
/// plate is flagged in `cratonic_plate` (a plate beyond the table is not
/// cratonic). The mask is therefore a subset of the continental cells.
pub fn cratonic_mask(plate_id: &PlateIdField, plate_type: &PlateTypeField, cratonic_plate: &[bool]) -> (mask:
    BoolField)
    requires
        plate_id.wf(),
        plate_type.wf(),
        plate_type.width() == plate_id.width(),
        plate_type.height() == plate_id.height(),
    ensures
        mask.wf(),
        mask.width() == plate_id.width(),
        mask.height() == plate_id.height(),
        forall|k: int|
            0 <= k < plate_id@.len() ==> #[trigger] mask@[k] == (plate_type@[k] == PlateType::Continental
                && (plate_id@[k] as int) < cratonic_plate@.len() && cratonic_plate@[plate_id@[k] as int]),
{
    let ids = plate_id.data();
    let types = plate_type.data();
    proof {
        plate_id.lemma_wf_len();
        plate_type.lemma_wf_len();
    }
    let n = ids.len();
    let mut data: Vec<bool> = Vec::new();
    let mut k: usize = 0;
    while k < n
        invariant
            n == ids@.len(),
            ids@ == plate_id@,
            types@ == plate_type@,
            types@.len() == n,
            k <= n,
            data@.len() == k,
            forall|c: int|
                0 <= c < k ==> #[trigger] data@[c] == (types@[c] == PlateType::Continental && (ids@[c] as int)
                    < cratonic_plate@.len() && cratonic_plate@[ids@[c] as int]),
        decreases n - k,
    {
        let pid = ids[k] as usize;
        let on = types[k] == PlateType::Continental && pid < cratonic_plate.len() && cratonic_plate[pid];
        data.push(on);
        k = k + 1;
    }
    BoolField::from_vec(plate_id.nx(), plate_id.ny(), data)
}

} // verus!
